use vstd::hash_map::StringHashMap;
use vstd::prelude::*;

use crate::mapping::tiny_v2::table;
use crate::text::{
    cat,
    chars_of, find_char, find_char_from, lemma_find_char_bounds, lemma_rfind_bounds,
    parse_unsigned, parse_unsigned_spec, rfind, rfind_char, split_last, split_last_str,
    string_of, trim, trim_end_char, trim_start, trimmed, trimmed_end_char, trimmed_start,
};

verus! {

/// A method's TSRG line range and readable name.
pub type RangeView = (u32, u32, Seq<char>);

/// `(classes obf -> readable, classes readable -> obf, class obf -> method
/// obf -> ranges, class obf -> field obf -> readable)`.
pub type VanillaTables = (
    Map<Seq<char>, Seq<char>>,
    Map<Seq<char>, Seq<char>>,
    Map<Seq<char>, Map<Seq<char>, Seq<RangeView>>>,
    Map<Seq<char>, Map<Seq<char>, Seq<char>>>,
);

pub open spec fn arrow() -> Seq<char> {
    seq![' ', '-', '>', ' ']
}

pub fn arrow_chars() -> (v: Vec<char>)
    ensures
        v@ == arrow(),
{
    vec![' ', '-', '>', ' ']
}

/// `<readable> -> <obfuscated>:` (split at the last arrow), both trimmed.
pub open spec fn class_line(s: Seq<char>) -> Option<(Seq<char>, Seq<char>)> {
    if s.len() > 0 && s.last() == ':' {
        match split_last(s.drop_last(), arrow()) {
            Some((named, obf)) => Some((trim(named), trim(obf))),
            None => None,
        }
    } else {
        None
    }
}

/// `<start>:<end>:<returnType> <readable>(<args>) -> <obfuscated>`.
pub open spec fn method_line(s: Seq<char>) -> Option<(u32, u32, Seq<char>, Seq<char>)> {
    match find_char(s, ':') {
        None => None,
        Some(c1) => {
            let p0 = s.subrange(0, c1);
            let r1 = s.subrange(c1 + 1, s.len() as int);
            match find_char(r1, ':') {
                None => None,
                Some(c2) => {
                    let p1 = r1.subrange(0, c2);
                    let rest = r1.subrange(c2 + 1, r1.len() as int);
                    match (parse_unsigned_spec(p0, 0xffff_ffff), parse_unsigned_spec(p1, 0xffff_ffff)) {
                        (Some(a), Some(b)) => match split_last(rest, arrow()) {
                            None => None,
                            Some((lhs, obf)) => match find_char(lhs, '(') {
                                None => None,
                                Some(o) => {
                                    let head = trim(lhs.subrange(0, o));
                                    let readable = match rfind_char(head, ' ') {
                                        Some(q) => head.subrange(q + 1, head.len() as int),
                                        None => head,
                                    };
                                    Some((a as u32, b as u32, readable, trim(obf)))
                                },
                            },
                        },
                        _ => None,
                    }
                },
            }
        },
    }
}

/// `<type> <readable> -> <obfuscated>`.
pub open spec fn field_line(s: Seq<char>) -> Option<(Seq<char>, Seq<char>)> {
    match split_last(s, arrow()) {
        None => None,
        Some((lhs, obf)) => {
            let t = trim(lhs);
            match rfind_char(t, ' ') {
                None => None,
                Some(q) => Some((t.subrange(q + 1, t.len() as int), trim(obf))),
            }
        },
    }
}

/// Methods of class `c` after adding range `r` for obfuscated name `obf`.
pub open spec fn add_method(st: VanillaTables, c: Seq<char>, obf: Seq<char>, r: RangeView) -> VanillaTables {
    let inner = if st.2.contains_key(c) {
        st.2[c]
    } else {
        Map::empty()
    };
    let ranges = if inner.contains_key(obf) {
        inner[obf]
    } else {
        Seq::empty()
    };
    (st.0, st.1, st.2.insert(c, inner.insert(obf, ranges.push(r))), st.3)
}

pub open spec fn add_field(st: VanillaTables, c: Seq<char>, obf: Seq<char>, named: Seq<char>) -> VanillaTables {
    let inner = if st.3.contains_key(c) {
        st.3[c]
    } else {
        Map::empty()
    };
    (st.0, st.1, st.2, st.3.insert(c, inner.insert(obf, named)))
}

/// One TSRG line (without trailing `\r`s): comments and blank lines are
/// skipped; indented lines are members of the current class; other lines
/// that parse as class lines start a new class.
pub open spec fn tsrg_line(st: VanillaTables, cur: Option<Seq<char>>, line: Seq<char>) -> (VanillaTables, Option<Seq<char>>) {
    let t = trim(line);
    if t.len() == 0 || t[0] == '#' {
        (st, cur)
    } else if line[0] == ' ' || line[0] == '\t' {
        match cur {
            None => (st, cur),
            Some(c) => {
                let body = trim_start(line);
                match method_line(body) {
                    Some((a, b, named, obf)) => (add_method(st, c, obf, (a, b, named)), cur),
                    None => match field_line(body) {
                        Some((named, obf)) => (add_field(st, c, obf, named), cur),
                        None => (st, cur),
                    },
                }
            },
        }
    } else {
        match class_line(t) {
            Some((named, obf)) => ((st.0.insert(obf, named), st.1.insert(named, obf), st.2, st.3), Some(obf)),
            None => (st, cur),
        }
    }
}

/// The remaining lines of `s` read one by one.
pub open spec fn read_tsrg(st: VanillaTables, cur: Option<Seq<char>>, s: Seq<char>) -> VanillaTables
    decreases s.len(),
{
    if s.len() == 0 {
        st
    } else {
        match find_char(s, '\n') {
            None => tsrg_line(st, cur, trim_end_char(s, '\r')).0,
            Some(j) => if 0 <= j < s.len() {
                let (st2, cur2) = tsrg_line(st, cur, trim_end_char(s.subrange(0, j), '\r'));
                read_tsrg(st2, cur2, s.subrange(j + 1, s.len() as int))
            } else {
                st
            },
        }
    }
}

/// The `(class, method)` pairs of the method table.
pub open spec fn method_pairs(t: Map<Seq<char>, Map<Seq<char>, Seq<RangeView>>>) -> Set<(Seq<char>, Seq<char>)> {
    Set::new(|p: (Seq<char>, Seq<char>)| t.contains_key(p.0) && t[p.0].contains_key(p.1))
}

/// The `(class, field)` pairs of the field table.
pub open spec fn field_pairs(t: Map<Seq<char>, Map<Seq<char>, Seq<char>>>) -> Set<(Seq<char>, Seq<char>)> {
    Set::new(|p: (Seq<char>, Seq<char>)| t.contains_key(p.0) && t[p.0].contains_key(p.1))
}

/// A count as a `usize` can hold it (at most `usize::MAX`).
pub open spec fn capped(n: nat) -> nat {
    if n > usize::MAX {
        usize::MAX as nat
    } else {
        n
    }
}

pub open spec fn empty_vanilla() -> VanillaTables {
    (Map::empty(), Map::empty(), Map::empty(), Map::empty())
}

/// The tables a whole TSRG text produces.
pub open spec fn spec_parse_tsrg(s: Seq<char>) -> VanillaTables {
    read_tsrg(empty_vanilla(), None, s)
}

/// Normalize a class key (obfuscated or readable) to its obfuscated form.
pub open spec fn spec_class_obf(v: VanillaTables, key: Seq<char>) -> Option<Seq<char>> {
    if v.0.contains_key(key) {
        Some(key)
    } else if v.1.contains_key(key) {
        Some(v.1[key])
    } else {
        None
    }
}

/// Resolve a class path segment: obfuscated -> readable, or an
/// already-readable name that the mapping knows.
pub open spec fn spec_lookup_class(v: VanillaTables, name: Seq<char>) -> Option<Seq<char>> {
    if v.0.contains_key(name) {
        Some(v.0[name])
    } else if v.1.contains_key(name) {
        Some(name)
    } else {
        None
    }
}

/// First index `>= i` whose range holds `line`.
pub open spec fn range_holding(rs: Seq<RangeView>, line: u32, i: int) -> Option<int>
    decreases rs.len() - i,
{
    if i < 0 || i >= rs.len() {
        None
    } else if rs[i].0 <= line && line <= rs[i].1 {
        Some(i)
    } else {
        range_holding(rs, line, i + 1)
    }
}

/// A method within a class: the first range that holds `line` when a line
/// is given and one holds it, else the first entry for the name.
pub open spec fn spec_lookup_method(v: VanillaTables, class_key: Seq<char>, name: Seq<char>, line: Option<u32>) -> Option<Seq<char>> {
    match spec_class_obf(v, class_key) {
        None => None,
        Some(c) => if v.2.contains_key(c) && v.2[c].contains_key(name) {
            let rs = v.2[c][name];
            match line {
                Some(l) => match range_holding(rs, l, 0) {
                    Some(k) => Some(rs[k].2),
                    None => Some(rs[0].2),
                },
                None => Some(rs[0].2),
            }
        } else {
            None
        },
    }
}

/// A field within a class.
pub open spec fn spec_lookup_field(v: VanillaTables, class_key: Seq<char>, name: Seq<char>) -> Option<Seq<char>> {
    match spec_class_obf(v, class_key) {
        None => None,
        Some(c) => if v.3.contains_key(c) && v.3[c].contains_key(name) {
            Some(v.3[c][name])
        } else {
            None
        },
    }
}


/// `<readable> -> <obfuscated>:` into `(readable, obfuscated)`.
fn parse_class_line(s: &[char]) -> (r: Option<(&[char], &[char])>)
    ensures
        match r {
            Some((a, b)) => class_line(s@) == Some((a@, b@)),
            None => class_line(s@) is None,
        },
{
    let n = s.len();
    if n == 0 || s[n - 1] != ':' {
        return None;
    }
    let rest = vstd::slice::slice_subrange(s, 0, n - 1);
    assert(rest@ =~= s@.drop_last());
    let arrow = arrow_chars();
    match split_last_str(rest, arrow.as_slice()) {
        Some((named, obf)) => Some((trimmed(named), trimmed(obf))),
        None => None,
    }
}

/// `<start>:<end>:<returnType> <readable>(<args>) -> <obfuscated>` into
/// `(start, end, readable, obfuscated)`.
fn parse_method_line(s: &[char]) -> (r: Option<(u32, u32, &[char], &[char])>)
    ensures
        match r {
            Some((a, b, n, o)) => method_line(s@) == Some((a, b, n@, o@)),
            None => method_line(s@) is None,
        },
{
    proof {
        lemma_find_char_bounds(s@, ':');
    }
    let c1 = match find_char_from(s, ':', 0) {
        Some(c) => c,
        None => return None,
    };
    let n = s.len();
    let p0 = vstd::slice::slice_subrange(s, 0, c1);
    let r1 = vstd::slice::slice_subrange(s, c1 + 1, n);
    proof {
        lemma_find_char_bounds(r1@, ':');
    }
    let c2 = match find_char_from(r1, ':', 0) {
        Some(c) => c,
        None => return None,
    };
    let p1 = vstd::slice::slice_subrange(r1, 0, c2);
    let rest = vstd::slice::slice_subrange(r1, c2 + 1, r1.len());
    let a = match parse_unsigned(p0, 0xffff_ffff) {
        Some(a) => a as u32,
        None => return None,
    };
    let b = match parse_unsigned(p1, 0xffff_ffff) {
        Some(b) => b as u32,
        None => return None,
    };
    let arrow = arrow_chars();
    let (lhs, obf) = match split_last_str(rest, arrow.as_slice()) {
        Some(x) => x,
        None => return None,
    };
    proof {
        lemma_find_char_bounds(lhs@, '(');
    }
    let open = match find_char_from(lhs, '(', 0) {
        Some(o) => o,
        None => return None,
    };
    let head = trimmed(vstd::slice::slice_subrange(lhs, 0, open));
    let hn = head.len();
    let readable = match rfind(head, ' ') {
        Some(q) => {
            proof {
                lemma_rfind_bounds(head@, ' ', head@.len() as int);
            }
            vstd::slice::slice_subrange(head, q + 1, hn)
        },
        None => head,
    };
    Some((a, b, readable, trimmed(obf)))
}

/// `<type> <readable> -> <obfuscated>` into `(readable, obfuscated)`.
fn parse_field_line(s: &[char]) -> (r: Option<(&[char], &[char])>)
    ensures
        match r {
            Some((a, b)) => field_line(s@) == Some((a@, b@)),
            None => field_line(s@) is None,
        },
{
    let arrow = arrow_chars();
    let (lhs, obf) = match split_last_str(s, arrow.as_slice()) {
        Some(x) => x,
        None => return None,
    };
    let t = trimmed(lhs);
    let tn = t.len();
    match rfind(t, ' ') {
        Some(q) => {
            proof {
                lemma_rfind_bounds(t@, ' ', t@.len() as int);
            }
            Some((vstd::slice::slice_subrange(t, q + 1, tn), trimmed(obf)))
        },
        None => None,
    }
}

/// Why a TSRG file was rejected (parsing is tolerant: no line is rejected).
#[derive(Debug)]
pub enum VanillaParseError {
    InvalidLine(String),
}

/// The message of a TSRG parse failure.
pub open spec fn vanilla_failure_message(line: Seq<char>) -> Seq<char> {
    "Invalid TSRG line: "@ + line
}

impl VanillaParseError {
    /// The human-readable message.
    pub fn message(&self) -> (m: String)
        ensures
            m@ == (match self {
                VanillaParseError::InvalidLine(l) => vanilla_failure_message(l@),
            }),
    {
        match self {
            VanillaParseError::InvalidLine(l) => cat("Invalid TSRG line: ", l.as_str()),
        }
    }
}

/// The optional current class as characters.
pub open spec fn cur_view(cur: Option<Vec<char>>) -> Option<Seq<char>> {
    match cur {
        Some(c) => Some(c@),
        None => None,
    }
}

/// Apply one TSRG line to the builder.
fn apply_tsrg_line(b: &mut VanillaBuilder, cur: &mut Option<Vec<char>>, line: &[char])
    requires
        old(b).wf(),
    ensures
        final(b).wf(),
        (final(b).tables(), cur_view(*final(cur))) == tsrg_line(old(b).tables(), cur_view(*old(cur)), line@),
{
    let t = trimmed(line);
    if t.len() == 0 || t[0] == '#' {
        return;
    }
    assert(line@.len() > 0) by {
        if line@.len() == 0 {
            assert(trim(line@).len() == 0);
        }
    }
    if line[0] == ' ' || line[0] == '\t' {
        let c = match cur {
            Some(c) => string_of(c.as_slice()),
            None => return,
        };
        let body = trimmed_start(line);
        match parse_method_line(body) {
            Some((a, e, named, obf)) => {
                let os = string_of(obf);
                b.add_method(c.as_str(), os.as_str(), (a, e, string_of(named)));
            },
            None => match parse_field_line(body) {
                Some((named, obf)) => {
                    let os = string_of(obf);
                    b.add_field(c.as_str(), os.as_str(), named);
                },
                None => {},
            },
        }
    } else {
        match parse_class_line(t) {
            Some((named, obf)) => {
                b.add_class(named, obf);
                *cur = Some(crate::text::copy_range(obf, 0, obf.len()));
                assert(cur_view(*cur) == Some(obf@));
            },
            None => {},
        }
    }
}

/// Parse Mojang official mappings in TSRG format.
///
/// Line shapes: class `<readable> -> <obfuscated>:`, method
/// `<start>:<end>:<returnType> <readable>(<args>) -> <obfuscated>`, field
/// `<type> <readable> -> <obfuscated>`, comments `# ...`. The direction is
/// `readable -> obfuscated`; the tables store the reverse for lookup.
/// Unknown shapes are skipped, so parsing always succeeds.
pub fn parse_tsrg(input: &str) -> (r: Result<VanillaMappings, VanillaParseError>)
    ensures
        r matches Ok(m) && m.tables() == spec_parse_tsrg(input@),
{
    let text = chars_of(input);
    let n = text.len();
    let mut b = VanillaBuilder::new();
    let mut cur: Option<Vec<char>> = None;
    let ghost total = spec_parse_tsrg(input@);
    let mut i: usize = 0;
    assert(text@.subrange(0, n as int) =~= text@);
    while i < n
        invariant
            n == text@.len(),
            text@ == input@,
            i <= n,
            b.wf(),
            total == spec_parse_tsrg(input@),
            read_tsrg(b.tables(), cur_view(cur), text@.subrange(i as int, n as int)) == total,
        decreases n - i,
    {
        let rest = vstd::slice::slice_subrange(text.as_slice(), i, n);
        proof {
            lemma_find_char_bounds(rest@, '\n');
        }
        let found = find_char_from(rest, '\n', 0);
        let line_end = match found {
            Some(j) => j,
            None => rest.len(),
        };
        let line = trimmed_end_char(vstd::slice::slice_subrange(rest, 0, line_end), '\r');
        apply_tsrg_line(&mut b, &mut cur, line);
        match found {
            Some(j) => {
                assert(rest@.subrange(j + 1, rest@.len() as int) =~= text@.subrange(
                    i + j + 1,
                    n as int,
                ));
                i = i + j + 1;
            },
            None => {
                assert(rest@.subrange(0, line_end as int) =~= rest@);
                assert(text@.subrange(n as int, n as int) =~= Seq::<char>::empty());
                i = n;
            },
        }
    }
    assert(text@.subrange(i as int, n as int) =~= Seq::<char>::empty());
    Ok(VanillaMappings { inner: b })
}

/// The methods of one class: obfuscated name -> index of its ranges.
pub struct MethodTable {
    slots: StringHashMap<usize>,
    ranges: Vec<Vec<(u32, u32, String)>>,
}

pub open spec fn range_view(r: (u32, u32, String)) -> RangeView {
    (r.0, r.1, r.2@)
}

pub open spec fn ranges_view(rs: Vec<(u32, u32, String)>) -> Seq<RangeView> {
    rs@.map_values(|r: (u32, u32, String)| range_view(r))
}

impl MethodTable {
    pub closed spec fn view_map(&self) -> Map<Seq<char>, Seq<RangeView>> {
        Map::new(
            |me: Seq<char>| self.slots@.contains_key(me),
            |me: Seq<char>| ranges_view(self.ranges@[self.slots@[me] as int]),
        )
    }


    fn new() -> (t: Self)
        ensures
            t.wf(),
            t.view_map() == Map::<Seq<char>, Seq<RangeView>>::empty(),
    {
        let t = MethodTable { slots: StringHashMap::new(), ranges: Vec::new() };
        assert(t.view_map() =~= Map::<Seq<char>, Seq<RangeView>>::empty());
        t
    }

    /// Append a range for obfuscated method name `obf`.
    fn add(&mut self, obf: &str, r: (u32, u32, String))
        requires
            old(self).wf(),
        ensures
            final(self).wf(),
            final(self).view_map() == old(self).view_map().insert(
                obf@,
                (if old(self).view_map().contains_key(obf@) {
                    old(self).view_map()[obf@]
                } else {
                    Seq::empty()
                }).push(range_view(r)),
            ),
    {
        let ghost old_map = self.view_map();
        let ghost rv = range_view(r);
        match self.slots.get(obf) {
            Some(i) => {
                let i = *i;
                let ghost before = self.ranges@[i as int];
                self.ranges[i].push(r);
                proof {
                    assert(ranges_view(self.ranges@[i as int]) =~= ranges_view(before).push(rv));
                    assert forall|me: Seq<char>| #[trigger] self.slots@.contains_key(me) && me != obf@
                        implies self.ranges@[self.slots@[me] as int] == old(self).ranges@[self.slots@[me] as int] by {
                    }
                    assert(self.view_map() =~= old_map.insert(obf@, old_map[obf@].push(rv)));
                }
            },
            None => {
                let i = self.ranges.len();
                let mut v: Vec<(u32, u32, String)> = Vec::new();
                v.push(r);
                self.ranges.push(v);
                self.slots.insert(string_of(chars_of(obf).as_slice()), i);
                proof {
                    assert(ranges_view(self.ranges@[i as int]) =~= Seq::<RangeView>::empty().push(rv));
                    assert forall|me: Seq<char>| #[trigger] self.slots@.contains_key(me) && me != obf@
                        implies self.ranges@[self.slots@[me] as int] == old(self).ranges@[self.slots@[me] as int] by {
                    }
                    assert(self.view_map() =~= old_map.insert(obf@, Seq::<RangeView>::empty().push(rv)));
                }
            },
        }
    }

    pub closed spec fn wf(&self) -> bool {
        &&& forall|me: Seq<char>| #[trigger]
            self.slots@.contains_key(me) ==> self.slots@[me] < self.ranges@.len() && self.ranges@[self.slots@[me] as int]@.len() > 0
        &&& forall|a: Seq<char>, b: Seq<char>|
            #[trigger] self.slots@.contains_key(a) && #[trigger] self.slots@.contains_key(b) && a != b
                ==> self.slots@[a] != self.slots@[b]
    }
}

/// The tables of a TSRG file while it is being read.
pub struct VanillaBuilder {
    /// obfuscated class -> readable class
    classes: StringHashMap<String>,
    /// readable class -> obfuscated class
    class_by_named: StringHashMap<String>,
    /// obfuscated class -> index of its method table
    method_slots: StringHashMap<usize>,
    method_tables: Vec<MethodTable>,
    /// obfuscated class -> index of its field table
    field_slots: StringHashMap<usize>,
    field_tables: Vec<StringHashMap<String>>,
    /// number of `(class, method)` pairs, capped at `usize::MAX`
    method_pair_count: usize,
    /// number of `(class, field)` pairs, capped at `usize::MAX`
    field_pair_count: usize,
}

impl VanillaBuilder {
    fn new() -> (b: Self)
        ensures
            b.wf(),
            b.tables() == empty_vanilla(),
    {
        let b = VanillaBuilder {
            classes: StringHashMap::new(),
            class_by_named: StringHashMap::new(),
            method_slots: StringHashMap::new(),
            method_tables: Vec::new(),
            field_slots: StringHashMap::new(),
            field_tables: Vec::new(),
            method_pair_count: 0,
            field_pair_count: 0,
        };
        assert(method_pairs(b.tables().2) =~= Set::empty());
        assert(field_pairs(b.tables().3) =~= Set::empty());
        assert(b.tables().0 =~= Map::<Seq<char>, Seq<char>>::empty());
        assert(b.tables().1 =~= Map::<Seq<char>, Seq<char>>::empty());
        assert(b.tables().2 =~= Map::<Seq<char>, Map<Seq<char>, Seq<RangeView>>>::empty());
        assert(b.tables().3 =~= Map::<Seq<char>, Map<Seq<char>, Seq<char>>>::empty());
        b
    }

    /// Record class `obf` with readable name `named` (both directions).
    fn add_class(&mut self, named: &[char], obf: &[char])
        requires
            old(self).wf(),
        ensures
            final(self).wf(),
            final(self).tables() == (
                old(self).tables().0.insert(obf@, named@),
                old(self).tables().1.insert(named@, obf@),
                old(self).tables().2,
                old(self).tables().3,
            ),
    {
        let ghost t = self.tables();
        let v1 = string_of(named);
        let ghost g1 = v1;
        self.classes.insert(string_of(obf), v1);
        let v2 = string_of(obf);
        let ghost g2 = v2;
        self.class_by_named.insert(string_of(named), v2);
        proof {
            assert(table(&self.classes) =~= t.0.insert(obf@, g1@));
            assert(table(&self.class_by_named) =~= t.1.insert(named@, g2@));
            assert(self.tables().2 =~= t.2);
            assert(self.tables().3 =~= t.3);
        }
    }

    /// Append a method range to class `c`.
    fn add_method(&mut self, c: &str, obf: &str, r: (u32, u32, String))
        requires
            old(self).wf(),
        ensures
            final(self).wf(),
            final(self).tables() == add_method(old(self).tables(), c@, obf@, range_view(r)),
    {
        let ghost t = self.tables();
        let fresh = match self.method_slots.get(c) {
            Some(s) => !self.method_tables[*s].slots.contains_key(obf),
            None => true,
        };
        proof {
            if self.method_slots@.contains_key(c@) {
                assert(t.2[c@] == self.method_tables@[self.method_slots@[c@] as int].view_map());
            }
            assert(fresh == !method_pairs(t.2).contains((c@, obf@)));
        }
        let slot = match self.method_slots.get(c) {
            Some(s) => *s,
            None => {
                let s = self.method_tables.len();
                self.method_tables.push(MethodTable::new());
                self.method_slots.insert(string_of(chars_of(c).as_slice()), s);
                proof {
                    assert forall|k: Seq<char>| #[trigger] self.method_slots@.contains_key(k) && k != c@
                        implies self.method_tables@[self.method_slots@[k] as int] == old(self).method_tables@[self.method_slots@[k] as int] by {}
                    assert(self.tables().2 =~= t.2.insert(c@, Map::empty()));
                }
                s
            },
        };
        let ghost mid = self.tables();
        let ghost mid_tables = self.method_tables@;
        self.method_tables[slot].add(obf, r);
        proof {
            assert forall|k: Seq<char>| #[trigger] self.method_slots@.contains_key(k) && k != c@
                implies self.method_tables@[self.method_slots@[k] as int] == mid_tables[self.method_slots@[k] as int] by {}
            assert(mid.2.contains_key(c@));
            assert(self.tables().2 =~= mid.2.insert(
                c@,
                mid.2[c@].insert(
                    obf@,
                    (if mid.2[c@].contains_key(obf@) {
                        mid.2[c@][obf@]
                    } else {
                        Seq::empty()
                    }).push(range_view(r)),
                ),
            ));
            assert(self.tables() =~= add_method(t, c@, obf@, range_view(r)));
            assert(method_pairs(self.tables().2) =~= method_pairs(t.2).insert((c@, obf@)));
        }
        if fresh {
            self.method_pair_count = self.method_pair_count.saturating_add(1);
        }
    }

    /// Set field `obf` of class `c` to `named`.
    fn add_field(&mut self, c: &str, obf: &str, named: &[char])
        requires
            old(self).wf(),
        ensures
            final(self).wf(),
            final(self).tables() == add_field(old(self).tables(), c@, obf@, named@),
    {
        let ghost t = self.tables();
        let fresh = match self.field_slots.get(c) {
            Some(s) => !self.field_tables[*s].contains_key(obf),
            None => true,
        };
        proof {
            if self.field_slots@.contains_key(c@) {
                assert(t.3[c@] == table(&self.field_tables@[self.field_slots@[c@] as int]));
            }
            assert(fresh == !field_pairs(t.3).contains((c@, obf@)));
        }
        let slot = match self.field_slots.get(c) {
            Some(s) => *s,
            None => {
                let s = self.field_tables.len();
                self.field_tables.push(StringHashMap::new());
                self.field_slots.insert(string_of(chars_of(c).as_slice()), s);
                proof {
                    assert forall|k: Seq<char>| #[trigger] self.field_slots@.contains_key(k) && k != c@
                        implies self.field_tables@[self.field_slots@[k] as int] == old(self).field_tables@[self.field_slots@[k] as int] by {}
                    assert(table(&self.field_tables@[s as int]) =~= Map::<Seq<char>, Seq<char>>::empty());
                    assert(self.tables().3 =~= t.3.insert(c@, Map::empty()));
                }
                s
            },
        };
        let ghost mid = self.tables();
        let ghost mid_tables = self.field_tables@;
        let v = string_of(named);
        let ghost gv = v;
        self.field_tables[slot].insert(string_of(chars_of(obf).as_slice()), v);
        proof {
            assert forall|k: Seq<char>| #[trigger] self.field_slots@.contains_key(k) && k != c@
                implies self.field_tables@[self.field_slots@[k] as int] == mid_tables[self.field_slots@[k] as int] by {}
            assert(table(&self.field_tables@[slot as int]) =~= mid.3[c@].insert(obf@, gv@));
            assert(self.tables().3 =~= mid.3.insert(c@, mid.3[c@].insert(obf@, named@)));
            assert(self.tables() =~= add_field(t, c@, obf@, named@));
            assert(field_pairs(self.tables().3) =~= field_pairs(t.3).insert((c@, obf@)));
        }
        if fresh {
            self.field_pair_count = self.field_pair_count.saturating_add(1);
        }
    }

    /// The tables, as maps.
    pub closed spec fn tables(&self) -> VanillaTables {
        (
            table(&self.classes),
            table(&self.class_by_named),
            Map::new(
                |c: Seq<char>| self.method_slots@.contains_key(c),
                |c: Seq<char>| self.method_tables@[self.method_slots@[c] as int].view_map(),
            ),
            Map::new(
                |c: Seq<char>| self.field_slots@.contains_key(c),
                |c: Seq<char>| table(&self.field_tables@[self.field_slots@[c] as int]),
            ),
        )
    }

    pub closed spec fn wf(&self) -> bool {
        &&& forall|c: Seq<char>| #[trigger]
            self.method_slots@.contains_key(c) ==> self.method_slots@[c] < self.method_tables@.len()
                && self.method_tables@[self.method_slots@[c] as int].wf()
        &&& forall|a: Seq<char>, b: Seq<char>|
            #[trigger] self.method_slots@.contains_key(a) && #[trigger] self.method_slots@.contains_key(b) && a != b
                ==> self.method_slots@[a] != self.method_slots@[b]
        &&& forall|c: Seq<char>| #[trigger]
            self.field_slots@.contains_key(c) ==> self.field_slots@[c] < self.field_tables@.len()
        &&& forall|a: Seq<char>, b: Seq<char>|
            #[trigger] self.field_slots@.contains_key(a) && #[trigger] self.field_slots@.contains_key(b) && a != b
                ==> self.field_slots@[a] != self.field_slots@[b]
        &&& method_pairs(self.tables().2).finite()
        &&& self.method_pair_count == capped(method_pairs(self.tables().2).len())
        &&& field_pairs(self.tables().3).finite()
        &&& self.field_pair_count == capped(field_pairs(self.tables().3).len())
    }
}

/// Parsed Mojang official mappings (TSRG), oriented for deobfuscation.
///
/// Vanilla obfuscated method and field names are NOT globally unique (short
/// names like `a`/`b` repeat across classes), so members are indexed per
/// class, and methods additionally by their line range (to tell overloads
/// apart). Class names are globally unique.
pub struct VanillaMappings {
    inner: VanillaBuilder,
}

impl VanillaMappings {
    /// The tables, as maps.
    pub closed spec fn tables(&self) -> VanillaTables {
        self.inner.tables()
    }

    #[verifier::type_invariant]
    closed spec fn well_formed(&self) -> bool {
        self.inner.wf()
    }

    /// Resolve a class path segment: obfuscated -> readable, or confirm an
    /// already-readable name exists in the mapping.
    pub fn lookup_class<'a>(&'a self, name: &'a str) -> (r: Option<&'a str>)
        ensures
            match r {
                Some(v) => spec_lookup_class(self.tables(), name@) == Some(v@),
                None => spec_lookup_class(self.tables(), name@) is None,
            },
    {
        match self.inner.classes.get(name) {
            Some(n) => Some(n.as_str()),
            None => {
                if self.inner.class_by_named.contains_key(name) {
                    Some(name)
                } else {
                    None
                }
            },
        }
    }

    /// Normalize a class key (obfuscated or readable) to its obfuscated form.
    fn class_obf<'a>(&'a self, class_key: &'a str) -> (r: Option<&'a str>)
        ensures
            match r {
                Some(v) => spec_class_obf(self.tables(), class_key@) == Some(v@),
                None => spec_class_obf(self.tables(), class_key@) is None,
            },
    {
        if self.inner.classes.contains_key(class_key) {
            return Some(class_key);
        }
        match self.inner.class_by_named.get(class_key) {
            Some(o) => Some(o.as_str()),
            None => None,
        }
    }

    /// Resolve a method name within a class, preferring the line-range index
    /// when a line is available; falls back to the first entry for that name.
    pub fn lookup_method(&self, class_key: &str, name: &str, line: Option<u32>) -> (r: Option<&str>)
        ensures
            match r {
                Some(v) => spec_lookup_method(self.tables(), class_key@, name@, line) == Some(v@),
                None => spec_lookup_method(self.tables(), class_key@, name@, line) is None,
            },
    {
        proof {
            use_type_invariant(self);
        }
        let c = match self.class_obf(class_key) {
            Some(c) => c,
            None => return None,
        };
        let slot = match self.inner.method_slots.get(c) {
            Some(s) => *s,
            None => return None,
        };
        let t = &self.inner.method_tables[slot];
        let idx = match t.slots.get(name) {
            Some(i) => *i,
            None => {
                assert(!self.tables().2[c@].contains_key(name@));
                return None;
            },
        };
        let rs = &t.ranges[idx];
        let ghost rv = ranges_view(*rs);
        assert(self.tables().2[c@][name@] == rv);
        if let Some(l) = line {
            let mut k: usize = 0;
            while k < rs.len()
                invariant
                    k <= rs@.len(),
                    rv == ranges_view(*rs),
                    line == Some(l),
                    spec_class_obf(self.tables(), class_key@) == Some(c@),
                    self.tables().2.contains_key(c@),
                    self.tables().2[c@].contains_key(name@),
                    self.tables().2[c@][name@] == rv,
                    range_holding(rv, l, 0) == range_holding(rv, l, k as int),
                decreases rs@.len() - k,
            {
                assert(rv[k as int] == range_view(rs@[k as int]));
                if rs[k].0 <= l && l <= rs[k].1 {
                    return Some(rs[k].2.as_str());
                }
                k = k + 1;
            }
        }
        assert(rv[0] == range_view(rs@[0]));
        Some(rs[0].2.as_str())
    }

    /// Resolve a field name within a class.
    pub fn lookup_field(&self, class_key: &str, name: &str) -> (r: Option<&str>)
        ensures
            match r {
                Some(v) => spec_lookup_field(self.tables(), class_key@, name@) == Some(v@),
                None => spec_lookup_field(self.tables(), class_key@, name@) is None,
            },
    {
        proof {
            use_type_invariant(self);
        }
        let c = match self.class_obf(class_key) {
            Some(c) => c,
            None => return None,
        };
        let slot = match self.inner.field_slots.get(c) {
            Some(s) => *s,
            None => return None,
        };
        match self.inner.field_tables[slot].get(name) {
            Some(v) => Some(v.as_str()),
            None => None,
        }
    }

    /// Number of classes.
    pub fn class_count(&self) -> (n: usize)
        ensures
            n == self.tables().0.len(),
    {
        proof {
            assert(self.tables().0.dom() =~= self.inner.classes@.dom());
        }
        self.inner.classes.len()
    }

    /// `(classes, methods, fields, method index)`: the number of classes, of
    /// `(class, method name)` pairs, of `(class, field name)` pairs, and of
    /// classes that have methods (the pair counts capped at `usize::MAX`).
    pub fn stats(&self) -> (r: (usize, usize, usize, usize))
        ensures
            r.0 == self.tables().0.len(),
            r.1 == capped(method_pairs(self.tables().2).len()),
            r.2 == capped(field_pairs(self.tables().3).len()),
            r.3 == self.tables().2.len(),
    {
        proof {
            use_type_invariant(self);
            assert(self.tables().2.dom() =~= self.inner.method_slots@.dom());
        }
        (self.class_count(), self.inner.method_pair_count, self.inner.field_pair_count, self.inner.method_slots.len())
    }

    /// Number of distinct obfuscated method names of class `class_obf` (0 for
    /// a class without methods).
    pub fn method_count(&self, class_obf: &str) -> (n: usize)
        ensures
            n == (if self.tables().2.contains_key(class_obf@) {
                self.tables().2[class_obf@].len()
            } else {
                0
            }),
    {
        proof {
            use_type_invariant(self);
        }
        match self.inner.method_slots.get(class_obf) {
            Some(s) => {
                let t = &self.inner.method_tables[*s];
                proof {
                    assert(t.view_map().dom() =~= t.slots@.dom());
                }
                t.slots.len()
            },
            None => 0,
        }
    }

    /// Number of distinct obfuscated field names of class `class_obf` (0 for a
    /// class without fields).
    pub fn field_count(&self, class_obf: &str) -> (n: usize)
        ensures
            n == (if self.tables().3.contains_key(class_obf@) {
                self.tables().3[class_obf@].len()
            } else {
                0
            }),
    {
        proof {
            use_type_invariant(self);
        }
        match self.inner.field_slots.get(class_obf) {
            Some(s) => {
                let t = &self.inner.field_tables[*s];
                proof {
                    assert(table(t).dom() =~= t@.dom());
                }
                t.len()
            },
            None => 0,
        }
    }

}

/// Whether a TSRG line (without its line break and trailing `\r`s) is a
/// class line declaring obfuscated class `o`.
pub open spec fn line_declares(line: Seq<char>, o: Seq<char>) -> bool {
    let t = trim(line);
    &&& t.len() > 0
    &&& t[0] != '#'
    &&& !(line[0] == ' ' || line[0] == '\t')
    &&& class_line(t) matches Some((_, obf)) && obf == o
}

/// Whether some line of `s` is a class line declaring `o`.
pub open spec fn declares(s: Seq<char>, o: Seq<char>) -> bool
    decreases s.len(),
{
    if s.len() == 0 {
        false
    } else {
        match find_char(s, '\n') {
            None => line_declares(trim_end_char(s, '\r'), o),
            Some(j) => if 0 <= j < s.len() {
                line_declares(trim_end_char(s.subrange(0, j), '\r'), o) || declares(
                    s.subrange(j + 1, s.len() as int),
                    o,
                )
            } else {
                false
            },
        }
    }
}

/// A line that does not declare class `o` leaves its entry as it was.
proof fn lemma_line_keeps_class(st: VanillaTables, cur: Option<Seq<char>>, line: Seq<char>, o: Seq<char>)
    requires
        !line_declares(line, o),
    ensures
        tsrg_line(st, cur, line).0.0.contains_key(o) == st.0.contains_key(o),
        st.0.contains_key(o) ==> tsrg_line(st, cur, line).0.0[o] == st.0[o],
{
}

/// Text that declares no class `o` leaves its entry as it was.
proof fn lemma_text_keeps_class(st: VanillaTables, cur: Option<Seq<char>>, s: Seq<char>, o: Seq<char>)
    requires
        !declares(s, o),
    ensures
        read_tsrg(st, cur, s).0.contains_key(o) == st.0.contains_key(o),
        st.0.contains_key(o) ==> read_tsrg(st, cur, s).0[o] == st.0[o],
    decreases s.len(),
{
    if s.len() > 0 {
        match find_char(s, '\n') {
            None => lemma_line_keeps_class(st, cur, trim_end_char(s, '\r'), o),
            Some(j) => if 0 <= j < s.len() {
                let line = trim_end_char(s.subrange(0, j), '\r');
                lemma_line_keeps_class(st, cur, line, o);
                let (st2, cur2) = tsrg_line(st, cur, line);
                lemma_text_keeps_class(st2, cur2, s.subrange(j + 1, s.len() as int), o);
            },
        }
    }
}

/// The last class line wins: after a class line `R -> O:` (a line without
/// `\n`), when no later line declares `O`, the parsed mappings map `O` to `R`;
/// this holds both when the class line ends the text and when a line break
/// and more lines follow it.
pub proof fn law_tsrg_last_class_wins(
    st: VanillaTables,
    cur: Option<Seq<char>>,
    line: Seq<char>,
    rest: Seq<char>,
    named: Seq<char>,
    o: Seq<char>,
)
    requires
        !line.contains('\n'),
        line_declares(trim_end_char(line, '\r'), o),
        class_line(trim(trim_end_char(line, '\r'))) == Some((named, o)),
        !declares(rest, o),
    ensures
        read_tsrg(st, cur, line).0.contains_key(o),
        read_tsrg(st, cur, line).0[o] == named,
        read_tsrg(st, cur, line + seq!['\n'] + rest).0.contains_key(o),
        read_tsrg(st, cur, line + seq!['\n'] + rest).0[o] == named,
{
    lemma_find_char_bounds(line, '\n');
    assert(find_char(line, '\n') is None);
    let s = line + seq!['\n'] + rest;
    lemma_find_char_bounds(s, '\n');
    let j = line.len() as int;
    assert(s[j] == '\n');
    if let Some(k) = find_char(s, '\n') {
        if k < j {
            assert(s[k] == line[k]);
        }
    }
    assert(find_char(s, '\n') == Some(j));
    assert(s.subrange(0, j) =~= line);
    assert(s.subrange(j + 1, s.len() as int) =~= rest);
    let (st2, cur2) = tsrg_line(st, cur, trim_end_char(line, '\r'));
    assert(st2.0 == st.0.insert(o, named));
    lemma_text_keeps_class(st2, cur2, rest, o);
}


/// The ranges stored for method `name` of class `o` (empty when none).
pub open spec fn ranges_of(st: VanillaTables, o: Seq<char>, name: Seq<char>) -> Seq<RangeView> {
    if st.2.contains_key(o) && st.2[o].contains_key(name) {
        st.2[o][name]
    } else {
        Seq::empty()
    }
}

/// The range that a TSRG line (without its line break and trailing `\r`s)
/// adds for method `name` of class `o`, with `cur` the current class: an
/// indented method line under `o` whose obfuscated name is `name`.
pub open spec fn line_range(cur: Option<Seq<char>>, line: Seq<char>, o: Seq<char>, name: Seq<char>) -> Seq<
    RangeView,
> {
    let t = trim(line);
    if t.len() == 0 || t[0] == '#' || !(line[0] == ' ' || line[0] == '\t') || cur != Some(o) {
        Seq::empty()
    } else {
        match method_line(trim_start(line)) {
            Some((a, b, named, obf)) => if obf == name {
                seq![(a, b, named)]
            } else {
                Seq::empty()
            },
            None => Seq::empty(),
        }
    }
}

/// The ranges the lines of `s` add for method `name` of class `o`, in file
/// order, starting with current class `cur`.
pub open spec fn text_ranges(cur: Option<Seq<char>>, s: Seq<char>, o: Seq<char>, name: Seq<char>) -> Seq<
    RangeView,
>
    decreases s.len(),
{
    if s.len() == 0 {
        Seq::empty()
    } else {
        match find_char(s, '\n') {
            None => line_range(cur, trim_end_char(s, '\r'), o, name),
            Some(j) => if 0 <= j < s.len() {
                let line = trim_end_char(s.subrange(0, j), '\r');
                line_range(cur, line, o, name) + text_ranges(
                    tsrg_line(empty_vanilla(), cur, line).1,
                    s.subrange(j + 1, s.len() as int),
                    o,
                    name,
                )
            } else {
                Seq::empty()
            },
        }
    }
}

/// Every stored method entry has at least one range.
pub open spec fn ranges_nonempty(st: VanillaTables) -> bool {
    forall|c: Seq<char>, n: Seq<char>| st.2.contains_key(c) && #[trigger] st.2[c].contains_key(n) ==> st.2[c][n].len() > 0
}

proof fn lemma_line_ranges(st: VanillaTables, cur: Option<Seq<char>>, line: Seq<char>, o: Seq<char>, name: Seq<char>)
    requires
        ranges_nonempty(st),
    ensures
        ranges_of(tsrg_line(st, cur, line).0, o, name) == ranges_of(st, o, name) + line_range(cur, line, o, name),
        tsrg_line(st, cur, line).1 == tsrg_line(empty_vanilla(), cur, line).1,
        ranges_nonempty(tsrg_line(st, cur, line).0),
{
    let t = trim(line);
    if !(t.len() == 0 || t[0] == '#') && (line[0] == ' ' || line[0] == '\t') {
        if let Some(c) = cur {
            if let Some((a, b, named, obf)) = method_line(trim_start(line)) {
                let st2 = add_method(st, c, obf, (a, b, named));
                assert forall|c2: Seq<char>, n: Seq<char>| st2.2.contains_key(c2) && #[trigger] st2.2[c2].contains_key(n)
                    implies st2.2[c2][n].len() > 0 by {
                    if c2 == c && n == obf {
                    } else if c2 == c {
                        assert(st.2.contains_key(c2) && st.2[c2].contains_key(n));
                    }
                }
                if c == o && obf == name {
                    assert(ranges_of(st2, o, name) =~= ranges_of(st, o, name) + seq![(a, b, named)]);
                } else {
                    assert(ranges_of(st2, o, name) =~= ranges_of(st, o, name) + Seq::<RangeView>::empty());
                }
            } else {
                assert(ranges_of(tsrg_line(st, cur, line).0, o, name) =~= ranges_of(st, o, name)
                    + Seq::<RangeView>::empty());
            }
        } else {
            assert(ranges_of(st, o, name) =~= ranges_of(st, o, name) + Seq::<RangeView>::empty());
        }
    } else {
        assert(ranges_of(tsrg_line(st, cur, line).0, o, name) =~= ranges_of(st, o, name)
            + Seq::<RangeView>::empty());
    }
}

proof fn lemma_text_ranges(st: VanillaTables, cur: Option<Seq<char>>, s: Seq<char>, o: Seq<char>, name: Seq<char>)
    requires
        ranges_nonempty(st),
    ensures
        ranges_of(read_tsrg(st, cur, s), o, name) == ranges_of(st, o, name) + text_ranges(cur, s, o, name),
        ranges_nonempty(read_tsrg(st, cur, s)),
    decreases s.len(),
{
    if s.len() == 0 {
        assert(ranges_of(st, o, name) + Seq::<RangeView>::empty() =~= ranges_of(st, o, name));
    } else {
        match find_char(s, '\n') {
            None => lemma_line_ranges(st, cur, trim_end_char(s, '\r'), o, name),
            Some(j) => if 0 <= j < s.len() {
                let line = trim_end_char(s.subrange(0, j), '\r');
                let rest = s.subrange(j + 1, s.len() as int);
                lemma_line_ranges(st, cur, line, o, name);
                let (st2, cur2) = tsrg_line(st, cur, line);
                lemma_text_ranges(st2, cur2, rest, o, name);
                assert(ranges_of(st, o, name) + line_range(cur, line, o, name) + text_ranges(cur2, rest, o, name)
                    =~= ranges_of(st, o, name) + (line_range(cur, line, o, name) + text_ranges(cur2, rest, o, name)));
            } else {
                assert(ranges_of(st, o, name) + Seq::<RangeView>::empty() =~= ranges_of(st, o, name));
            },
        }
    }
}

/// The method choice of a parsed TSRG text, in terms of the text: with `o`
/// the obfuscated class that `class_key` names and `rs` the ranges of the
/// method lines for `name` under class `o`, in file order, the lookup finds
/// nothing when `o` is unknown or `rs` is empty; otherwise it gives the named
/// method of the first range that holds the line, when a line is given and
/// one holds it, and that of the first range in every other case.
pub proof fn law_tsrg_method_choice(s: Seq<char>, class_key: Seq<char>, name: Seq<char>, line: Option<u32>)
    ensures
        ({
            let v = spec_parse_tsrg(s);
            match spec_class_obf(v, class_key) {
                None => spec_lookup_method(v, class_key, name, line) is None,
                Some(o) => {
                    let rs = text_ranges(None, s, o, name);
                    spec_lookup_method(v, class_key, name, line) == if rs.len() == 0 {
                        None
                    } else {
                        match line {
                            Some(l) => match range_holding(rs, l, 0) {
                                Some(k) => Some(rs[k].2),
                                None => Some(rs[0].2),
                            },
                            None => Some(rs[0].2),
                        }
                    }
                },
            }
        }),
{
    let v = spec_parse_tsrg(s);
    if let Some(o) = spec_class_obf(v, class_key) {
        assert(ranges_nonempty(empty_vanilla()));
        lemma_text_ranges(empty_vanilla(), None, s, o, name);
        assert(ranges_of(empty_vanilla(), o, name) + text_ranges(None, s, o, name) =~= text_ranges(None, s, o, name));
    }
}


/// Every readable class name of the tables leads to an obfuscated class of
/// the tables.
pub open spec fn readable_resolves(v: VanillaTables) -> bool {
    forall|r: Seq<char>| #[trigger] v.1.contains_key(r) ==> v.0.contains_key(v.1[r])
}

proof fn lemma_tsrg_readable_resolves(st: VanillaTables, cur: Option<Seq<char>>, s: Seq<char>)
    requires
        readable_resolves(st),
    ensures
        readable_resolves(read_tsrg(st, cur, s)),
    decreases s.len(),
{
    if s.len() > 0 {
        match find_char(s, '\n') {
            None => {},
            Some(j) => if 0 <= j < s.len() {
                let (st2, cur2) = tsrg_line(st, cur, trim_end_char(s.subrange(0, j), '\r'));
                assert(readable_resolves(st2));
                lemma_tsrg_readable_resolves(st2, cur2, s.subrange(j + 1, s.len() as int));
            },
        }
    }
}

/// Members are found by either name of their class: for a readable class
/// name `r` of parsed mappings (one that is not itself an obfuscated name),
/// looking up a field or a method under `r` answers what the lookup under
/// the obfuscated class `r` stands for answers.
pub proof fn law_tsrg_members_by_readable_name(
    s: Seq<char>,
    r: Seq<char>,
    name: Seq<char>,
    line: Option<u32>,
)
    ensures
        ({
            let v = spec_parse_tsrg(s);
            v.1.contains_key(r) && !v.0.contains_key(r) ==> {
                &&& v.0.contains_key(v.1[r])
                &&& spec_lookup_field(v, r, name) == spec_lookup_field(v, v.1[r], name)
                &&& spec_lookup_method(v, r, name, line) == spec_lookup_method(v, v.1[r], name, line)
            }
        }),
{
    assert(readable_resolves(empty_vanilla()));
    lemma_tsrg_readable_resolves(empty_vanilla(), None, s);
}

} // verus!
