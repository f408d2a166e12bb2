use std::sync::Arc;

use vstd::prelude::*;

use crate::deobfuscator::engine::{
    at_tag, count_char, lemma_concat_without, lemma_count_absent, lemma_count_add,
    lemma_frame_parts_without, lemma_part_without, split_frame, spec_frame, DeobfuscateResult,
};
use crate::mapping::vanilla::{
    range_holding, spec_class_obf, spec_lookup_class, spec_lookup_method, RangeView, VanillaMappings,
    VanillaTables,
};
use crate::text::{
    chars_of, find_char, find_char_from, lemma_find_char_bounds, lemma_rfind_bounds, lemma_run_end_bounds, run_end,
    CharClass,
    parse_unsigned, parse_unsigned_spec, push_all, rfind, rfind_char, string_of,
    strip_one_suffix, trim, trimmed,
};

verus! {

/// The line number in the `(file:line)` part of a stack frame.
pub open spec fn line_number(paren: Seq<char>) -> Option<u32> {
    match rfind_char(paren, ':') {
        None => None,
        Some(i) => match parse_unsigned_spec(trim(paren.subrange(i + 1, paren.len() as int)), 0xffff_ffff) {
            Some(v) => Some(v as u32),
            None => None,
        },
    }
}

/// Remap of one stack frame line: only when the class resolves in the
/// mapping; the method is then resolved within that class (by line range),
/// and an unmapped method keeps its name. The `(file:line)` part is kept.
pub open spec fn vanilla_map_stack_line(v: VanillaTables, line: Seq<char>) -> Option<(Seq<char>, bool, bool)> {
    match spec_frame(line) {
        None => None,
        Some((lead, class_part, method, paren, suffix)) => match spec_lookup_class(v, class_part) {
            None => None,
            Some(named) => {
                let mm = spec_lookup_method(v, class_part, method, line_number(paren));
                let new_method = match mm {
                    Some(x) => x,
                    None => method,
                };
                Some(
                    (
                        line.subrange(0, lead) + at_tag() + named + seq!['.'] + new_method
                            + seq!['('] + paren + seq![')'] + suffix,
                        true,
                        mm is Some,
                    ),
                )
            },
        },
    }
}

/// One line (without its line break) rewritten, with class and method counts.
pub open spec fn vanilla_line(v: VanillaTables, text: Seq<char>) -> (Seq<char>, nat, nat) {
    match vanilla_map_stack_line(v, text) {
        Some((out, ch, mh)) => (out, if ch { 1 } else { 0 }, if mh { 1 } else { 0 }),
        None => (text, 0, 0),
    }
}

/// The whole text rewritten line by line (one `\r` before each line break,
/// or at the end, is dropped).
pub open spec fn spec_vanilla_deobfuscate(v: VanillaTables, s: Seq<char>) -> (Seq<char>, nat, nat)
    decreases s.len(),
{
    if s.len() == 0 {
        (Seq::<char>::empty(), 0, 0)
    } else {
        match find_char(s, '\n') {
            None => vanilla_line(v, strip_one_suffix(s, '\r')),
            Some(j) => if 0 <= j < s.len() {
                let (a, c1, m1) = vanilla_line(v, strip_one_suffix(s.subrange(0, j), '\r'));
                let (b, c2, m2) = spec_vanilla_deobfuscate(v, s.subrange(j + 1, s.len() as int));
                (a + seq!['\n'] + b, c1 + c2, m1 + m2)
            } else {
                (Seq::<char>::empty(), 0, 0)
            },
        }
    }
}

/// Extract the line number from the `(file:line)` part of a stack frame.
pub fn parse_line_number(paren: &[char]) -> (r: Option<u32>)
    ensures
        r == line_number(paren@),
{
    let n = paren.len();
    match rfind(paren, ':') {
        None => None,
        Some(i) => {
            proof {
                lemma_rfind_bounds(paren@, ':', paren@.len() as int);
            }
            match parse_unsigned(trimmed(vstd::slice::slice_subrange(paren, i + 1, n)), 0xffff_ffff) {
                Some(v) => Some(v as u32),
                None => None,
            }
        },
    }
}

/// Structured stack-line deobfuscator for Vanilla (Mojang official) mappings.
///
/// Vanilla obfuscated names are short names that a residual text pattern
/// cannot safely match (any plain `a.b` would), so lines are only rewritten
/// when their class resolves in the mapping; unmapped lines pass through.
pub struct VanillaEngine {
    mappings: Arc<VanillaMappings>,
}

impl VanillaEngine {
    /// The tables this engine reads.
    pub closed spec fn tables(&self) -> VanillaTables {
        (*self.mappings).tables()
    }

    pub fn new(mappings: VanillaMappings) -> (e: Self)
        ensures
            e.tables() == mappings.tables(),
    {
        VanillaEngine { mappings: Arc::new(mappings) }
    }

    pub fn from_arc(mappings: Arc<VanillaMappings>) -> (e: Self)
        ensures
            e.tables() == (*mappings).tables(),
    {
        VanillaEngine { mappings }
    }

    /// Remap a single stack line when its class resolves.
    fn map_stack_line(&self, line: &[char]) -> (r: Option<(Vec<char>, bool, bool)>)
        ensures
            match r {
                Some((v, ch, mh)) => vanilla_map_stack_line(self.tables(), line@) == Some((v@, ch, mh))
                    && line@.len() >= 3,
                None => vanilla_map_stack_line(self.tables(), line@) is None,
            },
    {
        let (lead, class_part, method, paren, suffix) = match split_frame(line) {
            Some(f) => f,
            None => return None,
        };
        let cs = string_of(class_part);
        let named = match self.mappings.lookup_class(cs.as_str()) {
            Some(n) => chars_of(n),
            None => return None,
        };
        let ms = string_of(method);
        let line_num = parse_line_number(paren);
        let mapped = match self.mappings.lookup_method(cs.as_str(), ms.as_str(), line_num) {
            Some(x) => Some(chars_of(x)),
            None => None,
        };
        let method_hit = mapped.is_some();
        let mut out: Vec<char> = Vec::new();
        push_all(&mut out, vstd::slice::slice_subrange(line, 0, lead));
        out.push('a');
        out.push('t');
        out.push(' ');
        push_all(&mut out, named.as_slice());
        out.push('.');
        match mapped {
            Some(x) => push_all(&mut out, x.as_slice()),
            None => push_all(&mut out, method),
        }
        out.push('(');
        push_all(&mut out, paren);
        out.push(')');
        push_all(&mut out, suffix);
        proof {
            let mm = spec_lookup_method(self.tables(), class_part@, method@, line_number(paren@));
            let new_method = match mm {
                Some(x) => x,
                None => method@,
            };
            assert(out@ =~= line@.subrange(0, lead as int) + at_tag() + named@ + seq!['.']
                + new_method + seq!['('] + paren@ + seq![')'] + suffix@);
        }
        Some((out, true, method_hit))
    }

    /// Deobfuscate a whole log; only stack frames whose class the mapping
    /// knows are rewritten, and fields are never counted (Vanilla field names
    /// are short and not globally unique, so they are not rewritten).
    pub fn deobfuscate(&self, input: &str) -> (r: DeobfuscateResult)
        ensures
            (r.text@, r.classes_mapped as nat, r.methods_mapped as nat) == spec_vanilla_deobfuscate(
                self.tables(),
                input@,
            ),
            r.fields_mapped == 0,
    {
        let chars = chars_of(input);
        let n = chars.len();
        let ghost v = self.tables();
        let mut out: Vec<char> = Vec::new();
        let mut classes: usize = 0;
        let mut methods: usize = 0;
        let mut i: usize = 0;
        assert(chars@.subrange(0, n as int) =~= chars@);
        assert(out@ + spec_vanilla_deobfuscate(v, chars@).0 =~= spec_vanilla_deobfuscate(v, chars@).0);
        while i < n
            invariant
                n == chars@.len(),
                chars@ == input@,
                v == self.tables(),
                i <= n,
                classes + methods <= i,
                ({
                    let rest = spec_vanilla_deobfuscate(v, chars@.subrange(i as int, n as int));
                    let total = spec_vanilla_deobfuscate(v, chars@);
                    &&& out@ + rest.0 == total.0
                    &&& classes + rest.1 == total.1
                    &&& methods + rest.2 == total.2
                }),
            decreases n - i,
        {
            let rest = vstd::slice::slice_subrange(chars.as_slice(), i, n);
            let ghost old_out = out@;
            let found = find_char_from(rest, '\n', 0);
            proof {
                lemma_find_char_bounds(rest@, '\n');
            }
            let line_end = match found {
                Some(j) => j,
                None => rest.len(),
            };
            let mut raw = vstd::slice::slice_subrange(rest, 0, line_end);
            if raw.len() > 0 && raw[raw.len() - 1] == '\r' {
                raw = vstd::slice::slice_subrange(raw, 0, raw.len() - 1);
            }
            assert(raw@ =~= strip_one_suffix(rest@.subrange(0, line_end as int), '\r'));
            match self.map_stack_line(raw) {
                Some((mapped, ch, mh)) => {
                    push_all(&mut out, mapped.as_slice());
                    if ch {
                        classes = classes + 1;
                    }
                    if mh {
                        methods = methods + 1;
                    }
                },
                None => {
                    push_all(&mut out, raw);
                },
            }
            let ghost lr = vanilla_line(v, raw@);
            match found {
                Some(j) => {
                    out.push('\n');
                    proof {
                        let tail = rest@.subrange(j + 1, rest@.len() as int);
                        assert(tail =~= chars@.subrange(i + j + 1, n as int));
                        assert(rest@.subrange(0, j as int) == rest@.subrange(0, line_end as int));
                        let rr = spec_vanilla_deobfuscate(v, rest@);
                        let rt = spec_vanilla_deobfuscate(v, tail);
                        assert(rr.0 == lr.0 + seq!['\n'] + rt.0);
                        assert(out@ + rt.0 =~= old_out + rr.0);
                    }
                    i = i + j + 1;
                },
                None => {
                    proof {
                        assert(rest@.subrange(0, line_end as int) =~= rest@);
                        assert(chars@.subrange(n as int, n as int) =~= Seq::<char>::empty());
                        let rr = spec_vanilla_deobfuscate(v, rest@);
                        assert(rr == lr);
                        assert(out@ + Seq::<char>::empty() =~= old_out + rr.0);
                    }
                    i = n;
                },
            }
        }
        assert(chars@.subrange(n as int, n as int) =~= Seq::<char>::empty());
        DeobfuscateResult {
            text: string_of(out.as_slice()),
            classes_mapped: classes,
            methods_mapped: methods,
            fields_mapped: 0,
        }
    }
}

/// The Vanilla engine counts a method only on a line whose class it mapped:
/// over any text, mapped methods never outnumber mapped classes.
pub proof fn law_vanilla_methods_within_classes(v: VanillaTables, s: Seq<char>)
    ensures
        spec_vanilla_deobfuscate(v, s).2 <= spec_vanilla_deobfuscate(v, s).1,
    decreases s.len(),
{
    if s.len() > 0 {
        if let Some(j) = find_char(s, '\n') {
            if 0 <= j < s.len() {
                law_vanilla_methods_within_classes(v, s.subrange(j + 1, s.len() as int));
            }
        }
    }
}

/// No readable name of the tables holds `c`, and every method entry has at
/// least one range.
pub open spec fn names_without(v: VanillaTables, c: char) -> bool {
    &&& forall|k: Seq<char>| #[trigger] v.0.contains_key(k) ==> !v.0[k].contains(c)
    &&& forall|o: Seq<char>, n: Seq<char>| v.2.contains_key(o) && #[trigger] v.2[o].contains_key(n)
        ==> v.2[o][n].len() > 0 && forall|i: int| 0 <= i < v.2[o][n].len() ==> !(#[trigger] v.2[o][n][i]).2.contains(c)
}

proof fn lemma_range_holding_bounds(rs: Seq<RangeView>, l: u32, i: int)
    requires
        0 <= i,
    ensures
        range_holding(rs, l, i) matches Some(k) ==> i <= k < rs.len(),
    decreases rs.len() - i,
{
    if i < rs.len() && !(rs[i].0 <= l && l <= rs[i].1) {
        lemma_range_holding_bounds(rs, l, i + 1);
    }
}

proof fn lemma_without_newline(t: Seq<char>)
    requires
        forall|i: int| 0 <= i < t.len() ==> t[i] != '\n',
    ensures
        !t.contains('\n'),
{
}

proof fn lemma_vanilla_line_without(v: VanillaTables, line: Seq<char>)
    requires
        names_without(v, '\n'),
        !line.contains('\n'),
    ensures
        !vanilla_line(v, line).0.contains('\n'),
{
    lemma_frame_parts_without(line, '\n');
    if let Some((lead, class_part, method, paren, suffix)) = spec_frame(line) {
        if let Some(named) = spec_lookup_class(v, class_part) {
            let mm = spec_lookup_method(v, class_part, method, line_number(paren));
            let new_method = match mm {
                Some(x) => x,
                None => method,
            };
            if let Some(x) = mm {
                let o = spec_class_obf(v, class_part)->0;
                let rs = v.2[o][method];
                if let Some(l) = line_number(paren) {
                    lemma_range_holding_bounds(rs, l, 0);
                }
            }
            lemma_without_newline(at_tag());
            lemma_without_newline(seq!['.']);
            lemma_without_newline(seq!['(']);
            lemma_without_newline(seq![')']);
            let p1 = line.subrange(0, lead) + at_tag();
            lemma_concat_without(line.subrange(0, lead), at_tag(), '\n');
            lemma_concat_without(p1, named, '\n');
            let p2 = p1 + named;
            lemma_concat_without(p2, seq!['.'], '\n');
            let p3 = p2 + seq!['.'];
            lemma_concat_without(p3, new_method, '\n');
            let p4 = p3 + new_method;
            lemma_concat_without(p4, seq!['('], '\n');
            let p5 = p4 + seq!['('];
            lemma_concat_without(p5, paren, '\n');
            let p6 = p5 + paren;
            lemma_concat_without(p6, seq![')'], '\n');
            let p7 = p6 + seq![')'];
            lemma_concat_without(p7, suffix, '\n');
        }
    }
}

/// The Vanilla engine keeps the line structure: when no readable name of the
/// mappings holds a line break, the output has exactly as many line breaks as
/// the input.
pub proof fn law_vanilla_keeps_line_breaks(v: VanillaTables, s: Seq<char>)
    requires
        names_without(v, '\n'),
    ensures
        count_char(spec_vanilla_deobfuscate(v, s).0, '\n') == count_char(s, '\n'),
    decreases s.len(),
{
    if s.len() > 0 {
        lemma_find_char_bounds(s, '\n');
        match find_char(s, '\n') {
            None => {
                lemma_without_newline(s);
                let line = strip_one_suffix(s, '\r');
                assert(line == s || line =~= s.subrange(0, s.len() - 1));
                lemma_part_without(s, '\n', 0, s.len() - 1);
                lemma_vanilla_line_without(v, line);
                lemma_count_absent(vanilla_line(v, line).0, '\n');
                lemma_count_absent(s, '\n');
            },
            Some(j) => {
                let a = s.subrange(0, j);
                let b = s.subrange(j + 1, s.len() as int);
                lemma_without_newline(a);
                let line = strip_one_suffix(a, '\r');
                assert(line == a || line =~= a.subrange(0, a.len() - 1));
                if a.len() > 0 {
                    lemma_part_without(a, '\n', 0, a.len() - 1);
                }
                lemma_vanilla_line_without(v, line);
                let oa = vanilla_line(v, line).0;
                let ob = spec_vanilla_deobfuscate(v, b).0;
                law_vanilla_keeps_line_breaks(v, b);
                lemma_count_absent(oa, '\n');
                lemma_count_absent(a, '\n');
                lemma_count_add(oa + seq!['\n'], ob, '\n');
                lemma_count_add(oa, seq!['\n'], '\n');
                assert(s =~= a + seq!['\n'] + b);
                lemma_count_add(a + seq!['\n'], b, '\n');
                lemma_count_add(a, seq!['\n'], '\n');
                assert(count_char(seq!['\n'], '\n') == 1) by {
                    let one = seq!['\n'];
                    assert(one.drop_last() =~= Seq::<char>::empty());
                    assert(count_char(one.drop_last(), '\n') == 0);
                    assert(one.last() == '\n');
                }
            },
        }
    }
}


/// A Vanilla-rewritten stack frame keeps what surrounds the call: the line
/// that comes out starts with the frame's leading blanks and `at `, and ends
/// with the line's last `)` and everything after it; a rewritten frame always
/// counts its class as mapped, and a line that is not a stack frame is not
/// rewritten.
pub proof fn law_vanilla_frame_shape(v: VanillaTables, line: Seq<char>)
    ensures
        spec_frame(line) is None ==> vanilla_map_stack_line(v, line) is None,
        vanilla_map_stack_line(v, line) matches Some((out, ch, mh)) ==> {
            let lead = run_end(line, 0, CharClass::Blank);
            let close = rfind_char(line, ')');
            &&& ch
            &&& close is Some
            &&& lead + 3 + (line.len() - close->0) <= out.len()
            &&& out.subrange(0, lead + 3) == line.subrange(0, lead) + at_tag()
            &&& out.subrange(out.len() - (line.len() - close->0), out.len() as int) == line.subrange(
                close->0,
                line.len() as int,
            )
        },
{
    if let Some((lead, class_part, method, paren, suffix)) = spec_frame(line) {
        if let Some((out, ch, mh)) = vanilla_map_stack_line(v, line) {
            let content = line.subrange(lead, line.len() as int);
            let body = content.subrange(3, content.len() as int);
            let close_b = rfind_char(body, ')')->0;
            lemma_run_end_bounds(line, 0, CharClass::Blank);
            lemma_rfind_bounds(body, ')', body.len() as int);
            lemma_rfind_bounds(line, ')', line.len() as int);
            let c = lead + 3 + close_b;
            assert(body[close_b] == line[c]);
            assert(forall|k: int| c < k < line.len() ==> line[k] == body[k - lead - 3]);
            assert(rfind_char(line, ')') == Some(c));
            assert(suffix =~= line.subrange(c + 1, line.len() as int));
            let head = line.subrange(0, lead) + at_tag();
            assert(out.subrange(0, lead + 3) =~= head);
            assert(out.subrange(out.len() - (line.len() - c), out.len() as int) =~= line.subrange(c, line.len() as int));
        }
    }
}

} // verus!
