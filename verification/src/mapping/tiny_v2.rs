use vstd::hash_map::StringHashMap;
use vstd::prelude::*;

use crate::deobfuscator::engine::{class_tag, class_tag_chars, field_tag, method_tag};
use crate::text::{
    cat, contains_char, lemma_find_from_bounds, match_at,
    chars_of, find_char, find_char_from, has_prefix, lemma_find_char_bounds, lemma_rfind_bounds,
    rfind, rfind_char, run_end, scan_run, split_char, split_on, starts_with, string_of, trim,
    trim_end_char, trimmed, trimmed_end_char, utf8_str, CharClass,
};

verus! {

/// Global deobfuscation lookup tables (intermediary -> named).
///
/// Only entries whose keys carry the obfuscated `class_`/`method_`/`field_`
/// prefix are kept; entries already using readable names (e.g. `run`) are
/// dropped so that arbitrary log text is never rewritten.
pub struct Mappings {
    pub classes: StringHashMap<String>,
    pub methods: StringHashMap<String>,
    pub fields: StringHashMap<String>,
    /// Reverse lookup for nested-class bare keys: inner `class_XXXX` -> full
    /// named name, for inner keys that occur under exactly one outer class.
    pub nested: StringHashMap<String>,
}

/// The named value stored under `k`, if any.
pub open spec fn entry(t: &StringHashMap<String>, k: Seq<char>) -> Option<Seq<char>> {
    if t@.contains_key(k) {
        Some(t@[k]@)
    } else {
        None
    }
}

/// Look up `key` in a table, returning the stored characters.
pub fn lookup(t: &StringHashMap<String>, key: &[char]) -> (r: Option<Vec<char>>)
    ensures
        match r {
            Some(v) => entry(t, key@) == Some(v@),
            None => entry(t, key@) is None,
        },
{
    let k = string_of(key);
    match t.get(k.as_str()) {
        Some(v) => Some(chars_of(v.as_str())),
        None => None,
    }
}


/// Why a mapping file was rejected.
#[derive(Debug)]
pub enum TinyV2ParseError {
    /// Not UTF-8, or the header is neither `tiny\t2...` nor `v1...`.
    InvalidHeader,
    /// A `tiny\t2` header with fewer than five tab-separated fields.
    MissingNamespaces,
    InvalidClassLine,
    InvalidFieldLine,
    InvalidMethodLine,
    /// The header lacks the named namespace.
    NamespaceNotFound(String),
}

/// The value-level content of a `TinyV2ParseError`.
pub enum TinyFailure {
    InvalidHeader,
    MissingNamespaces,
    InvalidClassLine,
    InvalidFieldLine,
    InvalidMethodLine,
    NamespaceNotFound(Seq<char>),
}

impl View for TinyV2ParseError {
    type V = TinyFailure;

    open spec fn view(&self) -> TinyFailure {
        match self {
            TinyV2ParseError::InvalidHeader => TinyFailure::InvalidHeader,
            TinyV2ParseError::MissingNamespaces => TinyFailure::MissingNamespaces,
            TinyV2ParseError::InvalidClassLine => TinyFailure::InvalidClassLine,
            TinyV2ParseError::InvalidFieldLine => TinyFailure::InvalidFieldLine,
            TinyV2ParseError::InvalidMethodLine => TinyFailure::InvalidMethodLine,
            TinyV2ParseError::NamespaceNotFound(s) => TinyFailure::NamespaceNotFound(s@),
        }
    }
}

/// Fixed words of the tiny formats.
#[derive(Clone, Copy)]
pub enum Word {
    Official,
    Intermediary,
    Named,
    ClassTag,
    FieldTag,
    MethodTag,
    TinyV2,
    V1,
    SlashPackage,
    DotPackage,
    C,
    F,
    M,
}

pub open spec fn word(w: Word) -> Seq<char> {
    match w {
        Word::Official => seq!['o', 'f', 'f', 'i', 'c', 'i', 'a', 'l'],
        Word::Intermediary => seq!['i', 'n', 't', 'e', 'r', 'm', 'e', 'd', 'i', 'a', 'r', 'y'],
        Word::Named => seq!['n', 'a', 'm', 'e', 'd'],
        Word::ClassTag => seq!['C', 'L', 'A', 'S', 'S'],
        Word::FieldTag => seq!['F', 'I', 'E', 'L', 'D'],
        Word::MethodTag => seq!['M', 'E', 'T', 'H', 'O', 'D'],
        Word::TinyV2 => seq!['t', 'i', 'n', 'y', '\t', '2'],
        Word::V1 => seq!['v', '1'],
        Word::SlashPackage => seq!['n', 'e', 't', '/', 'm', 'i', 'n', 'e', 'c', 'r', 'a', 'f', 't', '/'],
        Word::DotPackage => seq!['n', 'e', 't', '.', 'm', 'i', 'n', 'e', 'c', 'r', 'a', 'f', 't', '.'],
        Word::C => seq!['c'],
        Word::F => seq!['f'],
        Word::M => seq!['m'],
    }
}

pub fn word_chars(w: Word) -> (v: Vec<char>)
    ensures
        v@ == word(w),
{
    match w {
        Word::Official => vec!['o', 'f', 'f', 'i', 'c', 'i', 'a', 'l'],
        Word::Intermediary => vec!['i', 'n', 't', 'e', 'r', 'm', 'e', 'd', 'i', 'a', 'r', 'y'],
        Word::Named => vec!['n', 'a', 'm', 'e', 'd'],
        Word::ClassTag => vec!['C', 'L', 'A', 'S', 'S'],
        Word::FieldTag => vec!['F', 'I', 'E', 'L', 'D'],
        Word::MethodTag => vec!['M', 'E', 'T', 'H', 'O', 'D'],
        Word::TinyV2 => vec!['t', 'i', 'n', 'y', '\t', '2'],
        Word::V1 => vec!['v', '1'],
        Word::SlashPackage => vec!['n', 'e', 't', '/', 'm', 'i', 'n', 'e', 'c', 'r', 'a', 'f', 't', '/'],
        Word::DotPackage => vec!['n', 'e', 't', '.', 'm', 'i', 'n', 'e', 'c', 'r', 'a', 'f', 't', '.'],
        Word::C => vec!['c'],
        Word::F => vec!['f'],
        Word::M => vec!['m'],
    }
}

/// A table's entries with their values as character sequences.
pub open spec fn table(t: &StringHashMap<String>) -> Map<Seq<char>, Seq<char>> {
    t@.map_values(|v: String| v@)
}

/// `(classes, methods, fields, nested)` of a parsed mapping set.
pub open spec fn mappings_view(m: &Mappings) -> (
    Map<Seq<char>, Seq<char>>,
    Map<Seq<char>, Seq<char>>,
    Map<Seq<char>, Seq<char>>,
    Map<Seq<char>, Seq<char>>,
) {
    (table(&m.classes), table(&m.methods), table(&m.fields), table(&m.nested))
}

/// Tables while a file is being read: classes, methods, fields, and for each
/// inner nested-class key the number of classes it occurred in with the
/// first named class it was seen for.
pub type TinyTables = (
    Map<Seq<char>, Seq<char>>,
    Map<Seq<char>, Seq<char>>,
    Map<Seq<char>, Seq<char>>,
    Map<Seq<char>, (nat, Seq<char>)>,
);

pub open spec fn empty_tables() -> TinyTables {
    (Map::empty(), Map::empty(), Map::empty(), Map::empty())
}

/// Inner keys that occurred under exactly one outer class, with that class.
pub open spec fn unique_nested(cand: Map<Seq<char>, (nat, Seq<char>)>) -> Map<Seq<char>, Seq<char>> {
    Map::new(|k: Seq<char>| cand.contains_key(k) && cand[k].0 == 1, |k: Seq<char>| cand[k].1)
}

/// The final tables of a read.
pub open spec fn finish_tables(st: TinyTables) -> (
    Map<Seq<char>, Seq<char>>,
    Map<Seq<char>, Seq<char>>,
    Map<Seq<char>, Seq<char>>,
    Map<Seq<char>, Seq<char>>,
) {
    (st.0, st.1, st.2, unique_nested(st.3))
}

/// Result of reading a whole file, or of one line.
pub enum TinyOutcome {
    Parsed(TinyTables),
    Failed(TinyFailure),
    /// The column of a namespace lies beyond the sixth field of a line.
    Crash,
}

/// A key without the `net/minecraft/` or `net.minecraft.` package prefix.
pub open spec fn normalize_key(key: Seq<char>) -> Seq<char> {
    if starts_with(key, word(Word::SlashPackage)) {
        key.subrange(14, key.len() as int)
    } else if starts_with(key, word(Word::DotPackage)) {
        key.subrange(14, key.len() as int)
    } else {
        key
    }
}

/// The `class_` key after the last `$` of a nested class key.
pub open spec fn nested_inner(key: Seq<char>) -> Option<Seq<char>> {
    match rfind_char(key, '$') {
        Some(d) => {
            let inner = key.subrange(d + 1, key.len() as int);
            if starts_with(inner, class_tag()) {
                Some(inner)
            } else {
                None
            }
        },
        None => None,
    }
}

pub open spec fn add_class(st: TinyTables, key: Seq<char>, named: Seq<char>) -> TinyTables {
    let cand = match nested_inner(key) {
        Some(inner) => st.3.insert(
            inner,
            if st.3.contains_key(inner) {
                (st.3[inner].0 + 1, st.3[inner].1)
            } else {
                (1nat, named)
            },
        ),
        None => st.3,
    };
    (st.0.insert(key, named), st.1, st.2, cand)
}

/// The kind of a mapping line.
#[derive(Clone, Copy, PartialEq, Eq)]
pub enum EntryKind {
    Class,
    Field,
    Method,
}

pub open spec fn kind_tag(k: EntryKind) -> Seq<char> {
    match k {
        EntryKind::Class => class_tag(),
        EntryKind::Field => field_tag(),
        EntryKind::Method => method_tag(),
    }
}

pub open spec fn kind_failure(k: EntryKind) -> TinyFailure {
    match k {
        EntryKind::Class => TinyFailure::InvalidClassLine,
        EntryKind::Field => TinyFailure::InvalidFieldLine,
        EntryKind::Method => TinyFailure::InvalidMethodLine,
    }
}

pub open spec fn add_entry(st: TinyTables, k: EntryKind, key: Seq<char>, named: Seq<char>) -> TinyTables {
    match k {
        EntryKind::Class => add_class(st, key, named),
        EntryKind::Field => (st.0, st.1, st.2.insert(key, named), st.3),
        EntryKind::Method => (st.0, st.1.insert(key, named), st.2, st.3),
    }
}

/// One mapping line whose intermediary name is in field `i` and named name in
/// field `n`: only the first six fields of a line are read.
pub open spec fn entry_step(st: TinyTables, parts: Seq<Seq<char>>, i: int, n: int, k: EntryKind) -> TinyOutcome {
    if i >= 6 || n >= 6 {
        TinyOutcome::Crash
    } else if i >= parts.len() || n >= parts.len() {
        TinyOutcome::Failed(kind_failure(k))
    } else {
        let key = normalize_key(parts[i]);
        if !starts_with(key, kind_tag(k)) {
            TinyOutcome::Parsed(st)
        } else {
            TinyOutcome::Parsed(add_entry(st, k, key, parts[n]))
        }
    }
}

/// One line of a v1 file (`CLASS`/`FIELD`/`METHOD`, flat).
pub open spec fn v1_line(ns: (int, int, int), st: TinyTables, line: Seq<char>) -> TinyOutcome {
    if line.len() == 0 {
        TinyOutcome::Parsed(st)
    } else {
        let parts = split_char(line, '\t');
        if parts[0] == word(Word::ClassTag) {
            entry_step(st, parts, ns.1, ns.2, EntryKind::Class)
        } else if parts[0] == word(Word::FieldTag) {
            entry_step(st, parts, ns.1 + 2, ns.2 + 2, EntryKind::Field)
        } else if parts[0] == word(Word::MethodTag) {
            entry_step(st, parts, ns.1 + 2, ns.2 + 2, EntryKind::Method)
        } else {
            TinyOutcome::Parsed(st)
        }
    }
}

/// One line of a v2 file (`c` at the top level, `f`/`m` one tab deep).
pub open spec fn v2_line(ns: (int, int, int), st: TinyTables, line: Seq<char>) -> TinyOutcome {
    if line.len() == 0 {
        TinyOutcome::Parsed(st)
    } else {
        let lead = run_end(line, 0, CharClass::Tab);
        let parts = split_char(line.subrange(lead, line.len() as int), '\t');
        if parts[0].len() == 0 {
            TinyOutcome::Parsed(st)
        } else if parts[0] == word(Word::C) && lead == 0 {
            entry_step(st, parts, ns.1 - 2, ns.2 - 2, EntryKind::Class)
        } else if parts[0] == word(Word::F) && lead == 1 {
            entry_step(st, parts, ns.1 - 1, ns.2 - 1, EntryKind::Field)
        } else if parts[0] == word(Word::M) && lead == 1 {
            entry_step(st, parts, ns.1 - 1, ns.2 - 1, EntryKind::Method)
        } else {
            TinyOutcome::Parsed(st)
        }
    }
}

pub open spec fn line_step(v2: bool, ns: (int, int, int), st: TinyTables, line: Seq<char>) -> TinyOutcome {
    if v2 {
        v2_line(ns, st, line)
    } else {
        v1_line(ns, st, line)
    }
}

/// The remaining lines of `s` read one by one (each without its trailing
/// `\r`s), stopping at the first failing line.
pub open spec fn read_lines(v2: bool, ns: (int, int, int), st: TinyTables, s: Seq<char>) -> TinyOutcome
    decreases s.len(),
{
    if s.len() == 0 {
        TinyOutcome::Parsed(st)
    } else {
        match find_char(s, '\n') {
            None => line_step(v2, ns, st, trim_end_char(s, '\r')),
            Some(j) => if 0 <= j < s.len() {
                match line_step(v2, ns, st, trim_end_char(s.subrange(0, j), '\r')) {
                    TinyOutcome::Parsed(st2) => read_lines(v2, ns, st2, s.subrange(j + 1, s.len() as int)),
                    other => other,
                }
            } else {
                TinyOutcome::Parsed(st)
            },
        }
    }
}

/// First index of `name` among `parts`, at or after `i`.
pub open spec fn position_from(parts: Seq<Seq<char>>, name: Seq<char>, i: int) -> Option<int>
    decreases parts.len() - i,
{
    if i < 0 || i >= parts.len() {
        None
    } else if parts[i] == name {
        Some(i)
    } else {
        position_from(parts, name, i + 1)
    }
}

/// Field positions of the official, intermediary and named namespaces.
pub open spec fn namespace_positions(header: Seq<char>) -> Result<(int, int, int), TinyFailure> {
    let parts = split_char(header, '\t');
    match position_from(parts, word(Word::Official), 0) {
        None => Err(TinyFailure::NamespaceNotFound(word(Word::Official))),
        Some(o) => match position_from(parts, word(Word::Intermediary), 0) {
            None => Err(TinyFailure::NamespaceNotFound(word(Word::Intermediary))),
            Some(i) => match position_from(parts, word(Word::Named), 0) {
                None => Err(TinyFailure::NamespaceNotFound(word(Word::Named))),
                Some(n) => Ok((o, i, n)),
            },
        },
    }
}

pub open spec fn first_line(s: Seq<char>) -> Seq<char> {
    match find_char(s, '\n') {
        Some(j) => s.subrange(0, j),
        None => s,
    }
}

pub open spec fn after_first_line(s: Seq<char>) -> Seq<char> {
    match find_char(s, '\n') {
        Some(j) => s.subrange(j + 1, s.len() as int),
        None => Seq::empty(),
    }
}

/// Reading a decoded mapping file: the format is chosen by its first line.
pub open spec fn read_text(s: Seq<char>) -> TinyOutcome {
    if s.len() == 0 {
        TinyOutcome::Failed(TinyFailure::InvalidHeader)
    } else {
        let raw_header = trim_end_char(first_line(s), '\r');
        let header = trim(raw_header);
        if starts_with(header, word(Word::TinyV2)) {
            if split_char(header, '\t').len() < 5 {
                TinyOutcome::Failed(TinyFailure::MissingNamespaces)
            } else {
                match namespace_positions(header) {
                    Err(e) => TinyOutcome::Failed(e),
                    Ok(ns) => read_lines(true, ns, empty_tables(), after_first_line(s)),
                }
            }
        } else if starts_with(header, word(Word::V1)) {
            match namespace_positions(raw_header) {
                Err(e) => TinyOutcome::Failed(e),
                Ok(ns) => read_lines(false, ns, empty_tables(), after_first_line(s)),
            }
        } else {
            TinyOutcome::Failed(TinyFailure::InvalidHeader)
        }
    }
}

/// Reading a mapping file given as bytes (which must be UTF-8).
pub open spec fn read_bytes(input: Seq<u8>) -> TinyOutcome {
    if !vstd::utf8::valid_utf8(input) {
        TinyOutcome::Failed(TinyFailure::InvalidHeader)
    } else {
        read_text(vstd::utf8::decode_utf8(input))
    }
}


/// The exec tables (plus the set of inner keys seen under several classes)
/// hold exactly `st`.
spec fn tables_match(m: &Mappings, amb: &StringHashMap<bool>, st: TinyTables) -> bool {
    &&& table(&m.classes) == st.0
    &&& table(&m.methods) == st.1
    &&& table(&m.fields) == st.2
    &&& forall|k: Seq<char>| #[trigger]
        m.nested@.contains_key(k) <==> (st.3.contains_key(k) && st.3[k].0 == 1)
    &&& forall|k: Seq<char>| #[trigger] m.nested@.contains_key(k) ==> m.nested@[k]@ == st.3[k].1
    &&& forall|k: Seq<char>| #[trigger]
        amb@.contains_key(k) <==> (st.3.contains_key(k) && st.3[k].0 >= 2)
    &&& forall|k: Seq<char>| #[trigger] st.3.contains_key(k) ==> st.3[k].0 >= 1
}

proof fn lemma_table_insert(t: StringHashMap<String>, t2: StringHashMap<String>, k: Seq<char>, v: String)
    requires
        t2@ == t@.insert(k, v),
    ensures
        table(&t2) == table(&t).insert(k, v@),
{
    assert(table(&t2) =~= table(&t).insert(k, v@));
}

/// Record a class entry and its nested-class candidate.
fn insert_class(
    m: &mut Mappings,
    amb: &mut StringHashMap<bool>,
    key: &[char],
    named: &[char],
    Ghost(st): Ghost<TinyTables>,
)
    requires
        tables_match(old(m), old(amb), st),
    ensures
        tables_match(final(m), final(amb), add_class(st, key@, named@)),
{
    let ghost old_classes = m.classes;
    let k = string_of(key);
    let v = string_of(named);
    let ghost gv = v;
    m.classes.insert(k, v);
    proof {
        lemma_table_insert(old_classes, m.classes, key@, gv);
    }
    let ghost st2 = add_class(st, key@, named@);
    let klen = key.len();
    match rfind(key, '$') {
        None => {},
        Some(d) => {
            proof {
                lemma_rfind_bounds(key@, '$', key@.len() as int);
            }
            let inner = vstd::slice::slice_subrange(key, d + 1, klen);
            let ctag = class_tag_chars();
            if has_prefix(inner, ctag.as_slice()) {
                let is = string_of(inner);
                if amb.contains_key(is.as_str()) {
                } else if m.nested.contains_key(is.as_str()) {
                    m.nested.remove(is.as_str());
                    amb.insert(is, true);
                } else {
                    m.nested.insert(is, string_of(named));
                }
            }
        },
    }
    assert(table(&m.methods) == st2.1);
}


/// A key without its `net/minecraft/` or `net.minecraft.` prefix.
fn normalized(key: &[char]) -> (r: &[char])
    ensures
        r@ == normalize_key(key@),
{
    let a = word_chars(Word::SlashPackage);
    let b = word_chars(Word::DotPackage);
    if has_prefix(key, a.as_slice()) || has_prefix(key, b.as_slice()) {
        vstd::slice::slice_subrange(key, 14, key.len())
    } else {
        key
    }
}

/// The views of a list of character vectors.
pub open spec fn views(parts: Seq<Vec<char>>) -> Seq<Seq<char>> {
    parts.map_values(|p: Vec<char>| p@)
}

/// Apply one `CLASS`/`FIELD`/`METHOD` line (see `entry_step`).
/// `None` stands for a column beyond the sixth field.
fn apply_entry(
    m: &mut Mappings,
    amb: &mut StringHashMap<bool>,
    parts: &Vec<Vec<char>>,
    i: usize,
    n: usize,
    k: EntryKind,
    Ghost(st): Ghost<TinyTables>,
) -> (r: Option<Result<(), TinyV2ParseError>>)
    requires
        tables_match(old(m), old(amb), st),
    ensures
        match r {
            None => entry_step(st, views(parts@), i as int, n as int, k) is Crash,
            Some(Err(e)) => entry_step(st, views(parts@), i as int, n as int, k)
                == TinyOutcome::Failed(e@),
            Some(Ok(())) => entry_step(st, views(parts@), i as int, n as int, k) matches TinyOutcome::Parsed(st2)
                && tables_match(final(m), final(amb), st2),
        },
{
    if i >= 6 || n >= 6 {
        return None;
    }
    if i >= parts.len() || n >= parts.len() {
        return Some(
            Err(
                match k {
                    EntryKind::Class => TinyV2ParseError::InvalidClassLine,
                    EntryKind::Field => TinyV2ParseError::InvalidFieldLine,
                    EntryKind::Method => TinyV2ParseError::InvalidMethodLine,
                },
            ),
        );
    }
    assert(views(parts@)[i as int] == parts@[i as int]@);
    assert(views(parts@)[n as int] == parts@[n as int]@);
    let key = normalized(parts[i].as_slice());
    let named = parts[n].as_slice();
    let tag = match k {
        EntryKind::Class => class_tag_chars(),
        EntryKind::Field => vec!['f', 'i', 'e', 'l', 'd', '_'],
        EntryKind::Method => vec!['m', 'e', 't', 'h', 'o', 'd', '_'],
    };
    if !has_prefix(key, tag.as_slice()) {
        return Some(Ok(()));
    }
    match k {
        EntryKind::Class => {
            insert_class(m, amb, key, named, Ghost(st));
        },
        EntryKind::Field => {
            let ghost old_fields = m.fields;
            let v = string_of(named);
            let ghost gv = v;
            m.fields.insert(string_of(key), v);
            proof {
                lemma_table_insert(old_fields, m.fields, key@, gv);
            }
        },
        EntryKind::Method => {
            let ghost old_methods = m.methods;
            let v = string_of(named);
            let ghost gv = v;
            m.methods.insert(string_of(key), v);
            proof {
                lemma_table_insert(old_methods, m.methods, key@, gv);
            }
        },
    }
    Some(Ok(()))
}

/// One line of a mapping file (see `line_step`).
fn apply_line(
    m: &mut Mappings,
    amb: &mut StringHashMap<bool>,
    v2: bool,
    ns: (usize, usize, usize),
    line: &[char],
    Ghost(st): Ghost<TinyTables>,
) -> (r: Option<Result<(), TinyV2ParseError>>)
    requires
        tables_match(old(m), old(amb), st),
        v2 ==> ns.1 >= 2 && ns.2 >= 2,
    ensures
        match r {
            None => line_step(v2, (ns.0 as int, ns.1 as int, ns.2 as int), st, line@) is Crash,
            Some(Err(e)) => line_step(v2, (ns.0 as int, ns.1 as int, ns.2 as int), st, line@)
                == TinyOutcome::Failed(e@),
            Some(Ok(())) => line_step(v2, (ns.0 as int, ns.1 as int, ns.2 as int), st, line@) matches TinyOutcome::Parsed(st2)
                && tables_match(final(m), final(amb), st2),
        },
{
    if line.len() == 0 {
        return Some(Ok(()));
    }
    if !v2 {
        let parts = split_on(line, '\t');
        assert(views(parts@) == split_char(line@, '\t'));
        proof {
            lemma_split_nonempty(line@, '\t');
        }
        assert(views(parts@)[0] == parts@[0]@);
        let head = parts[0].as_slice();
        let ct = word_chars(Word::ClassTag);
        let ft = word_chars(Word::FieldTag);
        let mt = word_chars(Word::MethodTag);
        if crate::text::chars_eq(head, ct.as_slice()) {
            apply_entry(m, amb, &parts, ns.1, ns.2, EntryKind::Class, Ghost(st))
        } else if crate::text::chars_eq(head, ft.as_slice()) {
            if ns.1 >= 4 || ns.2 >= 4 {
                return None;
            }
            apply_entry(m, amb, &parts, ns.1 + 2, ns.2 + 2, EntryKind::Field, Ghost(st))
        } else if crate::text::chars_eq(head, mt.as_slice()) {
            if ns.1 >= 4 || ns.2 >= 4 {
                return None;
            }
            apply_entry(m, amb, &parts, ns.1 + 2, ns.2 + 2, EntryKind::Method, Ghost(st))
        } else {
            Some(Ok(()))
        }
    } else {
        let lead = scan_run(line, 0, CharClass::Tab);
        let parts = split_on(vstd::slice::slice_subrange(line, lead, line.len()), '\t');
        proof {
            lemma_split_nonempty(line@.subrange(lead as int, line@.len() as int), '\t');
        }
        assert(views(parts@)[0] == parts@[0]@);
        let head = parts[0].as_slice();
        let c = word_chars(Word::C);
        let f = word_chars(Word::F);
        let mm = word_chars(Word::M);
        if head.len() == 0 {
            Some(Ok(()))
        } else if crate::text::chars_eq(head, c.as_slice()) && lead == 0 {
            apply_entry(m, amb, &parts, ns.1 - 2, ns.2 - 2, EntryKind::Class, Ghost(st))
        } else if crate::text::chars_eq(head, f.as_slice()) && lead == 1 {
            apply_entry(m, amb, &parts, ns.1 - 1, ns.2 - 1, EntryKind::Field, Ghost(st))
        } else if crate::text::chars_eq(head, mm.as_slice()) && lead == 1 {
            apply_entry(m, amb, &parts, ns.1 - 1, ns.2 - 1, EntryKind::Method, Ghost(st))
        } else {
            Some(Ok(()))
        }
    }
}

proof fn lemma_split_nonempty(s: Seq<char>, c: char)
    ensures
        split_char(s, c).len() >= 1,
    decreases s.len(),
{
    lemma_find_char_bounds(s, c);
    if let Some(j) = find_char(s, c) {
        if 0 <= j < s.len() {
            lemma_split_nonempty(s.subrange(j + 1, s.len() as int), c);
        }
    }
}


/// First index of `name` among `parts`.
fn position(parts: &Vec<Vec<char>>, name: &[char]) -> (r: Option<usize>)
    ensures
        match r {
            Some(i) => position_from(views(parts@), name@, 0) == Some(i as int) && i < parts@.len(),
            None => position_from(views(parts@), name@, 0) is None,
        },
{
    let mut i: usize = 0;
    while i < parts.len()
        invariant
            i <= parts@.len(),
            position_from(views(parts@), name@, 0) == position_from(views(parts@), name@, i as int),
        decreases parts@.len() - i,
    {
        assert(views(parts@)[i as int] == parts@[i as int]@);
        if crate::text::chars_eq(parts[i].as_slice(), name) {
            return Some(i);
        }
        i = i + 1;
    }
    None
}

/// Field positions of the three namespaces in a header line.
fn namespaces(header: &[char]) -> (r: Result<(usize, usize, usize), TinyV2ParseError>)
    ensures
        match r {
            Ok(ns) => namespace_positions(header@) == Ok::<(int, int, int), TinyFailure>(
                (ns.0 as int, ns.1 as int, ns.2 as int),
            ),
            Err(e) => namespace_positions(header@) == Err::<(int, int, int), TinyFailure>(e@),
        },
{
    let parts = split_on(header, '\t');
    let o = word_chars(Word::Official);
    let i = word_chars(Word::Intermediary);
    let n = word_chars(Word::Named);
    let official = match position(&parts, o.as_slice()) {
        Some(p) => p,
        None => return Err(TinyV2ParseError::NamespaceNotFound(string_of(o.as_slice()))),
    };
    let intermediary = match position(&parts, i.as_slice()) {
        Some(p) => p,
        None => return Err(TinyV2ParseError::NamespaceNotFound(string_of(i.as_slice()))),
    };
    let named = match position(&parts, n.as_slice()) {
        Some(p) => p,
        None => return Err(TinyV2ParseError::NamespaceNotFound(string_of(n.as_slice()))),
    };
    Ok((official, intermediary, named))
}

/// Read the lines of `text` from `start` on.
fn read_all(text: &[char], start: usize, v2: bool, ns: (usize, usize, usize)) -> (r: Option<
    Result<Mappings, TinyV2ParseError>,
>)
    requires
        start <= text@.len(),
        v2 ==> ns.1 >= 2 && ns.2 >= 2,
    ensures
        ({
            let o = read_lines(
                v2,
                (ns.0 as int, ns.1 as int, ns.2 as int),
                empty_tables(),
                text@.subrange(start as int, text@.len() as int),
            );
            match r {
                None => o is Crash,
                Some(Err(e)) => o == TinyOutcome::Failed(e@),
                Some(Ok(m)) => o matches TinyOutcome::Parsed(st) && mappings_view(&m)
                    == finish_tables(st),
            }
        }),
{
    let ghost nsi = (ns.0 as int, ns.1 as int, ns.2 as int);
    let n = text.len();
    let mut m = Mappings::empty();
    let mut amb: StringHashMap<bool> = StringHashMap::new();
    let ghost mut st = empty_tables();
    let ghost total = read_lines(v2, nsi, empty_tables(), text@.subrange(start as int, n as int));
    let mut i = start;
    assert(table(&m.classes) =~= st.0);
    assert(table(&m.methods) =~= st.1);
    assert(table(&m.fields) =~= st.2);
    while i < n
        invariant
            n == text@.len(),
            start <= i <= n,
            v2 ==> ns.1 >= 2 && ns.2 >= 2,
            nsi == (ns.0 as int, ns.1 as int, ns.2 as int),
            tables_match(&m, &amb, st),
            total == read_lines(v2, nsi, empty_tables(), text@.subrange(start as int, n as int)),
            read_lines(v2, nsi, st, text@.subrange(i as int, n as int)) == total,
        decreases n - i,
    {
        let rest = vstd::slice::slice_subrange(text, i, n);
        proof {
            lemma_find_char_bounds(rest@, '\n');
        }
        let found = find_char_from(rest, '\n', 0);
        let line_end = match found {
            Some(j) => j,
            None => rest.len(),
        };
        let line = trimmed_end_char(vstd::slice::slice_subrange(rest, 0, line_end), '\r');
        match apply_line(&mut m, &mut amb, v2, ns, line, Ghost(st)) {
            None => {
                proof {
                    if found is None {
                        assert(rest@.subrange(0, line_end as int) =~= rest@);
                    }
                }
                return None;
            },
            Some(Err(e)) => {
                proof {
                    if found is None {
                        assert(rest@.subrange(0, line_end as int) =~= rest@);
                    }
                }
                return Some(Err(e));
            },
            Some(Ok(())) => {
                proof {
                    let st2 = line_step(v2, nsi, st, line@)->Parsed_0;
                    match found {
                        Some(j) => {
                            assert(rest@.subrange(j + 1, rest@.len() as int) =~= text@.subrange(
                                i + j + 1,
                                n as int,
                            ));
                        },
                        None => {
                            assert(rest@.subrange(0, line_end as int) =~= rest@);
                            assert(text@.subrange(n as int, n as int) =~= Seq::<char>::empty());
                        },
                    }
                    st = st2;
                }
                i = match found {
                    Some(j) => i + j + 1,
                    None => n,
                };
            },
        }
    }
    proof {
        assert(text@.subrange(i as int, n as int) =~= Seq::<char>::empty());
        assert(table(&m.nested) =~= unique_nested(st.3));
    }
    Some(Ok(m))
}

/// The position of the first line break, or the length.
fn first_line_end(text: &[char]) -> (r: (usize, bool))
    ensures
        r.0 <= text@.len(),
        first_line(text@) == text@.subrange(0, r.0 as int),
        r.1 ==> r.0 < text@.len() && after_first_line(text@) == text@.subrange(
            r.0 + 1,
            text@.len() as int,
        ),
        !r.1 ==> r.0 == text@.len() && after_first_line(text@) == Seq::<char>::empty(),
{
    proof {
        lemma_find_char_bounds(text@, '\n');
    }
    match find_char_from(text, '\n', 0) {
        Some(j) => (j, true),
        None => {
            assert(text@.subrange(0, text@.len() as int) =~= text@);
            (text.len(), false)
        },
    }
}


proof fn lemma_position_from_lower(parts: Seq<Seq<char>>, name: Seq<char>, i: int)
    ensures
        position_from(parts, name, i) matches Some(k) ==> i <= k < parts.len() && parts[k] == name,
    decreases parts.len() - i,
{
    if 0 <= i < parts.len() && parts[i] != name {
        lemma_position_from_lower(parts, name, i + 1);
    }
}

/// In a `tiny\t2...` header the first two fields are `tiny` and `2...`, so no
/// namespace sits in them.
proof fn lemma_tiny_header_positions(header: Seq<char>, i: int, n: int)
    requires
        starts_with(header, word(Word::TinyV2)),
        namespace_positions(header) matches Ok(ns) && ns.1 == i && ns.2 == n,
    ensures
        i >= 2,
        n >= 2,
{
    assert(header.subrange(0, 6) == word(Word::TinyV2));
    assert(header[0] == 't' && header[1] == 'i' && header[2] == 'n' && header[3] == 'y');
    assert(header[4] == '\t' && header[5] == '2');
    lemma_find_char_bounds(header, '\t');
    let j = find_char(header, '\t')->0;
    assert(j == 4);
    let rest = header.subrange(5, header.len() as int);
    let parts = split_char(header, '\t');
    assert(parts == seq![header.subrange(0, 4)] + split_char(rest, '\t'));
    lemma_find_char_bounds(rest, '\t');
    assert(rest[0] == '2');
    let p1 = split_char(rest, '\t')[0];
    match find_char(rest, '\t') {
        Some(k) => {
            assert(k >= 1);
            assert(p1 == rest.subrange(0, k));
        },
        None => {
            assert(p1 == rest);
        },
    }
    assert(p1[0] == '2');
    assert(parts[0] == header.subrange(0, 4));
    assert(parts[1] == p1);
    assert(parts[0] != word(Word::Intermediary)) by {
        assert(parts[0].len() != word(Word::Intermediary).len());
    }
    assert(parts[0] != word(Word::Named)) by {
        assert(parts[0].len() != word(Word::Named).len());
    }
    assert(parts[1] != word(Word::Intermediary)) by {
        assert(word(Word::Intermediary)[0] == 'i');
    }
    assert(parts[1] != word(Word::Named)) by {
        assert(word(Word::Named)[0] == 'n');
    }
    lemma_split_nonempty(rest, '\t');
    assert(parts.len() >= 2);
    lemma_position_from_lower(parts, word(Word::Intermediary), 2);
    lemma_position_from_lower(parts, word(Word::Named), 2);
    assert(position_from(parts, word(Word::Intermediary), 0) == position_from(parts, word(Word::Intermediary), 1));
    assert(position_from(parts, word(Word::Intermediary), 1) == position_from(parts, word(Word::Intermediary), 2));
    assert(position_from(parts, word(Word::Named), 0) == position_from(parts, word(Word::Named), 1));
    assert(position_from(parts, word(Word::Named), 1) == position_from(parts, word(Word::Named), 2));
    assert(position_from(parts, word(Word::Intermediary), 0) == position_from(
        parts,
        word(Word::Intermediary),
        2,
    ));
    assert(position_from(parts, word(Word::Named), 0) == position_from(parts, word(Word::Named), 2));
}

/// Parse a Tiny v1 or v2 mapping file into the global lookup tables; the
/// format is detected from the header line. `None` stands for a file whose
/// header places a namespace beyond the sixth field of the lines that are
/// read (where only six fields are looked at).
pub fn parse_checked(input: &[u8]) -> (r: Option<Result<Mappings, TinyV2ParseError>>)
    ensures
        match r {
            None => read_bytes(input@) is Crash,
            Some(Err(e)) => read_bytes(input@) == TinyOutcome::Failed(e@),
            Some(Ok(m)) => read_bytes(input@) matches TinyOutcome::Parsed(st) && mappings_view(&m)
                == finish_tables(st),
        },
{
    let s = match utf8_str(input) {
        Some(s) => s,
        None => return Some(Err(TinyV2ParseError::InvalidHeader)),
    };
    let text = chars_of(s);
    if text.len() == 0 {
        return Some(Err(TinyV2ParseError::InvalidHeader));
    }
    let (end, more) = first_line_end(text.as_slice());
    let start = if more { end + 1 } else { end };
    assert(after_first_line(text@) == text@.subrange(start as int, text@.len() as int)) by {
        if !more {
            assert(text@.subrange(start as int, text@.len() as int) =~= Seq::<char>::empty());
        }
    }
    let raw_header = trimmed_end_char(vstd::slice::slice_subrange(text.as_slice(), 0, end), '\r');
    let header = trimmed(raw_header);
    let t2 = word_chars(Word::TinyV2);
    let v1 = word_chars(Word::V1);
    if has_prefix(header, t2.as_slice()) {
        let parts = split_on(header, '\t');
        if parts.len() < 5 {
            return Some(Err(TinyV2ParseError::MissingNamespaces));
        }
        let ns = match namespaces(header) {
            Ok(ns) => ns,
            Err(e) => return Some(Err(e)),
        };
        proof {
            lemma_tiny_header_positions(header@, ns.1 as int, ns.2 as int);
        }
        read_all(text.as_slice(), start, true, ns)
    } else if has_prefix(header, v1.as_slice()) {
        let ns = match namespaces(raw_header) {
            Ok(ns) => ns,
            Err(e) => return Some(Err(e)),
        };
        read_all(text.as_slice(), start, false, ns)
    } else {
        Some(Err(TinyV2ParseError::InvalidHeader))
    }
}

/// Parse a Tiny v1 or v2 mapping file into the global lookup tables; the
/// format is detected from the header line.
pub fn parse(input: &[u8]) -> (r: Result<Mappings, TinyV2ParseError>)
    requires
        !(read_bytes(input@) is Crash),
    ensures
        match r {
            Err(e) => read_bytes(input@) == TinyOutcome::Failed(e@),
            Ok(m) => read_bytes(input@) matches TinyOutcome::Parsed(st) && mappings_view(&m)
                == finish_tables(st),
        },
{
    match parse_checked(input) {
        Some(r) => r,
        None => Err(TinyV2ParseError::InvalidHeader),
    }
}

impl Mappings {
    /// Empty tables.
    pub fn empty() -> (m: Self)
        ensures
            m.classes@ == Map::<Seq<char>, String>::empty(),
            m.methods@ == Map::<Seq<char>, String>::empty(),
            m.fields@ == Map::<Seq<char>, String>::empty(),
            m.nested@ == Map::<Seq<char>, String>::empty(),
    {
        Mappings {
            classes: StringHashMap::new(),
            methods: StringHashMap::new(),
            fields: StringHashMap::new(),
            nested: StringHashMap::new(),
        }
    }

    pub fn classes_len(&self) -> (n: usize)
        ensures
            n == self.classes@.len(),
    {
        self.classes.len()
    }

    pub fn methods_len(&self) -> (n: usize)
        ensures
            n == self.methods@.len(),
    {
        self.methods.len()
    }

    pub fn fields_len(&self) -> (n: usize)
        ensures
            n == self.fields@.len(),
    {
        self.fields.len()
    }
}

/// The message of a tiny parse failure.
pub open spec fn failure_message(f: TinyFailure) -> Seq<char> {
    match f {
        TinyFailure::InvalidHeader => "Invalid header: expected 'tiny\\t2' or 'v1'"@,
        TinyFailure::MissingNamespaces => "Missing namespaces in header"@,
        TinyFailure::InvalidClassLine => "Invalid class line format"@,
        TinyFailure::InvalidFieldLine => "Invalid field line format"@,
        TinyFailure::InvalidMethodLine => "Invalid method line format"@,
        TinyFailure::NamespaceNotFound(s) => "Namespace '"@ + s + "' not found in header"@,
    }
}

impl TinyV2ParseError {
    /// The human-readable message.
    pub fn message(&self) -> (m: String)
        ensures
            m@ == failure_message(self@),
    {
        match self {
            TinyV2ParseError::InvalidHeader => "Invalid header: expected 'tiny\\t2' or 'v1'".to_owned(),
            TinyV2ParseError::MissingNamespaces => "Missing namespaces in header".to_owned(),
            TinyV2ParseError::InvalidClassLine => "Invalid class line format".to_owned(),
            TinyV2ParseError::InvalidFieldLine => "Invalid field line format".to_owned(),
            TinyV2ParseError::InvalidMethodLine => "Invalid method line format".to_owned(),
            TinyV2ParseError::NamespaceNotFound(s) => {
                let head = cat("Namespace '", s.as_str());
                cat(head.as_str(), "' not found in header")
            },
        }
    }
}

/// Every key of the tables carries its tag: `class_` for classes and nested
/// inner keys (which hold no `$`), `method_` for methods, `field_` for fields.
pub open spec fn keys_tagged(st: TinyTables) -> bool {
    &&& forall|k: Seq<char>| #[trigger] st.0.contains_key(k) ==> starts_with(k, class_tag())
    &&& forall|k: Seq<char>| #[trigger] st.1.contains_key(k) ==> starts_with(k, method_tag())
    &&& forall|k: Seq<char>| #[trigger] st.2.contains_key(k) ==> starts_with(k, field_tag())
    &&& forall|k: Seq<char>| #[trigger] st.3.contains_key(k) ==> starts_with(k, class_tag())
        && !contains_char(k, '$')
}

proof fn lemma_nested_inner_tagged(key: Seq<char>)
    ensures
        nested_inner(key) matches Some(inner) ==> starts_with(inner, class_tag()) && !contains_char(
            inner,
            '$',
        ),
{
    if let Some(inner) = nested_inner(key) {
        let d = rfind_char(key, '$')->0;
        lemma_rfind_bounds(key, '$', key.len() as int);
        lemma_find_from_bounds(inner, seq!['$'], 0);
        if let Some(j) = find_char(inner, '$') {
            assert(inner.subrange(j, j + 1)[0] == inner[j]);
            assert(inner[j] == key[d + 1 + j]);
        }
    }
}

proof fn lemma_entry_tagged(st: TinyTables, parts: Seq<Seq<char>>, i: int, n: int, k: EntryKind)
    requires
        keys_tagged(st),
    ensures
        entry_step(st, parts, i, n, k) matches TinyOutcome::Parsed(st2) ==> keys_tagged(st2),
{
    let key = normalize_key(parts[i]);
    lemma_nested_inner_tagged(key);
    if let TinyOutcome::Parsed(st2) = entry_step(st, parts, i, n, k) {
        if starts_with(key, kind_tag(k)) && k == EntryKind::Class && !(i >= 6 || n >= 6) && !(i
            >= parts.len() || n >= parts.len()) {
            assert forall|q: Seq<char>| #[trigger] st2.3.contains_key(q) implies starts_with(
                q,
                class_tag(),
            ) && !contains_char(q, '$') by {
                if !st.3.contains_key(q) {
                    assert(nested_inner(key) == Some(q));
                }
            }
        }
    }
}

proof fn lemma_line_tagged(v2: bool, ns: (int, int, int), st: TinyTables, line: Seq<char>)
    requires
        keys_tagged(st),
    ensures
        line_step(v2, ns, st, line) matches TinyOutcome::Parsed(st2) ==> keys_tagged(st2),
{
    if line.len() > 0 {
        if v2 {
            let lead = run_end(line, 0, CharClass::Tab);
            let parts = split_char(line.subrange(lead, line.len() as int), '\t');
            lemma_entry_tagged(st, parts, ns.1 - 2, ns.2 - 2, EntryKind::Class);
            lemma_entry_tagged(st, parts, ns.1 - 1, ns.2 - 1, EntryKind::Field);
            lemma_entry_tagged(st, parts, ns.1 - 1, ns.2 - 1, EntryKind::Method);
        } else {
            let parts = split_char(line, '\t');
            lemma_entry_tagged(st, parts, ns.1, ns.2, EntryKind::Class);
            lemma_entry_tagged(st, parts, ns.1 + 2, ns.2 + 2, EntryKind::Field);
            lemma_entry_tagged(st, parts, ns.1 + 2, ns.2 + 2, EntryKind::Method);
        }
    }
}

proof fn lemma_lines_tagged(v2: bool, ns: (int, int, int), st: TinyTables, s: Seq<char>)
    requires
        keys_tagged(st),
    ensures
        read_lines(v2, ns, st, s) matches TinyOutcome::Parsed(st2) ==> keys_tagged(st2),
    decreases s.len(),
{
    if s.len() > 0 {
        match find_char(s, '\n') {
            None => lemma_line_tagged(v2, ns, st, trim_end_char(s, '\r')),
            Some(j) => if 0 <= j < s.len() {
                lemma_line_tagged(v2, ns, st, trim_end_char(s.subrange(0, j), '\r'));
                if let TinyOutcome::Parsed(st2) = line_step(v2, ns, st, trim_end_char(s.subrange(0, j), '\r')) {
                    lemma_lines_tagged(v2, ns, st2, s.subrange(j + 1, s.len() as int));
                }
            },
        }
    }
}

/// Every key a successful parse keeps carries its tag: classes and nested
/// inner keys start with `class_` (inner keys hold no `$`), methods with
/// `method_`, fields with `field_`.
pub proof fn law_parsed_keys_tagged(input: Seq<u8>)
    ensures
        read_bytes(input) matches TinyOutcome::Parsed(st) ==> ({
            let f = finish_tables(st);
            &&& forall|k: Seq<char>| #[trigger] f.0.contains_key(k) ==> starts_with(k, class_tag())
            &&& forall|k: Seq<char>| #[trigger] f.1.contains_key(k) ==> starts_with(k, method_tag())
            &&& forall|k: Seq<char>| #[trigger] f.2.contains_key(k) ==> starts_with(k, field_tag())
            &&& forall|k: Seq<char>| #[trigger] f.3.contains_key(k) ==> starts_with(k, class_tag())
                && !contains_char(k, '$')
        }),
{
    if vstd::utf8::valid_utf8(input) {
        let s = vstd::utf8::decode_utf8(input);
        assert(keys_tagged(empty_tables()));
        if s.len() > 0 {
            let raw_header = trim_end_char(first_line(s), '\r');
            let header = trim(raw_header);
            if let Ok(ns) = namespace_positions(header) {
                lemma_lines_tagged(true, ns, empty_tables(), after_first_line(s));
            }
            if let Ok(ns) = namespace_positions(raw_header) {
                lemma_lines_tagged(false, ns, empty_tables(), after_first_line(s));
            }
        }
    }
}


/// The entry `(key, named)` of kind `k` that a line of the file keeps: a
/// line of that kind whose intermediary name, without one leading package
/// prefix, carries the kind's tag; `named` is the named column as written.
pub open spec fn kept_entry(v2: bool, ns: (int, int, int), line: Seq<char>, k: EntryKind) -> Option<
    (Seq<char>, Seq<char>),
> {
    if line.len() == 0 {
        None
    } else {
        let lead = run_end(line, 0, CharClass::Tab);
        let parts = if v2 {
            split_char(line.subrange(lead, line.len() as int), '\t')
        } else {
            split_char(line, '\t')
        };
        let is_kind = if v2 {
            parts[0].len() > 0 && match k {
                EntryKind::Class => parts[0] == word(Word::C) && lead == 0,
                EntryKind::Field => parts[0] == word(Word::F) && lead == 1,
                EntryKind::Method => parts[0] == word(Word::M) && lead == 1,
            }
        } else {
            match k {
                EntryKind::Class => parts[0] == word(Word::ClassTag),
                EntryKind::Field => parts[0] == word(Word::FieldTag),
                EntryKind::Method => parts[0] == word(Word::MethodTag),
            }
        };
        let shift: int = if v2 {
            if k == EntryKind::Class {
                -2
            } else {
                -1
            }
        } else {
            if k == EntryKind::Class {
                0
            } else {
                2
            }
        };
        let i = ns.1 + shift;
        let n = ns.2 + shift;
        if is_kind && !(i >= 6 || n >= 6) && !(i >= parts.len() || n >= parts.len()) && starts_with(
            normalize_key(parts[i]),
            kind_tag(k),
        ) {
            Some((normalize_key(parts[i]), parts[n]))
        } else {
            None
        }
    }
}

/// The entries of kind `k` kept from the lines of `s`, in file order.
pub open spec fn kept_entries(v2: bool, ns: (int, int, int), s: Seq<char>, k: EntryKind) -> Seq<(Seq<char>, Seq<char>)>
    decreases s.len(),
{
    if s.len() == 0 {
        Seq::empty()
    } else {
        match find_char(s, '\n') {
            None => opt_entry(kept_entry(v2, ns, trim_end_char(s, '\r'), k)),
            Some(j) => if 0 <= j < s.len() {
                opt_entry(kept_entry(v2, ns, trim_end_char(s.subrange(0, j), '\r'), k)) + kept_entries(
                    v2,
                    ns,
                    s.subrange(j + 1, s.len() as int),
                    k,
                )
            } else {
                Seq::empty()
            },
        }
    }
}

pub open spec fn opt_entry(e: Option<(Seq<char>, Seq<char>)>) -> Seq<(Seq<char>, Seq<char>)> {
    match e {
        Some(x) => seq![x],
        None => Seq::empty(),
    }
}

/// The entries of kind `k` of a decoded mapping file, read in the format its
/// header names.
pub open spec fn file_entries(s: Seq<char>, k: EntryKind) -> Seq<(Seq<char>, Seq<char>)> {
    let raw_header = trim_end_char(first_line(s), '\r');
    let header = trim(raw_header);
    if starts_with(header, word(Word::TinyV2)) {
        match namespace_positions(header) {
            Ok(ns) => kept_entries(true, ns, after_first_line(s), k),
            Err(_) => Seq::empty(),
        }
    } else {
        match namespace_positions(raw_header) {
            Ok(ns) => kept_entries(false, ns, after_first_line(s), k),
            Err(_) => Seq::empty(),
        }
    }
}

/// How many entries have `k` as the inner key after their last `$`.
pub open spec fn inner_count(es: Seq<(Seq<char>, Seq<char>)>, k: Seq<char>) -> nat
    decreases es.len(),
{
    if es.len() == 0 {
        0
    } else {
        (if nested_inner(es[0].0) == Some(k) {
            1nat
        } else {
            0nat
        }) + inner_count(es.subrange(1, es.len() as int), k)
    }
}

/// The named value of the first entry whose inner key is `k`.
pub open spec fn first_inner_named(es: Seq<(Seq<char>, Seq<char>)>, k: Seq<char>) -> Seq<char>
    decreases es.len(),
{
    if es.len() == 0 {
        Seq::empty()
    } else if nested_inner(es[0].0) == Some(k) {
        es[0].1
    } else {
        first_inner_named(es.subrange(1, es.len() as int), k)
    }
}

/// The table of entries of kind `k`.
pub open spec fn kind_table(st: TinyTables, k: EntryKind) -> Map<Seq<char>, Seq<char>> {
    match k {
        EntryKind::Class => st.0,
        EntryKind::Method => st.1,
        EntryKind::Field => st.2,
    }
}

/// A table after the entry a line keeps, if any.
pub open spec fn table_after_line(t: Map<Seq<char>, Seq<char>>, e: Option<(Seq<char>, Seq<char>)>) -> Map<
    Seq<char>,
    Seq<char>,
> {
    match e {
        Some((key, named)) => t.insert(key, named),
        None => t,
    }
}

proof fn lemma_line_candidates(v2: bool, ns: (int, int, int), st: TinyTables, line: Seq<char>)
    ensures
        line_step(v2, ns, st, line) matches TinyOutcome::Parsed(st2) ==> {
            &&& st2.3 == match kept_entry(v2, ns, line, EntryKind::Class) {
                Some((key, named)) => add_class(st, key, named).3,
                None => st.3,
            }
            &&& kind_table(st2, EntryKind::Class) == table_after_line(
                kind_table(st, EntryKind::Class),
                kept_entry(v2, ns, line, EntryKind::Class),
            )
            &&& kind_table(st2, EntryKind::Method) == table_after_line(
                kind_table(st, EntryKind::Method),
                kept_entry(v2, ns, line, EntryKind::Method),
            )
            &&& kind_table(st2, EntryKind::Field) == table_after_line(
                kind_table(st, EntryKind::Field),
                kept_entry(v2, ns, line, EntryKind::Field),
            )
        },
{
    if line.len() > 0 {
        if v2 {
            let lead = run_end(line, 0, CharClass::Tab);
            let parts = split_char(line.subrange(lead, line.len() as int), '\t');
            assert(word(Word::C)[0] == 'c' && word(Word::F)[0] == 'f' && word(Word::M)[0] == 'm');
            if parts[0] == word(Word::C) {
                assert(parts[0] != word(Word::F) && parts[0] != word(Word::M));
            } else if parts[0] == word(Word::F) {
                assert(parts[0] != word(Word::M));
            }
        } else {
            let parts = split_char(line, '\t');
            assert(word(Word::ClassTag)[0] == 'C' && word(Word::FieldTag)[0] == 'F' && word(
                Word::MethodTag,
            )[0] == 'M');
            if parts[0] == word(Word::ClassTag) {
                assert(parts[0] != word(Word::FieldTag) && parts[0] != word(Word::MethodTag));
            } else if parts[0] == word(Word::FieldTag) {
                assert(parts[0] != word(Word::MethodTag));
            }
        }
    }
}

/// How often the candidate table has seen `k`.
pub open spec fn seen_count(c: Map<Seq<char>, (nat, Seq<char>)>, k: Seq<char>) -> nat {
    if c.contains_key(k) {
        c[k].0
    } else {
        0
    }
}

/// `c` is the candidate table `c0` after the entries `es`: counts add up and
/// the first named value seen stays.
pub open spec fn candidates_after(
    c0: Map<Seq<char>, (nat, Seq<char>)>,
    c: Map<Seq<char>, (nat, Seq<char>)>,
    es: Seq<(Seq<char>, Seq<char>)>,
) -> bool {
    forall|k: Seq<char>|
        {
            &&& #[trigger] c.contains_key(k) <==> (c0.contains_key(k) || inner_count(es, k) > 0)
            &&& seen_count(c, k) == seen_count(c0, k) + inner_count(es, k)
            &&& c.contains_key(k) ==> c[k].1 == if c0.contains_key(k) {
                c0[k].1
            } else {
                first_inner_named(es, k)
            }
        }
}

proof fn lemma_entries_front_at(es: Seq<(Seq<char>, Seq<char>)>, rest: Seq<(Seq<char>, Seq<char>)>, k: Seq<char>)
    requires
        es.len() <= 1,
    ensures
        inner_count(es + rest, k) == inner_count(es, k) + inner_count(rest, k),
        first_inner_named(es + rest, k) == if inner_count(es, k) > 0 {
            first_inner_named(es, k)
        } else {
            first_inner_named(rest, k)
        },
{
    if es.len() == 1 {
        assert((es + rest).subrange(1, (es + rest).len() as int) =~= rest);
        let none = es.subrange(1, 1);
        assert(none =~= Seq::<(Seq<char>, Seq<char>)>::empty());
        assert(inner_count(none, k) == 0);
        assert(first_inner_named(none, k) == Seq::<char>::empty());
        assert((es + rest)[0] == es[0]);
    } else {
        assert(es + rest =~= rest);
    }
}

proof fn lemma_step_candidates(st: TinyTables, c1: Map<Seq<char>, (nat, Seq<char>)>, e: Option<(Seq<char>, Seq<char>)>)
    requires
        c1 == match e {
            Some((key, named)) => add_class(st, key, named).3,
            None => st.3,
        },
    ensures
        candidates_after(st.3, c1, opt_entry(e)),
{
    let es = opt_entry(e);
    assert forall|k: Seq<char>| {
        &&& #[trigger] c1.contains_key(k) <==> (st.3.contains_key(k) || inner_count(es, k) > 0)
        &&& seen_count(c1, k) == seen_count(st.3, k) + inner_count(es, k)
        &&& c1.contains_key(k) ==> c1[k].1 == if st.3.contains_key(k) {
            st.3[k].1
        } else {
            first_inner_named(es, k)
        }
    } by {
        if let Some(x) = e {
            assert(es.subrange(1, 1) =~= Seq::<(Seq<char>, Seq<char>)>::empty());
            assert(inner_count(es.subrange(1, 1), k) == 0);
            assert(es[0] == x);
        } else {
            assert(es =~= Seq::<(Seq<char>, Seq<char>)>::empty());
        }
    }
}

proof fn lemma_compose_candidates(
    c0: Map<Seq<char>, (nat, Seq<char>)>,
    c1: Map<Seq<char>, (nat, Seq<char>)>,
    c2: Map<Seq<char>, (nat, Seq<char>)>,
    e: Seq<(Seq<char>, Seq<char>)>,
    rest: Seq<(Seq<char>, Seq<char>)>,
)
    requires
        e.len() <= 1,
        candidates_after(c0, c1, e),
        candidates_after(c1, c2, rest),
    ensures
        candidates_after(c0, c2, e + rest),
{
    assert forall|k: Seq<char>| {
        &&& #[trigger] c2.contains_key(k) <==> (c0.contains_key(k) || inner_count(e + rest, k) > 0)
        &&& seen_count(c2, k) == seen_count(c0, k) + inner_count(e + rest, k)
        &&& c2.contains_key(k) ==> c2[k].1 == if c0.contains_key(k) {
            c0[k].1
        } else {
            first_inner_named(e + rest, k)
        }
    } by {
        lemma_entries_front_at(e, rest, k);
        assert(c1.contains_key(k) <==> (c0.contains_key(k) || inner_count(e, k) > 0));
        assert(c2.contains_key(k) <==> (c1.contains_key(k) || inner_count(rest, k) > 0));
    }
}

proof fn lemma_read_candidates(v2: bool, ns: (int, int, int), st: TinyTables, s: Seq<char>)
    ensures
        read_lines(v2, ns, st, s) matches TinyOutcome::Parsed(stf) ==> candidates_after(
            st.3,
            stf.3,
            kept_entries(v2, ns, s, EntryKind::Class),
        ),
    decreases s.len(),
{
    if s.len() == 0 {
        lemma_step_candidates(st, st.3, None);
    } else {
        match find_char(s, '\n') {
            None => {
                let line = trim_end_char(s, '\r');
                lemma_line_candidates(v2, ns, st, line);
                if let TinyOutcome::Parsed(st2) = line_step(v2, ns, st, line) {
                    lemma_step_candidates(st, st2.3, kept_entry(v2, ns, line, EntryKind::Class));
                }
            },
            Some(j) => if 0 <= j < s.len() {
                let line = trim_end_char(s.subrange(0, j), '\r');
                let rest = s.subrange(j + 1, s.len() as int);
                lemma_line_candidates(v2, ns, st, line);
                if let TinyOutcome::Parsed(st2) = line_step(v2, ns, st, line) {
                    lemma_step_candidates(st, st2.3, kept_entry(v2, ns, line, EntryKind::Class));
                    lemma_read_candidates(v2, ns, st2, rest);
                    if let TinyOutcome::Parsed(stf) = read_lines(v2, ns, st2, rest) {
                        lemma_compose_candidates(
                            st.3,
                            st2.3,
                            stf.3,
                            opt_entry(kept_entry(v2, ns, line, EntryKind::Class)),
                            kept_entries(v2, ns, rest, EntryKind::Class),
                        );
                    }
                }
            },
        }
    }
}

/// The nested-class reverse table of a successful parse holds an inner key
/// `k` (the `class_` key after the last `$` of a class key) exactly when one
/// kept class line of the file has it, duplicate lines counting; its value
/// is that line's named class.
pub proof fn law_nested_unique_inner(input: Seq<u8>)
    ensures
        read_bytes(input) matches TinyOutcome::Parsed(st) ==> {
            let es = file_entries(vstd::utf8::decode_utf8(input), EntryKind::Class);
            let nested = finish_tables(st).3;
            &&& forall|k: Seq<char>| #[trigger] nested.contains_key(k) <==> inner_count(es, k) == 1
            &&& forall|k: Seq<char>| #[trigger] nested.contains_key(k) ==> nested[k] == first_inner_named(es, k)
        },
{
    if let TinyOutcome::Parsed(st) = read_bytes(input) {
        let s = vstd::utf8::decode_utf8(input);
        let raw_header = trim_end_char(first_line(s), '\r');
        let header = trim(raw_header);
        if starts_with(header, word(Word::TinyV2)) {
            lemma_read_candidates(true, namespace_positions(header)->Ok_0, empty_tables(), after_first_line(s));
        } else {
            lemma_read_candidates(false, namespace_positions(raw_header)->Ok_0, empty_tables(), after_first_line(s));
        }
        let es = file_entries(s, EntryKind::Class);
        let nested = finish_tables(st).3;
        assert forall|k: Seq<char>| #[trigger] nested.contains_key(k) <==> inner_count(es, k) == 1 by {
            assert(seen_count(st.3, k) == inner_count(es, k));
        }
        assert forall|k: Seq<char>| #[trigger] nested.contains_key(k) implies nested[k] == first_inner_named(es, k) by {
            assert(st.3.contains_key(k));
        }
    }
}


/// The named value of the last entry whose key is `key`.
pub open spec fn last_named(es: Seq<(Seq<char>, Seq<char>)>, key: Seq<char>) -> Option<Seq<char>>
    decreases es.len(),
{
    if es.len() == 0 {
        None
    } else {
        match last_named(es.subrange(1, es.len() as int), key) {
            Some(v) => Some(v),
            None => if es[0].0 == key {
                Some(es[0].1)
            } else {
                None
            },
        }
    }
}

/// `t` is the table `t0` after the entries `es`: a later entry for a key
/// replaces an earlier one.
pub open spec fn table_after(
    t0: Map<Seq<char>, Seq<char>>,
    t: Map<Seq<char>, Seq<char>>,
    es: Seq<(Seq<char>, Seq<char>)>,
) -> bool {
    forall|key: Seq<char>|
        {
            &&& #[trigger] t.contains_key(key) <==> (t0.contains_key(key) || last_named(es, key) is Some)
            &&& t.contains_key(key) ==> t[key] == match last_named(es, key) {
                Some(v) => v,
                None => t0[key],
            }
        }
}

proof fn lemma_last_front_at(e: Seq<(Seq<char>, Seq<char>)>, rest: Seq<(Seq<char>, Seq<char>)>, key: Seq<char>)
    requires
        e.len() <= 1,
    ensures
        last_named(e + rest, key) == match last_named(rest, key) {
            Some(v) => Some(v),
            None => last_named(e, key),
        },
{
    if e.len() == 1 {
        assert((e + rest).subrange(1, (e + rest).len() as int) =~= rest);
        let none = e.subrange(1, 1);
        assert(none =~= Seq::<(Seq<char>, Seq<char>)>::empty());
        assert(last_named(none, key) is None);
        assert((e + rest)[0] == e[0]);
    } else {
        assert(e + rest =~= rest);
    }
}

proof fn lemma_table_step(t0: Map<Seq<char>, Seq<char>>, e: Option<(Seq<char>, Seq<char>)>)
    ensures
        table_after(t0, table_after_line(t0, e), opt_entry(e)),
{
    let es = opt_entry(e);
    let t = table_after_line(t0, e);
    assert forall|key: Seq<char>| {
        &&& #[trigger] t.contains_key(key) <==> (t0.contains_key(key) || last_named(es, key) is Some)
        &&& t.contains_key(key) ==> t[key] == match last_named(es, key) {
            Some(v) => v,
            None => t0[key],
        }
    } by {
        if let Some(x) = e {
            assert(es.subrange(1, 1) =~= Seq::<(Seq<char>, Seq<char>)>::empty());
            assert(last_named(es.subrange(1, 1), key) is None);
            assert(es[0] == x);
        } else {
            assert(es =~= Seq::<(Seq<char>, Seq<char>)>::empty());
        }
    }
}

proof fn lemma_table_compose(
    t0: Map<Seq<char>, Seq<char>>,
    t1: Map<Seq<char>, Seq<char>>,
    t2: Map<Seq<char>, Seq<char>>,
    e: Seq<(Seq<char>, Seq<char>)>,
    rest: Seq<(Seq<char>, Seq<char>)>,
)
    requires
        e.len() <= 1,
        table_after(t0, t1, e),
        table_after(t1, t2, rest),
    ensures
        table_after(t0, t2, e + rest),
{
    assert forall|key: Seq<char>| {
        &&& #[trigger] t2.contains_key(key) <==> (t0.contains_key(key) || last_named(e + rest, key) is Some)
        &&& t2.contains_key(key) ==> t2[key] == match last_named(e + rest, key) {
            Some(v) => v,
            None => t0[key],
        }
    } by {
        lemma_last_front_at(e, rest, key);
        assert(t1.contains_key(key) <==> (t0.contains_key(key) || last_named(e, key) is Some));
        assert(t2.contains_key(key) <==> (t1.contains_key(key) || last_named(rest, key) is Some));
    }
}

proof fn lemma_read_tables(v2: bool, ns: (int, int, int), st: TinyTables, s: Seq<char>, k: EntryKind)
    ensures
        read_lines(v2, ns, st, s) matches TinyOutcome::Parsed(stf) ==> table_after(
            kind_table(st, k),
            kind_table(stf, k),
            kept_entries(v2, ns, s, k),
        ),
    decreases s.len(),
{
    if s.len() == 0 {
        lemma_table_step(kind_table(st, k), None);
    } else {
        match find_char(s, '\n') {
            None => {
                let line = trim_end_char(s, '\r');
                lemma_line_candidates(v2, ns, st, line);
                lemma_table_step(kind_table(st, k), kept_entry(v2, ns, line, k));
            },
            Some(j) => if 0 <= j < s.len() {
                let line = trim_end_char(s.subrange(0, j), '\r');
                let rest = s.subrange(j + 1, s.len() as int);
                lemma_line_candidates(v2, ns, st, line);
                if let TinyOutcome::Parsed(st2) = line_step(v2, ns, st, line) {
                    lemma_table_step(kind_table(st, k), kept_entry(v2, ns, line, k));
                    lemma_read_tables(v2, ns, st2, rest, k);
                    if let TinyOutcome::Parsed(stf) = read_lines(v2, ns, st2, rest) {
                        lemma_table_compose(
                            kind_table(st, k),
                            kind_table(st2, k),
                            kind_table(stf, k),
                            opt_entry(kept_entry(v2, ns, line, k)),
                            kept_entries(v2, ns, rest, k),
                        );
                    }
                }
            },
        }
    }
}

/// The class, method or field table of parsed mappings.
pub open spec fn parsed_table(
    f: (Map<Seq<char>, Seq<char>>, Map<Seq<char>, Seq<char>>, Map<Seq<char>, Seq<char>>, Map<Seq<char>, Seq<char>>),
    k: EntryKind,
) -> Map<Seq<char>, Seq<char>> {
    match k {
        EntryKind::Class => f.0,
        EntryKind::Method => f.1,
        EntryKind::Field => f.2,
    }
}

/// The class, method and field tables of a successful parse are the lines
/// of the file: a table holds a key exactly when some kept line of its kind
/// has that key (the intermediary name with one leading `net/minecraft/` or
/// `net.minecraft.` removed, carrying the kind's tag), and its value is the
/// named column, as written, of the last such line.
pub proof fn law_parsed_tables(input: Seq<u8>, k: EntryKind)
    ensures
        read_bytes(input) matches TinyOutcome::Parsed(st) ==> {
            let es = file_entries(vstd::utf8::decode_utf8(input), k);
            let t = parsed_table(finish_tables(st), k);
            &&& forall|key: Seq<char>| #[trigger] t.contains_key(key) <==> last_named(es, key) is Some
            &&& forall|key: Seq<char>| #[trigger] t.contains_key(key) ==> Some(t[key]) == last_named(es, key)
        },
{
    if let TinyOutcome::Parsed(st) = read_bytes(input) {
        let s = vstd::utf8::decode_utf8(input);
        let raw_header = trim_end_char(first_line(s), '\r');
        let header = trim(raw_header);
        if starts_with(header, word(Word::TinyV2)) {
            lemma_read_tables(true, namespace_positions(header)->Ok_0, empty_tables(), after_first_line(s), k);
        } else {
            lemma_read_tables(false, namespace_positions(raw_header)->Ok_0, empty_tables(), after_first_line(s), k);
        }
        assert(kind_table(empty_tables(), k) =~= Map::<Seq<char>, Seq<char>>::empty());
        assert(parsed_table(finish_tables(st), k) == kind_table(st, k));
    }
}

} // verus!
