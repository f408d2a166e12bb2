use std::sync::Arc;

use vstd::prelude::*;

use crate::deobfuscator::pattern::{
    group_text, match_view, regex_scan, residual_source, scanned_text, ResidualMatch,
    ResidualPattern,
};
use crate::mapping::tiny_v2::{entry, lookup, Mappings};
use crate::text::{
    chars_of, contains, contains_char, contains_sub, find, find_char, find_char_from, find_sub,
    has_char, has_prefix, in_class, lemma_find_char_bounds, lemma_find_from_bounds,
    lemma_rfind_bounds, lemma_run_end_bounds, match_at, push_all, replace_char, replaced, rfind,
    rfind_char, run_end, scan_run, starts_with, string_of, strip_one_suffix, CharClass,
};

verus! {

/// The outcome of one deobfuscation pass: the rewritten text and how many
/// class, method and field names were replaced.
pub struct DeobfuscateResult {
    pub text: String,
    pub classes_mapped: usize,
    pub methods_mapped: usize,
    pub fields_mapped: usize,
}

pub open spec fn class_tag() -> Seq<char> {
    seq!['c', 'l', 'a', 's', 's', '_']
}

pub open spec fn method_tag() -> Seq<char> {
    seq!['m', 'e', 't', 'h', 'o', 'd', '_']
}

pub open spec fn field_tag() -> Seq<char> {
    seq!['f', 'i', 'e', 'l', 'd', '_']
}

pub open spec fn at_tag() -> Seq<char> {
    seq!['a', 't', ' ']
}

pub fn class_tag_chars() -> (v: Vec<char>)
    ensures
        v@ == class_tag(),
{
    vec!['c', 'l', 'a', 's', 's', '_']
}

pub fn method_tag_chars() -> (v: Vec<char>)
    ensures
        v@ == method_tag(),
{
    vec!['m', 'e', 't', 'h', 'o', 'd', '_']
}

pub fn field_tag_chars() -> (v: Vec<char>)
    ensures
        v@ == field_tag(),
{
    vec!['f', 'i', 'e', 'l', 'd', '_']
}

/// The parts of a stack frame line `<lead>at <class>.<method>(<paren>)<suffix>`:
/// `(lead length, class, method, paren, suffix)`, where the parentheses are the
/// last `(` and the last `)` of the line and the method starts after the last
/// `.` before that `(`. `None` when the line is not such a frame or the class
/// or method would be empty.
pub open spec fn spec_frame(line: Seq<char>) -> Option<(int, Seq<char>, Seq<char>, Seq<char>, Seq<char>)> {
    let lead = run_end(line, 0, CharClass::Blank);
    let content = line.subrange(lead, line.len() as int);
    if !starts_with(content, at_tag()) {
        None
    } else {
        let body = content.subrange(3, content.len() as int);
        match (rfind_char(body, '('), rfind_char(body, ')')) {
            (Some(open), Some(close)) => {
                if close <= open {
                    None
                } else {
                    let paren = body.subrange(open + 1, close);
                    let call = body.subrange(0, open);
                    let suffix = body.subrange(close + 1, body.len() as int);
                    match rfind_char(call, '.') {
                        None => None,
                        Some(dot) => {
                            let class_part = call.subrange(0, dot);
                            let method = call.subrange(dot + 1, call.len() as int);
                            if class_part.len() == 0 || method.len() == 0 {
                                None
                            } else {
                                Some((lead, class_part, method, paren, suffix))
                            }
                        },
                    }
                }
            },
            _ => None,
        }
    }
}

/// The obfuscated key that starts at the first `class_` of `s`: the longest
/// run of ASCII letters, digits, `_` and `$` from there. Returns its position.
pub open spec fn embedded_class_key(s: Seq<char>) -> Option<(int, Seq<char>)> {
    match find_sub(s, class_tag()) {
        None => None,
        Some(pos) => Some((pos, s.subrange(pos, run_end(s, pos, CharClass::Key)))),
    }
}

/// Resolve a class key: the class table, then the nested reverse table, then
/// (for a nested/anonymous key) the outer class before the last `$`.
pub open spec fn resolve_class_key(m: Mappings, key: Seq<char>) -> Option<Seq<char>> {
    if m.classes@.contains_key(key) {
        entry(&m.classes, key)
    } else if m.nested@.contains_key(key) {
        entry(&m.nested, key)
    } else {
        match rfind_char(key, '$') {
            Some(d) => entry(&m.classes, key.subrange(0, d)),
            None => None,
        }
    }
}

/// The named class for the obfuscated key embedded in a class path segment.
pub open spec fn spec_lookup_class(m: Mappings, class_part: Seq<char>) -> Option<Seq<char>> {
    match embedded_class_key(class_part) {
        None => None,
        Some((pos, key)) => if key.len() <= class_tag().len() {
            None
        } else {
            resolve_class_key(m, key)
        },
    }
}

/// The part of `s` after its last `c` (all of `s` when it has none).
pub open spec fn last_segment(s: Seq<char>, c: char) -> Seq<char> {
    match rfind_char(s, c) {
        Some(i) => s.subrange(i + 1, s.len() as int),
        None => s,
    }
}

/// `(file:line)` with an obfuscated class in the file name replaced by the
/// simple name of its named class, e.g. `class_310.java:465` ->
/// `MinecraftClient.java:465`.
pub open spec fn spec_replace_file_name(m: Mappings, paren: Seq<char>) -> Seq<char> {
    let (file, line) = match rfind_char(paren, ':') {
        Some(i) => (paren.subrange(0, i), paren.subrange(i, paren.len() as int)),
        None => (paren, Seq::<char>::empty()),
    };
    match embedded_class_key(file) {
        None => paren,
        Some((pos, key)) => if key.len() <= class_tag().len() {
            paren
        } else {
            match resolve_class_key(m, key) {
                None => paren,
                Some(named) => file.subrange(0, pos) + last_segment(named, '/') + file.subrange(
                    pos + key.len(),
                    file.len() as int,
                ) + line,
            }
        },
    }
}

/// Drop a module prefix made of letters, digits and `_` followed by one or
/// more `/` (`knot/`, `knot//`). A dot breaks the prefix, so `java.base/...`
/// is kept intact.
pub open spec fn spec_strip_module_prefix(s: Seq<char>) -> Seq<char> {
    let i = run_end(s, 0, CharClass::Module);
    if i > 0 && i < s.len() && s[i] == '/' {
        s.subrange(run_end(s, i, CharClass::Slash), s.len() as int)
    } else {
        s
    }
}

/// The named method for a `method_` key, if the table has one.
pub open spec fn spec_lookup_method(m: Mappings, method: Seq<char>) -> Option<Seq<char>> {
    if starts_with(method, method_tag()) {
        entry(&m.methods, method)
    } else {
        None
    }
}

/// Structured remap of one stack frame line: the rewritten line, whether the
/// class was mapped and whether the method was mapped. `None` when the line is
/// not a frame or neither the class nor the method maps.
pub open spec fn spec_map_stack_line(m: Mappings, line: Seq<char>) -> Option<(Seq<char>, bool, bool)> {
    match spec_frame(line) {
        None => None,
        Some((lead, class_part, method, paren, suffix)) => {
            let cls = spec_lookup_class(m, class_part);
            let mth = spec_lookup_method(m, method);
            if cls is None && mth is None {
                None
            } else {
                let new_class = match cls {
                    Some(n) => replace_char(n, '/', '.'),
                    None => spec_strip_module_prefix(class_part),
                };
                let new_method = match mth {
                    Some(n) => n,
                    None => method,
                };
                Some(
                    (
                        line.subrange(0, lead) + at_tag() + new_class + seq!['.'] + new_method
                            + seq!['('] + spec_replace_file_name(m, paren) + seq![')'] + suffix,
                        cls is Some,
                        mth is Some,
                    ),
                )
            }
        },
    }
}

/// The name a residual key is replaced with, if the tables know it.
pub open spec fn residual_replacement(m: Mappings, key: Seq<char>, prefix: Seq<char>) -> Option<
    Seq<char>,
> {
    if starts_with(key, class_tag()) {
        let named = if m.classes@.contains_key(key) {
            entry(&m.classes, key)
        } else {
            entry(&m.nested, key)
        };
        match named {
            Some(n) => Some(
                if contains_char(prefix, '.') {
                    replace_char(n, '/', '.')
                } else {
                    n
                },
            ),
            None => None,
        }
    } else if starts_with(key, method_tag()) {
        entry(&m.methods, key)
    } else {
        entry(&m.fields, key)
    }
}

/// State of the residual rewrite after some matches: text emitted so far,
/// original text since the last replaced match, class/method/field counts,
/// and whether anything was replaced.
pub type ResidualState = (Seq<char>, Seq<char>, nat, nat, nat, bool);

pub open spec fn residual_step(
    m: Mappings,
    st: ResidualState,
    mt: (Seq<char>, Seq<char>, Seq<char>, Seq<char>, Seq<char>),
) -> ResidualState {
    let (gap, whole, pre, prefix, key) = mt;
    match residual_replacement(m, key, prefix) {
        None => (st.0, st.1 + gap + whole, st.2, st.3, st.4, st.5),
        Some(rep) => (
            st.0 + st.1 + gap + pre + rep,
            Seq::<char>::empty(),
            if starts_with(key, class_tag()) {
                st.2 + 1
            } else {
                st.2
            },
            if !starts_with(key, class_tag()) && starts_with(key, method_tag()) {
                st.3 + 1
            } else {
                st.3
            },
            if !starts_with(key, class_tag()) && !starts_with(key, method_tag()) {
                st.4 + 1
            } else {
                st.4
            },
            true,
        ),
    }
}

/// The residual state after the first `n` matches.
pub open spec fn residual_fold(
    m: Mappings,
    ms: Seq<(Seq<char>, Seq<char>, Seq<char>, Seq<char>, Seq<char>)>,
    n: int,
) -> ResidualState
    decreases n,
{
    if n <= 0 {
        (Seq::<char>::empty(), Seq::<char>::empty(), 0, 0, 0, false)
    } else {
        residual_step(m, residual_fold(m, ms, n - 1), ms[n - 1])
    }
}

/// Rewrite of a line from its residual matches: `None` when no match maps.
pub open spec fn spec_residual_apply(
    m: Mappings,
    ms: Seq<(Seq<char>, Seq<char>, Seq<char>, Seq<char>, Seq<char>)>,
    tail: Seq<char>,
) -> Option<(Seq<char>, nat, nat, nat)> {
    let st = residual_fold(m, ms, ms.len() as int);
    if !st.5 {
        None
    } else {
        Some((st.0 + st.1 + tail, st.2, st.3, st.4))
    }
}

/// Residual rewrite of a non-stack line: only lines that mention an
/// obfuscated key prefix are scanned.
pub open spec fn spec_residual_replace(m: Mappings, line: Seq<char>) -> Option<(Seq<char>, nat, nat, nat)> {
    if !contains_sub(line, class_tag()) && !contains_sub(line, method_tag()) && !contains_sub(
        line,
        field_tag(),
    ) {
        None
    } else {
        match regex_scan(residual_source(), line) {
            Some((ms, tail)) => spec_residual_apply(m, ms, tail),
            None => None,
        }
    }
}

/// One line (without its line break) rewritten, with its counts.
pub open spec fn spec_line(m: Mappings, text: Seq<char>) -> (Seq<char>, nat, nat, nat) {
    match spec_map_stack_line(m, text) {
        Some((out, ch, mh)) => (out, if ch { 1 } else { 0 }, if mh { 1 } else { 0 }, 0),
        None => match spec_residual_replace(m, text) {
            Some(r) => r,
            None => (text, 0, 0, 0),
        },
    }
}

/// The whole text rewritten line by line. Lines end at `\n`; one `\r` before
/// the line break (or at the end of the last line) is dropped.
pub open spec fn spec_deobfuscate(m: Mappings, s: Seq<char>) -> (Seq<char>, nat, nat, nat)
    decreases s.len(),
{
    if s.len() == 0 {
        (Seq::<char>::empty(), 0, 0, 0)
    } else {
        match find_char(s, '\n') {
            None => spec_line(m, strip_one_suffix(s, '\r')),
            Some(j) => if 0 <= j < s.len() {
                let (a, c1, m1, f1) = spec_line(m, strip_one_suffix(s.subrange(0, j), '\r'));
                let (b, c2, m2, f2) = spec_deobfuscate(m, s.subrange(j + 1, s.len() as int));
                (a + seq!['\n'] + b, c1 + c2, m1 + m2, f1 + f2)
            } else {
                (Seq::<char>::empty(), 0, 0, 0)
            },
        }
    }
}


/// Split a stack frame line into `(lead, class, method, paren, suffix)`.
pub fn split_frame(line: &[char]) -> (r: Option<(usize, &[char], &[char], &[char], &[char])>)
    ensures
        match r {
            None => spec_frame(line@) is None,
            Some((lead, c, me, p, su)) => spec_frame(line@) == Some(
                (lead as int, c@, me@, p@, su@),
            ) && lead + 3 <= line@.len(),
        },
{
    let n = line.len();
    let lead = scan_run(line, 0, CharClass::Blank);
    let content = vstd::slice::slice_subrange(line, lead, n);
    let at = vec!['a', 't', ' '];
    if !has_prefix(content, at.as_slice()) {
        return None;
    }
    let body = vstd::slice::slice_subrange(content, 3, content.len());
    let open = match rfind(body, '(') {
        Some(o) => o,
        None => return None,
    };
    let close = match rfind(body, ')') {
        Some(c) => c,
        None => return None,
    };
    proof {
        lemma_rfind_bounds(body@, '(', body@.len() as int);
        lemma_rfind_bounds(body@, ')', body@.len() as int);
    }
    if close <= open {
        return None;
    }
    let paren = vstd::slice::slice_subrange(body, open + 1, close);
    let call = vstd::slice::slice_subrange(body, 0, open);
    let suffix = vstd::slice::slice_subrange(body, close + 1, body.len());
    let dot = match rfind(call, '.') {
        Some(d) => d,
        None => return None,
    };
    proof {
        lemma_rfind_bounds(call@, '.', call@.len() as int);
    }
    let class_part = vstd::slice::slice_subrange(call, 0, dot);
    let method = vstd::slice::slice_subrange(call, dot + 1, call.len());
    if class_part.len() == 0 || method.len() == 0 {
        return None;
    }
    Some((lead, class_part, method, paren, suffix))
}

/// The key that starts at the first `class_` of `s`, with its position.
pub fn find_class_key(s: &[char]) -> (r: Option<(usize, &[char])>)
    ensures
        match r {
            None => embedded_class_key(s@) is None,
            Some((pos, key)) => embedded_class_key(s@) == Some((pos as int, key@)) && pos
                + key@.len() <= s@.len() && key@.len() >= class_tag().len(),
        },
{
    let tag = class_tag_chars();
    match find(s, tag.as_slice()) {
        None => None,
        Some(pos) => {
            proof {
                lemma_find_from_bounds(s@, class_tag(), 0);
            }
            let end = scan_run(s, pos, CharClass::Key);
            proof {
                lemma_run_end_bounds(s@, pos as int, CharClass::Key);
                assert forall|j: int| pos <= j < pos + 6 implies in_class(CharClass::Key, s@[j]) by {
                    assert(s@[j] == s@.subrange(pos as int, pos + 6)[j - pos]);
                }
                if end < pos + 6 {
                    assert(in_class(CharClass::Key, s@[end as int]));
                }
            }
            Some((pos, vstd::slice::slice_subrange(s, pos, end)))
        },
    }
}


/// Resolve a class key against the tables (see `resolve_class_key`).
pub fn resolve_key(m: &Mappings, key: &[char]) -> (r: Option<Vec<char>>)
    ensures
        match r {
            Some(v) => resolve_class_key(*m, key@) == Some(v@),
            None => resolve_class_key(*m, key@) is None,
        },
{
    if let Some(v) = lookup(&m.classes, key) {
        return Some(v);
    }
    if let Some(v) = lookup(&m.nested, key) {
        return Some(v);
    }
    match rfind(key, '$') {
        Some(d) => {
            proof {
                lemma_rfind_bounds(key@, '$', key@.len() as int);
            }
            lookup(&m.classes, vstd::slice::slice_subrange(key, 0, d))
        },
        None => None,
    }
}

/// The named class for the key embedded in a class path segment.
pub fn lookup_class(m: &Mappings, class_part: &[char]) -> (r: Option<Vec<char>>)
    ensures
        match r {
            Some(v) => spec_lookup_class(*m, class_part@) == Some(v@),
            None => spec_lookup_class(*m, class_part@) is None,
        },
{
    match find_class_key(class_part) {
        None => None,
        Some((_pos, key)) => {
            if key.len() <= 6 {
                None
            } else {
                resolve_key(m, key)
            }
        },
    }
}

/// The part of `s` after its last `c`.
pub fn after_last(s: &[char], c: char) -> (r: &[char])
    ensures
        r@ == last_segment(s@, c),
{
    let n = s.len();
    match rfind(s, c) {
        Some(i) => {
            proof {
                lemma_rfind_bounds(s@, c, s@.len() as int);
            }
            vstd::slice::slice_subrange(s, i + 1, n)
        },
        None => s,
    }
}

/// Remap an obfuscated class name in the `(file:line)` part of a frame.
pub fn replace_file_name(m: &Mappings, paren: &[char]) -> (r: Vec<char>)
    ensures
        r@ == spec_replace_file_name(*m, paren@),
{
    let (file, line) = match rfind(paren, ':') {
        Some(i) => {
            proof {
                lemma_rfind_bounds(paren@, ':', paren@.len() as int);
            }
            (vstd::slice::slice_subrange(paren, 0, i), vstd::slice::slice_subrange(paren, i, paren.len()))
        },
        None => (paren, vstd::slice::slice_subrange(paren, 0, 0)),
    };
    assert(rfind_char(paren@, ':') is None ==> line@ =~= Seq::<char>::empty());
    let mut out: Vec<char> = Vec::new();
    match find_class_key(file) {
        None => {
            push_all(&mut out, paren);
        },
        Some((pos, key)) => {
            if key.len() <= 6 {
                push_all(&mut out, paren);
            } else {
                match resolve_key(m, key) {
                    None => {
                        push_all(&mut out, paren);
                    },
                    Some(named) => {
                        let flen = file.len();
                        push_all(&mut out, vstd::slice::slice_subrange(file, 0, pos));
                        push_all(&mut out, after_last(named.as_slice(), '/'));
                        push_all(&mut out, vstd::slice::slice_subrange(file, pos + key.len(), flen));
                        push_all(&mut out, line);
                    },
                }
            }
        },
    }
    assert(out@ =~= spec_replace_file_name(*m, paren@));
    out
}

/// Drop a `knot/`-style module prefix from a class path.
pub fn strip_module_prefix(s: &[char]) -> (r: &[char])
    ensures
        r@ == spec_strip_module_prefix(s@),
{
    let i = scan_run(s, 0, CharClass::Module);
    if i > 0 && i < s.len() && s[i] == '/' {
        let j = scan_run(s, i, CharClass::Slash);
        vstd::slice::slice_subrange(s, j, s.len())
    } else {
        s
    }
}

/// The named method for a `method_` key.
pub fn lookup_method(m: &Mappings, method: &[char]) -> (r: Option<Vec<char>>)
    ensures
        match r {
            Some(v) => spec_lookup_method(*m, method@) == Some(v@),
            None => spec_lookup_method(*m, method@) is None,
        },
{
    let tag = method_tag_chars();
    if has_prefix(method, tag.as_slice()) {
        lookup(&m.methods, method)
    } else {
        None
    }
}

/// Structured remap of a single stack frame line.
pub fn map_stack_line(m: &Mappings, line: &[char]) -> (r: Option<(Vec<char>, bool, bool)>)
    ensures
        match r {
            Some((v, ch, mh)) => spec_map_stack_line(*m, line@) == Some((v@, ch, mh))
                && line@.len() >= 3,
            None => spec_map_stack_line(*m, line@) is None,
        },
{
    let (lead, class_part, method, paren, suffix) = match split_frame(line) {
        Some(f) => f,
        None => return None,
    };
    let cls = lookup_class(m, class_part);
    let mth = lookup_method(m, method);
    if cls.is_none() && mth.is_none() {
        return None;
    }
    let class_hit = cls.is_some();
    let method_hit = mth.is_some();
    let mut out: Vec<char> = Vec::new();
    push_all(&mut out, vstd::slice::slice_subrange(line, 0, lead));
    out.push('a');
    out.push('t');
    out.push(' ');
    match cls {
        Some(n) => {
            let dotted = replaced(n.as_slice(), '/', '.');
            push_all(&mut out, dotted.as_slice());
        },
        None => {
            push_all(&mut out, strip_module_prefix(class_part));
        },
    }
    out.push('.');
    match mth {
        Some(n) => {
            push_all(&mut out, n.as_slice());
        },
        None => {
            push_all(&mut out, method);
        },
    }
    out.push('(');
    let new_paren = replace_file_name(m, paren);
    push_all(&mut out, new_paren.as_slice());
    out.push(')');
    push_all(&mut out, suffix);
    proof {
        let f = spec_frame(line@).unwrap();
        let new_class = match spec_lookup_class(*m, class_part@) {
            Some(n) => replace_char(n, '/', '.'),
            None => spec_strip_module_prefix(class_part@),
        };
        let new_method = match spec_lookup_method(*m, method@) {
            Some(n) => n,
            None => method@,
        };
        assert(out@ =~= line@.subrange(0, lead as int) + at_tag() + new_class + seq!['.']
            + new_method + seq!['('] + spec_replace_file_name(*m, paren@) + seq![')'] + suffix@);
    }
    Some((out, class_hit, method_hit))
}


/// The name a residual key is replaced with (see `residual_replacement`).
pub fn residual_lookup(m: &Mappings, key: &[char], prefix: &[char]) -> (r: Option<Vec<char>>)
    ensures
        match r {
            Some(v) => residual_replacement(*m, key@, prefix@) == Some(v@),
            None => residual_replacement(*m, key@, prefix@) is None,
        },
{
    let ctag = class_tag_chars();
    let mtag = method_tag_chars();
    if has_prefix(key, ctag.as_slice()) {
        let named = match lookup(&m.classes, key) {
            Some(n) => Some(n),
            None => lookup(&m.nested, key),
        };
        match named {
            Some(n) => {
                if has_char(prefix, '.') {
                    Some(replaced(n.as_slice(), '/', '.'))
                } else {
                    Some(n)
                }
            },
            None => None,
        }
    } else if has_prefix(key, mtag.as_slice()) {
        lookup(&m.methods, key)
    } else {
        lookup(&m.fields, key)
    }
}

/// The characters of an optional capture group (none when it is absent).
fn group_chars(g: &Option<String>) -> (v: Vec<char>)
    ensures
        v@ == group_text(*g),
{
    match g {
        Some(s) => chars_of(s.as_str()),
        None => Vec::new(),
    }
}

/// Rewrite a line from the residual pattern's matches (`gap`/`whole`/groups,
/// as the pattern scan reports them) and the text after the last match:
/// every match whose key maps is replaced by its leading guard character and
/// the named value; the rest of the text is kept. `None` when nothing maps.
pub fn residual_apply(m: &Mappings, matches: &[ResidualMatch], tail: &str) -> (r: Option<(Vec<char>, usize, usize, usize)>)
    ensures
        match r {
            Some((v, c, me, f)) => spec_residual_apply(
                *m,
                matches@.map_values(|x: ResidualMatch| match_view(x)),
                tail@,
            ) == Some((v@, c as nat, me as nat, f as nat)) && c + me + f <= matches@.len(),
            None => spec_residual_apply(
                *m,
                matches@.map_values(|x: ResidualMatch| match_view(x)),
                tail@,
            ) is None,
        },
{
    let ghost ms = matches@.map_values(|x: ResidualMatch| match_view(x));
    let ctag = class_tag_chars();
    let mtag = method_tag_chars();
    let mut out: Vec<char> = Vec::new();
    let mut pending: Vec<char> = Vec::new();
    let mut classes: usize = 0;
    let mut methods: usize = 0;
    let mut fields: usize = 0;
    let mut changed = false;
    let mut i: usize = 0;
    while i < matches.len()
        invariant
            i <= matches@.len(),
            ms == matches@.map_values(|x: ResidualMatch| match_view(x)),
            (out@, pending@, classes as nat, methods as nat, fields as nat, changed)
                == residual_fold(*m, ms, i as int),
            classes + methods + fields <= i,
            ctag@ == class_tag(),
            mtag@ == method_tag(),
        decreases matches@.len() - i,
    {
        let mt = &matches[i];
        let gap = chars_of(mt.gap.as_str());
        let whole = chars_of(mt.whole.as_str());
        let pre = group_chars(&mt.pre);
        let prefix = group_chars(&mt.prefix);
        let key = if mt.key1.is_some() {
            group_chars(&mt.key1)
        } else {
            group_chars(&mt.key2)
        };
        assert(ms[i as int] == (gap@, whole@, pre@, prefix@, key@));
        match residual_lookup(m, key.as_slice(), prefix.as_slice()) {
            None => {
                push_all(&mut pending, gap.as_slice());
                push_all(&mut pending, whole.as_slice());
            },
            Some(rep) => {
                push_all(&mut out, pending.as_slice());
                push_all(&mut out, gap.as_slice());
                push_all(&mut out, pre.as_slice());
                push_all(&mut out, rep.as_slice());
                pending = Vec::new();
                if has_prefix(key.as_slice(), ctag.as_slice()) {
                    classes = classes + 1;
                } else if has_prefix(key.as_slice(), mtag.as_slice()) {
                    methods = methods + 1;
                } else {
                    fields = fields + 1;
                }
                changed = true;
            },
        }
        i = i + 1;
        assert((out@, pending@, classes as nat, methods as nat, fields as nat, changed)
            =~= residual_fold(*m, ms, i as int));
    }
    if !changed {
        return None;
    }
    let tail_chars = chars_of(tail);
    push_all(&mut out, pending.as_slice());
    push_all(&mut out, tail_chars.as_slice());
    Some((out, classes, methods, fields))
}

/// High-throughput deobfuscation engine for one mapping set.
///
/// Stack lines are parsed by hand and remapped structurally; other lines fall
/// back to one pass of the residual key pattern. Lookup tables are global
/// (`method_XXXX` / `field_XXXX` keys are globally unique).
pub struct LineEngine {
    mappings: Arc<Mappings>,
    pattern: ResidualPattern,
}

impl LineEngine {
    /// The tables this engine reads.
    pub closed spec fn tables(&self) -> Mappings {
        *self.mappings
    }

    pub fn new(mappings: Mappings) -> (e: Self)
        ensures
            e.tables() == mappings,
    {
        LineEngine { mappings: Arc::new(mappings), pattern: ResidualPattern::new() }
    }

    pub fn from_arc(mappings: Arc<Mappings>) -> (e: Self)
        ensures
            e.tables() == *mappings,
    {
        LineEngine { mappings, pattern: ResidualPattern::new() }
    }

    /// Residual pattern pass over a non-stack line.
    fn residual_replace(&self, line: &[char]) -> (r: Option<(Vec<char>, usize, usize, usize)>)
        ensures
            match r {
                Some((v, c, me, f)) => spec_residual_replace(self.tables(), line@) == Some(
                    (v@, c as nat, me as nat, f as nat),
                ) && c + me + f <= line@.len(),
                None => spec_residual_replace(self.tables(), line@) is None,
            },
            values_without(self.tables(), '\n') && !line@.contains('\n') ==> (r matches Some(
                (v, c, me, f),
            ) ==> !v@.contains('\n')),
    {
        let ctag = class_tag_chars();
        let mtag = method_tag_chars();
        let ftag = field_tag_chars();
        if !contains(line, ctag.as_slice()) && !contains(line, mtag.as_slice()) && !contains(
            line,
            ftag.as_slice(),
        ) {
            return None;
        }
        let text = string_of(line);
        self.pattern.check_source();
        match self.pattern.scan(text.as_str()) {
            Some((matches, tail)) => {
                proof {
                    if values_without(self.tables(), '\n') && !line@.contains('\n') {
                        lemma_residual_apply_without(
                            self.tables(),
                            matches@.map_values(|x: ResidualMatch| match_view(x)),
                            tail@,
                            line@,
                        );
                    }
                }
                residual_apply(&self.mappings, matches.as_slice(), tail.as_str())
            },
            None => None,
        }
    }

    /// One line without its line break, rewritten.
    fn deobfuscate_line(&self, text: &[char]) -> (r: (Vec<char>, usize, usize, usize))
        ensures
            (r.0@, r.1 as nat, r.2 as nat, r.3 as nat) == spec_line(self.tables(), text@),
            r.1 + r.2 + r.3 <= text@.len(),
            values_without(self.tables(), '\n') && !text@.contains('\n') ==> !r.0@.contains('\n'),
    {
        proof {
            if values_without(self.tables(), '\n') && !text@.contains('\n') {
                lemma_stack_line_without(self.tables(), text@);
            }
        }
        if let Some((mapped, ch, mh)) = map_stack_line(&self.mappings, text) {
            (mapped, if ch { 1 } else { 0 }, if mh { 1 } else { 0 }, 0)
        } else if let Some(r) = self.residual_replace(text) {
            r
        } else {
            let mut v: Vec<char> = Vec::new();
            push_all(&mut v, text);
            assert(v@ =~= text@);
            (v, 0, 0, 0)
        }
    }

    /// Deobfuscate a whole log: stack frames are remapped structurally, other
    /// lines through the residual key pattern; line breaks are kept and one
    /// `\r` before each line break is dropped.
    #[verifier::rlimit(40)]
    pub fn deobfuscate(&self, input: &str) -> (r: DeobfuscateResult)
        ensures
            (r.text@, r.classes_mapped as nat, r.methods_mapped as nat, r.fields_mapped as nat)
                == spec_deobfuscate(self.tables(), input@),
            values_without(self.tables(), '\n') ==> count_char(r.text@, '\n') == count_char(
                input@,
                '\n',
            ),
            input@.len() > 0 && input@.last() == '\n' ==> r.text@.len() > 0 && r.text@.last() == '\n',
    {
        let chars = chars_of(input);
        let n = chars.len();
        let ghost m = self.tables();
        let mut out: Vec<char> = Vec::new();
        let mut classes: usize = 0;
        let mut methods: usize = 0;
        let mut fields: usize = 0;
        let mut i: usize = 0;
        assert(chars@.subrange(0, n as int) =~= chars@);
        assert(out@ + spec_deobfuscate(m, chars@).0 =~= spec_deobfuscate(m, chars@).0);
        while i < n
            invariant
                n == chars@.len(),
                chars@ == input@,
                m == self.tables(),
                i <= n,
                classes + methods + fields <= i,
                values_without(m, '\n') ==> count_char(out@, '\n') == count_char(
                    chars@.subrange(0, i as int),
                    '\n',
                ),
                i > 0 && chars@[i - 1] == '\n' ==> out@.len() > 0 && out@.last() == '\n',
                ({
                    let rest = spec_deobfuscate(m, chars@.subrange(i as int, n as int));
                    let total = spec_deobfuscate(m, chars@);
                    &&& out@ + rest.0 == total.0
                    &&& classes + rest.1 == total.1
                    &&& methods + rest.2 == total.2
                    &&& fields + rest.3 == total.3
                }),
            decreases n - i,
        {
            let rest = vstd::slice::slice_subrange(chars.as_slice(), i, n);
            let ghost old_out = out@;
            let ghost old_counts = (classes as nat, methods as nat, fields as nat);
            let ghost total = spec_deobfuscate(m, chars@);
            let found = find_char_from(rest, '\n', 0);
            proof {
                lemma_find_char_bounds(rest@, '\n');
            }
            let line_end = match found {
                Some(j) => j,
                None => rest.len(),
            };
            let mut raw = vstd::slice::slice_subrange(rest, 0, line_end);
            if raw.len() > 0 && raw[raw.len() - 1] == '\r' {
                raw = vstd::slice::slice_subrange(raw, 0, raw.len() - 1);
            }
            assert(raw@ =~= strip_one_suffix(rest@.subrange(0, line_end as int), '\r'));
            proof {
                lemma_raw_line_without(rest@, line_end as int);
            }
            let (mapped, c, me, f) = self.deobfuscate_line(raw);
            push_all(&mut out, mapped.as_slice());
            classes = classes + c;
            methods = methods + me;
            fields = fields + f;
            let ghost lr = spec_line(m, raw@);
            match found {
                Some(j) => {
                    out.push('\n');
                    proof {
                        let tail = rest@.subrange(j + 1, rest@.len() as int);
                        assert(tail =~= chars@.subrange(i + j + 1, n as int));
                        assert(rest@.subrange(0, j as int) == rest@.subrange(0, line_end as int));
                        let rr = spec_deobfuscate(m, rest@);
                        let rt = spec_deobfuscate(m, tail);
                        assert(rr.0 == lr.0 + seq!['\n'] + rt.0);
                        assert(rr.1 == lr.1 + rt.1);
                        assert(out@ + rt.0 =~= old_out + rr.0);
                        assert(chars@.subrange(0, i + j + 1) =~= chars@.subrange(0, i as int)
                            + rest@.subrange(0, j as int) + seq!['\n']);
                        assert(out@ =~= old_out + mapped@ + seq!['\n']);
                        if values_without(m, '\n') {
                            lemma_count_line_step(
                                chars@.subrange(0, i as int),
                                rest@.subrange(0, j as int),
                                old_out,
                                mapped@,
                            );
                        }
                    }
                    i = i + j + 1;
                },
                None => {
                    proof {
                        assert(rest@.subrange(0, line_end as int) =~= rest@);
                        assert(chars@.subrange(n as int, n as int) =~= Seq::<char>::empty());
                        let rr = spec_deobfuscate(m, rest@);
                        assert(rr == lr);
                        assert(out@ + Seq::<char>::empty() =~= old_out + rr.0);
                        assert(chars@.subrange(0, n as int) =~= chars@.subrange(0, i as int) + rest@);
                        assert(out@ =~= old_out + mapped@);
                        assert(chars@[n - 1] == rest@[rest@.len() - 1]);
                        if values_without(m, '\n') {
                            lemma_count_line_step(chars@.subrange(0, i as int), rest@, old_out, mapped@);
                        }
                    }
                    i = n;
                },
            }
        }
        assert(chars@.subrange(n as int, n as int) =~= Seq::<char>::empty());
        DeobfuscateResult {
            text: string_of(out.as_slice()),
            classes_mapped: classes,
            methods_mapped: methods,
            fields_mapped: fields,
        }
    }
}

/// A pattern absent from a text is absent from every part of it.
proof fn lemma_absent_in_part(s: Seq<char>, p: Seq<char>, lo: int, hi: int)
    requires
        !contains_sub(s, p),
        0 <= lo <= hi <= s.len(),
    ensures
        !contains_sub(s.subrange(lo, hi), p),
{
    let t = s.subrange(lo, hi);
    lemma_find_from_bounds(s, p, 0);
    lemma_find_from_bounds(t, p, 0);
    if let Some(j) = find_sub(t, p) {
        assert(t.subrange(j, j + p.len()) =~= s.subrange(j + lo, j + lo + p.len()));
        assert(match_at(s, p, j + lo));
    }
}

/// A text that starts with a pattern contains it.
proof fn lemma_prefix_contained(s: Seq<char>, p: Seq<char>)
    requires
        starts_with(s, p),
    ensures
        contains_sub(s, p),
{
    assert(match_at(s, p, 0));
}

/// A line that mentions none of the key prefixes `class_`, `method_` and
/// `field_` is left as it is, with nothing counted.
pub proof fn law_keyless_line_unchanged(m: Mappings, line: Seq<char>)
    requires
        !contains_sub(line, class_tag()),
        !contains_sub(line, method_tag()),
        !contains_sub(line, field_tag()),
    ensures
        spec_line(m, line) == (line, 0nat, 0nat, 0nat),
{
    if let Some((lead, class_part, method, paren, suffix)) = spec_frame(line) {
        let content = line.subrange(lead, line.len() as int);
        let body = content.subrange(3, content.len() as int);
        let open = rfind_char(body, '(')->0;
        let call = body.subrange(0, open);
        let dot = rfind_char(call, '.')->0;
        lemma_run_end_bounds(line, 0, CharClass::Blank);
        lemma_rfind_bounds(body, '(', body.len() as int);
        lemma_rfind_bounds(call, '.', call.len() as int);
        lemma_absent_in_part(line, class_tag(), lead, line.len() as int);
        lemma_absent_in_part(content, class_tag(), 3, content.len() as int);
        lemma_absent_in_part(body, class_tag(), 0, open);
        lemma_absent_in_part(call, class_tag(), 0, dot);
        lemma_absent_in_part(line, method_tag(), lead, line.len() as int);
        lemma_absent_in_part(content, method_tag(), 3, content.len() as int);
        lemma_absent_in_part(body, method_tag(), 0, open);
        lemma_absent_in_part(call, method_tag(), dot + 1, call.len() as int);
        assert(class_part == call.subrange(0, dot));
        assert(method == call.subrange(dot + 1, call.len() as int));
        assert(embedded_class_key(class_part) is None);
        if starts_with(method, method_tag()) {
            lemma_prefix_contained(method, method_tag());
        }
        assert(spec_lookup_method(m, method) is None);
    }
}

/// A text that mentions none of the key prefixes and holds no carriage
/// return passes through the Yarn engine unchanged, with nothing counted.
pub proof fn law_keyless_text_unchanged(m: Mappings, s: Seq<char>)
    requires
        !contains_sub(s, class_tag()),
        !contains_sub(s, method_tag()),
        !contains_sub(s, field_tag()),
        !contains_char(s, '\r'),
    ensures
        spec_deobfuscate(m, s) == (s, 0nat, 0nat, 0nat),
    decreases s.len(),
{
    if s.len() > 0 {
        lemma_find_from_bounds(s, seq!['\r'], 0);
        lemma_find_from_bounds(s, seq!['\n'], 0);
        match find_char(s, '\n') {
            None => {
                assert(!match_at(s, seq!['\r'], s.len() - 1));
                assert(s.subrange(s.len() - 1, s.len() as int) =~= seq![s.last()]);
                assert(strip_one_suffix(s, '\r') == s);
                law_keyless_line_unchanged(m, s);
            },
            Some(j) => {
                let a = s.subrange(0, j);
                let b = s.subrange(j + 1, s.len() as int);
                assert(s.subrange(j, j + 1) =~= seq![s[j]]);
                if j > 0 {
                    assert(s.subrange(j - 1, j) =~= seq![s[j - 1]]);
                    assert(!match_at(s, seq!['\r'], j - 1));
                }
                assert(strip_one_suffix(a, '\r') == a);
                lemma_absent_in_part(s, class_tag(), 0, j);
                lemma_absent_in_part(s, method_tag(), 0, j);
                lemma_absent_in_part(s, field_tag(), 0, j);
                lemma_absent_in_part(s, class_tag(), j + 1, s.len() as int);
                lemma_absent_in_part(s, method_tag(), j + 1, s.len() as int);
                lemma_absent_in_part(s, field_tag(), j + 1, s.len() as int);
                lemma_absent_in_part(s, seq!['\r'], j + 1, s.len() as int);
                law_keyless_line_unchanged(m, a);
                law_keyless_text_unchanged(m, b);
                assert(a + seq!['\n'] + b =~= s);
            },
        }
    }
}

/// What a structured frame rewrite keeps: it answers only for a stack frame
/// whose class or method maps; the rewritten line keeps the frame's leading
/// blanks and `at `, and everything after its closing parenthesis; a mapped
/// method is a `method_` key of the method table.
pub proof fn law_frame_rewrite_shape(m: Mappings, line: Seq<char>)
    ensures
        spec_frame(line) is None ==> spec_map_stack_line(m, line) is None,
        spec_map_stack_line(m, line) matches Some((out, ch, mh)) ==> {
            &&& spec_frame(line) matches Some((lead, class_part, method, paren, suffix))
            &&& ch || mh
            &&& out.subrange(0, lead + 3) == line.subrange(0, lead) + at_tag()
            &&& out.subrange(out.len() - suffix.len(), out.len() as int) == suffix
            &&& mh ==> starts_with(method, method_tag()) && m.methods@.contains_key(method)
        },
{
    if let Some((lead, class_part, method, paren, suffix)) = spec_frame(line) {
        if let Some((out, ch, mh)) = spec_map_stack_line(m, line) {
            let head = line.subrange(0, lead) + at_tag();
            lemma_run_end_bounds(line, 0, CharClass::Blank);
            assert(out.subrange(0, lead + 3) =~= head);
            assert(out.subrange(out.len() - suffix.len(), out.len() as int) =~= suffix);
            if mh {
                assert(entry(&m.methods, method) is Some);
            }
        }
    }
}

/// How many of the first `n` residual matches have a replacement.
pub open spec fn replaced_count(
    m: Mappings,
    ms: Seq<(Seq<char>, Seq<char>, Seq<char>, Seq<char>, Seq<char>)>,
    n: int,
) -> nat
    decreases n,
{
    if n <= 0 {
        0
    } else {
        replaced_count(m, ms, n - 1) + if residual_replacement(m, ms[n - 1].4, ms[n - 1].3) is Some {
            1nat
        } else {
            0nat
        }
    }
}

/// The residual pass counts each replaced key once: the class, method and
/// field counters add up to the number of matches that have a replacement,
/// and the line counts as changed exactly when there is one.
pub proof fn law_residual_counts(
    m: Mappings,
    ms: Seq<(Seq<char>, Seq<char>, Seq<char>, Seq<char>, Seq<char>)>,
    n: int,
)
    ensures
        residual_fold(m, ms, n).2 + residual_fold(m, ms, n).3 + residual_fold(m, ms, n).4
            == replaced_count(m, ms, n),
        residual_fold(m, ms, n).5 == (replaced_count(m, ms, n) > 0),
    decreases n,
{
    if n > 0 {
        law_residual_counts(m, ms, n - 1);
    }
}

/// A part of a text that lacks a character lacks it too.
pub proof fn lemma_part_without(s: Seq<char>, ch: char, lo: int, hi: int)
    requires
        !s.contains(ch),
        0 <= lo <= hi <= s.len(),
    ensures
        !s.subrange(lo, hi).contains(ch),
{
    let t = s.subrange(lo, hi);
    if t.contains(ch) {
        let i = choose|i: int| 0 <= i < t.len() && t[i] == ch;
        assert(s[i + lo] == ch);
    }
}

/// The parts of a stack frame of a line that lacks a character lack it too.
pub proof fn lemma_frame_parts_without(line: Seq<char>, ch: char)
    requires
        !line.contains(ch),
    ensures
        spec_frame(line) matches Some((lead, class_part, method, paren, suffix)) ==> {
            &&& 0 <= lead <= line.len()
            &&& !line.subrange(0, lead).contains(ch)
            &&& !class_part.contains(ch)
            &&& !method.contains(ch)
            &&& !paren.contains(ch)
            &&& !suffix.contains(ch)
        },
{
    if let Some((lead, class_part, method, paren, suffix)) = spec_frame(line) {
        let content = line.subrange(lead, line.len() as int);
        let body = content.subrange(3, content.len() as int);
        let open = rfind_char(body, '(')->0;
        let close = rfind_char(body, ')')->0;
        let call = body.subrange(0, open);
        let dot = rfind_char(call, '.')->0;
        lemma_run_end_bounds(line, 0, CharClass::Blank);
        lemma_rfind_bounds(body, '(', body.len() as int);
        lemma_rfind_bounds(body, ')', body.len() as int);
        lemma_rfind_bounds(call, '.', call.len() as int);
        lemma_part_without(line, ch, 0, lead);
        lemma_part_without(line, ch, lead, line.len() as int);
        lemma_part_without(content, ch, 3, content.len() as int);
        lemma_part_without(body, ch, 0, open);
        lemma_part_without(body, ch, open + 1, close);
        lemma_part_without(body, ch, close + 1, body.len() as int);
        lemma_part_without(call, ch, 0, dot);
        lemma_part_without(call, ch, dot + 1, call.len() as int);
    }
}

/// How many times `c` occurs in `s`.
pub open spec fn count_char(s: Seq<char>, c: char) -> nat
    decreases s.len(),
{
    if s.len() == 0 {
        0
    } else {
        count_char(s.drop_last(), c) + if s.last() == c {
            1nat
        } else {
            0nat
        }
    }
}

/// Counts add up over a concatenation.
pub proof fn lemma_count_add(a: Seq<char>, b: Seq<char>, c: char)
    ensures
        count_char(a + b, c) == count_char(a, c) + count_char(b, c),
    decreases b.len(),
{
    if b.len() > 0 {
        assert((a + b).drop_last() =~= a + b.drop_last());
        lemma_count_add(a, b.drop_last(), c);
    } else {
        assert(a + b =~= a);
    }
}

/// A text that lacks a character counts none of it.
pub proof fn lemma_count_absent(s: Seq<char>, c: char)
    requires
        !s.contains(c),
    ensures
        count_char(s, c) == 0,
    decreases s.len(),
{
    if s.len() > 0 {
        lemma_part_without(s, c, 0, s.len() - 1);
        assert(s.drop_last() =~= s.subrange(0, s.len() - 1));
        lemma_count_absent(s.drop_last(), c);
        assert(s[s.len() - 1] != c);
    }
}

/// Two texts that lack a character make a text that lacks it.
pub proof fn lemma_concat_without(a: Seq<char>, b: Seq<char>, c: char)
    requires
        !a.contains(c),
        !b.contains(c),
    ensures
        !(a + b).contains(c),
{
    if (a + b).contains(c) {
        let i = choose|i: int| 0 <= i < (a + b).len() && (a + b)[i] == c;
        if i < a.len() {
            assert(a[i] == c);
        } else {
            assert(b[i - a.len()] == c);
        }
    }
}

/// The text before the first line break, with or without one trailing
/// `\r`, holds no line break.
proof fn lemma_raw_line_without(rest: Seq<char>, line_end: int)
    requires
        0 <= line_end <= rest.len(),
        forall|k: int| 0 <= k < line_end ==> rest[k] != '\n',
    ensures
        !rest.subrange(0, line_end).contains('\n'),
        !strip_one_suffix(rest.subrange(0, line_end), '\r').contains('\n'),
{
    let t = rest.subrange(0, line_end);
    assert(forall|i: int| 0 <= i < t.len() ==> t[i] == rest[i]);
    if t.len() > 0 {
        lemma_part_without(t, '\n', 0, t.len() - 1);
        assert(t.drop_last() =~= t.subrange(0, t.len() - 1));
    }
}

/// One more line of input and its rewrite, each followed by a line break or
/// not, keep the line break counts equal.
proof fn lemma_count_line_step(prev_in: Seq<char>, line: Seq<char>, prev_out: Seq<char>, mapped: Seq<char>)
    requires
        !line.contains('\n'),
        !mapped.contains('\n'),
        count_char(prev_out, '\n') == count_char(prev_in, '\n'),
    ensures
        count_char(prev_out + mapped, '\n') == count_char(prev_in + line, '\n'),
        count_char(prev_out + mapped + seq!['\n'], '\n') == count_char(prev_in + line + seq!['\n'], '\n'),
{
    lemma_count_absent(line, '\n');
    lemma_count_absent(mapped, '\n');
    lemma_count_add(prev_in, line, '\n');
    lemma_count_add(prev_out, mapped, '\n');
    lemma_count_add(prev_in + line, seq!['\n'], '\n');
    lemma_count_add(prev_out + mapped, seq!['\n'], '\n');
}

/// The parts of a text that lacks a character lack it too.
pub proof fn lemma_concat_parts_without(a: Seq<char>, b: Seq<char>, c: char)
    requires
        !(a + b).contains(c),
    ensures
        !a.contains(c),
        !b.contains(c),
{
    if a.contains(c) {
        let i = choose|i: int| 0 <= i < a.len() && a[i] == c;
        assert((a + b)[i] == c);
    }
    if b.contains(c) {
        let i = choose|i: int| 0 <= i < b.len() && b[i] == c;
        assert((a + b)[i + a.len()] == c);
    }
}

/// No named value of the tables holds `c`.
pub open spec fn values_without(m: Mappings, c: char) -> bool {
    &&& forall|k: Seq<char>| #[trigger] m.classes@.contains_key(k) ==> !m.classes@[k]@.contains(c)
    &&& forall|k: Seq<char>| #[trigger] m.nested@.contains_key(k) ==> !m.nested@[k]@.contains(c)
    &&& forall|k: Seq<char>| #[trigger] m.methods@.contains_key(k) ==> !m.methods@[k]@.contains(c)
    &&& forall|k: Seq<char>| #[trigger] m.fields@.contains_key(k) ==> !m.fields@[k]@.contains(c)
}

proof fn lemma_dotted_without(s: Seq<char>)
    requires
        !s.contains('\n'),
    ensures
        !replace_char(s, '/', '.').contains('\n'),
{
    let t = replace_char(s, '/', '.');
    if t.contains('\n') {
        let i = choose|i: int| 0 <= i < t.len() && t[i] == '\n';
        assert(s[i] == '\n');
    }
}

proof fn lemma_file_name_without(m: Mappings, paren: Seq<char>)
    requires
        values_without(m, '\n'),
        !paren.contains('\n'),
    ensures
        !spec_replace_file_name(m, paren).contains('\n'),
{
    lemma_rfind_bounds(paren, ':', paren.len() as int);
    let (file, line) = match rfind_char(paren, ':') {
        Some(i) => (paren.subrange(0, i), paren.subrange(i, paren.len() as int)),
        None => (paren, Seq::<char>::empty()),
    };
    if let Some(i) = rfind_char(paren, ':') {
        lemma_part_without(paren, '\n', 0, i);
        lemma_part_without(paren, '\n', i, paren.len() as int);
    }
    lemma_find_from_bounds(file, class_tag(), 0);
    if let Some((pos, key)) = embedded_class_key(file) {
        lemma_run_end_bounds(file, pos, CharClass::Key);
        if key.len() > class_tag().len() {
            if let Some(named) = resolve_class_key(m, key) {
                lemma_rfind_bounds(named, '/', named.len() as int);
                if let Some(j) = rfind_char(named, '/') {
                    lemma_part_without(named, '\n', j + 1, named.len() as int);
                }
                let seg = last_segment(named, '/');
                let head = file.subrange(0, pos);
                let rest = file.subrange(pos + key.len(), file.len() as int);
                lemma_part_without(file, '\n', 0, pos);
                lemma_part_without(file, '\n', pos + key.len(), file.len() as int);
                lemma_concat_without(head, seg, '\n');
                lemma_concat_without(head + seg, rest, '\n');
                lemma_concat_without(head + seg + rest, line, '\n');
            }
        }
    }
}

proof fn lemma_stack_line_without(m: Mappings, line: Seq<char>)
    requires
        values_without(m, '\n'),
        !line.contains('\n'),
    ensures
        spec_map_stack_line(m, line) matches Some((out, ch, mh)) ==> !out.contains('\n'),
{
    lemma_frame_parts_without(line, '\n');
    if let Some((lead, class_part, method, paren, suffix)) = spec_frame(line) {
        if let Some((out, ch, mh)) = spec_map_stack_line(m, line) {
            let cls = spec_lookup_class(m, class_part);
            let mth = spec_lookup_method(m, method);
            let new_class = match cls {
                Some(n) => replace_char(n, '/', '.'),
                None => spec_strip_module_prefix(class_part),
            };
            let new_method = match mth {
                Some(n) => n,
                None => method,
            };
            match cls {
                Some(n) => lemma_dotted_without(n),
                None => {
                    lemma_run_end_bounds(class_part, 0, CharClass::Module);
                    let i = run_end(class_part, 0, CharClass::Module);
                    if i > 0 && i < class_part.len() && class_part[i] == '/' {
                        lemma_run_end_bounds(class_part, i, CharClass::Slash);
                        lemma_part_without(
                            class_part,
                            '\n',
                            run_end(class_part, i, CharClass::Slash),
                            class_part.len() as int,
                        );
                    }
                },
            }
            lemma_file_name_without(m, paren);
            let p1 = line.subrange(0, lead) + at_tag();
            assert(!at_tag().contains('\n'));
            assert(!seq!['.'].contains('\n'));
            assert(!seq!['('].contains('\n'));
            assert(!seq![')'].contains('\n'));
            lemma_concat_without(line.subrange(0, lead), at_tag(), '\n');
            lemma_concat_without(p1, new_class, '\n');
            lemma_concat_without(p1 + new_class, seq!['.'], '\n');
            lemma_concat_without(p1 + new_class + seq!['.'], new_method, '\n');
            let p2 = p1 + new_class + seq!['.'] + new_method;
            lemma_concat_without(p2, seq!['('], '\n');
            lemma_concat_without(p2 + seq!['('], spec_replace_file_name(m, paren), '\n');
            let p3 = p2 + seq!['('] + spec_replace_file_name(m, paren);
            lemma_concat_without(p3, seq![')'], '\n');
            lemma_concat_without(p3 + seq![')'], suffix, '\n');
        }
    }
}

proof fn lemma_replacement_without(m: Mappings, key: Seq<char>, prefix: Seq<char>)
    requires
        values_without(m, '\n'),
    ensures
        residual_replacement(m, key, prefix) matches Some(rep) ==> !rep.contains('\n'),
{
    if starts_with(key, class_tag()) {
        let named = if m.classes@.contains_key(key) {
            entry(&m.classes, key)
        } else {
            entry(&m.nested, key)
        };
        if let Some(n) = named {
            lemma_dotted_without(n);
        }
    }
}

proof fn lemma_fold_without(
    m: Mappings,
    ms: Seq<(Seq<char>, Seq<char>, Seq<char>, Seq<char>, Seq<char>)>,
    n: int,
)
    requires
        values_without(m, '\n'),
        n <= ms.len(),
        forall|i: int|
            0 <= i < ms.len() ==> !(#[trigger] ms[i]).0.contains('\n') && !ms[i].1.contains('\n')
                && !ms[i].2.contains('\n'),
    ensures
        !residual_fold(m, ms, n).0.contains('\n'),
        !residual_fold(m, ms, n).1.contains('\n'),
    decreases n,
{
    if n > 0 {
        lemma_fold_without(m, ms, n - 1);
        let st = residual_fold(m, ms, n - 1);
        let (gap, whole, pre, prefix, key) = ms[n - 1];
        lemma_replacement_without(m, key, prefix);
        match residual_replacement(m, key, prefix) {
            None => {
                lemma_concat_without(st.1, gap, '\n');
                lemma_concat_without(st.1 + gap, whole, '\n');
            },
            Some(rep) => {
                lemma_concat_without(st.0, st.1, '\n');
                lemma_concat_without(st.0 + st.1, gap, '\n');
                lemma_concat_without(st.0 + st.1 + gap, pre, '\n');
                lemma_concat_without(st.0 + st.1 + gap + pre, rep, '\n');
            },
        }
    }
}

proof fn lemma_scanned_without(ms: Seq<(Seq<char>, Seq<char>, Seq<char>, Seq<char>, Seq<char>)>, c: char)
    requires
        !scanned_text(ms).contains(c),
    ensures
        forall|i: int| 0 <= i < ms.len() ==> !(#[trigger] ms[i]).0.contains(c) && !ms[i].1.contains(c),
    decreases ms.len(),
{
    if ms.len() > 0 {
        let a = scanned_text(ms.drop_last());
        lemma_concat_parts_without(a + ms.last().0, ms.last().1, c);
        lemma_concat_parts_without(a, ms.last().0, c);
        lemma_scanned_without(ms.drop_last(), c);
        assert forall|i: int| 0 <= i < ms.len() implies !(#[trigger] ms[i]).0.contains(c)
            && !ms[i].1.contains(c) by {
            if i < ms.len() - 1 {
                assert(ms[i] == ms.drop_last()[i]);
            }
        }
    }
}

/// The residual rewrite of a line without line breaks has none either, when
/// the matches spell the line and no named value holds a line break.
proof fn lemma_residual_apply_without(
    m: Mappings,
    ms: Seq<(Seq<char>, Seq<char>, Seq<char>, Seq<char>, Seq<char>)>,
    tail: Seq<char>,
    line: Seq<char>,
)
    requires
        values_without(m, '\n'),
        !line.contains('\n'),
        scanned_text(ms) + tail == line,
        forall|i: int| 0 <= i < ms.len() ==> (#[trigger] ms[i]).1 == ms[i].2 + ms[i].3 + ms[i].4,
    ensures
        spec_residual_apply(m, ms, tail) matches Some(r) ==> !r.0.contains('\n'),
{
    lemma_concat_parts_without(scanned_text(ms), tail, '\n');
    lemma_scanned_without(ms, '\n');
    assert forall|i: int| 0 <= i < ms.len() implies !(#[trigger] ms[i]).0.contains('\n')
        && !ms[i].1.contains('\n') && !ms[i].2.contains('\n') by {
        lemma_concat_parts_without(ms[i].2 + ms[i].3, ms[i].4, '\n');
        lemma_concat_parts_without(ms[i].2, ms[i].3, '\n');
    }
    lemma_fold_without(m, ms, ms.len() as int);
    let st = residual_fold(m, ms, ms.len() as int);
    lemma_concat_without(st.0, st.1, '\n');
    lemma_concat_without(st.0 + st.1, tail, '\n');
}

/// How a residual key is written: a method or field key becomes its named
/// value whatever precedes it; a class key becomes the named class as the
/// tables hold it (in `/` form) behind an empty or slash package prefix, and
/// behind a dotted package prefix (`net.minecraft.`) the same name with every
/// `/` written as `.`, so a dotted replacement holds no `/`.
pub proof fn law_residual_dotted_class(m: Mappings, key: Seq<char>, dotted: Seq<char>, plain: Seq<char>)
    requires
        contains_char(dotted, '.'),
        !contains_char(plain, '.'),
    ensures
        starts_with(key, class_tag()) && m.classes@.contains_key(key) ==> residual_replacement(m, key, plain)
            == Some(m.classes@[key]@),
        starts_with(key, class_tag()) ==> residual_replacement(m, key, dotted) == match residual_replacement(
            m,
            key,
            plain,
        ) {
            Some(n) => Some(replace_char(n, '/', '.')),
            None => None,
        },
        starts_with(key, class_tag()) ==> (residual_replacement(m, key, dotted) matches Some(r) ==> !r.contains('/')),
        starts_with(key, method_tag()) ==> residual_replacement(m, key, dotted) == residual_replacement(m, key, plain)
            && residual_replacement(m, key, plain) == entry(&m.methods, key),
{
    if let Some(r) = residual_replacement(m, key, dotted) {
        if starts_with(key, class_tag()) {
            if r.contains('/') {
                let i = choose|i: int| 0 <= i < r.len() && r[i] == '/';
                assert(r[i] == '/');
            }
        }
    }
    if starts_with(key, method_tag()) {
        assert(!starts_with(key, class_tag())) by {
            assert(key[0] == 'm');
            assert(class_tag()[0] == 'c');
        }
    }
}

} // verus!
