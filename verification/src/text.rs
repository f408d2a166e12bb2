//! Character-level text primitives shared by the parsers and the engines.
//!
//! Everything here works on `Seq<char>` in specifications and on `&[char]` /
//! `Vec<char>` in executable code. Log and mapping text only ever splits on
//! ASCII delimiters, so working on characters gives the same results as the
//! byte-oriented scanning the formats are usually described with.
use vstd::prelude::*;

verus! {

/// ASCII letter or digit.
pub open spec fn is_ascii_alnum(c: char) -> bool {
    ('a' <= c && c <= 'z') || ('A' <= c && c <= 'Z') || ('0' <= c && c <= '9')
}

/// ASCII decimal digit.
pub open spec fn is_ascii_digit(c: char) -> bool {
    '0' <= c && c <= '9'
}

/// Character classes that the scanners walk over.
#[derive(Clone, Copy, PartialEq, Eq)]
pub enum CharClass {
    /// `' '` or `'\t'`: the indentation in front of a stack frame.
    Blank,
    /// ASCII letters, digits and `_`: a module name such as `knot`.
    Module,
    /// ASCII letters, digits, `_` and `$`: an obfuscated key such as `class_1$class_2`.
    Key,
    /// `'/'`.
    Slash,
    /// `'\t'`.
    Tab,
}

pub open spec fn in_class(k: CharClass, c: char) -> bool {
    match k {
        CharClass::Blank => c == ' ' || c == '\t',
        CharClass::Module => is_ascii_alnum(c) || c == '_',
        CharClass::Key => is_ascii_alnum(c) || c == '_' || c == '$',
        CharClass::Slash => c == '/',
        CharClass::Tab => c == '\t',
    }
}

/// End of the longest run of `k`-characters that starts at `i`.
pub open spec fn run_end(s: Seq<char>, i: int, k: CharClass) -> int
    decreases s.len() - i,
{
    if 0 <= i < s.len() && in_class(k, s[i]) {
        run_end(s, i + 1, k)
    } else {
        i
    }
}

pub open spec fn starts_with(s: Seq<char>, p: Seq<char>) -> bool {
    p.len() <= s.len() && s.subrange(0, p.len() as int) == p
}

pub open spec fn match_at(s: Seq<char>, p: Seq<char>, i: int) -> bool {
    0 <= i && i + p.len() <= s.len() && s.subrange(i, i + p.len()) == p
}

/// First index `>= i` at which `p` occurs in `s`.
pub open spec fn find_from(s: Seq<char>, p: Seq<char>, i: int) -> Option<int>
    decreases s.len() + 1 - i,
{
    if i < 0 || i + p.len() > s.len() {
        None
    } else if match_at(s, p, i) {
        Some(i)
    } else {
        find_from(s, p, i + 1)
    }
}

/// First index at which `p` occurs in `s`.
pub open spec fn find_sub(s: Seq<char>, p: Seq<char>) -> Option<int> {
    find_from(s, p, 0)
}

pub open spec fn contains_sub(s: Seq<char>, p: Seq<char>) -> bool {
    find_sub(s, p) is Some
}

/// Last index `< n` holding `c`.
pub open spec fn rfind_before(s: Seq<char>, c: char, n: int) -> Option<int>
    decreases n,
{
    if n <= 0 {
        None
    } else if s[n - 1] == c {
        Some(n - 1)
    } else {
        rfind_before(s, c, n - 1)
    }
}

/// Last index holding `c`.
pub open spec fn rfind_char(s: Seq<char>, c: char) -> Option<int> {
    rfind_before(s, c, s.len() as int)
}

/// First index holding `c`.
pub open spec fn find_char(s: Seq<char>, c: char) -> Option<int> {
    find_sub(s, seq![c])
}

pub open spec fn contains_char(s: Seq<char>, c: char) -> bool {
    find_char(s, c) is Some
}

/// `s` with every `from` replaced by `to`.
pub open spec fn replace_char(s: Seq<char>, from: char, to: char) -> Seq<char> {
    s.map_values(|x: char| if x == from { to } else { x })
}

/// `s` without one trailing `c`, if it ends with one.
pub open spec fn strip_one_suffix(s: Seq<char>, c: char) -> Seq<char> {
    if s.len() > 0 && s.last() == c {
        s.drop_last()
    } else {
        s
    }
}

/// `s` without all trailing `c`.
pub open spec fn trim_end_char(s: Seq<char>, c: char) -> Seq<char>
    decreases s.len(),
{
    if s.len() > 0 && s.last() == c {
        trim_end_char(s.drop_last(), c)
    } else {
        s
    }
}

pub proof fn lemma_run_end_bounds(s: Seq<char>, i: int, k: CharClass)
    requires
        0 <= i <= s.len(),
    ensures
        i <= run_end(s, i, k) <= s.len(),
        forall|j: int| i <= j < run_end(s, i, k) ==> in_class(k, #[trigger] s[j]),
        run_end(s, i, k) < s.len() ==> !in_class(k, s[run_end(s, i, k)]),
    decreases s.len() - i,
{
    if i < s.len() && in_class(k, s[i]) {
        lemma_run_end_bounds(s, i + 1, k);
    }
}

pub proof fn lemma_find_from_bounds(s: Seq<char>, p: Seq<char>, i: int)
    requires
        0 <= i,
    ensures
        find_from(s, p, i) matches Some(j) ==> i <= j && j + p.len() <= s.len() && match_at(
            s,
            p,
            j,
        ),
        find_from(s, p, i) matches Some(j) ==> forall|k: int| i <= k < j ==> !match_at(s, p, k),
        find_from(s, p, i) is None ==> forall|k: int| i <= k ==> !match_at(s, p, k),
    decreases s.len() + 1 - i,
{
    if i < 0 || i + p.len() > s.len() {
    } else if match_at(s, p, i) {
    } else {
        lemma_find_from_bounds(s, p, i + 1);
    }
}

pub proof fn lemma_rfind_bounds(s: Seq<char>, c: char, n: int)
    requires
        n <= s.len(),
    ensures
        rfind_before(s, c, n) matches Some(j) ==> 0 <= j < n && s[j] == c && forall|k: int|
            j < k < n ==> s[k] != c,
        rfind_before(s, c, n) is None ==> forall|k: int| 0 <= k < n ==> s[k] != c,
    decreases n,
{
    if n > 0 && s[n - 1] != c {
        lemma_rfind_bounds(s, c, n - 1);
    }
}

pub proof fn lemma_find_char_bounds(s: Seq<char>, c: char)
    ensures
        find_char(s, c) matches Some(j) ==> 0 <= j < s.len() && s[j] == c && forall|k: int|
            0 <= k < j ==> s[k] != c,
        find_char(s, c) is None ==> forall|k: int| 0 <= k < s.len() ==> s[k] != c,
{
    lemma_find_from_bounds(s, seq![c], 0);
    if let Some(j) = find_char(s, c) {
        assert(s.subrange(j, j + 1)[0] == s[j]);
        assert forall|k: int| 0 <= k < j implies s[k] != c by {
            if s[k] == c {
                assert(s.subrange(k, k + 1) =~= seq![c]);
                assert(match_at(s, seq![c], k));
            }
        }
    } else {
        assert forall|k: int| 0 <= k < s.len() implies s[k] != c by {
            if s[k] == c {
                assert(s.subrange(k, k + 1) =~= seq![c]);
                assert(match_at(s, seq![c], k));
            }
        }
    }
}

pub fn class_member(k: CharClass, c: char) -> (r: bool)
    ensures
        r == in_class(k, c),
{
    match k {
        CharClass::Blank => c == ' ' || c == '\t',
        CharClass::Module => ascii_alnum(c) || c == '_',
        CharClass::Key => ascii_alnum(c) || c == '_' || c == '$',
        CharClass::Slash => c == '/',
        CharClass::Tab => c == '\t',
    }
}

pub fn ascii_alnum(c: char) -> (r: bool)
    ensures
        r == is_ascii_alnum(c),
{
    ('a' <= c && c <= 'z') || ('A' <= c && c <= 'Z') || ('0' <= c && c <= '9')
}

/// End of the run of `k`-characters starting at `i`.
pub fn scan_run(s: &[char], i: usize, k: CharClass) -> (j: usize)
    requires
        i <= s@.len(),
    ensures
        j as int == run_end(s@, i as int, k),
        i <= j <= s@.len(),
{
    let mut j = i;
    while j < s.len() && class_member(k, s[j])
        invariant
            i <= j <= s@.len(),
            run_end(s@, i as int, k) == run_end(s@, j as int, k),
        decreases s@.len() - j,
    {
        j = j + 1;
    }
    j
}

/// Whether `p` occurs in `s` at `i`.
pub fn matches_at(s: &[char], p: &[char], i: usize) -> (r: bool)
    ensures
        r == match_at(s@, p@, i as int),
{
    let n = s.len();
    if i > n || p.len() > n - i {
        return false;
    }
    let mut k: usize = 0;
    while k < p.len()
        invariant
            n == s@.len(),
            i + p@.len() <= n,
            k <= p@.len(),
            forall|t: int| 0 <= t < k ==> s@[i + t] == p@[t],
        decreases p@.len() - k,
    {
        if s[i + k] != p[k] {
            assert(s@.subrange(i as int, i + p@.len())[k as int] != p@[k as int]);
            return false;
        }
        k = k + 1;
    }
    assert(s@.subrange(i as int, i + p@.len()) =~= p@);
    true
}

/// First occurrence of `p` in `s` at or after `from`.
pub fn find_sub_from(s: &[char], p: &[char], from: usize) -> (r: Option<usize>)
    ensures
        match r {
            Some(j) => find_from(s@, p@, from as int) == Some(j as int),
            None => find_from(s@, p@, from as int) is None,
        },
{
    let mut i = from;
    while i <= s.len() && p.len() <= s.len() - i
        invariant
            from <= i,
            find_from(s@, p@, from as int) == find_from(s@, p@, i as int),
        decreases s@.len() + 1 - i,
    {
        if matches_at(s, p, i) {
            return Some(i);
        }
        assert(p@.len() > 0) by {
            if p@.len() == 0 {
                assert(s@.subrange(i as int, i as int) =~= p@);
            }
        }
        i = i + 1;
    }
    None
}

/// First occurrence of `p` in `s`.
pub fn find(s: &[char], p: &[char]) -> (r: Option<usize>)
    ensures
        match r {
            Some(j) => find_sub(s@, p@) == Some(j as int),
            None => find_sub(s@, p@) is None,
        },
{
    find_sub_from(s, p, 0)
}

/// Whether `p` occurs in `s`.
pub fn contains(s: &[char], p: &[char]) -> (r: bool)
    ensures
        r == contains_sub(s@, p@),
{
    find(s, p).is_some()
}

/// Whether `s` starts with `p`.
pub fn has_prefix(s: &[char], p: &[char]) -> (r: bool)
    ensures
        r == starts_with(s@, p@),
{
    matches_at(s, p, 0)
}

/// Last index holding `c`.
pub fn rfind(s: &[char], c: char) -> (r: Option<usize>)
    ensures
        match r {
            Some(j) => rfind_char(s@, c) == Some(j as int),
            None => rfind_char(s@, c) is None,
        },
{
    let mut n = s.len();
    while n > 0
        invariant
            n <= s@.len(),
            rfind_char(s@, c) == rfind_before(s@, c, n as int),
        decreases n,
    {
        if s[n - 1] == c {
            return Some(n - 1);
        }
        n = n - 1;
    }
    None
}

/// First index holding `c` at or after `from`.
pub fn find_char_from(s: &[char], c: char, from: usize) -> (r: Option<usize>)
    ensures
        match r {
            Some(j) => find_from(s@, seq![c], from as int) == Some(j as int),
            None => find_from(s@, seq![c], from as int) is None,
        },
{
    let mut i = from;
    while i < s.len()
        invariant
            from <= i,
            find_from(s@, seq![c], from as int) == find_from(s@, seq![c], i as int),
        decreases s@.len() - i,
    {
        if s[i] == c {
            assert(s@.subrange(i as int, i + 1) =~= seq![c]);
            return Some(i);
        }
        assert(s@.subrange(i as int, i + 1)[0] == s@[i as int]);
        i = i + 1;
    }
    None
}

/// Whether `s` holds `c`.
pub fn has_char(s: &[char], c: char) -> (r: bool)
    ensures
        r == contains_char(s@, c),
{
    find_char_from(s, c, 0).is_some()
}

/// Whether the two character sequences are equal.
pub fn chars_eq(a: &[char], b: &[char]) -> (r: bool)
    ensures
        r == (a@ == b@),
{
    if a.len() != b.len() {
        return false;
    }
    let r = matches_at(a, b, 0);
    assert(a@.subrange(0, b@.len() as int) =~= a@);
    r
}

/// Append all of `s` to `out`.
pub fn push_all(out: &mut Vec<char>, s: &[char])
    ensures
        final(out)@ == old(out)@ + s@,
{
    let ghost start = out@;
    let mut i: usize = 0;
    while i < s.len()
        invariant
            i <= s@.len(),
            out@ == start + s@.subrange(0, i as int),
        decreases s@.len() - i,
    {
        out.push(s[i]);
        i = i + 1;
        assert(out@ =~= start + s@.subrange(0, i as int));
    }
    assert(s@.subrange(0, s@.len() as int) =~= s@);
}

/// A copy of `s[i..j]`.
pub fn copy_range(s: &[char], i: usize, j: usize) -> (v: Vec<char>)
    requires
        i <= j <= s@.len(),
    ensures
        v@ == s@.subrange(i as int, j as int),
{
    let mut v: Vec<char> = Vec::new();
    push_all(&mut v, vstd::slice::slice_subrange(s, i, j));
    v
}

/// `s` with every `from` replaced by `to`.
pub fn replaced(s: &[char], from: char, to: char) -> (v: Vec<char>)
    ensures
        v@ == replace_char(s@, from, to),
{
    let mut v: Vec<char> = Vec::new();
    let mut i: usize = 0;
    while i < s.len()
        invariant
            i <= s@.len(),
            v@ == replace_char(s@.subrange(0, i as int), from, to),
        decreases s@.len() - i,
    {
        if s[i] == from {
            v.push(to);
        } else {
            v.push(s[i]);
        }
        i = i + 1;
        assert(v@ =~= replace_char(s@.subrange(0, i as int), from, to));
    }
    assert(s@.subrange(0, s@.len() as int) =~= s@);
    v
}


/// Whether `c` has the Unicode `White_Space` property: U+0009 to U+000D,
/// U+0020, U+0085, U+00A0, U+1680, U+2000 to U+200A, U+2028, U+2029, U+202F,
/// U+205F and U+3000.
pub open spec fn white_space(c: char) -> bool {
    let n = c as int;
    ||| 0x9 <= n <= 0xd
    ||| n == 0x20
    ||| n == 0x85
    ||| n == 0xa0
    ||| n == 0x1680
    ||| 0x2000 <= n <= 0x200a
    ||| n == 0x2028
    ||| n == 0x2029
    ||| n == 0x202f
    ||| n == 0x205f
    ||| n == 0x3000
}

/// Whether `c` is white space (the `White_Space` property that
/// `char::is_whitespace` and `str::trim` use).
pub(crate) fn is_white(c: char) -> (r: bool)
    ensures
        r == white_space(c),
{
    let n = c as u32;
    (0x9 <= n && n <= 0xd) || n == 0x20 || n == 0x85 || n == 0xa0 || n == 0x1680 || (0x2000 <= n && n
        <= 0x200a) || n == 0x2028 || n == 0x2029 || n == 0x202f || n == 0x205f || n == 0x3000
}

/// First index `>= i` that is not white space (or `s.len()`).
pub open spec fn white_run_end(s: Seq<char>, i: int) -> int
    decreases s.len() - i,
{
    if 0 <= i < s.len() && white_space(s[i]) {
        white_run_end(s, i + 1)
    } else {
        i
    }
}

/// Largest `k <= n` such that `s[k - 1]` is not white space (or 0).
pub open spec fn white_trail_start(s: Seq<char>, n: int) -> int
    decreases n,
{
    if n > 0 && white_space(s[n - 1]) {
        white_trail_start(s, n - 1)
    } else {
        n
    }
}

/// `s` without leading white space (`str::trim_start`).
pub open spec fn trim_start(s: Seq<char>) -> Seq<char> {
    s.subrange(white_run_end(s, 0), s.len() as int)
}

/// `s` without trailing white space (`str::trim_end`).
pub open spec fn trim_end(s: Seq<char>) -> Seq<char> {
    s.subrange(0, white_trail_start(s, s.len() as int))
}

/// `s` without leading and trailing white space (`str::trim`).
pub open spec fn trim(s: Seq<char>) -> Seq<char> {
    trim_end(trim_start(s))
}

/// The pieces of `s` between occurrences of `c` (`str::split`): always at
/// least one piece; a trailing `c` gives an empty last piece.
pub open spec fn split_char(s: Seq<char>, c: char) -> Seq<Seq<char>>
    decreases s.len(),
{
    match find_char(s, c) {
        None => seq![s],
        Some(j) => if 0 <= j < s.len() {
            seq![s.subrange(0, j)] + split_char(s.subrange(j + 1, s.len() as int), c)
        } else {
            seq![s]
        },
    }
}

pub proof fn lemma_white_run_end_bounds(s: Seq<char>, i: int)
    requires
        0 <= i <= s.len(),
    ensures
        i <= white_run_end(s, i) <= s.len(),
        white_run_end(s, i) < s.len() ==> !white_space(s[white_run_end(s, i)]),
    decreases s.len() - i,
{
    if i < s.len() && white_space(s[i]) {
        lemma_white_run_end_bounds(s, i + 1);
    }
}

pub proof fn lemma_white_trail_bounds(s: Seq<char>, n: int)
    requires
        0 <= n <= s.len(),
    ensures
        0 <= white_trail_start(s, n) <= n,
    decreases n,
{
    if n > 0 && white_space(s[n - 1]) {
        lemma_white_trail_bounds(s, n - 1);
    }
}

/// `str::trim_start`.
pub fn trimmed_start(s: &[char]) -> (r: &[char])
    ensures
        r@ == trim_start(s@),
{
    let n = s.len();
    let mut i: usize = 0;
    while i < n && is_white(s[i])
        invariant
            n == s@.len(),
            i <= n,
            white_run_end(s@, 0) == white_run_end(s@, i as int),
        decreases n - i,
    {
        i = i + 1;
    }
    vstd::slice::slice_subrange(s, i, n)
}

/// `str::trim_end`.
pub fn trimmed_end(s: &[char]) -> (r: &[char])
    ensures
        r@ == trim_end(s@),
{
    let mut n = s.len();
    while n > 0 && is_white(s[n - 1])
        invariant
            n <= s@.len(),
            white_trail_start(s@, s@.len() as int) == white_trail_start(s@, n as int),
        decreases n,
    {
        n = n - 1;
    }
    vstd::slice::slice_subrange(s, 0, n)
}

/// `str::trim`.
pub fn trimmed(s: &[char]) -> (r: &[char])
    ensures
        r@ == trim(s@),
{
    trimmed_end(trimmed_start(s))
}

/// `s` without all trailing `c` (`str::trim_end_matches`).
pub fn trimmed_end_char(s: &[char], c: char) -> (r: &[char])
    ensures
        r@ == trim_end_char(s@, c),
{
    let mut n = s.len();
    assert(s@.subrange(0, n as int) =~= s@);
    while n > 0 && s[n - 1] == c
        invariant
            n <= s@.len(),
            trim_end_char(s@, c) == trim_end_char(s@.subrange(0, n as int), c),
        decreases n,
    {
        assert(s@.subrange(0, n as int).drop_last() =~= s@.subrange(0, n - 1));
        n = n - 1;
    }
    vstd::slice::slice_subrange(s, 0, n)
}

/// The pieces of `s` between occurrences of `c` (`str::split`).
pub fn split_on(s: &[char], c: char) -> (parts: Vec<Vec<char>>)
    ensures
        parts@.map_values(|p: Vec<char>| p@) == split_char(s@, c),
{
    let n = s.len();
    let mut parts: Vec<Vec<char>> = Vec::new();
    let mut i: usize = 0;
    assert(s@.subrange(0, n as int) =~= s@);
    assert(parts@.map_values(|p: Vec<char>| p@) + split_char(s@, c) =~= split_char(s@, c));
    loop
        invariant
            n == s@.len(),
            i <= n,
            parts@.map_values(|p: Vec<char>| p@) + split_char(s@.subrange(i as int, n as int), c)
                == split_char(s@, c),
        decreases n - i,
    {
        let rest = vstd::slice::slice_subrange(s, i, n);
        let ghost old_parts = parts@.map_values(|p: Vec<char>| p@);
        proof {
            lemma_find_char_bounds(rest@, c);
        }
        match find_char_from(rest, c, 0) {
            None => {
                let piece = copy_range(rest, 0, rest.len());
                parts.push(piece);
                proof {
                    assert(rest@.subrange(0, rest@.len() as int) =~= rest@);
                    assert(parts@.map_values(|p: Vec<char>| p@) =~= old_parts + seq![rest@]);
                }
                return parts;
            },
            Some(j) => {
                let piece = copy_range(rest, 0, j);
                parts.push(piece);
                proof {
                    let tail = rest@.subrange(j + 1, rest@.len() as int);
                    assert(tail =~= s@.subrange(i + j + 1, n as int));
                    assert(parts@.map_values(|p: Vec<char>| p@) =~= old_parts + seq![
                        rest@.subrange(0, j as int),
                    ]);
                    assert(split_char(rest@, c) == seq![rest@.subrange(0, j as int)]
                        + split_char(tail, c));
                    assert(parts@.map_values(|p: Vec<char>| p@) + split_char(tail, c)
                        =~= old_parts + split_char(rest@, c));
                }
                i = i + j + 1;
            },
        }
    }
}



/// Value of a string of ASCII digits.
pub open spec fn digits_value(s: Seq<char>) -> nat
    decreases s.len(),
{
    if s.len() == 0 {
        0
    } else {
        digits_value(s.drop_last()) * 10 + ((s.last() as int - '0' as int) as nat)
    }
}

pub open spec fn all_digits(s: Seq<char>) -> bool {
    forall|i: int| 0 <= i < s.len() ==> is_ascii_digit(#[trigger] s[i])
}

/// What `str::parse` gives for an unsigned integer type whose largest value
/// is `max`: an optional `+`, then one or more ASCII digits whose value is at
/// most `max`.
pub open spec fn parse_unsigned_spec(s: Seq<char>, max: nat) -> Option<nat> {
    let d = if s.len() > 0 && s[0] == '+' {
        s.subrange(1, s.len() as int)
    } else {
        s
    };
    if d.len() == 0 || !all_digits(d) || digits_value(d) > max {
        None
    } else {
        Some(digits_value(d))
    }
}

proof fn lemma_digits_value_grows(s: Seq<char>, k: int)
    requires
        0 <= k <= s.len(),
        all_digits(s),
    ensures
        digits_value(s.subrange(0, k)) <= digits_value(s),
    decreases s.len() - k,
{
    if k < s.len() {
        lemma_digits_value_grows(s, k + 1);
        let a = s.subrange(0, k);
        let b = s.subrange(0, k + 1);
        assert(b.drop_last() =~= a);
        assert(is_ascii_digit(s[k]));
        assert(digits_value(b) == digits_value(a) * 10 + ((b.last() as int - '0' as int) as nat));
        assert(digits_value(a) <= digits_value(a) * 10) by (nonlinear_arith);
    } else {
        assert(s.subrange(0, k) =~= s);
    }
}

/// `str::parse` for an unsigned integer type whose largest value is `max`.
pub fn parse_unsigned(s: &[char], max: u64) -> (r: Option<u64>)
    ensures
        match r {
            Some(v) => parse_unsigned_spec(s@, max as nat) == Some(v as nat),
            None => parse_unsigned_spec(s@, max as nat) is None,
        },
{
    let d = if s.len() > 0 && s[0] == '+' {
        vstd::slice::slice_subrange(s, 1, s.len())
    } else {
        s
    };
    if d.len() == 0 {
        return None;
    }
    let mut v: u64 = 0;
    let mut i: usize = 0;
    while i < d.len()
        invariant
            i <= d@.len(),
            d@ == (if s@.len() > 0 && s@[0] == '+' {
                s@.subrange(1, s@.len() as int)
            } else {
                s@
            }),
            d@.len() > 0,
            v as nat == digits_value(d@.subrange(0, i as int)),
            v <= max,
            all_digits(d@.subrange(0, i as int)),
        decreases d@.len() - i,
    {
        let c = d[i];
        if c < '0' || c > '9' {
            assert(!is_ascii_digit(d@[i as int]));
            assert(!all_digits(d@));
            return None;
        }
        let digit = (c as u32 - '0' as u32) as u64;
        assert(d@.subrange(0, i + 1).drop_last() =~= d@.subrange(0, i as int));
        if digit > max || v > (max - digit) / 10 {
            proof {
                assert(v * 10 + digit > max) by (nonlinear_arith)
                    requires
                        digit > max || v > (max - digit) / 10,
                ;
                if all_digits(d@) {
                    lemma_digits_value_grows(d@, i + 1);
                }
            }
            return None;
        }
        assert(v * 10 + digit <= max) by (nonlinear_arith)
            requires
                v <= (max - digit) / 10,
                digit <= max,
        ;
        v = v * 10 + digit;
        i = i + 1;
        assert(all_digits(d@.subrange(0, i as int)));
    }
    assert(d@.subrange(0, d@.len() as int) =~= d@);
    Some(v)
}


/// Last index `k <= i` at which `p` occurs in `s`.
pub open spec fn rfind_sub_from(s: Seq<char>, p: Seq<char>, i: int) -> Option<int>
    decreases i + 1,
{
    if i < 0 {
        None
    } else if match_at(s, p, i) {
        Some(i)
    } else {
        rfind_sub_from(s, p, i - 1)
    }
}

/// Last index at which `p` occurs in `s`.
pub open spec fn rfind_sub(s: Seq<char>, p: Seq<char>) -> Option<int> {
    rfind_sub_from(s, p, s.len() - p.len())
}

/// `str::rsplit_once` with a string pattern: the parts before and after the
/// last occurrence of `p`.
pub open spec fn split_last(s: Seq<char>, p: Seq<char>) -> Option<(Seq<char>, Seq<char>)> {
    match rfind_sub(s, p) {
        Some(k) => Some((s.subrange(0, k), s.subrange(k + p.len(), s.len() as int))),
        None => None,
    }
}

pub proof fn lemma_rfind_sub_bounds(s: Seq<char>, p: Seq<char>, i: int)
    ensures
        rfind_sub_from(s, p, i) matches Some(k) ==> 0 <= k <= i && match_at(s, p, k),
    decreases i + 1,
{
    if i >= 0 && !match_at(s, p, i) {
        lemma_rfind_sub_bounds(s, p, i - 1);
    }
}

/// Last occurrence of `p` in `s`.
pub fn rfind_str(s: &[char], p: &[char]) -> (r: Option<usize>)
    ensures
        match r {
            Some(k) => rfind_sub(s@, p@) == Some(k as int) && k + p@.len() <= s@.len(),
            None => rfind_sub(s@, p@) is None,
        },
{
    if p.len() > s.len() {
        assert(rfind_sub(s@, p@) is None);
        return None;
    }
    let mut i: usize = s.len() - p.len();
    loop
        invariant
            i <= s@.len() - p@.len(),
            rfind_sub(s@, p@) == rfind_sub_from(s@, p@, i as int),
        decreases i,
    {
        if matches_at(s, p, i) {
            return Some(i);
        }
        if i == 0 {
            assert(rfind_sub_from(s@, p@, -1) is None);
            return None;
        }
        i = i - 1;
    }
}

/// `str::rsplit_once` with a string pattern.
pub fn split_last_str<'a>(s: &'a [char], p: &[char]) -> (r: Option<(&'a [char], &'a [char])>)
    ensures
        match r {
            Some((a, b)) => split_last(s@, p@) == Some((a@, b@)),
            None => split_last(s@, p@) is None,
        },
{
    let n = s.len();
    match rfind_str(s, p) {
        Some(k) => Some(
            (vstd::slice::slice_subrange(s, 0, k), vstd::slice::slice_subrange(s, k + p.len(), n)),
        ),
        None => None,
    }
}

/// `std::str::from_utf8`.
///
/// Trusted: `from_utf8` succeeds exactly on valid UTF-8 and the resulting
/// string slice holds the decoded characters.
#[verifier::external_body]
pub(crate) fn utf8_str(bytes: &[u8]) -> (r: Option<&str>)
    ensures
        r is Some <==> vstd::utf8::valid_utf8(bytes@),
        r matches Some(s) ==> s@ == vstd::utf8::decode_utf8(bytes@),
{
    std::str::from_utf8(bytes).ok()
}

/// The characters of a string slice, in order.
pub fn chars_of(s: &str) -> (v: Vec<char>)
    ensures
        v@ == s@,
{
    let mut v: Vec<char> = Vec::new();
    for c in it: s.chars()
        invariant
            v@ == it.seq().take(it.index() as int),
            it.seq() == s@,
    {
        v.push(c);
    }
    v
}

/// A `String` holding exactly the given characters.
///
/// Trusted: `FromIterator<&char> for String` appends the characters in
/// iteration order, so the result's characters are those of `chars`.
#[verifier::external_body]
pub(crate) fn string_of(chars: &[char]) -> (s: String)
    ensures
        s@ == chars@,
{
    chars.iter().collect()
}

/// `a` followed by `b`.
pub fn cat(a: &str, b: &str) -> (r: String)
    ensures
        r@ == a@ + b@,
{
    let mut out = chars_of(a);
    push_all(&mut out, chars_of(b).as_slice());
    string_of(out.as_slice())
}

/// The character of a decimal digit.
pub open spec fn digit_char(d: nat) -> char {
    (d + 48) as char
}

/// The decimal representation of a number, as `usize::to_string` writes it.
pub open spec fn decimal(n: nat) -> Seq<char>
    decreases n,
{
    if n < 10 {
        seq![digit_char(n)]
    } else {
        decimal(n / 10).push(digit_char(n % 10))
    }
}

/// Append the decimal representation of `n`.
pub fn push_decimal(out: &mut Vec<char>, n: usize)
    ensures
        final(out)@ == old(out)@ + decimal(n as nat),
    decreases n,
{
    if n >= 10 {
        push_decimal(out, n / 10);
    }
    let d: u8 = (n % 10) as u8;
    out.push((d + 48u8) as char);
    assert(digit_char((n % 10) as nat) == (d + 48u8) as char);
}

/// The decimal representation of `n`.
pub fn decimal_string(n: usize) -> (s: String)
    ensures
        s@ == decimal(n as nat),
{
    let mut out: Vec<char> = Vec::new();
    push_decimal(&mut out, n);
    assert(out@ =~= decimal(n as nat));
    string_of(out.as_slice())
}

} // verus!
