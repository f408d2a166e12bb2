//! The residual key pattern for non-stack lines.
use vstd::prelude::*;

verus! {

#[verifier::external_type_specification]
#[verifier::external_body]
pub struct ExRegex(regex::Regex);

/// One match of the residual pattern: the text that precedes it since the
/// previous match (`gap`), the whole match and its capture groups (`None`
/// for a group that did not take part in the match).
pub struct ResidualMatch {
    pub gap: String,
    pub whole: String,
    pub pre: Option<String>,
    pub key1: Option<String>,
    pub prefix: Option<String>,
    pub key2: Option<String>,
}

/// The text of an optional group, empty when the group is absent.
pub open spec fn group_text(g: Option<String>) -> Seq<char> {
    match g {
        Some(s) => s@,
        None => Seq::empty(),
    }
}

/// `(gap, whole, pre, prefix, key)` of a match, absent groups read as empty
/// and the key taken from whichever alternative matched.
pub open spec fn match_view(m: ResidualMatch) -> (Seq<char>, Seq<char>, Seq<char>, Seq<char>, Seq<char>) {
    (
        m.gap@,
        m.whole@,
        group_text(m.pre),
        group_text(m.prefix),
        if m.key1 is Some {
            group_text(m.key1)
        } else {
            group_text(m.key2)
        },
    )
}

/// The residual key pattern:
///
/// `(?:(?P<pre>^|[^\w$])(?P<key1>class_\d+|method_\d+|field_\d+)|(?P<prefix>net[./]minecraft[./])(?P<key2>class_\d+))\b`
///
/// Two alternatives: a bare `class_/method_/field_` key guarded by a leading
/// non-word character (so `Xclass_310` is not matched) and a trailing word
/// boundary; or `net[./]minecraft[./]class_N` with an explicit package prefix
/// (which tolerates the `L` of descriptors such as `Lnet/minecraft/class_X;`).
/// The greedy `\d+` makes `class_310` win over `class_31`.
pub open spec fn residual_source() -> Seq<char> {
    "(?:(?P<pre>^|[^\\w$])(?P<key1>class_\\d+|method_\\d+|field_\\d+)|(?P<prefix>net[./]minecraft[./])(?P<key2>class_\\d+))\\b"@
}

/// The text that a run of matches spans: each match's gap followed by the
/// match itself.
pub open spec fn scanned_text(ms: Seq<(Seq<char>, Seq<char>, Seq<char>, Seq<char>, Seq<char>)>) -> Seq<
    char,
>
    decreases ms.len(),
{
    if ms.len() == 0 {
        Seq::empty()
    } else {
        scanned_text(ms.drop_last()) + ms.last().0 + ms.last().1
    }
}

/// What the `regex` crate finds in a line for a pattern: the successive
/// non-overlapping matches of `captures_iter` (as `match_view` tuples) and the
/// text after the last one; `None` when the pattern does not compile.
pub uninterp spec fn regex_scan(pattern: Seq<char>, line: Seq<char>) -> Option<
    (Seq<(Seq<char>, Seq<char>, Seq<char>, Seq<char>, Seq<char>)>, Seq<char>),
>;

/// `regex::Regex::new`.
///
/// Trusted: nothing is promised here; what a compiled pattern finds is stated
/// by `ResidualPattern::scan` over the source it was compiled from.
#[verifier::external_body]
fn regex_compile(pattern: &str) -> (r: Option<regex::Regex>) {
    regex::Regex::new(pattern).ok()
}

/// The residual pattern with its source, compiled once.
pub struct ResidualPattern {
    source: String,
    re: Option<regex::Regex>,
}

impl ResidualPattern {
    #[verifier::type_invariant]
    closed spec fn inv(&self) -> bool {
        self.source@ == residual_source()
    }

    /// The source the pattern was compiled from.
    pub closed spec fn source(&self) -> Seq<char> {
        self.source@
    }

    /// Compile the residual pattern.
    pub(crate) fn new() -> (p: Self)
        ensures
            p.source() == residual_source(),
    {
        let source = "(?:(?P<pre>^|[^\\w$])(?P<key1>class_\\d+|method_\\d+|field_\\d+)|(?P<prefix>net[./]minecraft[./])(?P<key2>class_\\d+))\\b".to_owned();
        let re = regex_compile(source.as_str());
        ResidualPattern { source, re }
    }

    /// All matches of the pattern in `line`, via `regex::Regex::captures_iter`.
    ///
    /// Trusted: `re` holds what `Regex::new` gave for `source` (the only
    /// constructor compiles it so), so the result is `regex_scan(source, line)`:
    /// the matches that `captures_iter` yields, each turned into plain
    /// strings, plus the text after the last match, and `None` when `source`
    /// did not compile. The gaps and matches, in order, followed by the tail
    /// spell the line again (each gap is the text from the end of the previous
    /// match to the start of this one, the tail the text after the last).
    /// Of the residual pattern: every match spans at least `class_` and a
    /// digit and matches do not overlap, so there are fewer matches than
    /// characters; and a match is its guard (`pre`) or its package prefix
    /// followed by its key, the trailing `\b` taking no text.
    #[verifier::external_body]
    pub(crate) fn scan(&self, line: &str) -> (r: Option<(Vec<ResidualMatch>, String)>)
        ensures
            match r {
                Some((ms, tail)) => {
                    &&& regex_scan(self.source(), line@) == Some(
                        (ms@.map_values(|m: ResidualMatch| match_view(m)), tail@),
                    )
                    &&& scanned_text(ms@.map_values(|m: ResidualMatch| match_view(m))) + tail@ == line@
                    &&& self.source() == residual_source() ==> ms@.len() <= line@.len()
                    &&& self.source() == residual_source() ==> forall|i: int|
                        0 <= i < ms@.len() ==> (#[trigger] match_view(ms@[i])).1 == match_view(ms@[i]).2
                            + match_view(ms@[i]).3 + match_view(ms@[i]).4
                },
                None => regex_scan(self.source(), line@) is None,
            },
    {
        let re = self.re.as_ref()?;
        let mut last: usize = 0;
        let ms = re.captures_iter(line).map(|c| {
            let (m, group) = (c.get(0).unwrap(), |n: &str| c.name(n).map(|g| g.as_str().to_string()));
            let gap = line[last..m.start()].to_string();
            last = m.end();
            ResidualMatch { gap, whole: m.as_str().to_string(), pre: group("pre"), key1: group("key1"),
                prefix: group("prefix"), key2: group("key2") }
        }).collect();
        Some((ms, line[last..].to_string()))
    }

    /// The pattern is the residual pattern.
    pub(crate) fn check_source(&self)
        ensures
            self.source() == residual_source(),
    {
        proof {
            use_type_invariant(self);
        }
    }
}

} // verus!
