//! Version tokens, Fabric Maven build selection, gzipped tiny decoding and the
//! plan that keeps a downloadable mapping file available locally.
use std::io::Read;

use vstd::prelude::*;

use crate::mapping::dispatcher::{
    join_path, local_path, spec_local_path, tiny_gz_suffix, txt_suffix, vanilla_word, MappingType,
};
use crate::mapping::tiny_v2::{
    failure_message, finish_tables, mappings_view, parse_checked, read_bytes, Mappings,
    TinyOutcome,
};
use crate::text::{
    ascii_alnum, cat, chars_of, contains, contains_char, contains_sub, find_char,
    lemma_find_from_bounds, is_ascii_alnum, parse_unsigned,
    parse_unsigned_spec, push_all, string_of,
};

verus! {

#[verifier::external_type_specification]
#[verifier::external_body]
pub struct ExIoError(std::io::Error);

/// Why a Yarn mapping could not be made available or loaded.
pub enum MappingLoadError {
    Io(std::io::Error),
    Parse(String),
    Network(String),
}

/// A character allowed in a version token.
pub open spec fn version_char(c: char) -> bool {
    is_ascii_alnum(c) || c == '.' || c == '-' || c == '_'
}

/// A plain Minecraft version token: 1 to 64 characters from `[A-Za-z0-9._-]`,
/// starting with a letter or digit, and no `..` (no path separators, no
/// traversal).
pub open spec fn valid_version(v: Seq<char>) -> bool {
    &&& 0 < v.len() <= 64
    &&& is_ascii_alnum(v[0])
    &&& forall|i: int| 0 <= i < v.len() ==> version_char(#[trigger] v[i])
    &&& !contains_sub(v, seq!['.', '.'])
}

/// A version used in a file path must be a plain Minecraft version token.
/// Rejects path separators and `..` to prevent path traversal, e.g.
/// `version = "../../etc/passwd"`.
pub fn is_valid_version(version: &str) -> (r: bool)
    ensures
        r == valid_version(version@),
{
    let v = chars_of(version);
    let n = v.len();
    if n == 0 || n > 64 {
        return false;
    }
    if !ascii_alnum(v[0]) {
        return false;
    }
    let mut i: usize = 0;
    while i < n
        invariant
            n == v@.len(),
            v@ == version@,
            i <= n,
            forall|j: int| 0 <= j < i ==> version_char(#[trigger] v@[j]),
        decreases n - i,
    {
        let c = v[i];
        if !(ascii_alnum(c) || c == '.' || c == '-' || c == '_') {
            assert(!version_char(v@[i as int]));
            return false;
        }
        i = i + 1;
    }
    !contains(v.as_slice(), vec!['.', '.'].as_slice())
}

/// What the `regex` crate's `is_match` answers for a pattern and a text;
/// `None` when the pattern does not compile.
pub uninterp spec fn regex_matches(pattern: Seq<char>, text: Seq<char>) -> Option<bool>;

/// `regex::Regex::new` then `is_match`.
///
/// Trusted: the answer depends on the pattern and the text alone
/// (`regex_matches`), `None` standing for a pattern that does not compile.
#[verifier::external_body]
fn regex_is_match(pattern: &str, text: &str) -> (r: Option<bool>)
    ensures
        r == regex_matches(pattern@, text@),
{
    regex::Regex::new(pattern).ok().map(|re| re.is_match(text))
}

/// The pattern of versions that ship Yarn mappings: the `1.x` series, with
/// `-pre`/`-rc` builds.
pub open spec fn downloadable_pattern() -> Seq<char> {
    "^1\\.\\d{1,2}(\\.\\d{1,2})?(-(pre|rc)\\d+)?$"@
}

/// Whether a version matches the downloadable pattern.
pub open spec fn downloadable_token(version: Seq<char>) -> bool {
    regex_matches(downloadable_pattern(), version) == Some(true)
}

/// Candidate Minecraft version token for runtime auto-download: the `1.x`
/// series (including `-pre`/`-rc`), which is the only one that ships Yarn
/// mappings. Snapshots (`25w44a`) and the 26.x era (`YY.D.H`, unobfuscated)
/// are rejected.
pub fn is_downloadable_version(version: &str) -> (r: bool)
    ensures
        r == downloadable_token(version@),
{
    match regex_is_match("^1\\.\\d{1,2}(\\.\\d{1,2})?(-(pre|rc)\\d+)?$", version) {
        Some(b) => b,
        None => false,
    }
}

/// A regular-expression meta character (escaped by `regex::escape`).
pub open spec fn regex_meta(c: char) -> bool {
    c == '\\' || c == '.' || c == '+' || c == '*' || c == '?' || c == '(' || c == ')' || c == '|'
        || c == '[' || c == ']' || c == '{' || c == '}' || c == '^' || c == '$' || c == '#' || c == '&'
        || c == '-' || c == '~'
}

/// The text with a backslash before each meta character.
pub open spec fn regex_escaped(s: Seq<char>) -> Seq<char>
    decreases s.len(),
{
    if s.len() == 0 {
        Seq::empty()
    } else {
        regex_escaped(s.drop_last()) + if regex_meta(s.last()) {
            seq!['\\', s.last()]
        } else {
            seq![s.last()]
        }
    }
}

/// `regex::escape`.
///
/// Trusted: `regex::escape` (through `regex_syntax::escape_into`) puts a
/// backslash before every character of `is_meta_character` and copies the
/// others (`regex_escaped`).
#[verifier::external_body]
fn regex_escape(s: &str) -> (r: String)
    ensures
        r@ == regex_escaped(s@),
{
    regex::escape(s)
}

/// Capture group 1 of each match that the `regex` crate's `captures_iter`
/// yields for a pattern over a text, in order (`None` for a match in which
/// the group took no part); `None` when the pattern does not compile.
pub uninterp spec fn regex_group1(pattern: Seq<char>, text: Seq<char>) -> Option<Seq<Option<Seq<char>>>>;

/// `regex::Regex::new` then `captures_iter`, keeping group 1 of each match.
///
/// Trusted: the result depends on the pattern and the text alone
/// (`regex_group1`).
#[verifier::external_body]
fn regex_captures_group1(pattern: &str, text: &str) -> (r: Option<Vec<Option<String>>>)
    ensures
        match r {
            Some(v) => regex_group1(pattern@, text@) == Some(
                v@.map_values(|g: Option<String>| opt_view(g)),
            ),
            None => regex_group1(pattern@, text@) is None,
        },
{
    let re = regex::Regex::new(pattern).ok()?;
    Some(re.captures_iter(text).map(|c| c.get(1).map(|g| g.as_str().to_string())).collect())
}

/// The `maven-metadata.xml` pattern of a version's builds:
/// `<version>{escaped version}(?:\+build)?\.(\d+)</version>`.
pub open spec fn build_pattern(version: Seq<char>) -> Seq<char> {
    "<version>"@ + regex_escaped(version) + "(?:\\+build)?\\.(\\d+)</version>"@
}

/// Every group present: their texts; `None` once one is absent.
pub open spec fn all_groups(gs: Seq<Option<Seq<char>>>) -> Option<Seq<Seq<char>>>
    decreases gs.len(),
{
    if gs.len() == 0 {
        Some(Seq::empty())
    } else {
        match (all_groups(gs.drop_last()), gs.last()) {
            (Some(rest), Some(g)) => Some(rest.push(g)),
            _ => None,
        }
    }
}

/// The build-number texts captured for a version in the metadata; `None`
/// when the pattern does not compile or a match lacks its number.
pub open spec fn build_captures(version: Seq<char>, metadata: Seq<char>) -> Option<Seq<Seq<char>>> {
    match regex_group1(build_pattern(version), metadata) {
        Some(gs) => all_groups(gs),
        None => None,
    }
}

/// The texts of all groups, or `None` when one is absent.
fn present_groups(gs: Vec<Option<String>>) -> (r: Option<Vec<String>>)
    ensures
        match r {
            Some(v) => all_groups(gs@.map_values(|g: Option<String>| opt_view(g))) == Some(
                v@.map_values(|s: String| s@),
            ),
            None => all_groups(gs@.map_values(|g: Option<String>| opt_view(g))) is None,
        },
{
    let ghost gv = gs@.map_values(|g: Option<String>| opt_view(g));
    let mut out: Vec<String> = Vec::new();
    let mut i: usize = 0;
    assert(gv.take(0) =~= Seq::<Option<Seq<char>>>::empty());
    assert(out@.map_values(|s: String| s@) =~= Seq::<Seq<char>>::empty());
    while i < gs.len()
        invariant
            i <= gs@.len(),
            gv == gs@.map_values(|g: Option<String>| opt_view(g)),
            all_groups(gv.take(i as int)) == Some(out@.map_values(|s: String| s@)),
        decreases gs@.len() - i,
    {
        assert(gv.take(i + 1).drop_last() =~= gv.take(i as int));
        assert(gv.take(i + 1).last() == opt_view(gs@[i as int]));
        let ghost prev = out@.map_values(|s: String| s@);
        match &gs[i] {
            Some(g) => {
                out.push(g.clone());
                assert(out@.map_values(|s: String| s@) =~= prev.push(g@));
            },
            None => {
                proof {
                    lemma_all_groups_stops(gv, i as int + 1);
                }
                return None;
            },
        }
        i = i + 1;
    }
    assert(gv.take(i as int) =~= gv);
    Some(out)
}

/// Once a group is absent, every longer prefix has an absent group.
proof fn lemma_all_groups_stops(gs: Seq<Option<Seq<char>>>, k: int)
    requires
        0 < k <= gs.len(),
        all_groups(gs.take(k)) is None,
    ensures
        all_groups(gs) is None,
    decreases gs.len() - k,
{
    if k < gs.len() {
        assert(gs.take(k + 1).drop_last() =~= gs.take(k));
        lemma_all_groups_stops(gs, k + 1);
    } else {
        assert(gs.take(k) =~= gs);
    }
}

/// `{version}+build.{digits}`.
pub open spec fn build_label(version: Seq<char>, digits: Seq<char>) -> Seq<char> {
    version + "+build."@ + digits
}

/// Scanning the captured build numbers in order: `None` once one of them is
/// not a `u64`; otherwise the highest build number with its label, the first
/// one winning among equal numbers (`Some(None)` when there is none).
pub open spec fn best_build(version: Seq<char>, caps: Seq<Seq<char>>) -> Option<Option<(nat, Seq<char>)>>
    decreases caps.len(),
{
    if caps.len() == 0 {
        Some(None)
    } else {
        match best_build(version, caps.drop_last()) {
            None => None,
            Some(best) => match parse_unsigned_spec(caps.last(), u64::MAX as nat) {
                None => None,
                Some(n) => match best {
                    Some(b) => if n <= b.0 {
                        Some(Some(b))
                    } else {
                        Some(Some((n, build_label(version, caps.last()))))
                    },
                    None => Some(Some((n, build_label(version, caps.last())))),
                },
            },
        }
    }
}

/// The label of the latest build among captured build numbers.
pub open spec fn latest_label(version: Seq<char>, caps: Seq<Seq<char>>) -> Option<Seq<char>> {
    match best_build(version, caps) {
        Some(Some(b)) => Some(b.1),
        _ => None,
    }
}

/// The label of the latest build of `version` listed in `metadata`.
pub open spec fn spec_find_latest_build(version: Seq<char>, metadata: Seq<char>) -> Option<Seq<char>> {
    match build_captures(version, metadata) {
        Some(caps) => latest_label(version, caps),
        None => None,
    }
}

pub open spec fn opt_view(o: Option<String>) -> Option<Seq<char>> {
    match o {
        Some(s) => Some(s@),
        None => None,
    }
}

/// Choose the latest build among the captured build numbers of `version`:
/// the full Maven version string like `1.18.2-pre1+build.6`. A captured
/// number that is not a `u64` makes the whole answer `None`.
pub fn latest_build(version: &str, captures: &Vec<String>) -> (r: Option<String>)
    ensures
        opt_view(r) == latest_label(version@, captures@.map_values(|s: String| s@)),
{
    let ghost caps = captures@.map_values(|s: String| s@);
    let mut best_n: u64 = 0;
    let mut best: Option<String> = None;
    let mut i: usize = 0;
    while i < captures.len()
        invariant
            i <= captures@.len(),
            caps == captures@.map_values(|s: String| s@),
            best_build(version@, caps.take(i as int)) == (match best {
                Some(s) => Some(Some((best_n as nat, s@))),
                None => Some(None::<(nat, Seq<char>)>),
            }),
        decreases captures@.len() - i,
    {
        assert(caps.take(i + 1).drop_last() =~= caps.take(i as int));
        assert(caps.take(i + 1).last() == captures@[i as int]@);
        let digits = chars_of(captures[i].as_str());
        match parse_unsigned(digits.as_slice(), u64::MAX) {
            None => {
                proof {
                    lemma_best_build_stops(version@, caps, i as int + 1);
                    assert(caps.take(caps.len() as int) =~= caps);
                }
                return None;
            },
            Some(n) => {
                if best.is_none() || n > best_n {
                    let label = cat(version, "+build.");
                    best = Some(cat(label.as_str(), captures[i].as_str()));
                    best_n = n;
                }
            },
        }
        i = i + 1;
    }
    assert(caps.take(i as int) =~= caps);
    best
}

/// Once a captured number fails to parse, the scan answers `None` whatever follows.
proof fn lemma_best_build_stops(version: Seq<char>, caps: Seq<Seq<char>>, k: int)
    requires
        0 < k <= caps.len(),
        best_build(version, caps.take(k)) is None,
    ensures
        best_build(version, caps) is None,
    decreases caps.len() - k,
{
    if k < caps.len() {
        assert(caps.take(k + 1).drop_last() =~= caps.take(k));
        lemma_best_build_stops(version, caps, k + 1);
    } else {
        assert(caps.take(k) =~= caps);
    }
}

/// Find the latest `+build.N` for a version in `maven-metadata.xml` content.
/// Returns the full Maven version string like `1.18.2-pre1+build.6`.
pub fn find_latest_build(version: &str, metadata: &str) -> (r: Option<String>)
    ensures
        opt_view(r) == spec_find_latest_build(version@, metadata@),
{
    let escaped = regex_escape(version);
    let head = cat("<version>", escaped.as_str());
    let pattern = cat(head.as_str(), "(?:\\+build)?\\.(\\d+)</version>");
    match regex_captures_group1(pattern.as_str(), metadata) {
        Some(gs) => match present_groups(gs) {
            Some(caps) => latest_build(version, &caps),
            None => None,
        },
        None => None,
    }
}

/// `+` percent-encoded as `%2B`.
pub open spec fn encode_plus(s: Seq<char>) -> Seq<char>
    decreases s.len(),
{
    if s.len() == 0 {
        Seq::empty()
    } else {
        encode_plus(s.drop_last()) + if s.last() == '+' {
            seq!['%', '2', 'B']
        } else {
            seq![s.last()]
        }
    }
}

/// The Fabric Maven URL of a Yarn tiny archive.
pub open spec fn spec_yarn_tiny_url(mvn_version: Seq<char>) -> Seq<char> {
    "https://maven.fabricmc.net/net/fabricmc/yarn/"@ + encode_plus(mvn_version) + "/yarn-"@
        + encode_plus(mvn_version) + "-tiny.gz"@
}

/// The download URL of the tiny archive of a Maven version (`+` must be
/// percent-encoded in the URL path).
pub fn yarn_tiny_url(mvn_version: &str) -> (u: String)
    ensures
        u@ == spec_yarn_tiny_url(mvn_version@),
{
    let v = chars_of(mvn_version);
    let mut enc: Vec<char> = Vec::new();
    let mut i: usize = 0;
    while i < v.len()
        invariant
            i <= v@.len(),
            v@ == mvn_version@,
            enc@ == encode_plus(v@.take(i as int)),
        decreases v@.len() - i,
    {
        assert(v@.take(i + 1).drop_last() =~= v@.take(i as int));
        if v[i] == '+' {
            enc.push('%');
            enc.push('2');
            enc.push('B');
        } else {
            enc.push(v[i]);
        }
        i = i + 1;
        assert(enc@ =~= encode_plus(v@.take(i as int)));
    }
    assert(v@.take(i as int) =~= v@);
    let e = string_of(enc.as_slice());
    let a = cat("https://maven.fabricmc.net/net/fabricmc/yarn/", e.as_str());
    let b = cat(a.as_str(), "/yarn-");
    let c = cat(b.as_str(), e.as_str());
    cat(c.as_str(), "-tiny.gz")
}

/// What a gzip stream decodes to with `flate2`, `None` when it is not a valid
/// gzip stream.
pub uninterp spec fn gunzipped(data: Seq<u8>) -> Option<Seq<u8>>;

/// `flate2::read::GzDecoder` read to the end over an in-memory buffer.
///
/// Trusted: decoding a buffer depends on its bytes alone (`gunzipped`); an
/// error stands for a stream that does not decode. What the error holds is
/// left unsaid.
#[verifier::external_body]
fn gunzip(bytes: &[u8]) -> (r: Result<Vec<u8>, std::io::Error>)
    ensures
        match r {
            Ok(v) => gunzipped(bytes@) == Some(v@),
            Err(_) => gunzipped(bytes@) is None,
        },
{
    let mut out = Vec::new();
    flate2::read::GzDecoder::new(bytes).read_to_end(&mut out).map(|_| out)
}

/// Decode a gzipped tiny file and parse it. `None` stands for the inputs on
/// which the tiny parser indexes past the end of a line.
pub fn parse_gz(bytes: &[u8]) -> (r: Option<Result<Mappings, MappingLoadError>>)
    ensures
        match gunzipped(bytes@) {
            None => r matches Some(Err(MappingLoadError::Io(_))),
            Some(data) => match read_bytes(data) {
                TinyOutcome::Crash => r is None,
                TinyOutcome::Failed(f) => r matches Some(Err(MappingLoadError::Parse(m)))
                    && m@ == failure_message(f),
                TinyOutcome::Parsed(st) => r matches Some(Ok(m))
                    && mappings_view(&m) == finish_tables(st),
            },
        },
{
    let out = match gunzip(bytes) {
        Ok(out) => out,
        Err(e) => return Some(Err(MappingLoadError::Io(e))),
    };
    match parse_checked(out.as_slice()) {
        None => None,
        Some(Ok(m)) => Some(Ok(m)),
        Some(Err(e)) => Some(Err(MappingLoadError::Parse(e.message()))),
    }
}

/// What the caller reports back while keeping a mapping file available.
pub enum EnsureEvent {
    /// Nothing done yet.
    Start,
    /// Whether the local file exists and, when it does, whether it is
    /// younger than the seven-day freshness window.
    Local { exists: bool, fresh: bool },
    /// The outcome of the download: `Ok(false)` when the source has no
    /// mapping for the version.
    Fetched(Result<bool, MappingLoadError>),
    /// Whether the local file exists after a download that found nothing.
    Recheck { exists: bool },
}

/// What to do next.
pub enum EnsureAction {
    /// Finished: whether the mapping is ready to use, or the download error.
    Done(Result<bool, MappingLoadError>),
    /// Inspect the local file at this path (existence and freshness).
    InspectLocal(String),
    /// Download the mapping (temp file, then atomic rename over the target).
    Fetch,
    /// Check again whether the local file exists.
    RecheckLocal,
}

/// One step of keeping a downloadable version's mapping available locally.
///
/// Only a valid, downloadable version is looked up; a file within the
/// freshness window is used as is unless `force`; otherwise it is downloaded,
/// and when the source has nothing the previous (stale) file is used if it
/// exists. A failed download keeps the previous file even in `force` mode.
pub fn ensure_step(
    version: &str,
    mappings_dir: &str,
    mtype: MappingType,
    force: bool,
    event: EnsureEvent,
) -> (a: EnsureAction)
    ensures
        match event {
            EnsureEvent::Start => if valid_version(version@) && downloadable_token(version@) {
                a matches EnsureAction::InspectLocal(p) && p@ == spec_local_path(
                    version@,
                    mappings_dir@,
                    mtype,
                )
            } else {
                a matches EnsureAction::Done(Ok(false))
            },
            EnsureEvent::Local { exists, fresh } => if !force && exists && fresh {
                a matches EnsureAction::Done(Ok(true))
            } else {
                a is Fetch
            },
            EnsureEvent::Fetched(Ok(true)) => a matches EnsureAction::Done(Ok(true)),
            EnsureEvent::Fetched(Ok(false)) => a is RecheckLocal,
            EnsureEvent::Fetched(Err(e)) => a == EnsureAction::Done(Err(e)),
            EnsureEvent::Recheck { exists } => a == EnsureAction::Done(Ok(exists)),
        },
{
    match event {
        EnsureEvent::Start => {
            if is_valid_version(version) && is_downloadable_version(version) {
                EnsureAction::InspectLocal(local_path(version, mappings_dir, mtype))
            } else {
                EnsureAction::Done(Ok(false))
            }
        },
        EnsureEvent::Local { exists, fresh } => {
            if !force && exists && fresh {
                EnsureAction::Done(Ok(true))
            } else {
                EnsureAction::Fetch
            }
        },
        EnsureEvent::Fetched(Ok(true)) => EnsureAction::Done(Ok(true)),
        EnsureEvent::Fetched(Ok(false)) => EnsureAction::RecheckLocal,
        EnsureEvent::Fetched(Err(e)) => EnsureAction::Done(Err(e)),
        EnsureEvent::Recheck { exists } => EnsureAction::Done(Ok(exists)),
    }
}

/// The local file of a version, only for a valid version token (so that no
/// path is ever built from a traversal attempt).
pub fn checked_local_path(version: &str, mappings_dir: &str, mtype: MappingType) -> (r: Option<String>)
    ensures
        match r {
            Some(p) => valid_version(version@) && p@ == spec_local_path(version@, mappings_dir@, mtype),
            None => !valid_version(version@),
        },
{
    if is_valid_version(version) {
        Some(local_path(version, mappings_dir, mtype))
    } else {
        None
    }
}

/// A valid version token holds no path separator (`/` or `\\`), no `..`, and
/// does not start with a dot: a path built from it cannot leave its directory.
pub proof fn law_valid_version_no_traversal(v: Seq<char>)
    requires
        valid_version(v),
    ensures
        !contains_char(v, '/'),
        !contains_char(v, '\\'),
        !contains_sub(v, seq!['.', '.']),
        v[0] != '.',
{
    lemma_find_from_bounds(v, seq!['/'], 0);
    lemma_find_from_bounds(v, seq!['\\'], 0);
    if let Some(j) = find_char(v, '/') {
        assert(v.subrange(j, j + 1)[0] == v[j]);
        assert(v[j] == '/');
        assert(version_char(v[j]));
    }
    if let Some(j) = find_char(v, '\\') {
        assert(v.subrange(j, j + 1)[0] == v[j]);
        assert(v[j] == '\\');
        assert(version_char(v[j]));
    }
}

/// `std::path::Path::exists`.
///
/// Trusted: the answer depends on the file system at the moment of the call,
/// so nothing is promised of it.
#[verifier::external_body]
fn path_exists(path: &str) -> (r: bool) {
    std::path::Path::new(path).exists()
}

/// Whether a mapping file is available locally for a version and family:
/// only a valid version token is looked up, at its standard location.
pub fn is_supported(version: &str, mappings_dir: &str, mtype: MappingType) -> (r: bool)
    ensures
        r ==> valid_version(version@),
{
    match checked_local_path(version, mappings_dir, mtype) {
        Some(p) => path_exists(p.as_str()),
        None => false,
    }
}

/// Whether a Yarn mapping file is available for a version in the mappings
/// directory (`<mappings_dir>/<version>.tiny.gz`).
pub fn is_version_supported(version: &str, mappings_dir: &str) -> (r: bool)
    ensures
        r ==> valid_version(version@),
{
    is_supported(version, mappings_dir, MappingType::Yarn)
}

/// `dir` followed by a separator, unless it is empty or already ends with one.
pub open spec fn with_separator(dir: Seq<char>) -> Seq<char> {
    if dir.len() == 0 || dir.last() == '/' {
        dir
    } else {
        dir + seq!['/']
    }
}

/// The file of a valid version lies directly inside the mappings directory
/// (Yarn) or its `vanilla` subdirectory: the version is appended as a single
/// path component, never replacing the directory.
pub proof fn law_valid_version_path_inside_dir(v: Seq<char>, dir: Seq<char>)
    requires
        valid_version(v),
    ensures
        spec_local_path(v, dir, MappingType::Yarn) == with_separator(dir) + v + ".tiny.gz"@,
        spec_local_path(v, dir, MappingType::Vanilla) == with_separator(with_separator(dir) + "vanilla"@)
            + v + ".txt"@,
{
    reveal_strlit(".tiny.gz");
    reveal_strlit(".txt");
    reveal_strlit("vanilla");
    assert((v + tiny_gz_suffix())[0] == v[0]);
    assert((v + txt_suffix())[0] == v[0]);
    assert(vanilla_word()[0] == 'v');
    assert(v + tiny_gz_suffix() == v + ".tiny.gz"@);
    assert(v + txt_suffix() == v + ".txt"@);
    assert(vanilla_word() == "vanilla"@);
    let d = with_separator(dir) + "vanilla"@;
    assert(join_path(dir, vanilla_word()) == d);
    assert(join_path(dir, v + tiny_gz_suffix()) =~= with_separator(dir) + v + ".tiny.gz"@);
    assert(join_path(d, v + txt_suffix()) =~= with_separator(d) + v + ".txt"@);
}


/// The numeric value of a captured build number, if it fits a `u64`.
pub open spec fn build_value(digits: Seq<char>) -> Option<nat> {
    parse_unsigned_spec(digits, u64::MAX as nat)
}

/// The first `k` captured numbers all fit a `u64` and are at most `n`.
pub open spec fn values_within(caps: Seq<Seq<char>>, n: nat, k: int) -> bool {
    forall|j: int| 0 <= j < k ==> (#[trigger] build_value(caps[j])) is Some && build_value(caps[j])->0 <= n
}

/// The first `k` captured numbers all fit a `u64` and are below `n`.
pub open spec fn values_below(caps: Seq<Seq<char>>, n: nat, k: int) -> bool {
    forall|j: int| 0 <= j < k ==> (#[trigger] build_value(caps[j])) is Some && build_value(caps[j])->0 < n
}

/// Build `b` is captured number `i`, the highest, with no earlier number as
/// high.
pub open spec fn highest_at(version: Seq<char>, caps: Seq<Seq<char>>, b: (nat, Seq<char>), i: int) -> bool {
    &&& 0 <= i < caps.len()
    &&& build_value(caps[i]) == Some(b.0)
    &&& b.1 == version + "+build."@ + caps[i]
    &&& values_within(caps, b.0, caps.len() as int)
    &&& values_below(caps, b.0, i)
}

proof fn lemma_values_extend(caps: Seq<Seq<char>>, n: nat, n2: nat, k: int)
    requires
        k <= caps.len() - 1,
        values_within(caps.drop_last(), n, k),
    ensures
        n <= n2 ==> values_within(caps, n2, k),
        n < n2 ==> values_below(caps, n2, k),
{
    assert forall|j: int| 0 <= j < k implies caps[j] == caps.drop_last()[j] by {}
}

proof fn lemma_values_below_extend(caps: Seq<Seq<char>>, n: nat, k: int)
    requires
        k <= caps.len() - 1,
        values_below(caps.drop_last(), n, k),
    ensures
        values_below(caps, n, k),
{
    assert forall|j: int| 0 <= j < k implies caps[j] == caps.drop_last()[j] by {}
}

proof fn lemma_best_build_max(version: Seq<char>, caps: Seq<Seq<char>>)
    ensures
        best_build(version, caps) matches Some(None) ==> caps.len() == 0,
        best_build(version, caps) matches Some(Some(b)) ==> exists|i: int| highest_at(version, caps, b, i),
    decreases caps.len(),
{
    if caps.len() > 0 {
        let init = caps.drop_last();
        lemma_best_build_max(version, init);
        let last = caps.len() - 1;
        assert(caps[last] == caps.last());
        if let Some(Some(b)) = best_build(version, caps) {
            let n = build_value(caps[last])->0;
            match best_build(version, init) {
                Some(Some(b0)) => {
                    let i0 = choose|i: int| highest_at(version, init, b0, i);
                    assert(caps[i0] == init[i0]);
                    if n <= b0.0 {
                        lemma_values_extend(caps, b0.0, b0.0, last);
                        lemma_values_below_extend(caps, b0.0, i0);
                        assert(highest_at(version, caps, b, i0));
                    } else {
                        lemma_values_extend(caps, b0.0, n, last);
                        assert(highest_at(version, caps, b, last));
                    }
                },
                _ => {
                    assert(init.len() == 0);
                    assert(highest_at(version, caps, b, last));
                },
            }
        }
    }
}

proof fn lemma_best_build_values(version: Seq<char>, caps: Seq<Seq<char>>)
    ensures
        best_build(version, caps) is Some <==> forall|j: int| 0 <= j < caps.len() ==> (#[trigger] build_value(
            caps[j])) is Some,
        caps.len() > 0 && best_build(version, caps) is Some ==> best_build(version, caps)->0 is Some,
    decreases caps.len(),
{
    if caps.len() > 0 {
        let init = caps.drop_last();
        lemma_best_build_values(version, init);
        let last = caps.len() - 1;
        assert(caps[last] == caps.last());
        assert forall|j: int| 0 <= j < last implies caps[j] == init[j] by {}
        if best_build(version, caps) is Some {
            assert forall|j: int| 0 <= j < caps.len() implies (#[trigger] build_value(caps[j])) is Some by {
                if j < last {
                    assert(caps[j] == init[j]);
                }
            }
        }
        if forall|j: int| 0 <= j < caps.len() ==> (#[trigger] build_value(caps[j])) is Some {
            assert forall|j: int| 0 <= j < init.len() implies (#[trigger] build_value(init[j])) is Some by {
                assert(init[j] == caps[j]);
            }
            assert(build_value(caps[last]) is Some);
        }
    }
}

/// The latest build is the one with the highest number: a label, when there
/// is one, is the version, `+build.` and a captured build number whose value
/// is at least that of every captured number and greater than that of every
/// earlier one (the first of equal highest numbers wins); there is a label
/// exactly when some number was captured and every captured number fits a
/// `u64`.
pub proof fn law_latest_build_is_highest(version: Seq<char>, caps: Seq<Seq<char>>)
    ensures
        latest_label(version, caps) matches Some(label) ==> exists|i: int|
            {
                &&& 0 <= i < caps.len()
                &&& label == version + "+build."@ + caps[i]
                &&& (#[trigger] build_value(caps[i])) is Some
                &&& forall|j: int|
                    0 <= j < caps.len() ==> (#[trigger] build_value(caps[j])) is Some && build_value(caps[j])->0
                        <= build_value(caps[i])->0
                &&& forall|j: int| 0 <= j < i ==> (#[trigger] build_value(caps[j]))->0 < build_value(caps[i])->0
            },
        latest_label(version, caps) is Some <==> (caps.len() > 0 && forall|j: int|
            0 <= j < caps.len() ==> (#[trigger] build_value(caps[j])) is Some),
{
    lemma_best_build_max(version, caps);
    lemma_best_build_values(version, caps);
    if let Some(Some(b)) = best_build(version, caps) {
        let i = choose|i: int| highest_at(version, caps, b, i);
        assert(build_value(caps[i]) == Some(b.0));
    }
}

} // verus!
