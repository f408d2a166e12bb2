//! Request and response shapes of the HTTP API, and the decisions its
//! handlers make.
use vstd::prelude::*;

use crate::cache::CacheStats;
use crate::error::ApiError;
use crate::mapping::dispatcher::{family_name, spec_parse_type, LoadedMappings, MappingType};
use crate::mapping::vanilla::{capped, field_pairs, method_pairs};
use crate::mapping::download::{is_valid_version, valid_version};
use crate::text::{cat, chars_of, decimal, decimal_string, string_of};

verus! {

/// A deobfuscation request.
pub struct DeobfuscateRequest {
    pub content: String,
    pub version: String,
    /// Mapping family: `yarn` (default) or `vanilla`.
    pub mapping_type: String,
}

/// The health answer.
pub struct HealthResponse {
    pub status: String,
    pub uptime_seconds: u64,
    pub cache: Option<CacheStats>,
}

/// A request to fetch or refresh a version's mapping from its source.
pub struct LoadRequest {
    pub version: String,
    pub mapping_type: Option<String>,
    pub refresh: Option<bool>,
}

/// A request to install a local mapping file.
pub struct LoadLocalRequest {
    pub version: String,
    pub mapping_type: Option<String>,
    /// Path relative to the mappings dir (e.g. `./tmp/1.21.4.tiny.gz`).
    pub path: String,
}

/// Where a mapping now stands.
pub struct LoadedInfo {
    pub version: String,
    pub mapping_type: String,
    pub ok: bool,
    pub path: String,
    pub bytes: u64,
}

/// Locally available mappings, by family.
pub struct MappingsList {
    pub yarn: Vec<String>,
    pub vanilla: Vec<String>,
}

/// Statistics of one mapping set.
pub struct MappingStats {
    pub version: String,
    pub mapping_type: String,
    pub classes: usize,
    pub methods: usize,
    pub fields: usize,
    pub extra: String,
}

/// What an unload removed.
pub struct UnloadInfo {
    pub version: String,
    pub removed_files: Vec<String>,
    pub removed_cache: Vec<String>,
}

/// The text that `{:?}` writes for a string (quoted, with escapes).
pub uninterp spec fn debug_text(s: Seq<char>) -> Seq<char>;

/// `format!("{:?}", s)` for a string slice.
///
/// Trusted: `Debug for str` writes a text that depends on the string alone
/// (`debug_text`).
#[verifier::external_body]
fn debug_quoted(s: &str) -> (r: String)
    ensures
        r@ == debug_text(s@),
{
    format!("{:?}", s)
}

/// Reject a version that would escape the mappings dir when used in a path:
/// every user-supplied version must pass the token validation used by
/// download.
pub fn validate_version(version: &str) -> (r: Result<(), ApiError>)
    ensures
        match r {
            Ok(()) => valid_version(version@),
            Err(e) => !valid_version(version@) && (e matches ApiError::BadRequest(m)
                && m@ == "invalid version token: "@ + debug_text(version@)),
        },
{
    if !is_valid_version(version) {
        let shown = debug_quoted(version);
        return Err(ApiError::BadRequest(cat("invalid version token: ", shown.as_str())));
    }
    Ok(())
}

/// The checks a user-supplied local mapping path must pass before it is
/// resolved on disk: it is required, and it must be relative to the mappings
/// dir (a path that starts with `/` is absolute).
pub fn check_local_path(rel: &str) -> (r: Result<(), ApiError>)
    ensures
        rel@.len() == 0 ==> (r matches Err(ApiError::BadRequest(m)) && m@ == "path is required"@),
        rel@.len() > 0 && rel@[0] == '/' ==> (r matches Err(ApiError::BadRequest(m))
            && m@ == "path must be relative to the mappings dir"@),
        rel@.len() > 0 && rel@[0] != '/' ==> r is Ok,
{
    let chars = chars_of(rel);
    if chars.len() == 0 {
        return Err(ApiError::BadRequest("path is required".to_owned()));
    }
    if chars[0] == '/' {
        return Err(ApiError::BadRequest("path must be relative to the mappings dir".to_owned()));
    }
    Ok(())
}

/// The text of an optional mapping-type field (absent reads as empty).
pub open spec fn field_text(t: Option<String>) -> Seq<char> {
    match t {
        Some(s) => s@,
        None => Seq::empty(),
    }
}

/// The mapping family a request names: `vanilla`, else Yarn.
pub fn requested_type(t: &Option<String>) -> (m: MappingType)
    ensures
        m == spec_parse_type(field_text(*t)),
{
    match t {
        Some(s) => {
            let m = MappingType::parse(s.as_str());
            assert(field_text(*t) == s@);
            m
        },
        None => {
            proof {
                reveal_strlit("");
            }
            let m = MappingType::parse("");
            assert(""@ == field_text(*t));
            m
        },
    }
}

/// Seconds since the start, zero when the start time is unknown (zero) and
/// never negative.
pub fn uptime(start_secs: u64, now_secs: u64) -> (u: u64)
    ensures
        u == (if start_secs > 0 && now_secs > start_secs {
            (now_secs - start_secs) as u64
        } else {
            0u64
        }),
{
    if start_secs > 0 {
        now_secs.saturating_sub(start_secs)
    } else {
        0
    }
}

/// The health answer: always `healthy`, with the uptime and cache counters.
pub fn health(uptime_seconds: u64, cache: Option<CacheStats>) -> (h: HealthResponse)
    ensures
        h.status@ == "healthy"@,
        h.uptime_seconds == uptime_seconds,
        h.cache == cache,
{
    HealthResponse { status: "healthy".to_owned(), uptime_seconds, cache }
}

/// The answer of an unload: not found when nothing was removed.
pub fn unload_info(version: String, removed_files: Vec<String>, removed_cache: Vec<String>) -> (r: Result<
    UnloadInfo,
    ApiError,
>)
    ensures
        if removed_files@.len() == 0 && removed_cache@.len() == 0 {
            r matches Err(ApiError::NotFound(m)) && m@ == "mapping "@ + version@ + " not cached"@
        } else {
            r matches Ok(info) && info.version == version && info.removed_files == removed_files
                && info.removed_cache == removed_cache
        },
{
    if removed_files.len() == 0 && removed_cache.len() == 0 {
        let head = cat("mapping ", version.as_str());
        return Err(ApiError::NotFound(cat(head.as_str(), " not cached")));
    }
    Ok(UnloadInfo { version, removed_files, removed_cache })
}

/// The answer when a mapping is not available locally.
pub fn not_available(mtype: MappingType, version: &str) -> (e: ApiError)
    ensures
        e matches ApiError::NotFound(m) && m@ == family_name(mtype) + ":"@ + version@
            + " mapping not available locally"@,
{
    let a = cat(mtype.as_str(), ":");
    let b = cat(a.as_str(), version);
    ApiError::NotFound(cat(b.as_str(), " mapping not available locally"))
}

/// Statistics of one mapping set: not found when nothing could be loaded;
/// for Yarn the table sizes and `nested=<n>`; for Vanilla the classes, the
/// `(class, method)` and `(class, field)` pairs and `method_index=<n>`, the
/// number of classes with methods.
pub fn mapping_stats(version: String, mtype: MappingType, loaded: Option<&LoadedMappings>) -> (r: Result<
    MappingStats,
    ApiError,
>)
    ensures
        match loaded {
            None => r matches Err(ApiError::NotFound(m)) && m@ == family_name(mtype) + ":"@
                + version@ + " mapping not available locally"@,
            Some(LoadedMappings::Yarn(m)) => r matches Ok(s) && s.version == version
                && s.mapping_type@ == family_name(mtype) && s.classes == m.classes@.len()
                && s.methods == m.methods@.len() && s.fields == m.fields@.len() && s.extra@
                == "nested="@ + decimal(m.nested@.len()),
            Some(LoadedMappings::Vanilla(m)) => r matches Ok(s) && s.version == version
                && s.mapping_type@ == family_name(mtype) && s.classes == m.tables().0.len()
                && s.methods == capped(method_pairs(m.tables().2).len()) && s.fields == capped(
                field_pairs(m.tables().3).len(),
            ) && s.extra@ == "method_index="@ + decimal(m.tables().2.len()),
        },
{
    match loaded {
        None => Err(not_available(mtype, version.as_str())),
        Some(LoadedMappings::Yarn(m)) => Ok(
            MappingStats {
                version,
                mapping_type: mtype.as_str().to_owned(),
                classes: m.classes_len(),
                methods: m.methods_len(),
                fields: m.fields_len(),
                extra: cat("nested=", decimal_string(m.nested.len()).as_str()),
            },
        ),
        Some(LoadedMappings::Vanilla(m)) => {
            let (classes, methods, fields, index) = m.stats();
            Ok(
                MappingStats {
                    version,
                    mapping_type: mtype.as_str().to_owned(),
                    classes,
                    methods,
                    fields,
                    extra: cat("method_index=", decimal_string(index).as_str()),
                },
            )
        },
    }
}

} // verus!
