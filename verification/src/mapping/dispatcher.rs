use std::sync::Arc;

use vstd::prelude::*;

use crate::deobfuscator::engine::{spec_deobfuscate, DeobfuscateResult, LineEngine};
use crate::deobfuscator::vanilla::{spec_vanilla_deobfuscate, VanillaEngine};
use crate::mapping::tiny_v2::Mappings;
use crate::mapping::download::MappingLoadError;
use crate::mapping::vanilla::{VanillaMappings, VanillaParseError};
use crate::text::{chars_eq, chars_of, push_all, string_of};

verus! {

/// The mapping family a request is deobfuscated against.
#[derive(Debug, Clone, Copy, PartialEq, Eq, Structural)]
pub enum MappingType {
    Yarn,
    Vanilla,
}

pub open spec fn yarn_word() -> Seq<char> {
    seq!['y', 'a', 'r', 'n']
}

pub open spec fn vanilla_word() -> Seq<char> {
    seq!['v', 'a', 'n', 'i', 'l', 'l', 'a']
}

/// The name of a mapping family.
pub open spec fn family_name(t: MappingType) -> Seq<char> {
    match t {
        MappingType::Yarn => yarn_word(),
        MappingType::Vanilla => vanilla_word(),
    }
}

/// `"vanilla"` selects Vanilla; anything else selects Yarn.
pub open spec fn spec_parse_type(s: Seq<char>) -> MappingType {
    if s == vanilla_word() {
        MappingType::Vanilla
    } else {
        MappingType::Yarn
    }
}

/// The cache key of a version in a family: `<family>:<version>`.
pub open spec fn spec_cache_key(t: MappingType, version: Seq<char>) -> Seq<char> {
    family_name(t) + seq![':'] + version
}

impl MappingType {
    pub fn parse(s: &str) -> (t: MappingType)
        ensures
            t == spec_parse_type(s@),
    {
        let v = vec!['v', 'a', 'n', 'i', 'l', 'l', 'a'];
        if chars_eq(chars_of(s).as_slice(), v.as_slice()) {
            MappingType::Vanilla
        } else {
            MappingType::Yarn
        }
    }

    pub fn as_str(self) -> (s: &'static str)
        ensures
            s@ == family_name(self),
    {
        match self {
            MappingType::Yarn => {
                proof {
                    reveal_strlit("yarn");
                }
                "yarn"
            },
            MappingType::Vanilla => {
                proof {
                    reveal_strlit("vanilla");
                }
                "vanilla"
            },
        }
    }

    /// Cache key segment; `version + mapping_type` keeps the two families
    /// distinct in the shared cache.
    pub fn cache_key(self, version: &str) -> (k: String)
        ensures
            k@ == spec_cache_key(self, version@),
    {
        let mut out = chars_of(self.as_str());
        out.push(':');
        push_all(&mut out, chars_of(version).as_slice());
        string_of(out.as_slice())
    }
}

/// A loaded mapping set (shared), dispatched to the matching engine.
pub enum LoadedMappings {
    Yarn(Arc<Mappings>),
    Vanilla(Arc<VanillaMappings>),
}

/// `(text, classes, methods, fields)` of deobfuscating `content` with `loaded`.
pub open spec fn spec_deobfuscate_loaded(loaded: LoadedMappings, content: Seq<char>) -> (Seq<char>, nat, nat, nat) {
    match loaded {
        LoadedMappings::Yarn(m) => spec_deobfuscate(*m, content),
        LoadedMappings::Vanilla(m) => {
            let r = spec_vanilla_deobfuscate((*m).tables(), content);
            (r.0, r.1, r.2, 0)
        },
    }
}

/// Share an `Arc`.
///
/// Trusted: `Arc::clone` returns another pointer to the same allocation, so
/// the shared value is the same.
#[verifier::external_body]
pub(crate) fn share<T>(a: &Arc<T>) -> (r: Arc<T>)
    ensures
        *r == **a,
{
    Arc::clone(a)
}

/// Deobfuscate `content` against an already-loaded mapping set.
pub fn deobfuscate(loaded: &LoadedMappings, content: &str) -> (r: DeobfuscateResult)
    ensures
        (r.text@, r.classes_mapped as nat, r.methods_mapped as nat, r.fields_mapped as nat)
            == spec_deobfuscate_loaded(*loaded, content@),
{
    match loaded {
        LoadedMappings::Yarn(m) => LineEngine::from_arc(share(m)).deobfuscate(content),
        LoadedMappings::Vanilla(m) => VanillaEngine::from_arc(share(m)).deobfuscate(content),
    }
}

/// `Path::join` on Unix: an absolute `p` replaces `base`; otherwise `p` is
/// appended, with a `/` in between unless `base` is empty or ends with one.
pub open spec fn join_path(base: Seq<char>, p: Seq<char>) -> Seq<char> {
    if p.len() > 0 && p[0] == '/' {
        p
    } else if base.len() == 0 || base.last() == '/' {
        base + p
    } else {
        base + seq!['/'] + p
    }
}

/// `Path::new(base).join(p)` as a string.
///
/// Trusted: on Unix `PathBuf::push` replaces the path with an absolute `p`
/// and otherwise appends `p`, adding a separator unless the path is empty or
/// already ends with one (`join_path`); both inputs are UTF-8, so the lossy
/// conversion back to a string is exact.
#[verifier::external_body]
pub(crate) fn path_join(base: &str, p: &str) -> (r: String)
    ensures
        r@ == join_path(base@, p@),
{
    std::path::Path::new(base).join(p).to_string_lossy().into_owned()
}

pub open spec fn tiny_gz_suffix() -> Seq<char> {
    seq!['.', 't', 'i', 'n', 'y', '.', 'g', 'z']
}

pub open spec fn txt_suffix() -> Seq<char> {
    seq!['.', 't', 'x', 't']
}

/// Standard on-disk location of a version's mapping file:
/// `<dir>/<version>.tiny.gz` (Yarn) or `<dir>/vanilla/<version>.txt` (Vanilla).
pub open spec fn spec_local_path(version: Seq<char>, mappings_dir: Seq<char>, t: MappingType) -> Seq<char> {
    match t {
        MappingType::Yarn => join_path(mappings_dir, version + tiny_gz_suffix()),
        MappingType::Vanilla => join_path(join_path(mappings_dir, vanilla_word()), version + txt_suffix()),
    }
}

/// Standard on-disk location of a version's mapping file.
pub fn local_path(version: &str, mappings_dir: &str, mtype: MappingType) -> (p: String)
    ensures
        p@ == spec_local_path(version@, mappings_dir@, mtype),
{
    match mtype {
        MappingType::Yarn => {
            let mut name = chars_of(version);
            push_all(&mut name, vec!['.', 't', 'i', 'n', 'y', '.', 'g', 'z'].as_slice());
            path_join(mappings_dir, string_of(name.as_slice()).as_str())
        },
        MappingType::Vanilla => {
            let mut name = chars_of(version);
            push_all(&mut name, vec!['.', 't', 'x', 't'].as_slice());
            let dir = path_join(mappings_dir, MappingType::Vanilla.as_str());
            path_join(dir.as_str(), string_of(name.as_slice()).as_str())
        },
    }
}

/// Unified load error of both mapping families (kept structured so callers
/// and logs can tell the source apart).
pub enum LoadError {
    Yarn(MappingLoadError),
    Vanilla(VanillaParseError),
}

/// Parsing the name of a family gives the family back.
pub proof fn law_parse_name_roundtrip(t: MappingType)
    ensures
        spec_parse_type(family_name(t)) == t,
{
    if t == MappingType::Yarn {
        assert(yarn_word()[0] != vanilla_word()[0]);
    }
}

/// Cache keys tell both the family and the version apart: two keys are equal
/// only for the same family and the same version.
pub proof fn law_cache_key_injective(t1: MappingType, v1: Seq<char>, t2: MappingType, v2: Seq<char>)
    requires
        spec_cache_key(t1, v1) == spec_cache_key(t2, v2),
    ensures
        t1 == t2,
        v1 == v2,
{
    let k = spec_cache_key(t1, v1);
    if t1 != t2 {
        assert(k[0] == family_name(t1)[0]);
        assert(k[0] == family_name(t2)[0]);
    }
    let n: int = family_name(t1).len() as int + 1;
    assert(v1 =~= k.subrange(n, k.len() as int));
    assert(v2 =~= k.subrange(n, k.len() as int));
}

/// Deobfuscating with Vanilla mappings never counts a field.
pub proof fn law_vanilla_counts_no_fields(m: Arc<VanillaMappings>, content: Seq<char>)
    ensures
        spec_deobfuscate_loaded(LoadedMappings::Vanilla(m), content).3 == 0,
{
}

} // verus!
