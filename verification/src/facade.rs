//! The engine facade: mappings directory, auto-download toggle and the
//! optional cache of parsed mapping sets, plus the decisions of the
//! availability pipeline.
use std::sync::Arc;

use vstd::prelude::*;

use crate::cache::{
    after_get, after_insert, bump, key_index, law_insert_then_get, lemma_cache_wf,
    lemma_without_absent, low_mark, without, Cache, CacheStats,
};
use crate::config::{CacheConfig, Config};
use crate::deobfuscator::engine::DeobfuscateResult;
use crate::mapping::dispatcher::{
    deobfuscate, spec_cache_key, vanilla_word, yarn_word, spec_deobfuscate_loaded, spec_local_path, LoadedMappings,
    MappingType,
};
use crate::mapping::download::{
    downloadable_token, is_downloadable_version, is_supported, is_valid_version, valid_version,
    MappingLoadError,
};
use crate::mapping::dispatcher::local_path;

verus! {

/// A self-contained deobfuscation engine instance: the mappings directory,
/// the auto-download toggle and (optionally) the cache of parsed mappings.
pub struct Spinyarn {
    mappings_dir: String,
    auto_download: bool,
    cache: Option<Cache>,
}

/// Statistics of one deobfuscation pass.
pub struct DeobfuscateOutput {
    pub deobfuscated: String,
    pub classes_mapped: usize,
    pub methods_mapped: usize,
    pub fields_mapped: usize,
}

/// `(text, classes, methods, fields)` of an output.
pub open spec fn output_view(o: DeobfuscateOutput) -> (Seq<char>, nat, nat, nat) {
    (o.deobfuscated@, o.classes_mapped as nat, o.methods_mapped as nat, o.fields_mapped as nat)
}

/// The cache configuration that explicit settings describe: none for a zero
/// cap; a zero watermark is derived from the cap (high = cap, low = 3/4 of the
/// cap, at least one).
pub open spec fn settings_cache(max: usize, high: usize, low: usize) -> Option<CacheConfig> {
    if max == 0 {
        None
    } else {
        Some(
            CacheConfig {
                enabled: true,
                max_entries: max,
                high_watermark: if high == 0 {
                    max
                } else {
                    high
                },
                low_watermark: if low == 0 {
                    if max * 3 / 4 >= 1 {
                        (max * 3 / 4) as usize
                    } else {
                        1
                    }
                } else {
                    low
                },
            },
        )
    }
}

/// A fresh cache with configuration `cfg`.
pub open spec fn fresh_cache(c: Cache, cfg: CacheConfig) -> bool {
    &&& c.wf()
    &&& c.config() == cfg
    &&& c.entries().len() == 0
    &&& c.hit_count() == 0 && c.miss_count() == 0 && c.eviction_count() == 0
}

/// What the caller reports back while making a mapping available.
pub enum AvailabilityEvent {
    /// Nothing done yet.
    Start,
    /// Whether the local mapping file exists.
    LocalFile(bool),
    /// The outcome of loading the mapping from its source.
    Fetched(Result<bool, MappingLoadError>),
}

/// What to do next.
pub enum AvailabilityAction {
    /// Finished: whether the mapping can be used (`false`: pass the input
    /// through unchanged).
    Done(bool),
    /// Check whether this local file exists.
    CheckLocal(String),
    /// Load the mapping from its source (without forcing a refresh).
    Fetch,
}

/// What the caller reports back while serving a deobfuscation request.
pub enum ProcessEvent {
    /// Nothing done yet.
    Start,
    /// Whether the mapping is available (see `ensure_available_step`).
    Available(bool),
    /// The mapping set loaded from disk, if any.
    Loaded(Option<LoadedMappings>),
}

/// What to do next.
pub enum ProcessAction {
    /// Make the mapping available (the availability steps).
    Ensure,
    /// Load the mapping set from disk.
    Load,
    /// Finished: the answer.
    Done(DeobfuscateOutput),
}

impl Spinyarn {
    pub closed spec fn dir(&self) -> Seq<char> {
        self.mappings_dir@
    }

    pub closed spec fn downloads(&self) -> bool {
        self.auto_download
    }

    pub closed spec fn cache_state(&self) -> Option<Cache> {
        self.cache
    }

    /// The cache, when there is one, is well formed.
    pub closed spec fn wf(&self) -> bool {
        match self.cache {
            Some(c) => c.wf(),
            None => true,
        }
    }

    /// Build an engine from a loaded configuration, honouring every cache
    /// field (bound and watermarks) as configured; a disabled cache is none.
    pub fn new(config: &Config) -> (s: Self)
        requires
            config.cache.enabled && config.cache.low_watermark == 0 ==> config.cache.max_entries
                <= usize::MAX / 3,
        ensures
            s.wf(),
            s.dir() == config.maven.mappings_dir@,
            s.downloads() == config.maven.auto_download,
            match settings_cache(
                if config.cache.enabled { config.cache.max_entries } else { 0 },
                config.cache.high_watermark,
                config.cache.low_watermark,
            ) {
                None => s.cache_state() is None,
                Some(cfg) => s.cache_state() matches Some(c) && fresh_cache(c, cfg),
            },
    {
        Self::from_full_settings(
            config.maven.mappings_dir.as_str(),
            config.maven.auto_download,
            if config.cache.enabled {
                config.cache.max_entries
            } else {
                0
            },
            config.cache.high_watermark,
            config.cache.low_watermark,
        )
    }

    /// Build an engine from explicit settings with the default cache
    /// configuration.
    pub fn from_settings(mappings_dir: &str, auto_download: bool) -> (s: Self)
        ensures
            s.wf(),
            s.dir() == mappings_dir@,
            s.downloads() == auto_download,
            s.cache_state() matches Some(c) && fresh_cache(
                c,
                CacheConfig { enabled: true, max_entries: 44, high_watermark: 40, low_watermark: 30 },
            ),
    {
        let d = CacheConfig::default();
        Self::from_full_settings(
            mappings_dir,
            auto_download,
            d.max_entries,
            d.high_watermark,
            d.low_watermark,
        )
    }

    /// Build an engine from the full explicit settings.
    ///
    /// - `cache_max_entries`: 0 disables the cache; a positive value caps it.
    /// - `cache_high_watermark` / `cache_low_watermark`: 0 derives the value
    ///   from the cap; otherwise the explicit value is used.
    pub fn from_full_settings(
        mappings_dir: &str,
        auto_download: bool,
        cache_max_entries: usize,
        cache_high_watermark: usize,
        cache_low_watermark: usize,
    ) -> (s: Self)
        requires
            cache_low_watermark == 0 ==> cache_max_entries <= usize::MAX / 3,
        ensures
            s.wf(),
            s.dir() == mappings_dir@,
            s.downloads() == auto_download,
            match settings_cache(cache_max_entries, cache_high_watermark, cache_low_watermark) {
                None => s.cache_state() is None,
                Some(cfg) => s.cache_state() matches Some(c) && fresh_cache(c, cfg),
            },
    {
        let cache = if cache_max_entries == 0 {
            None
        } else {
            let high_watermark = if cache_high_watermark == 0 {
                cache_max_entries
            } else {
                cache_high_watermark
            };
            let low_watermark = if cache_low_watermark == 0 {
                let q = cache_max_entries * 3 / 4;
                if q >= 1 {
                    q
                } else {
                    1
                }
            } else {
                cache_low_watermark
            };
            let cfg = CacheConfig {
                enabled: true,
                max_entries: cache_max_entries,
                high_watermark,
                low_watermark,
            };
            Some(Cache::new(cfg))
        };
        Spinyarn { mappings_dir: mappings_dir.to_owned(), auto_download, cache }
    }

    /// The mappings directory this engine reads from.
    pub fn mappings_dir(&self) -> (d: &str)
        ensures
            d@ == self.dir(),
    {
        self.mappings_dir.as_str()
    }

    /// Whether a version/family mapping file exists locally.
    pub fn has_mapping(&self, version: &str, mapping_type: MappingType) -> (r: bool)
        ensures
            r ==> valid_version(version@),
    {
        is_supported(version, self.mappings_dir.as_str(), mapping_type)
    }

    /// Whether on-demand mapping download is enabled.
    pub fn auto_download(&self) -> (b: bool)
        ensures
            b == self.downloads(),
    {
        self.auto_download
    }

    /// Whether a missing mapping may be fetched: auto-download is on and the
    /// version is a downloadable token.
    pub fn can_fetch(&self, version: &str) -> (b: bool)
        ensures
            b == (self.downloads() && downloadable_token(version@)),
    {
        self.auto_download && is_downloadable_version(version)
    }

    /// What `ensure_available_step` answers to an event.
    pub open spec fn availability_step(
        &self,
        version: Seq<char>,
        mtype: MappingType,
        event: AvailabilityEvent,
        a: AvailabilityAction,
    ) -> bool {
        match event {
            AvailabilityEvent::Start => if valid_version(version) {
                a matches AvailabilityAction::CheckLocal(p) && p@ == spec_local_path(
                    version,
                    self.dir(),
                    mtype,
                )
            } else if self.downloads() && downloadable_token(version) {
                a is Fetch
            } else {
                a == AvailabilityAction::Done(false)
            },
            AvailabilityEvent::LocalFile(true) => a == AvailabilityAction::Done(true),
            AvailabilityEvent::LocalFile(false) => if self.downloads() && downloadable_token(
                version,
            ) {
                a is Fetch
            } else {
                a == AvailabilityAction::Done(false)
            },
            AvailabilityEvent::Fetched(Ok(b)) => a == AvailabilityAction::Done(b),
            AvailabilityEvent::Fetched(Err(_)) => a == AvailabilityAction::Done(false),
        }
    }

    /// One step of making a version's mapping available locally: a present
    /// local file (for a valid version) is used; otherwise it is fetched
    /// when auto-download is on and the version is downloadable; a failed
    /// or empty fetch means the input passes through unchanged.
    pub fn ensure_available_step(
        &self,
        version: &str,
        mtype: MappingType,
        event: AvailabilityEvent,
    ) -> (a: AvailabilityAction)
        ensures
            self.availability_step(version@, mtype, event, a),
    {
        match event {
            AvailabilityEvent::Start => {
                if is_valid_version(version) {
                    AvailabilityAction::CheckLocal(local_path(version, self.mappings_dir.as_str(), mtype))
                } else if self.can_fetch(version) {
                    AvailabilityAction::Fetch
                } else {
                    AvailabilityAction::Done(false)
                }
            },
            AvailabilityEvent::LocalFile(present) => {
                if present {
                    AvailabilityAction::Done(true)
                } else if self.can_fetch(version) {
                    AvailabilityAction::Fetch
                } else {
                    AvailabilityAction::Done(false)
                }
            },
            AvailabilityEvent::Fetched(Ok(b)) => AvailabilityAction::Done(b),
            AvailabilityEvent::Fetched(Err(_)) => AvailabilityAction::Done(false),
        }
    }

    /// Look up an already-parsed mapping set in the cache (no load performed);
    /// a hit becomes the most recently used entry.
    pub fn get_cached(&mut self, version: &str, mtype: MappingType) -> (r: Option<Arc<LoadedMappings>>)
        requires
            old(self).wf(),
        ensures
            final(self).wf(),
            final(self).dir() == old(self).dir(),
            final(self).downloads() == old(self).downloads(),
            match old(self).cache_state() {
                None => r is None && final(self).cache_state() is None,
                Some(c) => final(self).cache_state() matches Some(c2) && c2.config() == c.config()
                    && c2.entries() == after_get(c.entries(), spec_cache_key(mtype, version@))
                    && c2.eviction_count() == c.eviction_count()
                    && match key_index(c.entries(), spec_cache_key(mtype, version@)) {
                        Some(i) => r matches Some(v) && *v == c.entries()[i].1
                            && c2.hit_count() == bump(c.hit_count(), 1)
                            && c2.miss_count() == c.miss_count(),
                        None => r is None && c2.miss_count() == bump(c.miss_count(), 1)
                            && c2.hit_count() == c.hit_count(),
                    },
            },
    {
        match &mut self.cache {
            Some(c) => {
                let key = mtype.cache_key(version);
                c.get(key.as_str())
            },
            None => None,
        }
    }

    /// Store a freshly loaded mapping set in the cache (shared, not copied).
    pub fn insert_cached(&mut self, version: &str, mtype: MappingType, shared: &Arc<LoadedMappings>)
        requires
            old(self).wf(),
        ensures
            final(self).wf(),
            final(self).dir() == old(self).dir(),
            final(self).downloads() == old(self).downloads(),
            match old(self).cache_state() {
                None => final(self).cache_state() is None,
                Some(c) => final(self).cache_state() matches Some(c2) && c2.config() == c.config()
                    && c2.entries() == after_insert(
                        c.config(),
                        c.entries(),
                        spec_cache_key(mtype, version@),
                        **shared,
                    ).0
                    && c2.eviction_count() == bump(
                        c.eviction_count(),
                        after_insert(c.config(), c.entries(), spec_cache_key(mtype, version@), **shared).1,
                    )
                    && c2.hit_count() == c.hit_count() && c2.miss_count() == c.miss_count(),
            },
    {
        match &mut self.cache {
            Some(c) => {
                let key = mtype.cache_key(version);
                c.insert(key.as_str(), crate::mapping::dispatcher::share(shared));
            },
            None => {},
        }
    }

    /// Cache statistics (none when caching is disabled).
    pub fn cache_stats(&self) -> (r: Option<CacheStats>)
        ensures
            match self.cache_state() {
                None => r is None,
                Some(c) => r matches Some(s) && s.enabled == c.config().enabled
                    && s.entries == c.entries().len() && s.hits == c.hit_count()
                    && s.misses == c.miss_count() && s.evictions == c.eviction_count(),
            },
    {
        match &self.cache {
            Some(c) => Some(c.stats()),
            None => None,
        }
    }

    /// Drop both families of a version from the cache; the names of the
    /// families that were cached, Yarn first.
    pub fn unload_cached(&mut self, version: &str) -> (removed: Vec<String>)
        requires
            old(self).wf(),
        ensures
            final(self).wf(),
            final(self).dir() == old(self).dir(),
            final(self).downloads() == old(self).downloads(),
            match old(self).cache_state() {
                None => removed@.len() == 0 && final(self).cache_state() is None,
                Some(c) => {
                    let ky = spec_cache_key(MappingType::Yarn, version@);
                    let kv = spec_cache_key(MappingType::Vanilla, version@);
                    let y = key_index(c.entries(), ky) is Some;
                    let v = key_index(without(c.entries(), ky), kv) is Some;
                    &&& final(self).cache_state() matches Some(c2) && c2.config() == c.config()
                        && c2.entries() == without(without(c.entries(), ky), kv)
                        && c2.hit_count() == c.hit_count() && c2.miss_count() == c.miss_count()
                        && c2.eviction_count() == c.eviction_count()
                    &&& removed@.map_values(|s: String| s@) == (if y {
                        seq![yarn_word()]
                    } else {
                        Seq::empty()
                    }) + (if v {
                        seq![vanilla_word()]
                    } else {
                        Seq::empty()
                    })
                },
            },
    {
        let mut removed: Vec<String> = Vec::new();
        match &mut self.cache {
            Some(c) => {
                let ky = MappingType::Yarn.cache_key(version);
                let y = c.remove(ky.as_str());
                if y {
                    removed.push(MappingType::Yarn.as_str().to_owned());
                }
                assert(removed@.map_values(|s: String| s@) =~= (if y {
                    seq![yarn_word()]
                } else {
                    Seq::empty()
                }));
                let ghost r1 = removed@.map_values(|s: String| s@);
                let kv = MappingType::Vanilla.cache_key(version);
                let v = c.remove(kv.as_str());
                if v {
                    removed.push(MappingType::Vanilla.as_str().to_owned());
                }
                assert(removed@.map_values(|s: String| s@) =~= r1 + (if v {
                    seq![vanilla_word()]
                } else {
                    Seq::empty()
                }));
            },
            None => {},
        }
        removed
    }

    /// Deobfuscate with the cached mapping set of a version, if the cache
    /// holds one (a hit becomes the most recently used entry).
    pub fn deobfuscate_cached(&mut self, content: &str, version: &str, mtype: MappingType) -> (r: Option<
        DeobfuscateOutput,
    >)
        requires
            old(self).wf(),
        ensures
            final(self).wf(),
            final(self).dir() == old(self).dir(),
            final(self).downloads() == old(self).downloads(),
            match old(self).cache_state() {
                None => r is None && final(self).cache_state() is None,
                Some(c) => final(self).cache_state() matches Some(c2) && c2.config() == c.config()
                    && c2.entries() == after_get(c.entries(), spec_cache_key(mtype, version@))
                    && c2.eviction_count() == c.eviction_count()
                    && match key_index(c.entries(), spec_cache_key(mtype, version@)) {
                        Some(i) => r matches Some(o) && output_view(o) == spec_deobfuscate_loaded(
                            c.entries()[i].1,
                            content@,
                        ) && c2.hit_count() == bump(c.hit_count(), 1)
                            && c2.miss_count() == c.miss_count(),
                        None => r is None && c2.miss_count() == bump(c.miss_count(), 1)
                            && c2.hit_count() == c.hit_count(),
                    },
            },
    {
        match self.get_cached(version, mtype) {
            Some(shared) => Some(Self::deobfuscate_loaded(&shared, content)),
            None => None,
        }
    }

    /// Deobfuscate with a freshly loaded mapping set, stored in the cache
    /// first; without one (nothing could be loaded) the input passes through
    /// unchanged.
    pub fn deobfuscate_fresh(
        &mut self,
        content: &str,
        version: &str,
        mtype: MappingType,
        loaded: Option<LoadedMappings>,
    ) -> (o: DeobfuscateOutput)
        requires
            old(self).wf(),
        ensures
            final(self).wf(),
            final(self).dir() == old(self).dir(),
            final(self).downloads() == old(self).downloads(),
            match loaded {
                None => output_view(o) == (content@, 0nat, 0nat, 0nat) && final(self).cache_state()
                    == old(self).cache_state(),
                Some(m) => output_view(o) == spec_deobfuscate_loaded(m, content@) && match old(
                    self,
                ).cache_state() {
                    None => final(self).cache_state() is None,
                    Some(c) => final(self).cache_state() matches Some(c2) && c2.config()
                        == c.config() && c2.entries() == after_insert(
                        c.config(),
                        c.entries(),
                        spec_cache_key(mtype, version@),
                        m,
                    ).0,
                },
            },
    {
        match loaded {
            None => Self::passthrough(content),
            Some(m) => {
                let shared = Arc::new(m);
                self.insert_cached(version, mtype, &shared);
                Self::deobfuscate_loaded(&shared, content)
            },
        }
    }

    /// One step of serving a deobfuscation request: make the mapping
    /// available, then use the cached mapping set on a hit, else load one;
    /// an unavailable version or a failed load passes the input through
    /// unchanged, and a freshly loaded set is cached before use.
    pub fn process_step(
        &mut self,
        version: &str,
        mtype: MappingType,
        content: &str,
        event: ProcessEvent,
    ) -> (a: ProcessAction)
        requires
            old(self).wf(),
        ensures
            final(self).wf(),
            final(self).dir() == old(self).dir(),
            final(self).downloads() == old(self).downloads(),
            process_transition(*old(self), *final(self), version@, mtype, content@, event, a),
    {
        match event {
            ProcessEvent::Start => ProcessAction::Ensure,
            ProcessEvent::Available(available) => {
                if !available {
                    ProcessAction::Done(Self::passthrough(content))
                } else {
                    match self.deobfuscate_cached(content, version, mtype) {
                        Some(o) => ProcessAction::Done(o),
                        None => ProcessAction::Load,
                    }
                }
            },
            ProcessEvent::Loaded(loaded) => ProcessAction::Done(
                self.deobfuscate_fresh(content, version, mtype, loaded),
            ),
        }
    }

    /// Deobfuscate `content` against an already-loaded mapping set.
    pub fn deobfuscate_loaded(shared: &LoadedMappings, content: &str) -> (o: DeobfuscateOutput)
        ensures
            output_view(o) == spec_deobfuscate_loaded(*shared, content@),
    {
        Self::output_from(deobfuscate(shared, content))
    }

    /// The input unchanged, with zero counters.
    pub fn passthrough(content: &str) -> (o: DeobfuscateOutput)
        ensures
            output_view(o) == (content@, 0nat, 0nat, 0nat),
    {
        DeobfuscateOutput {
            deobfuscated: content.to_owned(),
            classes_mapped: 0,
            methods_mapped: 0,
            fields_mapped: 0,
        }
    }

    fn output_from(result: DeobfuscateResult) -> (o: DeobfuscateOutput)
        ensures
            output_view(o) == (result.text@, result.classes_mapped as nat, result.methods_mapped as nat, result.fields_mapped as nat),
    {
        DeobfuscateOutput {
            deobfuscated: result.text,
            classes_mapped: result.classes_mapped,
            methods_mapped: result.methods_mapped,
            fields_mapped: result.fields_mapped,
        }
    }
}

/// After an unload, neither family of the version is cached any more.
pub proof fn law_unload_forgets(c: Cache, version: Seq<char>)
    requires
        c.wf(),
    ensures
        key_index(
            without(without(c.entries(), spec_cache_key(MappingType::Yarn, version)), spec_cache_key(MappingType::Vanilla, version)),
            spec_cache_key(MappingType::Yarn, version),
        ) is None,
        key_index(
            without(without(c.entries(), spec_cache_key(MappingType::Yarn, version)), spec_cache_key(MappingType::Vanilla, version)),
            spec_cache_key(MappingType::Vanilla, version),
        ) is None,
{
    let ky = spec_cache_key(MappingType::Yarn, version);
    let kv = spec_cache_key(MappingType::Vanilla, version);
    lemma_cache_wf(c);
    lemma_without_absent(c.entries(), ky, ky);
    lemma_without_absent(without(c.entries(), ky), kv, ky);
    lemma_without_absent(without(c.entries(), ky), kv, kv);
}

/// The cache does not change answers: right after a fresh pass stored mapping
/// set `m` under a version and family, a cached pass over any content finds
/// an entry that answers what `m` answers (when the low watermark keeps at
/// least one entry).
pub proof fn law_cached_answers_as_fresh(
    c: Cache,
    mtype: MappingType,
    version: Seq<char>,
    m: LoadedMappings,
    content: Seq<char>,
)
    requires
        c.wf(),
        low_mark(c.config()) >= 1,
    ensures
        ({
            let e = after_insert(c.config(), c.entries(), spec_cache_key(mtype, version), m).0;
            key_index(e, spec_cache_key(mtype, version)) matches Some(i)
                && spec_deobfuscate_loaded(e[i].1, content) == spec_deobfuscate_loaded(m, content)
        }),
{
    lemma_cache_wf(c);
    law_insert_then_get(c.config(), c.entries(), spec_cache_key(mtype, version), m);
}


/// The answer a run of availability steps ends with, driven by the events
/// `Start`, then `LocalFile` after a `CheckLocal`, then `Fetched` after a
/// `Fetch`: `None` when the actions do not end in `Done`.
pub open spec fn availability_outcome(
    first: AvailabilityAction,
    second: AvailabilityAction,
    third: AvailabilityAction,
) -> Option<bool> {
    match first {
        AvailabilityAction::Done(b) => Some(b),
        AvailabilityAction::CheckLocal(_) => match second {
            AvailabilityAction::Done(b) => Some(b),
            AvailabilityAction::Fetch => match third {
                AvailabilityAction::Done(b) => Some(b),
                _ => None,
            },
            _ => None,
        },
        AvailabilityAction::Fetch => match third {
            AvailabilityAction::Done(b) => Some(b),
            _ => None,
        },
    }
}

/// Making a mapping available always ends, and ends with `true` exactly when
/// a valid version's local file exists, or else when auto-download is on,
/// the version is downloadable and the fetch reported a usable mapping;
/// a failed fetch counts as `false`, and nothing is fetched otherwise.
pub proof fn law_availability_outcome(
    s: Spinyarn,
    version: Seq<char>,
    mtype: MappingType,
    local: bool,
    fetched: Result<bool, MappingLoadError>,
    first: AvailabilityAction,
    second: AvailabilityAction,
    third: AvailabilityAction,
)
    requires
        s.availability_step(version, mtype, AvailabilityEvent::Start, first),
        s.availability_step(version, mtype, AvailabilityEvent::LocalFile(local), second),
        s.availability_step(version, mtype, AvailabilityEvent::Fetched(fetched), third),
    ensures
        availability_outcome(first, second, third) == Some(
            (valid_version(version) && local) || (!(valid_version(version) && local) && s.downloads()
                && downloadable_token(version) && fetched == Ok::<bool, MappingLoadError>(true)),
        ),
        first is Fetch || second is Fetch ==> s.downloads() && downloadable_token(version),
{
}


/// What `process_step` does for an event, from engine state `s0` to `s1`.
pub open spec fn process_transition(
    s0: Spinyarn,
    s1: Spinyarn,
    version: Seq<char>,
    mtype: MappingType,
    content: Seq<char>,
    event: ProcessEvent,
    a: ProcessAction,
) -> bool {
    match event {
        ProcessEvent::Start => a is Ensure && s1.cache_state() == s0.cache_state(),
        ProcessEvent::Available(false) => (a matches ProcessAction::Done(o) && output_view(o)
            == (content, 0nat, 0nat, 0nat)) && s1.cache_state() == s0.cache_state(),
        ProcessEvent::Available(true) => match s0.cache_state() {
            None => a is Load && s1.cache_state() is None,
            Some(c) => s1.cache_state() matches Some(c2) && c2.config()
                == c.config() && c2.entries() == after_get(
                c.entries(),
                spec_cache_key(mtype, version),
            ) && c2.eviction_count() == c.eviction_count() && match key_index(
                c.entries(),
                spec_cache_key(mtype, version),
            ) {
                Some(i) => (a matches ProcessAction::Done(o) && output_view(o)
                    == spec_deobfuscate_loaded(c.entries()[i].1, content))
                    && c2.hit_count() == bump(c.hit_count(), 1) && c2.miss_count()
                    == c.miss_count(),
                None => a is Load && c2.miss_count() == bump(c.miss_count(), 1)
                    && c2.hit_count() == c.hit_count(),
            },
        },
        ProcessEvent::Loaded(None) => (a matches ProcessAction::Done(o) && output_view(o)
            == (content, 0nat, 0nat, 0nat)) && s1.cache_state() == s0.cache_state(),
        ProcessEvent::Loaded(Some(l)) => (a matches ProcessAction::Done(o) && output_view(o)
            == spec_deobfuscate_loaded(l, content)) && match s0.cache_state() {
            None => s1.cache_state() is None,
            Some(c) => s1.cache_state() matches Some(c2) && c2.config()
                == c.config() && c2.entries() == after_insert(
                c.config(),
                c.entries(),
                spec_cache_key(mtype, version),
                l,
            ).0,
        },
    }
}

/// The answer a served request ends with, after the events `Available` and
/// then, on `Load`, `Loaded`: `None` when the actions do not end in `Done`.
pub open spec fn process_outcome(first: ProcessAction, second: ProcessAction) -> Option<
    (Seq<char>, nat, nat, nat),
> {
    match first {
        ProcessAction::Done(o) => Some(output_view(o)),
        ProcessAction::Load => match second {
            ProcessAction::Done(o) => Some(output_view(o)),
            _ => None,
        },
        ProcessAction::Ensure => None,
    }
}

/// Serving a request always ends with an answer: the input unchanged with
/// zero counts when the mapping is unavailable or cannot be loaded; the
/// cached set's rewrite on a cache hit; otherwise the rewrite by the freshly
/// loaded set, which the cache then holds under the version and family
/// (when the cache is on and its low watermark keeps an entry).
pub proof fn law_process_outcome(
    s0: Spinyarn,
    s1: Spinyarn,
    s2: Spinyarn,
    version: Seq<char>,
    mtype: MappingType,
    content: Seq<char>,
    available: bool,
    loaded: Option<LoadedMappings>,
    first: ProcessAction,
    second: ProcessAction,
)
    requires
        s0.wf(),
        process_transition(s0, s1, version, mtype, content, ProcessEvent::Available(available), first),
        process_transition(s1, s2, version, mtype, content, ProcessEvent::Loaded(loaded), second),
    ensures
        process_outcome(first, second) == Some(
            if !available {
                (content, 0nat, 0nat, 0nat)
            } else {
                match s0.cache_state() {
                    Some(c) if key_index(c.entries(), spec_cache_key(mtype, version)) is Some => {
                        let i = key_index(c.entries(), spec_cache_key(mtype, version))->0;
                        spec_deobfuscate_loaded(c.entries()[i].1, content)
                    },
                    _ => match loaded {
                        None => (content, 0nat, 0nat, 0nat),
                        Some(l) => spec_deobfuscate_loaded(l, content),
                    },
                }
            },
        ),
        available && s0.cache_state() is None ==> s2.cache_state() is None,
        ({
            let key = spec_cache_key(mtype, version);
            (s0.cache_state() matches Some(c) && available && loaded is Some && key_index(c.entries(), key)
                is None && low_mark(c.config()) >= 1) ==> (s2.cache_state() matches Some(c2) && (key_index(
                c2.entries(),
                key,
            ) matches Some(i) && c2.entries()[i].1 == loaded->0))
        }),
{
    let key = spec_cache_key(mtype, version);
    if available {
        if let Some(c) = s0.cache_state() {
            if key_index(c.entries(), key) is None {
                if let Some(l) = loaded {
                    let c1 = s1.cache_state()->0;
                    lemma_cache_wf(c);
                    assert(c1.entries() == c.entries());
                    if low_mark(c.config()) >= 1 {
                        law_insert_then_get(c.config(), c1.entries(), key, l);
                    }
                }
            }
        }
    }
}

} // verus!
