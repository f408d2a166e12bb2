use std::sync::Arc;

use vstd::prelude::*;

use crate::config::CacheConfig;
use crate::mapping::dispatcher::{share, LoadedMappings};

verus! {

/// One cached mapping set.
pub struct CacheEntry {
    key: String,
    value: Arc<LoadedMappings>,
}

/// In-memory LRU cache of parsed mapping sets (Yarn/Vanilla), shared via `Arc`.
///
/// Entries are kept from least to most recently used; every `get` hit and
/// every `insert` makes the entry the most recent. Once an insert brings the
/// cache to the high watermark, the least recently used entries are evicted
/// down to the low watermark, so the size oscillates between the two levels
/// instead of idling at full capacity.
pub struct Cache {
    cfg: CacheConfig,
    order: Vec<CacheEntry>,
    hits: u64,
    misses: u64,
    evictions: u64,
}

/// Cache counters.
pub struct CacheStats {
    pub enabled: bool,
    pub entries: usize,
    pub hits: u64,
    pub misses: u64,
    pub evictions: u64,
}

/// `max(max_entries, 1)`.
pub open spec fn capacity(cfg: CacheConfig) -> nat {
    if cfg.max_entries == 0 {
        1
    } else {
        cfg.max_entries as nat
    }
}

/// The high watermark clamped to `[1, capacity]`.
pub open spec fn high_mark(cfg: CacheConfig) -> nat {
    if cfg.high_watermark < 1 {
        1
    } else if cfg.high_watermark > capacity(cfg) {
        capacity(cfg)
    } else {
        cfg.high_watermark as nat
    }
}

/// The low watermark, at most the high watermark.
pub open spec fn low_mark(cfg: CacheConfig) -> nat {
    if cfg.low_watermark < high_mark(cfg) {
        cfg.low_watermark as nat
    } else {
        high_mark(cfg)
    }
}

/// Counter increment as a `u64` (wrapping past `u64::MAX`).
pub open spec fn bump(x: u64, n: nat) -> u64 {
    ((x + n) % 0x1_0000_0000_0000_0000) as u64
}

/// The mapping set behind a shared handle.
pub open spec fn shared_value(a: Arc<LoadedMappings>) -> LoadedMappings {
    *a
}

/// First position of key `k`.
pub open spec fn key_index(s: Seq<(Seq<char>, LoadedMappings)>, k: Seq<char>) -> Option<int> {
    key_index_from(s, k, 0)
}

pub open spec fn key_index_from(s: Seq<(Seq<char>, LoadedMappings)>, k: Seq<char>, i: int) -> Option<int>
    decreases s.len() - i,
{
    if i < 0 || i >= s.len() {
        None
    } else if s[i].0 == k {
        Some(i)
    } else {
        key_index_from(s, k, i + 1)
    }
}

/// No key occurs twice.
pub open spec fn distinct_keys(s: Seq<(Seq<char>, LoadedMappings)>) -> bool {
    forall|i: int, j: int| 0 <= i < s.len() && 0 <= j < s.len() && i != j ==> #[trigger] s[i].0 != #[trigger] s[j].0
}

/// The entries after a lookup of `k`: a hit becomes the most recent.
pub open spec fn after_get(s: Seq<(Seq<char>, LoadedMappings)>, k: Seq<char>) -> Seq<(Seq<char>, LoadedMappings)> {
    match key_index(s, k) {
        Some(i) => s.remove(i).push(s[i]),
        None => s,
    }
}

/// The entries without key `k`.
pub open spec fn without(s: Seq<(Seq<char>, LoadedMappings)>, k: Seq<char>) -> Seq<(Seq<char>, LoadedMappings)> {
    match key_index(s, k) {
        Some(i) => s.remove(i),
        None => s,
    }
}

/// The entries after inserting `(k, v)` as the most recent, and how many
/// least recently used entries were evicted.
pub open spec fn after_insert(
    cfg: CacheConfig,
    s: Seq<(Seq<char>, LoadedMappings)>,
    k: Seq<char>,
    v: LoadedMappings,
) -> (Seq<(Seq<char>, LoadedMappings)>, nat) {
    let t = without(s, k).push((k, v));
    if t.len() >= high_mark(cfg) {
        let r = (t.len() - low_mark(cfg)) as nat;
        (t.subrange(r as int, t.len() as int), r)
    } else {
        (t, 0)
    }
}

pub proof fn lemma_key_index(s: Seq<(Seq<char>, LoadedMappings)>, k: Seq<char>, i: int)
    requires
        0 <= i,
    ensures
        key_index_from(s, k, i) matches Some(j) ==> i <= j < s.len() && s[j].0 == k,
        key_index_from(s, k, i) is None ==> forall|j: int| i <= j < s.len() ==> s[j].0 != k,
    decreases s.len() - i,
{
    if i < s.len() && s[i].0 != k {
        lemma_key_index(s, k, i + 1);
    }
}

/// Removing `k` and appending a fresh `(k, v)` keeps keys distinct, and
/// grows the sequence by one exactly when `k` was absent.
pub proof fn lemma_push_fresh(s: Seq<(Seq<char>, LoadedMappings)>, k: Seq<char>, v: LoadedMappings)
    requires
        distinct_keys(s),
    ensures
        distinct_keys(without(s, k).push((k, v))),
        without(s, k).len() == if key_index(s, k) is Some { s.len() - 1 } else { s.len() as int },
{
    lemma_key_index(s, k, 0);
    let t = without(s, k).push((k, v));
    assert forall|a: int, b: int| 0 <= a < t.len() && 0 <= b < t.len() && a != b implies #[trigger] t[a].0 != #[trigger] t[b].0 by {
        match key_index(s, k) {
            Some(i) => {
                let ia = if a < i { a } else { a + 1 };
                let ib = if b < i { b } else { b + 1 };
                if a < t.len() - 1 {
                    assert(t[a] == s[ia]);
                }
                if b < t.len() - 1 {
                    assert(t[b] == s[ib]);
                }
            },
            None => {
                if a < t.len() - 1 {
                    assert(t[a] == s[a]);
                }
                if b < t.len() - 1 {
                    assert(t[b] == s[b]);
                }
            },
        }
    }
}

/// A contiguous part of a sequence with distinct keys has distinct keys.
pub proof fn lemma_subrange_distinct(t: Seq<(Seq<char>, LoadedMappings)>, lo: int, hi: int)
    requires
        distinct_keys(t),
        0 <= lo <= hi <= t.len(),
    ensures
        distinct_keys(t.subrange(lo, hi)),
{
    let u = t.subrange(lo, hi);
    assert forall|a: int, b: int| 0 <= a < u.len() && 0 <= b < u.len() && a != b implies #[trigger] u[a].0 != #[trigger] u[b].0 by {
        assert(u[a] == t[a + lo]);
        assert(u[b] == t[b + lo]);
    }
}

impl Cache {
    /// The entries, from least to most recently used.
    pub closed spec fn entries(&self) -> Seq<(Seq<char>, LoadedMappings)> {
        self.order@.map_values(|e: CacheEntry| (e.key@, *e.value))
    }

    pub closed spec fn config(&self) -> CacheConfig {
        self.cfg
    }

    pub closed spec fn hit_count(&self) -> u64 {
        self.hits
    }

    pub closed spec fn miss_count(&self) -> u64 {
        self.misses
    }

    pub closed spec fn eviction_count(&self) -> u64 {
        self.evictions
    }

    /// Keys are distinct and the size never exceeds the high watermark.
    pub closed spec fn wf(&self) -> bool {
        &&& distinct_keys(self.entries())
        &&& self.entries().len() <= high_mark(self.cfg)
    }

    pub fn new(cfg: CacheConfig) -> (c: Self)
        ensures
            c.wf(),
            c.config() == cfg,
            c.entries() == Seq::<(Seq<char>, LoadedMappings)>::empty(),
            c.hit_count() == 0 && c.miss_count() == 0 && c.eviction_count() == 0,
    {
        let c = Cache { cfg, order: Vec::new(), hits: 0, misses: 0, evictions: 0 };
        assert(c.entries() =~= Seq::<(Seq<char>, LoadedMappings)>::empty());
        c
    }

    /// Position of `key` in the recency order.
    fn position(&self, key: &str) -> (r: Option<usize>)
        ensures
            match r {
                Some(i) => key_index(self.entries(), key@) == Some(i as int),
                None => key_index(self.entries(), key@) is None,
            },
    {
        let k = key.to_string();
        let mut i: usize = 0;
        while i < self.order.len()
            invariant
                i <= self.order@.len(),
                k@ == key@,
                key_index(self.entries(), key@) == key_index_from(self.entries(), key@, i as int),
            decreases self.order@.len() - i,
        {
            assert(self.entries()[i as int].0 == self.order@[i as int].key@);
            if self.order[i].key == k {
                return Some(i);
            }
            i = i + 1;
        }
        None
    }

    /// Look up a version, making it the most recently used on a hit.
    pub fn get(&mut self, version: &str) -> (r: Option<Arc<LoadedMappings>>)
        requires
            old(self).wf(),
        ensures
            final(self).wf(),
            final(self).config() == old(self).config(),
            final(self).entries() == after_get(old(self).entries(), version@),
            match key_index(old(self).entries(), version@) {
                Some(i) => r matches Some(v) && *v == old(self).entries()[i].1
                    && final(self).hit_count() == bump(old(self).hit_count(), 1)
                    && final(self).miss_count() == old(self).miss_count(),
                None => r is None && final(self).miss_count() == bump(old(self).miss_count(), 1)
                    && final(self).hit_count() == old(self).hit_count(),
            },
            final(self).eviction_count() == old(self).eviction_count(),
    {
        let ghost s = self.entries();
        match self.position(version) {
            Some(i) => {
                proof {
                    lemma_key_index(s, version@, 0);
                }
                let e = self.order.remove(i);
                let v = share(&e.value);
                self.order.push(e);
                self.hits = self.hits.wrapping_add(1);
                proof {
                    assert(self.entries() =~= s.remove(i as int).push(s[i as int]));
                    assert forall|a: int, b: int|
                        0 <= a < self.entries().len() && 0 <= b < self.entries().len() && a != b
                        implies #[trigger] self.entries()[a].0 != #[trigger] self.entries()[b].0 by {
                        let t = self.entries();
                        let ia = if a < i { a } else if a < t.len() - 1 { a + 1 } else { i as int };
                        let ib = if b < i { b } else if b < t.len() - 1 { b + 1 } else { i as int };
                        assert(t[a] == s[ia]);
                        assert(t[b] == s[ib]);
                    }
                }
                Some(v)
            },
            None => {
                self.misses = self.misses.wrapping_add(1);
                assert(self.entries() =~= s);
                None
            },
        }
    }

    /// Insert a version's mappings as the most recently used entry, then trim
    /// down to the low watermark if the high watermark has been reached
    /// (evicting least recently used entries).
    pub fn insert(&mut self, version: &str, mappings: Arc<LoadedMappings>)
        requires
            old(self).wf(),
        ensures
            final(self).wf(),
            final(self).config() == old(self).config(),
            final(self).entries() == after_insert(old(self).config(), old(self).entries(), version@, *mappings).0,
            final(self).eviction_count() == bump(
                old(self).eviction_count(),
                after_insert(old(self).config(), old(self).entries(), version@, *mappings).1,
            ),
            final(self).hit_count() == old(self).hit_count(),
            final(self).miss_count() == old(self).miss_count(),
    {
        let ghost s = self.entries();
        let ghost v = shared_value(mappings);
        let ghost t = without(s, version@).push((version@, v));
        self.take_out(version);
        self.order.push(CacheEntry { key: version.to_string(), value: mappings });
        proof {
            assert(self.entries() =~= t);
            lemma_push_fresh(s, version@, v);
        }
        let max = if self.cfg.max_entries == 0 { 1 } else { self.cfg.max_entries };
        let high = if self.cfg.high_watermark < 1 {
            1
        } else if self.cfg.high_watermark > max {
            max
        } else {
            self.cfg.high_watermark
        };
        let low = if self.cfg.low_watermark < high { self.cfg.low_watermark } else { high };
        let len = self.order.len();
        if len >= high {
            let remove = len - low;
            if remove > 0 {
                let ghost oo = self.order@;
                let kept = self.order.split_off(remove);
                self.order = kept;
                self.evictions = self.evictions.wrapping_add(remove as u64);
                proof {
                    assert(self.order@ =~= oo.subrange(remove as int, len as int));
                    assert(self.entries() =~= t.subrange(remove as int, t.len() as int));
                    lemma_subrange_distinct(t, remove as int, t.len() as int);
                }
            }
        }
    }

    /// Drop the entry of `version`, if any.
    fn take_out(&mut self, version: &str) -> (removed: bool)
        requires
            distinct_keys(old(self).entries()),
        ensures
            final(self).cfg == old(self).cfg,
            final(self).hits == old(self).hits,
            final(self).misses == old(self).misses,
            final(self).evictions == old(self).evictions,
            removed == (key_index(old(self).entries(), version@) is Some),
            final(self).entries() == without(old(self).entries(), version@),
            distinct_keys(final(self).entries()),
    {
        let ghost s = self.entries();
        proof {
            lemma_key_index(s, version@, 0);
        }
        match self.position(version) {
            Some(i) => {
                self.order.remove(i);
                proof {
                    assert(self.entries() =~= s.remove(i as int));
                    assert forall|a: int, b: int|
                        0 <= a < self.entries().len() && 0 <= b < self.entries().len() && a != b
                        implies #[trigger] self.entries()[a].0 != #[trigger] self.entries()[b].0 by {
                        let ia = if a < i { a } else { a + 1 };
                        let ib = if b < i { b } else { b + 1 };
                        assert(self.entries()[a] == s[ia]);
                        assert(self.entries()[b] == s[ib]);
                    }
                }
                true
            },
            None => false,
        }
    }

    /// Remove a version; whether it was present.
    pub fn remove(&mut self, version: &str) -> (removed: bool)
        requires
            old(self).wf(),
        ensures
            final(self).wf(),
            final(self).config() == old(self).config(),
            removed == (key_index(old(self).entries(), version@) is Some),
            final(self).entries() == without(old(self).entries(), version@),
            final(self).hit_count() == old(self).hit_count(),
            final(self).miss_count() == old(self).miss_count(),
            final(self).eviction_count() == old(self).eviction_count(),
    {
        proof {
            lemma_key_index(self.entries(), version@, 0);
        }
        self.take_out(version)
    }

    pub fn stats(&self) -> (s: CacheStats)
        ensures
            s.enabled == self.config().enabled,
            s.entries == self.entries().len(),
            s.hits == self.hit_count(),
            s.misses == self.miss_count(),
            s.evictions == self.eviction_count(),
    {
        CacheStats {
            enabled: self.cfg.enabled,
            entries: self.order.len(),
            hits: self.hits,
            misses: self.misses,
            evictions: self.evictions,
        }
    }
}


/// A well-formed cache never holds more than its capacity.
pub proof fn law_cache_bounded(c: &Cache)
    requires
        c.wf(),
    ensures
        c.entries().len() <= capacity(c.config()),
{
}

/// After an insert the cache holds fewer entries than the high watermark, or
/// exactly the low watermark: it oscillates between the two levels.
pub proof fn law_insert_size(
    cfg: CacheConfig,
    s: Seq<(Seq<char>, LoadedMappings)>,
    k: Seq<char>,
    v: LoadedMappings,
)
    requires
        distinct_keys(s),
        s.len() <= high_mark(cfg),
    ensures
        after_insert(cfg, s, k, v).0.len() < high_mark(cfg)
            || after_insert(cfg, s, k, v).0.len() == low_mark(cfg),
        distinct_keys(after_insert(cfg, s, k, v).0),
{
    lemma_push_fresh(s, k, v);
    let t = without(s, k).push((k, v));
    if t.len() >= high_mark(cfg) {
        lemma_subrange_distinct(t, t.len() - low_mark(cfg), t.len() as int);
    }
}

/// What was just inserted is found by the next lookup, with the inserted
/// value, unless the low watermark is zero (then an eviction empties the cache).
pub proof fn law_insert_then_get(
    cfg: CacheConfig,
    s: Seq<(Seq<char>, LoadedMappings)>,
    k: Seq<char>,
    v: LoadedMappings,
)
    requires
        distinct_keys(s),
        s.len() <= high_mark(cfg),
        low_mark(cfg) >= 1,
    ensures
        key_index(after_insert(cfg, s, k, v).0, k) matches Some(i)
            && after_insert(cfg, s, k, v).0[i].1 == v,
{
    law_insert_size(cfg, s, k, v);
    let u = after_insert(cfg, s, k, v).0;
    let last = u.len() - 1;
    assert(u[last] == (k, v));
    lemma_key_index(u, k, 0);
    if let Some(i) = key_index(u, k) {
        if i != last {
            assert(u[i].0 != u[last].0);
        }
    } else {
        assert(u[last].0 != k);
    }
}

/// An entry that a lookup has just touched survives the eviction that the
/// next insert of another key may cause, as long as the low watermark keeps at
/// least two entries: eviction takes the least recently used first.
pub proof fn law_get_protects_from_eviction(
    cfg: CacheConfig,
    s: Seq<(Seq<char>, LoadedMappings)>,
    k: Seq<char>,
    k2: Seq<char>,
    v: LoadedMappings,
)
    requires
        distinct_keys(s),
        key_index(s, k) is Some,
        k != k2,
        low_mark(cfg) >= 2,
    ensures
        key_index(after_insert(cfg, after_get(s, k), k2, v).0, k) is Some,
{
    lemma_key_index(s, k, 0);
    let i = key_index(s, k)->0;
    let g = s.remove(i).push(s[i]);
    assert(after_get(s, k) == g);
    let w = without(g, k2);
    lemma_key_index(g, k2, 0);
    let t = w.push((k2, v));
    // the touched entry is now second to last
    assert(g[g.len() - 1].0 == k);
    match key_index(g, k2) {
        Some(j) => {
            assert(j != g.len() - 1);
            assert(w[w.len() - 1] == g[g.len() - 1]);
        },
        None => {
            assert(w == g);
        },
    }
    assert(t[t.len() - 2].0 == k);
    let u = after_insert(cfg, g, k2, v).0;
    if t.len() >= high_mark(cfg) {
        assert(u[u.len() - 2] == t[t.len() - 2]);
        lemma_key_index(u, k, 0);
        if key_index(u, k) is None {
            assert(u[u.len() - 2].0 != k);
        }
    } else {
        lemma_key_index(u, k, 0);
        if key_index(u, k) is None {
            assert(u[u.len() - 2].0 != k);
        }
    }
}

/// Removing a key from entries with distinct keys leaves no entry for it, and
/// removing any key keeps an absent key absent.
pub proof fn lemma_without_absent(s: Seq<(Seq<char>, LoadedMappings)>, k: Seq<char>, k2: Seq<char>)
    requires
        distinct_keys(s),
        k2 == k || key_index(s, k2) is None,
    ensures
        key_index(without(s, k), k2) is None,
        distinct_keys(without(s, k)),
{
    lemma_key_index(s, k, 0);
    lemma_key_index(s, k2, 0);
    let w = without(s, k);
    lemma_key_index(w, k2, 0);
    match key_index(s, k) {
        Some(i) => {
            assert forall|a: int, b: int| 0 <= a < w.len() && 0 <= b < w.len() && a != b implies #[trigger] w[a].0 != #[trigger] w[b].0 by {
                let ia = if a < i { a } else { a + 1 };
                let ib = if b < i { b } else { b + 1 };
                assert(w[a] == s[ia]);
                assert(w[b] == s[ib]);
            }
            if let Some(j) = key_index(w, k2) {
                let sj = if j < i { j } else { j + 1 };
                assert(w[j] == s[sj]);
                if k2 == k {
                    assert(s[sj].0 == s[i].0);
                }
            }
        },
        None => {},
    }
}

/// A well-formed cache has distinct keys and holds at most the high watermark.
pub proof fn lemma_cache_wf(c: Cache)
    requires
        c.wf(),
    ensures
        distinct_keys(c.entries()),
        c.entries().len() <= high_mark(c.config()),
{
}

/// An insert that reaches the high watermark evicts exactly the oldest
/// entries beyond the low watermark: what stays is the most recent part of
/// the entries (the inserted one last), and the eviction count is the number
/// removed.
pub proof fn law_insert_evicts_oldest(
    cfg: CacheConfig,
    s: Seq<(Seq<char>, LoadedMappings)>,
    k: Seq<char>,
    v: LoadedMappings,
)
    ensures
        ({
            let t = without(s, k).push((k, v));
            let (kept, evicted) = after_insert(cfg, s, k, v);
            &&& t.len() >= high_mark(cfg) ==> evicted == t.len() - low_mark(cfg) && kept
                == t.subrange(evicted as int, t.len() as int)
            &&& t.len() < high_mark(cfg) ==> evicted == 0 && kept == t
        }),
{
}

} // verus!
