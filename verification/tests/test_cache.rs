use std::sync::Arc;

use spinyarn::cache::Cache;
use spinyarn::config::CacheConfig;
use spinyarn::mapping::dispatcher::LoadedMappings;
use spinyarn::mapping::Mappings;

fn cfg(enabled: bool, max: usize, high: usize, low: usize) -> CacheConfig {
    CacheConfig {
        enabled,
        max_entries: max,
        high_watermark: high,
        low_watermark: low,
    }
}

fn mappings(id: &str) -> Arc<LoadedMappings> {
    let mut m = Mappings::empty();
    m.classes.insert(id.to_string(), id.to_string());
    Arc::new(LoadedMappings::Yarn(Arc::new(m)))
}

#[test]
fn test_get_miss_then_hit() {
    let mut c = Cache::new(cfg(true, 10, 8, 4));
    assert!(c.get("1.21.9").is_none());
    c.insert("1.21.9", mappings("a"));
    assert!(c.get("1.21.9").is_some());
    let s = c.stats();
    assert_eq!(s.hits, 1);
    assert_eq!(s.misses, 1);
}

#[test]
fn test_watermark_eviction_trims_to_low() {
    let mut c = Cache::new(cfg(true, 10, 5, 2));
    // Inserting v4 (5th) crosses high(5) and trims back to low(2), evicting
    // v0..v2; v5 then fills back up to 3 without another eviction.
    for i in 0..6 {
        c.insert(&format!("v{}", i), mappings("x"));
    }
    let s = c.stats();
    assert_eq!(s.entries, 3, "oscillates in (low, high]");
    assert_eq!(s.evictions, 3);
    // most recent survive, oldest evicted
    assert!(c.get("v4").is_some());
    assert!(c.get("v5").is_some());
    assert!(c.get("v0").is_none());
}

#[test]
fn test_recency_keeps_recent_entries() {
    let mut c = Cache::new(cfg(true, 10, 5, 3));
    for i in 0..5 {
        c.insert(&format!("v{}", i), mappings("x"));
    }
    // v5th insert triggered an eviction of v0,v1 -> {v2,v3,v4}
    // Touch v2 to make it the most recent, then push two more.
    assert!(c.get("v2").is_some());
    c.insert("v5", mappings("x"));
    c.insert("v6", mappings("x")); // len 5 -> evict 2 oldest (v3,v4)
    assert!(c.get("v2").is_some(), "v2 was touched, must survive");
    assert!(c.get("v3").is_none(), "v3 untouched -> evicted");
    assert!(c.get("v6").is_some());
}

#[test]
fn test_get_updates_recency() {
    let mut c = Cache::new(cfg(true, 10, 5, 2));
    for i in 0..4 {
        c.insert(&format!("v{}", i), mappings("x"));
    }
    // Touch the oldest (v0) so it survives the eviction triggered by v4.
    assert!(c.get("v0").is_some());
    c.insert("v4", mappings("x")); // len 5 -> evict 3 (v1,v2,v3)
    assert!(c.get("v0").is_some(), "get must bump recency");
    assert!(c.get("v1").is_none(), "un-touched oldest evicted");
}

#[test]
fn cache_insert_then_get_returns_inserted_value() {
    let mut c = Cache::new(cfg(true, 4, 4, 3));
    c.insert("k", mappings("first"));
    c.insert("k", mappings("second"));
    let got = c.get("k").expect("hit");
    match &*got {
        LoadedMappings::Yarn(m) => assert_eq!(m.classes.get("second").map(String::as_str), Some("second")),
        LoadedMappings::Vanilla(_) => panic!("wrong family"),
    }
    assert_eq!(c.stats().entries, 1);
}

#[test]
fn cache_never_exceeds_capacity() {
    let mut c = Cache::new(cfg(true, 3, 10, 10));
    for i in 0..20 {
        c.insert(&format!("v{}", i), mappings("x"));
        assert!(c.stats().entries <= 3);
    }
}

#[test]
fn cache_zero_low_watermark_empties_on_eviction() {
    let mut c = Cache::new(cfg(true, 2, 2, 0));
    c.insert("a", mappings("x"));
    c.insert("b", mappings("x"));
    let s = c.stats();
    assert_eq!(s.entries, 0);
    assert_eq!(s.evictions, 2);
}

#[test]
fn cache_remove_reports_presence() {
    let mut c = Cache::new(cfg(true, 10, 8, 4));
    c.insert("a", mappings("x"));
    assert!(c.remove("a"));
    assert!(!c.remove("a"));
    assert!(c.get("a").is_none());
    assert_eq!(c.stats().evictions, 0);
}
