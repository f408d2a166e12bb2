use vstd::prelude::*;

use crate::text::{chars_of, parse_unsigned};

verus! {

/// Default request body limit (64MB).
pub const DEFAULT_MAX_BODY_SIZE: usize = 67108864;

/// Service configuration: server, mapping source and cache sections.
pub struct Config {
    pub server: ServerConfig,
    pub maven: MavenConfig,
    pub cache: CacheConfig,
}

pub struct ServerConfig {
    pub host: String,
    pub port: u16,
    pub max_body_size: usize,
    pub max_concurrency: usize,
}

pub struct MavenConfig {
    pub mappings_dir: String,
    pub auto_download: bool,
    /// Versions fetched at startup when `auto_download` is on; both the Yarn
    /// (`<version>.tiny.gz`) and Vanilla (`vanilla/<version>.txt`) families
    /// are fetched for each listed version.
    pub bootstrap_versions: Vec<String>,
}

/// In-memory LRU cache of parsed mappings with watermark eviction.
pub struct CacheConfig {
    pub enabled: bool,
    pub max_entries: usize,
    pub high_watermark: usize,
    pub low_watermark: usize,
}

impl Clone for CacheConfig {
    fn clone(&self) -> (c: Self)
        ensures
            c == *self,
    {
        CacheConfig {
            enabled: self.enabled,
            max_entries: self.max_entries,
            high_watermark: self.high_watermark,
            low_watermark: self.low_watermark,
        }
    }
}

pub fn default_host() -> (h: String)
    ensures
        h@ == "127.0.0.1"@,
{
    "127.0.0.1".to_string()
}

pub fn default_port() -> (p: u16)
    ensures
        p == 14523,
{
    14523
}

pub fn default_max_body_size() -> (n: usize)
    ensures
        n == DEFAULT_MAX_BODY_SIZE,
{
    DEFAULT_MAX_BODY_SIZE
}

/// The concurrency bound: the `SPINYARN_MAX_CONCURRENCY` setting when it
/// parses as a number, else 32.
pub fn default_max_concurrency(setting: Option<&str>) -> (n: usize)
    ensures
        match setting {
            Some(s) => match crate::text::parse_unsigned_spec(s@, usize::MAX as nat) {
                Some(v) => n == v,
                None => n == 32,
            },
            None => n == 32,
        },
{
    match setting {
        Some(s) => match parse_unsigned(chars_of(s).as_slice(), usize::MAX as u64) {
            Some(v) => v as usize,
            None => 32,
        },
        None => 32,
    }
}

/// Auto-download missing mapping files at runtime (default on).
pub fn default_auto_download() -> (b: bool)
    ensures
        b,
{
    true
}

/// The default startup bootstrap list: every Yarn version 1.14 - 1.21.11.
pub open spec fn bootstrap_list() -> Seq<Seq<char>> {
    seq![
        "1.14"@,
        "1.14.1"@,
        "1.14.2"@,
        "1.14.3"@,
        "1.14.4"@,
        "1.15"@,
        "1.15.1"@,
        "1.15.2"@,
        "1.16"@,
        "1.16.1"@,
        "1.16.2"@,
        "1.16.3"@,
        "1.16.4"@,
        "1.16.5"@,
        "1.17"@,
        "1.17.1"@,
        "1.18"@,
        "1.18.1"@,
        "1.18.2"@,
        "1.19"@,
        "1.19.1"@,
        "1.19.2"@,
        "1.19.3"@,
        "1.19.4"@,
        "1.20"@,
        "1.20.1"@,
        "1.20.2"@,
        "1.20.3"@,
        "1.20.4"@,
        "1.20.5"@,
        "1.20.6"@,
        "1.21"@,
        "1.21.1"@,
        "1.21.2"@,
        "1.21.3"@,
        "1.21.4"@,
        "1.21.5"@,
        "1.21.6"@,
        "1.21.7"@,
        "1.21.8"@,
        "1.21.9"@,
        "1.21.10"@,
        "1.21.11"@
    ]
}

pub fn default_bootstrap_versions() -> (v: Vec<String>)
    ensures
        v@.map_values(|s: String| s@) == bootstrap_list(),
{
    let v = vec![
        "1.14".to_string(),
        "1.14.1".to_string(),
        "1.14.2".to_string(),
        "1.14.3".to_string(),
        "1.14.4".to_string(),
        "1.15".to_string(),
        "1.15.1".to_string(),
        "1.15.2".to_string(),
        "1.16".to_string(),
        "1.16.1".to_string(),
        "1.16.2".to_string(),
        "1.16.3".to_string(),
        "1.16.4".to_string(),
        "1.16.5".to_string(),
        "1.17".to_string(),
        "1.17.1".to_string(),
        "1.18".to_string(),
        "1.18.1".to_string(),
        "1.18.2".to_string(),
        "1.19".to_string(),
        "1.19.1".to_string(),
        "1.19.2".to_string(),
        "1.19.3".to_string(),
        "1.19.4".to_string(),
        "1.20".to_string(),
        "1.20.1".to_string(),
        "1.20.2".to_string(),
        "1.20.3".to_string(),
        "1.20.4".to_string(),
        "1.20.5".to_string(),
        "1.20.6".to_string(),
        "1.21".to_string(),
        "1.21.1".to_string(),
        "1.21.2".to_string(),
        "1.21.3".to_string(),
        "1.21.4".to_string(),
        "1.21.5".to_string(),
        "1.21.6".to_string(),
        "1.21.7".to_string(),
        "1.21.8".to_string(),
        "1.21.9".to_string(),
        "1.21.10".to_string(),
        "1.21.11".to_string()
    ];
    assert(v@.map_values(|s: String| s@) =~= bootstrap_list());
    v
}

pub fn default_cache_enabled() -> (b: bool)
    ensures
        b,
{
    true
}

pub fn default_cache_max_entries() -> (n: usize)
    ensures
        n == 44,
{
    44
}

pub fn default_cache_high() -> (n: usize)
    ensures
        n == 40,
{
    40
}

pub fn default_cache_low() -> (n: usize)
    ensures
        n == 30,
{
    30
}

impl Default for CacheConfig {
    fn default() -> (c: Self)
        ensures
            c.enabled,
            c.max_entries == 44,
            c.high_watermark == 40,
            c.low_watermark == 30,
    {
        CacheConfig {
            enabled: default_cache_enabled(),
            max_entries: default_cache_max_entries(),
            high_watermark: default_cache_high(),
            low_watermark: default_cache_low(),
        }
    }
}

impl ServerConfig {
    /// The default server section, given the `SPINYARN_MAX_CONCURRENCY`
    /// setting (if any).
    pub fn with_defaults(max_concurrency_setting: Option<&str>) -> (c: Self)
        ensures
            c.host@ == "127.0.0.1"@,
            c.port == 14523,
            c.max_body_size == DEFAULT_MAX_BODY_SIZE,
            c.max_concurrency == default_max_concurrency_spec(max_concurrency_setting),
    {
        ServerConfig {
            host: default_host(),
            port: default_port(),
            max_body_size: default_max_body_size(),
            max_concurrency: default_max_concurrency(max_concurrency_setting),
        }
    }
}

/// What `default_max_concurrency` gives for a setting.
pub open spec fn default_max_concurrency_spec(setting: Option<&str>) -> usize {
    match setting {
        Some(s) => match crate::text::parse_unsigned_spec(s@, usize::MAX as nat) {
            Some(v) => v as usize,
            None => 32,
        },
        None => 32,
    }
}

impl MavenConfig {
    /// The default mapping-source section for a mappings directory.
    pub fn with_defaults(mappings_dir: String) -> (c: Self)
        ensures
            c.mappings_dir == mappings_dir,
            c.auto_download,
            c.bootstrap_versions@.map_values(|s: String| s@) == bootstrap_list(),
    {
        MavenConfig {
            mappings_dir,
            auto_download: default_auto_download(),
            bootstrap_versions: default_bootstrap_versions(),
        }
    }
}

} // verus!
