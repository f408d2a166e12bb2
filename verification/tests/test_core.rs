use std::io::Write;
use std::sync::Arc;

use spinyarn::capi::{spinyarn_mapping_type_t, to_mapping_type};
use spinyarn::config::{CacheConfig, Config, MavenConfig, ServerConfig};
use spinyarn::facade::{AvailabilityAction, AvailabilityEvent, ProcessAction, ProcessEvent};
use spinyarn::launcher::{
    parse_client_mappings_url, parse_manifest_entries,
    client_mappings_url, manifest_entries, version_url, ClientMappings, Downloads, LauncherManifest, ManifestEntry,
    VersionJson,
};
use spinyarn::listing::listed_versions;
use spinyarn::mapping::dispatcher::{local_path, LoadedMappings, MappingType};
use spinyarn::mapping::download::{
    checked_local_path, ensure_step, is_supported, is_version_supported, find_latest_build, is_downloadable_version, is_valid_version,
    latest_build, parse_gz, yarn_tiny_url, EnsureAction, EnsureEvent, MappingLoadError,
};
use spinyarn::mapping::vanilla::parse_tsrg;
use spinyarn::Spinyarn;

#[test]
fn test_from_full_settings_cache_disabled() {
    let s = Spinyarn::from_full_settings("/tmp", false, 0, 0, 0);
    assert!(s.cache_stats().is_none());
}

#[test]
fn test_from_full_settings_custom_bound() {
    let s = Spinyarn::from_full_settings("/tmp", false, 8, 8, 4);
    let stats = s.cache_stats().expect("cache enabled");
    assert!(stats.enabled);
}

#[test]
fn test_from_full_settings_auto_watermarks() {
    // high=0, low=0 -> derived from the cap (high = cap, low = 3/4 cap).
    let s = Spinyarn::from_full_settings("/tmp", false, 10, 0, 0);
    let stats = s.cache_stats().expect("cache enabled");
    assert!(stats.enabled);
}

fn vanilla_loaded() -> Arc<LoadedMappings> {
    let m = parse_tsrg("com.example.Main -> a:\n    0:10:void init() -> b\n").unwrap();
    Arc::new(LoadedMappings::Vanilla(Arc::new(m)))
}

#[test]
fn facade_auto_watermarks_trim_to_three_quarters() {
    // cap 4: high 4, low 3.
    let mut s = Spinyarn::from_full_settings("/tmp", false, 4, 0, 0);
    for v in ["1.0", "1.1", "1.2", "1.3"] {
        s.insert_cached(v, MappingType::Vanilla, &vanilla_loaded());
    }
    let stats = s.cache_stats().unwrap();
    assert_eq!(stats.entries, 3);
    assert_eq!(stats.evictions, 1);
    assert!(s.get_cached("1.0", MappingType::Vanilla).is_none());
    assert!(s.get_cached("1.3", MappingType::Vanilla).is_some());
}

#[test]
fn facade_cache_keys_keep_families_apart() {
    let mut s = Spinyarn::from_settings("/tmp", false);
    s.insert_cached("1.21.4", MappingType::Vanilla, &vanilla_loaded());
    assert!(s.get_cached("1.21.4", MappingType::Yarn).is_none());
    assert!(s.get_cached("1.21.4", MappingType::Vanilla).is_some());
    let stats = s.cache_stats().unwrap();
    assert_eq!((stats.hits, stats.misses), (1, 1));
}

#[test]
fn facade_unload_cached_reports_families() {
    let mut s = Spinyarn::from_settings("/tmp", false);
    s.insert_cached("1.21.4", MappingType::Vanilla, &vanilla_loaded());
    assert_eq!(s.unload_cached("1.21.4"), vec!["vanilla".to_string()]);
    assert!(s.get_cached("1.21.4", MappingType::Vanilla).is_none());
    assert!(s.unload_cached("1.21.4").is_empty());
    let mut off = Spinyarn::from_full_settings("/tmp", false, 0, 0, 0);
    assert!(off.unload_cached("1.21.4").is_empty());
    assert!(off.get_cached("1.21.4", MappingType::Vanilla).is_none());
}

#[test]
fn facade_deobfuscate_loaded_vanilla() {
    let loaded = vanilla_loaded();
    let out = Spinyarn::deobfuscate_loaded(&loaded, "at a.b(SourceFile.java:3)");
    assert_eq!(out.deobfuscated, "at com.example.Main.init(SourceFile.java:3)");
    assert_eq!((out.classes_mapped, out.methods_mapped, out.fields_mapped), (1, 1, 0));
}

#[test]
fn test_passthrough_unsupported_version() {
    let s = Spinyarn::from_settings("/tmp/nonexistent", false);
    // Snapshot version is not downloadable -> passthrough once no local file is found.
    let first = s.ensure_available_step("25w44a", MappingType::Yarn, AvailabilityEvent::Start);
    match first {
        AvailabilityAction::CheckLocal(p) => assert_eq!(p, "/tmp/nonexistent/25w44a.tiny.gz"),
        _ => panic!("expected a local check"),
    }
    let next = s.ensure_available_step("25w44a", MappingType::Yarn, AvailabilityEvent::LocalFile(false));
    assert!(matches!(next, AvailabilityAction::Done(false)));
    let out = Spinyarn::passthrough("at a.b(X.java:1)");
    assert_eq!(out.deobfuscated, "at a.b(X.java:1)");
    assert_eq!(out.classes_mapped, 0);
}

#[test]
fn facade_availability_fetches_downloadable_versions() {
    let s = Spinyarn::from_settings("/m", true);
    assert!(matches!(
        s.ensure_available_step("1.21.9", MappingType::Yarn, AvailabilityEvent::LocalFile(false)),
        AvailabilityAction::Fetch
    ));
    assert!(matches!(
        s.ensure_available_step("1.21.9", MappingType::Yarn, AvailabilityEvent::LocalFile(true)),
        AvailabilityAction::Done(true)
    ));
    assert!(matches!(
        s.ensure_available_step(
            "1.21.9",
            MappingType::Yarn,
            AvailabilityEvent::Fetched(Err(MappingLoadError::Network("down".to_string())))
        ),
        AvailabilityAction::Done(false)
    ));
    assert!(matches!(
        s.ensure_available_step("../x", MappingType::Yarn, AvailabilityEvent::Start),
        AvailabilityAction::Done(false)
    ));
}

#[test]
fn facade_new_honours_config() {
    let config = Config {
        server: ServerConfig::with_defaults(None),
        maven: MavenConfig::with_defaults("/maps".to_string()),
        cache: CacheConfig { enabled: false, max_entries: 10, high_watermark: 8, low_watermark: 4 },
    };
    let s = Spinyarn::new(&config);
    assert_eq!(s.mappings_dir(), "/maps");
    assert!(s.auto_download());
    assert!(s.cache_stats().is_none());
}

#[test]
fn test_mapping_type_parse() {
    assert_eq!(MappingType::parse("vanilla"), MappingType::Vanilla);
    assert_eq!(MappingType::parse("yarn"), MappingType::Yarn);
    assert_eq!(MappingType::parse(""), MappingType::Yarn);
    assert_eq!(MappingType::parse("srg"), MappingType::Yarn);
    assert_eq!(MappingType::Yarn.cache_key("1.21.4"), "yarn:1.21.4");
    assert_eq!(MappingType::Vanilla.cache_key("1.21.4"), "vanilla:1.21.4");
}

#[test]
fn mapping_type_name_roundtrip() {
    for t in [MappingType::Yarn, MappingType::Vanilla] {
        assert_eq!(MappingType::parse(t.as_str()), t);
    }
}

#[test]
fn test_mapping_type_discriminants() {
    assert_eq!(spinyarn_mapping_type_t::SPINYARN_YARN as i32, 0);
    assert_eq!(spinyarn_mapping_type_t::SPINYARN_VANILLA as i32, 1);
    assert_eq!(to_mapping_type(spinyarn_mapping_type_t::SPINYARN_VANILLA), MappingType::Vanilla);
    assert_eq!(to_mapping_type(spinyarn_mapping_type_t::SPINYARN_YARN), MappingType::Yarn);
}

#[test]
fn local_paths_of_both_families() {
    assert_eq!(local_path("1.21.4", "/maps", MappingType::Yarn), "/maps/1.21.4.tiny.gz");
    assert_eq!(local_path("1.21.4", "/maps/", MappingType::Vanilla), "/maps/vanilla/1.21.4.txt");
    assert_eq!(checked_local_path("../../etc/passwd", "/maps", MappingType::Yarn), None);
    assert_eq!(
        checked_local_path("1.21.9", "/maps", MappingType::Yarn).as_deref(),
        Some("/maps/1.21.9.tiny.gz")
    );
}

#[test]
fn download_test_is_valid_version_accepts_minecraft_tokens() {
    for v in ["1.21.9", "1.18.2-pre1", "1.21.11-rc2", "25w44a", "26.1", "26.1-Snapshot-1"] {
        assert!(is_valid_version(v), "should accept {}", v);
    }
}

#[test]
fn download_test_is_valid_version_rejects_traversal() {
    for v in ["../../etc/passwd", "../secret", "a/b", "a\\b", "..", "", ".", "a..b"] {
        assert!(!is_valid_version(v), "should reject {:?}", v);
    }
}

#[test]
fn download_test_is_valid_version_rejects_overlong() {
    assert!(!is_valid_version(&"x".repeat(65)));
}

#[test]
fn valid_version_accepts_sixty_four_characters() {
    assert!(is_valid_version(&"x".repeat(64)));
    assert!(!is_valid_version("-1.21"));
    assert!(!is_valid_version("1.21 "));
}

#[test]
fn download_test_is_downloadable_version() {
    for v in ["1.21.9", "1.21.12", "1.18.2-pre1", "1.21.11-rc2", "1.14"] {
        assert!(is_downloadable_version(v), "should accept {}", v);
    }
    for v in ["25w44a", "26.1", "26.1-Snapshot-1", "1.13.2.1", "x1.0"] {
        assert!(!is_downloadable_version(v), "should reject {}", v);
    }
}

#[test]
fn download_test_find_latest_build() {
    let meta = "<version>1.18.2-pre1+build.4</version>\n<version>1.18.2-pre1+build.6</version>\n<version>1.18.2-pre1+build.5</version>";
    assert_eq!(
        find_latest_build("1.18.2-pre1", meta).as_deref(),
        Some("1.18.2-pre1+build.6")
    );
    assert_eq!(find_latest_build("1.21.9", meta), None);
}

#[test]
fn latest_build_keeps_first_of_equal_numbers_and_rejects_overflow() {
    let caps = vec!["06".to_string(), "6".to_string(), "2".to_string()];
    assert_eq!(latest_build("1.20", &caps).as_deref(), Some("1.20+build.06"));
    let huge = vec!["3".to_string(), "99999999999999999999".to_string()];
    assert_eq!(latest_build("1.20", &huge), None);
    assert_eq!(latest_build("1.20", &Vec::new()), None);
}

#[test]
fn find_latest_build_accepts_legacy_dot_form() {
    let meta = "<version>1.14.4.2</version><version>1.14.4+build.18</version>";
    assert_eq!(find_latest_build("1.14.4", meta).as_deref(), Some("1.14.4+build.18"));
}

#[test]
fn yarn_url_encodes_plus() {
    assert_eq!(
        yarn_tiny_url("1.18.2-pre1+build.6"),
        "https://maven.fabricmc.net/net/fabricmc/yarn/1.18.2-pre1%2Bbuild.6/yarn-1.18.2-pre1%2Bbuild.6-tiny.gz"
    );
}

#[test]
fn ensure_plan_steps() {
    match ensure_step("1.21.9", "/m", MappingType::Yarn, false, EnsureEvent::Start) {
        EnsureAction::InspectLocal(p) => assert_eq!(p, "/m/1.21.9.tiny.gz"),
        _ => panic!("expected a local inspection"),
    }
    assert!(matches!(
        ensure_step("25w44a", "/m", MappingType::Yarn, false, EnsureEvent::Start),
        EnsureAction::Done(Ok(false))
    ));
    assert!(matches!(
        ensure_step("1.21.9", "/m", MappingType::Yarn, false, EnsureEvent::Local { exists: true, fresh: true }),
        EnsureAction::Done(Ok(true))
    ));
    assert!(matches!(
        ensure_step("1.21.9", "/m", MappingType::Yarn, true, EnsureEvent::Local { exists: true, fresh: true }),
        EnsureAction::Fetch
    ));
    assert!(matches!(
        ensure_step("1.21.9", "/m", MappingType::Yarn, false, EnsureEvent::Fetched(Ok(false))),
        EnsureAction::RecheckLocal
    ));
    assert!(matches!(
        ensure_step("1.21.9", "/m", MappingType::Yarn, false, EnsureEvent::Recheck { exists: true }),
        EnsureAction::Done(Ok(true))
    ));
}

#[test]
fn parse_gz_rejects_plain_bytes() {
    assert!(matches!(parse_gz(b"not gzip"), Some(Err(MappingLoadError::Io(_)))));
}

#[test]
fn supported_only_for_valid_versions_with_a_file() {
    assert!(!is_version_supported("../../etc/passwd", "/"));
    assert!(!is_version_supported("1.21.9", "/nonexistent-spinyarn-dir"));
    assert!(!is_supported("1.21.9", "/nonexistent-spinyarn-dir", MappingType::Vanilla));
    let s = Spinyarn::from_settings("/nonexistent-spinyarn-dir", false);
    assert!(!s.has_mapping("1.21.9", MappingType::Yarn));
}

#[test]
fn listing_does_not_depend_on_directory_order() {
    let a = vec!["1.21.9.tiny.gz".to_string(), "readme.md".to_string(), "1.14.tiny.gz".to_string(), "1.2.tiny.gz".to_string()];
    let b = vec!["1.2.tiny.gz".to_string(), "1.14.tiny.gz".to_string(), "1.21.9.tiny.gz".to_string(), "readme.md".to_string()];
    let la = listed_versions(&a, ".tiny.gz");
    assert_eq!(la, vec!["1.14".to_string(), "1.2".to_string(), "1.21.9".to_string()]);
    assert_eq!(la, listed_versions(&b, ".tiny.gz"));
    assert!(listed_versions(&a, ".txt").is_empty());
}

#[test]
fn parse_gz_decodes_gzipped_tiny() {
    let text = b"v1\tofficial\tintermediary\tnamed\nCLASS\ta\tnet/minecraft/class_1\tnet/minecraft/SomeClass\n";
    let mut enc = flate2::write::GzEncoder::new(Vec::new(), flate2::Compression::default());
    enc.write_all(text).unwrap();
    let gz = enc.finish().unwrap();
    match parse_gz(&gz) {
        Some(Ok(m)) => assert_eq!(m.classes.get("class_1").map(String::as_str), Some("net/minecraft/SomeClass")),
        _ => panic!("expected parsed mappings"),
    }
    let mut bad = flate2::write::GzEncoder::new(Vec::new(), flate2::Compression::default());
    bad.write_all(b"nope\n").unwrap();
    match parse_gz(&bad.finish().unwrap()) {
        Some(Err(MappingLoadError::Parse(m))) => assert_eq!(m, "Invalid header: expected 'tiny\\t2' or 'v1'"),
        _ => panic!("expected a parse error"),
    }
}

#[test]
fn facade_fresh_then_cached_answers_alike() {
    let mut s = Spinyarn::from_settings("/tmp", false);
    assert!(s.deobfuscate_cached("at a.b(SourceFile.java:3)", "1.21.4", MappingType::Vanilla).is_none());
    let m = parse_tsrg("com.example.Main -> a:\n    0:10:void init() -> b\n").unwrap();
    let fresh = s.deobfuscate_fresh("at a.b(SourceFile.java:3)", "1.21.4", MappingType::Vanilla, Some(LoadedMappings::Vanilla(Arc::new(m))));
    let cached = s
        .deobfuscate_cached("at a.b(SourceFile.java:3)", "1.21.4", MappingType::Vanilla)
        .expect("cached after a fresh pass");
    assert_eq!(fresh.deobfuscated, "at com.example.Main.init(SourceFile.java:3)");
    assert_eq!(cached.deobfuscated, fresh.deobfuscated);
    assert_eq!(cached.methods_mapped, fresh.methods_mapped);
    let none = s.deobfuscate_fresh("plain", "1.21.5", MappingType::Vanilla, None);
    assert_eq!(none.deobfuscated, "plain");
    assert_eq!(s.cache_stats().unwrap().entries, 1);
}

#[test]
fn facade_process_steps() {
    let mut s = Spinyarn::from_settings("/tmp", false);
    assert!(matches!(s.process_step("1.21.4", MappingType::Vanilla, "x", ProcessEvent::Start), ProcessAction::Ensure));
    match s.process_step("1.21.4", MappingType::Vanilla, "at a.b(SourceFile.java:3)", ProcessEvent::Available(false)) {
        ProcessAction::Done(o) => assert_eq!(o.deobfuscated, "at a.b(SourceFile.java:3)"),
        _ => panic!("expected passthrough"),
    }
    assert!(matches!(
        s.process_step("1.21.4", MappingType::Vanilla, "x", ProcessEvent::Available(true)),
        ProcessAction::Load
    ));
    let m = parse_tsrg("com.example.Main -> a:\n    0:10:void init() -> b\n").unwrap();
    match s.process_step("1.21.4", MappingType::Vanilla, "at a.b(SourceFile.java:3)", ProcessEvent::Loaded(Some(LoadedMappings::Vanilla(Arc::new(m))))) {
        ProcessAction::Done(o) => assert_eq!(o.deobfuscated, "at com.example.Main.init(SourceFile.java:3)"),
        _ => panic!("expected an answer"),
    }
    match s.process_step("1.21.4", MappingType::Vanilla, "at a.b(SourceFile.java:3)", ProcessEvent::Available(true)) {
        ProcessAction::Done(o) => assert_eq!(o.methods_mapped, 1),
        _ => panic!("expected a cache hit"),
    }
}

#[test]
fn launcher_manifest_picks() {
    let m = LauncherManifest {
        versions: Some(vec![
            ManifestEntry { id: Some("1.21.4".to_string()), url: Some("u1".to_string()) },
            ManifestEntry { id: None, url: Some("u2".to_string()) },
            ManifestEntry { id: Some("1.21.4".to_string()), url: Some("u3".to_string()) },
        ]),
    };
    let entries = manifest_entries(m).ok().unwrap();
    assert_eq!(entries.len(), 2);
    assert_eq!(version_url(&entries, "1.21.4").ok().unwrap(), "u1");
    match version_url(&entries, "9.9") {
        Err(MappingLoadError::Parse(msg)) => assert_eq!(msg, "version not found in launcher manifest"),
        _ => panic!("expected not found"),
    }
    match manifest_entries(LauncherManifest { versions: None }) {
        Err(MappingLoadError::Parse(msg)) => assert_eq!(msg, "malformed launcher manifest"),
        _ => panic!("expected malformed"),
    }
    let v = VersionJson { downloads: Some(Downloads { client_mappings: Some(ClientMappings { url: Some("cm".to_string()) }) }) };
    assert_eq!(client_mappings_url(v).as_deref(), Some("cm"));
    assert_eq!(client_mappings_url(VersionJson { downloads: None }), None);
}

#[test]
fn capi_content_length_limits() {
    assert!(!spinyarn::capi::content_accepted(0));
    assert!(spinyarn::capi::content_accepted(1));
    assert!(spinyarn::capi::content_accepted(64 * 1024 * 1024));
    assert!(!spinyarn::capi::content_accepted(64 * 1024 * 1024 + 1));
}

#[test]
fn launcher_json_bytes_picks() {
    let manifest = br#"{"latest":{},"versions":[
        {"id":"1.21.4","type":"release","url":"https://x/1.21.4.json"},
        {"id":7,"url":"https://x/seven.json"},
        {"id":"1.21.3","url":"https://x/1.21.3.json"}]}"#;
    let entries = parse_manifest_entries(manifest).ok().unwrap();
    assert_eq!(
        entries,
        vec![
            ("1.21.4".to_string(), "https://x/1.21.4.json".to_string()),
            ("1.21.3".to_string(), "https://x/1.21.3.json".to_string()),
        ]
    );
    match parse_manifest_entries(br#"{"latest":{}}"#) {
        Err(MappingLoadError::Parse(msg)) => assert_eq!(msg, "malformed launcher manifest"),
        _ => panic!("expected malformed"),
    }
    match parse_manifest_entries(b"not json") {
        Err(MappingLoadError::Parse(msg)) => assert!(!msg.is_empty()),
        _ => panic!("expected a parse error"),
    }
    let version = br#"{"id":"1.21.4","downloads":{"client":{"url":"c"},"client_mappings":{"sha1":"0","url":"https://x/client.txt"}}}"#;
    assert_eq!(
        parse_client_mappings_url(version).ok().unwrap().as_deref(),
        Some("https://x/client.txt")
    );
    assert_eq!(parse_client_mappings_url(br#"{"downloads":{"client":{}}}"#).ok().unwrap(), None);
    assert_eq!(parse_client_mappings_url(br#"[1,2]"#).ok().unwrap(), None);
    assert!(matches!(parse_client_mappings_url(b"{"), Err(MappingLoadError::Parse(_))));
}

#[test]
fn trimming_matches_std_white_space() {
    let samples = [
        "  plain  ",
        "\t\u{3000}wide\u{3000}\n",
        "\u{85}\u{a0}x\u{1680}\u{2000}\u{200a}",
        "\u{2028}y\u{2029}\u{202f}\u{205f}",
        "\u{200b}zero width stays\u{200b}",
        "",
    ];
    for s in samples {
        let chars: Vec<char> = s.chars().collect();
        let got: String = spinyarn::text::trimmed(&chars).iter().collect();
        assert_eq!(got, s.trim(), "sample {:?}", s);
    }
}
