use std::sync::Arc;

use spinyarn::api::{check_local_path, health, mapping_stats, not_available, requested_type, unload_info, uptime, validate_version};
use spinyarn::mapping::dispatcher::LoadedMappings;
use spinyarn::mapping::vanilla::parse_tsrg;
use spinyarn::mapping::Mappings;
use spinyarn::error::ApiError;
use spinyarn::mapping::dispatcher::MappingType;

#[test]
fn test_validate_version_rejects_traversal() {
    assert!(validate_version("1.21.9").is_ok());
    assert!(validate_version("1.18.2-pre1").is_ok());
    assert!(validate_version("../../etc/passwd").is_err());
    assert!(validate_version("a/b").is_err());
    assert!(validate_version("..").is_err());
    assert!(validate_version("").is_err());
}

#[test]
fn validate_version_message_quotes_token() {
    match validate_version("a/b") {
        Err(ApiError::BadRequest(m)) => assert_eq!(m, "invalid version token: \"a/b\""),
        _ => panic!("expected a bad request"),
    }
}

#[test]
fn api_error_codes_and_messages() {
    let e = ApiError::Internal("disk path /secret".to_string());
    assert_eq!(e.code(), "INTERNAL_ERROR");
    assert_eq!(e.status(), 500);
    assert_eq!(e.public_message(), "internal server error");
    let n = ApiError::NotFound("gone".to_string());
    assert_eq!((n.code(), n.status(), n.public_message()), ("NOT_FOUND", 404, "gone".to_string()));
    let b = ApiError::BadRequest("bad".to_string());
    assert_eq!((b.code(), b.status(), b.public_message()), ("BAD_REQUEST", 400, "bad".to_string()));
}

#[test]
fn api_requested_type_defaults_to_yarn() {
    assert_eq!(requested_type(&None), MappingType::Yarn);
    assert_eq!(requested_type(&Some("vanilla".to_string())), MappingType::Vanilla);
    assert_eq!(requested_type(&Some("Vanilla".to_string())), MappingType::Yarn);
}

#[test]
fn api_uptime_and_health() {
    assert_eq!(uptime(0, 100), 0);
    assert_eq!(uptime(40, 100), 60);
    assert_eq!(uptime(100, 40), 0);
    let h = health(5, None);
    assert_eq!(h.status, "healthy");
    assert_eq!(h.uptime_seconds, 5);
}

#[test]
fn api_unload_not_found_when_nothing_removed() {
    match unload_info("1.21.9".to_string(), vec![], vec![]) {
        Err(ApiError::NotFound(m)) => assert_eq!(m, "mapping 1.21.9 not cached"),
        _ => panic!("expected not found"),
    }
    let info = unload_info("1.21.9".to_string(), vec![], vec!["yarn".to_string()]).ok().unwrap();
    assert_eq!(info.removed_cache, vec!["yarn".to_string()]);
}

#[test]
fn api_not_available_and_stats() {
    match not_available(MappingType::Vanilla, "1.21.4") {
        ApiError::NotFound(m) => assert_eq!(m, "vanilla:1.21.4 mapping not available locally"),
        _ => panic!("expected not found"),
    }
    let mut m = Mappings::empty();
    m.classes.insert("class_1".to_string(), "a/B".to_string());
    m.nested.insert("class_2".to_string(), "a/B$C".to_string());
    let loaded = LoadedMappings::Yarn(Arc::new(m));
    let s = mapping_stats("1.21.9".to_string(), MappingType::Yarn, Some(&loaded)).ok().unwrap();
    assert_eq!((s.classes, s.methods, s.fields), (1, 0, 0));
    assert_eq!(s.extra, "nested=1");
    assert_eq!(s.mapping_type, "yarn");
    assert!(mapping_stats("1.21.9".to_string(), MappingType::Yarn, None).is_err());
}

#[test]
fn api_vanilla_stats_count_pairs() {
    let m = parse_tsrg("com.x.A -> a:\n    0:1:void f() -> b\n    2:3:void g() -> b\n    4:5:void h() -> c\n    int x -> d\ncom.x.E -> e:\n    int y -> d\n").unwrap();
    let loaded = LoadedMappings::Vanilla(Arc::new(m));
    let s = mapping_stats("1.21.4".to_string(), MappingType::Vanilla, Some(&loaded)).ok().unwrap();
    assert_eq!((s.classes, s.methods, s.fields), (2, 2, 2));
    assert_eq!(s.extra, "method_index=1");
    assert_eq!(s.mapping_type, "vanilla");
}

#[test]
fn local_path_prechecks() {
    assert!(check_local_path("imports/1.21.4.tiny.gz").is_ok());
    assert!(check_local_path("../outside.txt").is_ok());
    match check_local_path("") {
        Err(ApiError::BadRequest(m)) => assert_eq!(m, "path is required"),
        _ => panic!("expected a bad request"),
    }
    match check_local_path("/etc/passwd") {
        Err(ApiError::BadRequest(m)) => assert_eq!(m, "path must be relative to the mappings dir"),
        _ => panic!("expected a bad request"),
    }
}
