use spinyarn::mapping::vanilla::parse_tsrg;

const SAMPLE: &str = "\
# (c) test mappings
com.example.Main -> a:
    0:10:void init() -> b
    5:8:java.lang.String getName() -> c
    11:20:int size() -> d
    int count -> e
    int VALUE -> f
    com.example.Main$Inner inner -> g
com.example.Other -> h:
    0:5:void init() -> b
    java.lang.Object value -> i
";

#[test]
fn test_parse_counts() {
    let m = parse_tsrg(SAMPLE).unwrap();
    assert_eq!(m.class_count(), 2);
    // two classes both have an obf method `b` (not globally unique)
    assert_eq!(m.method_count("a"), 3);
    assert_eq!(m.method_count("h"), 1);
    assert_eq!(m.field_count("a"), 3);
}

#[test]
fn test_lookup_class_both_directions() {
    let m = parse_tsrg(SAMPLE).unwrap();
    assert_eq!(m.lookup_class("a"), Some("com.example.Main"));
    assert_eq!(m.lookup_class("com.example.Main"), Some("com.example.Main"));
    assert_eq!(m.lookup_class("unknown"), None);
}

#[test]
fn test_method_scoped_by_class_and_line() {
    let m = parse_tsrg(SAMPLE).unwrap();
    // class a, obf method b -> init
    assert_eq!(m.lookup_method("a", "b", Some(3)), Some("init"));
    // same obf name `b` in class h is a different method
    assert_eq!(m.lookup_method("h", "b", Some(2)), Some("init"));
    // readable class key also resolves
    assert_eq!(m.lookup_method("com.example.Main", "b", Some(3)), Some("init"));
    // line outside range -> first entry
    assert_eq!(m.lookup_method("a", "d", Some(30)), Some("size"));
    // unknown class/method
    assert_eq!(m.lookup_method("a", "nope", None), None);
    assert_eq!(m.lookup_method("zzz", "b", None), None);
}

#[test]
fn test_field_scoped_by_class() {
    let m = parse_tsrg(SAMPLE).unwrap();
    assert_eq!(m.lookup_field("a", "f"), Some("VALUE"));
    assert_eq!(m.lookup_field("a", "g"), Some("inner"));
    assert_eq!(m.lookup_field("h", "i"), Some("value"));
    // same obf field name in another class must not leak
    assert_eq!(m.lookup_field("h", "f"), None);
}

#[test]
fn test_constructor() {
    let m = parse_tsrg("com.x.Y -> z:\n    0:5:void <init>() -> <init>\n").unwrap();
    assert_eq!(m.lookup_method("z", "<init>", Some(2)), Some("<init>"));
}

#[test]
fn test_parse_tsrg_via_dispatcher_path() {
    let m = parse_tsrg("com.x.Y -> z:\n    0:5:void run() -> q\n").unwrap();
    assert_eq!(m.lookup_method("z", "q", Some(1)), Some("run"));
}

#[test]
fn vanilla_member_without_class_is_ignored() {
    let m = parse_tsrg("    0:5:void run() -> q\ncom.x.Y -> z:\n").unwrap();
    assert_eq!(m.class_count(), 1);
    assert_eq!(m.method_count("z"), 0);
}

#[test]
fn vanilla_parse_error_message() {
    let e = spinyarn::mapping::vanilla::VanillaParseError::InvalidLine("x y".to_string());
    assert_eq!(e.message(), "Invalid TSRG line: x y");
}

#[test]
fn vanilla_overloads_pick_range_in_file_order() {
    let text = "com.x.Y -> z:\n\
                \x20   1:5:void first() -> q\n\
                \x20   4:9:void second() -> q\n\
                com.x.W -> w:\n\
                \x20   1:9:void other() -> q\n";
    let m = parse_tsrg(text).unwrap();
    // line 4 lies in both ranges: the first method line wins
    assert_eq!(m.lookup_method("z", "q", Some(4)), Some("first"));
    assert_eq!(m.lookup_method("z", "q", Some(7)), Some("second"));
    // no range holds the line, or no line: the first method line
    assert_eq!(m.lookup_method("z", "q", Some(40)), Some("first"));
    assert_eq!(m.lookup_method("com.x.Y", "q", None), Some("first"));
    // members belong to the class line above them
    assert_eq!(m.lookup_method("w", "q", Some(4)), Some("other"));
}
