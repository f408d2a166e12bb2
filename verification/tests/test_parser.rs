use spinyarn::mapping::{parse, parse_checked, TinyV2ParseError};

#[test]
fn test_invalid_header() {
    let bad = b"bad_header\nc\ta\tb\n";
    let result = parse(bad);
    assert!(result.is_err());
}

#[test]
fn test_filters_non_obfuscated_keys() {
    // Readable official names (e.g. `run`, `a`) must be dropped from the tables.
    let v1 = b"v1\tofficial\tintermediary\tnamed\n\
               CLASS\ta\tnet/minecraft/class_1\tnet/minecraft/SomeClass\n\
               METHOD\ta\t()V\trun\trun\trun\n";
    let m = parse(v1).unwrap();
    assert_eq!(m.classes.get("class_1").map(String::as_str), Some("net/minecraft/SomeClass"));
    // `run` is not a method_ key -> excluded.
    assert_eq!(m.methods_len(), 0);
}

#[test]
fn parser_v2_tables() {
    let v2 = b"tiny\t2\t0\tofficial\tintermediary\tnamed\n\
               c\ta\tnet/minecraft/class_1799\tnet/minecraft/item/ItemStack\n\
               \tm\t()I\tb\tmethod_1234\tgetCount\n\
               \tf\tI\tc\tfield_8008\tsize\n";
    let m = parse(v2).unwrap();
    assert_eq!(m.classes.get("class_1799").map(String::as_str), Some("net/minecraft/item/ItemStack"));
    assert_eq!(m.methods.get("method_1234").map(String::as_str), Some("getCount"));
    assert_eq!(m.fields.get("field_8008").map(String::as_str), Some("size"));
    assert_eq!(m.classes_len(), 1);
    assert_eq!(m.methods_len(), 1);
    assert_eq!(m.fields_len(), 1);
}

#[test]
fn parser_missing_namespaces() {
    let r = parse(b"tiny\t2\t0\n");
    assert!(matches!(r, Err(TinyV2ParseError::MissingNamespaces)));
    assert_eq!(r.err().unwrap().message(), "Missing namespaces in header");
}

#[test]
fn parser_namespace_not_found_message() {
    let r = parse(b"v1\tofficial\tintermediary\n");
    match r {
        Err(e) => assert_eq!(e.message(), "Namespace 'named' not found in header"),
        Ok(_) => panic!("expected an error"),
    }
}

#[test]
fn parser_invalid_header_message() {
    let e = parse(b"nope\n").err().unwrap();
    assert_eq!(e.message(), "Invalid header: expected 'tiny\\t2' or 'v1'");
}

#[test]
fn parser_checked_agrees_on_valid_input() {
    let v1 = b"v1\tofficial\tintermediary\tnamed\nCLASS\ta\tnet/minecraft/class_1\tnet/minecraft/SomeClass\n";
    let m = parse_checked(v1).expect("no crash").expect("parses");
    assert_eq!(m.classes_len(), 1);
}

#[test]
fn parser_rejects_invalid_utf8_as_bad_header() {
    let r = parse(&[0xff, 0xfe, b'\n']);
    assert!(matches!(r, Err(TinyV2ParseError::InvalidHeader)));
}

#[test]
fn nested_reverse_table_counts_lines() {
    let one = b"tiny\t2\t0\tofficial\tintermediary\tnamed\n\
                c\ta\tnet/minecraft/class_2874$class_7512\tnet/minecraft/Outer$Inner\n";
    let m = parse(one).unwrap();
    assert_eq!(m.nested.get("class_7512"), Some(&"net/minecraft/Outer$Inner".to_string()));
    assert_eq!(m.nested.len(), 1);

    let two_outers = b"tiny\t2\t0\tofficial\tintermediary\tnamed\n\
                       c\ta\tnet/minecraft/class_2874$class_7512\tnet/minecraft/Outer$Inner\n\
                       c\tb\tnet/minecraft/class_9999$class_7512\tnet/minecraft/Other$Inner\n";
    assert_eq!(parse(two_outers).unwrap().nested.get("class_7512"), None);

    let same_line_twice = b"tiny\t2\t0\tofficial\tintermediary\tnamed\n\
                            c\ta\tnet/minecraft/class_2874$class_7512\tnet/minecraft/Outer$Inner\n\
                            c\ta\tnet/minecraft/class_2874$class_7512\tnet/minecraft/Outer$Inner\n";
    let m3 = parse(same_line_twice).unwrap();
    assert_eq!(m3.nested.get("class_7512"), None);
    assert_eq!(m3.classes.get("class_2874$class_7512"), Some(&"net/minecraft/Outer$Inner".to_string()));
}

#[test]
fn parsed_tables_follow_the_lines() {
    let v1 = b"v1\tofficial\tintermediary\tnamed\n\
               CLASS\ta\tnet/minecraft/class_1\tnet/minecraft/First\n\
               CLASS\tb\tnet.minecraft.class_2\tnet/minecraft/Second \n\
               CLASS\tc\tnet/minecraft/class_1\tnet/minecraft/Again\n\
               CLASS\td\tcom/other/Thing\tcom/other/Thing\n\
               METHOD\ta\t()V\tx\tmethod_5\trun\n\
               FIELD\ta\tI\ty\tfield_6\tcount\n";
    let m = parse(v1).unwrap();
    // the last line for a key wins; one package prefix is stripped
    assert_eq!(m.classes.get("class_1"), Some(&"net/minecraft/Again".to_string()));
    // the named column is kept as written
    assert_eq!(m.classes.get("class_2"), Some(&"net/minecraft/Second ".to_string()));
    // keys without the class tag are not kept
    assert_eq!(m.classes.len(), 2);
    assert_eq!(m.methods.get("method_5"), Some(&"run".to_string()));
    assert_eq!(m.fields.get("field_6"), Some(&"count".to_string()));
}
