use spinyarn::deobfuscator::VanillaEngine;
use spinyarn::mapping::vanilla::parse_tsrg;

fn engine_from_tsrg(s: &str) -> VanillaEngine {
    VanillaEngine::new(parse_tsrg(s).unwrap())
}

const MAP: &str = "\
com.example.Main -> a:
    0:10:void init() -> b
    5:8:java.lang.String getName() -> c
    11:20:int size() -> d
com.example.Other -> h:
    0:5:void init() -> b
";

#[test]
fn test_stack_line_obf_class_and_method() {
    let e = engine_from_tsrg(MAP);
    let r = e.deobfuscate("at a.b(SourceFile.java:3)");
    assert_eq!(r.text, "at com.example.Main.init(SourceFile.java:3)");
    assert_eq!(r.classes_mapped, 1);
    assert_eq!(r.methods_mapped, 1);
}

#[test]
fn test_method_line_disambiguation() {
    let e = engine_from_tsrg(MAP);
    // b maps to init for class a
    assert_eq!(e.deobfuscate("at a.b(SourceFile.java:3)").text, "at com.example.Main.init(SourceFile.java:3)");
}

#[test]
fn test_readable_class_kept_when_mapped() {
    let e = engine_from_tsrg(MAP);
    // already-readable class confirmed in mapping, obf method resolved
    let r = e.deobfuscate("at com.example.Main.b(SourceFile.java:3)");
    assert_eq!(r.text, "at com.example.Main.init(SourceFile.java:3)");
}

#[test]
fn test_unmapped_class_passthrough() {
    let e = engine_from_tsrg(MAP);
    // class not in mapping -> whole line untouched (no regex guessing)
    let line = "at zz.x(SourceFile.java:3)";
    assert_eq!(e.deobfuscate(line).text, line);
}

#[test]
fn test_unmapped_method_keeps_name() {
    let e = engine_from_tsrg(MAP);
    // class resolves, method `xyz` not in map -> class rewritten, method kept
    let r = e.deobfuscate("at a.xyz(SourceFile.java:3)");
    assert_eq!(r.text, "at com.example.Main.xyz(SourceFile.java:3)");
    assert_eq!(r.classes_mapped, 1);
    assert_eq!(r.methods_mapped, 0);
}

#[test]
fn test_non_stack_lines_passthrough() {
    let e = engine_from_tsrg(MAP);
    let log = "[00:00:01] [main/INFO]: Starting\njava.lang.RuntimeException: oops\n";
    assert_eq!(e.deobfuscate(log).text, log);
}

#[test]
fn test_unknown_source_no_line() {
    let e = engine_from_tsrg(MAP);
    // (Unknown Source) has no line number -> method resolves via first range
    let r = e.deobfuscate("at a.b(Unknown Source)");
    assert_eq!(r.text, "at com.example.Main.init(Unknown Source)");
}

#[test]
fn test_vanilla_line_range_disambiguation() {
    let e = engine_from_tsrg("com.x.Main -> a:\n    10:20:void foo() -> q\n    30:40:void bar() -> q\n");
    assert_eq!(e.deobfuscate("at a.q(SourceFile.java:12)").text, "at com.x.Main.foo(SourceFile.java:12)");
    assert_eq!(e.deobfuscate("at a.q(SourceFile.java:35)").text, "at com.x.Main.bar(SourceFile.java:35)");
    assert_eq!(e.deobfuscate("at a.q(SourceFile.java:50)").text, "at com.x.Main.foo(SourceFile.java:50)");
}

#[test]
fn test_vanilla_readable_class_confirmed() {
    let e = engine_from_tsrg("com.x.Main -> a:\n    10:20:void work() -> b\n");
    let r = e.deobfuscate("at com.x.Main.b(SourceFile.java:15)");
    assert_eq!(r.text, "at com.x.Main.work(SourceFile.java:15)");
    let r2 = e.deobfuscate("at com.x.Main.work(SourceFile.java:15)");
    assert_eq!(r2.text, "at com.x.Main.work(SourceFile.java:15)");
}

#[test]
fn test_vanilla_unmapped_passthrough() {
    let e = engine_from_tsrg("com.x.Main -> a:\n    10:20:void work() -> b\n");
    let line = "at zz.qq(SourceFile.java:1)";
    assert_eq!(e.deobfuscate(line).text, line);
    let r = e.deobfuscate("at a.unknown(SourceFile.java:12)");
    assert_eq!(r.text, "at com.x.Main.unknown(SourceFile.java:12)");
    assert_eq!(r.classes_mapped, 1);
    assert_eq!(r.methods_mapped, 0);
}

#[test]
fn test_vanilla_constructor_and_unknown_source() {
    let e = engine_from_tsrg("com.x.Y -> z:\n    0:5:void <init>() -> <init>\n    6:9:void go() -> w\n");
    assert_eq!(e.deobfuscate("at z.<init>(SourceFile.java:3)").text, "at com.x.Y.<init>(SourceFile.java:3)");
    assert_eq!(e.deobfuscate("at z.w(Unknown Source)").text, "at com.x.Y.go(Unknown Source)");
    assert_eq!(e.deobfuscate("at z.w(Native Method)").text, "at com.x.Y.go(Native Method)");
}

#[test]
fn test_vanilla_non_stack_lines_untouched() {
    let e = engine_from_tsrg("com.x.Main -> a:\n    0:5:void run() -> b\n");
    let log = "[12:00:00] [main/INFO]: hello\nplain text line\n\tnot a stack line\n";
    assert_eq!(e.deobfuscate(log).text, log);
}

#[test]
fn vanilla_engine_counts_no_fields_and_keeps_line_count() {
    let e = engine_from_tsrg(MAP);
    let r = e.deobfuscate("at a.b(SourceFile.java:3)\nat h.b(SourceFile.java:1)\nplain");
    assert_eq!(r.text, "at com.example.Main.init(SourceFile.java:3)\nat com.example.Other.init(SourceFile.java:1)\nplain");
    assert_eq!(r.fields_mapped, 0);
    assert_eq!(r.classes_mapped, 2);
}
