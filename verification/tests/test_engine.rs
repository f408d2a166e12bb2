use spinyarn::deobfuscator::LineEngine;
use spinyarn::mapping::parse;

#[test]
fn test_nested_class_full_key() {
    // class_11980$class_11981 must be captured whole, not truncated at inner class_.
    let input = b"v1\tofficial\tintermediary\tnamed\n\
                  CLASS\txb\tnet/minecraft/class_11980\tnet/minecraft/network/PacketApplyBatcher\n\
                  CLASS\txb$a\tnet/minecraft/class_11980$class_11981\tnet/minecraft/network/PacketApplyBatcher$Entry\n\
                  METHOD\txb\t()V\tapply\tmethod_74450\tapply\n";
    let m = parse(input).unwrap();
    let engine = LineEngine::new(m);
    let r = engine.deobfuscate("at knot/net.minecraft.class_11980$class_11981.method_74450(class_11980.java:55)");
    assert!(
        r.text.contains("net.minecraft.network.PacketApplyBatcher$Entry.apply"),
        "got: {}",
        r.text
    );
    // source file name remapped too
    assert!(r.text.contains("(PacketApplyBatcher.java:55)"), "got: {}", r.text);
}

#[test]
fn test_stack_line_module_prefix_readable_class() {
    let input = b"v1\tofficial\tintermediary\tnamed\n\
                  CLASS\ta\tnet/minecraft/class_310\tnet/minecraft/client/MinecraftClient\n\
                  METHOD\ta\t()V\trun\tmethod_1806\trun\n";
    let m = parse(input).unwrap();
    let engine = LineEngine::new(m);
    let r = engine.deobfuscate("at knot//net.minecraft.server.MinecraftServer.method_1806(MinecraftServer.java:1755)");
    assert!(
        r.text.contains("at net.minecraft.server.MinecraftServer.run(MinecraftServer.java:1755)"),
        "got: {}",
        r.text
    );
    // dotted module prefixes (java.base/) must stay intact on unmapped lines
    let r2 = engine.deobfuscate("at java.base/java.lang.Thread.run(Thread.java:1583)");
    assert_eq!(r2.text, "at java.base/java.lang.Thread.run(Thread.java:1583)");
}

#[test]
fn test_prefix_conflict_class_31_vs_310() {
    // class_31 must NOT match inside class_310.
    let input = b"v1\tofficial\tintermediary\tnamed\n\
                  CLASS\ta\tnet/minecraft/class_31\tnet/minecraft/ThirtyOne\n\
                  CLASS\tb\tnet/minecraft/class_310\tnet/minecraft/ThreeHundredTen\n";
    let m = parse(input).unwrap();
    let engine = LineEngine::new(m);

    let r = engine.deobfuscate("at net.minecraft.class_310.method_1234(X.java:1)");
    assert!(r.text.contains("net.minecraft.ThreeHundredTen"), "got: {}", r.text);
    assert!(!r.text.contains("ThirtyOne"), "got: {}", r.text);
}

#[test]
fn test_bare_nested_class_reverse_lookup() {
    let input = b"v1\tofficial\tintermediary\tnamed\n\
                  CLASS\ta\tnet/minecraft/class_2874\tnet/minecraft/world/dimension/DimensionType\n\
                  CLASS\ta$b\tnet/minecraft/class_2874$class_7512\tnet/minecraft/world/dimension/DimensionType$MonsterSettings\n";
    let m = parse(input).unwrap();
    let engine = LineEngine::new(m);

    let r = engine.deobfuscate("monsterSettings=class_7512[piglinSafe=false]");
    assert!(r.text.contains("DimensionType$MonsterSettings"), "got: {}", r.text);
}

#[test]
fn test_bare_nested_class_ambiguous_skipped() {
    let input = b"v1\tofficial\tintermediary\tnamed\n\
                  CLASS\ta\tnet/minecraft/class_2874$class_7512\tnet/minecraft/A$MonsterSettings\n\
                  CLASS\tb\tnet/minecraft/class_9999$class_7512\tnet/minecraft/B$Other\n";
    let m = parse(input).unwrap();
    let engine = LineEngine::new(m);

    let r = engine.deobfuscate("monsterSettings=class_7512[piglinSafe=false]");
    assert!(!r.text.contains("MonsterSettings"), "got: {}", r.text);
}

const V1: &[u8] = b"v1\tofficial\tintermediary\tnamed\n\
    CLASS\ta\tnet/minecraft/class_1799\tnet/minecraft/item/ItemStack\n\
    CLASS\tb\tnet/minecraft/class_1297\tnet/minecraft/entity/Entity\n\
    METHOD\ta\t()I\tc\tmethod_1234\tgetCount\n\
    METHOD\tb\t()V\td\tmethod_6004\ttick\n\
    FIELD\ta\tI\te\tfield_8008\tsize\n";

fn engine() -> LineEngine {
    LineEngine::new(parse(V1).unwrap())
}

#[test]
fn engine_stack_line_class_and_method() {
    let r = engine().deobfuscate("at net.minecraft.class_1799.method_1234(ItemStack.java:42)");
    assert_eq!(r.text, "at net.minecraft.item.ItemStack.getCount(ItemStack.java:42)");
    assert_eq!(r.classes_mapped, 1);
    assert_eq!(r.methods_mapped, 1);
}

#[test]
fn engine_descriptor_residual() {
    let r = engine().deobfuscate("method_1234(Lnet/minecraft/class_1799;)V");
    assert!(r.text.contains("Lnet/minecraft/item/ItemStack;"), "got: {}", r.text);
}

#[test]
fn engine_anonymous_class_falls_back_to_outer() {
    let r = engine().deobfuscate("at net.minecraft.class_1297$1.run(Entity.java:10)");
    assert!(r.text.contains("net.minecraft.entity.Entity"), "got: {}", r.text);
}

#[test]
fn engine_empty_input_and_passthrough() {
    assert_eq!(engine().deobfuscate("").text, "");
    let log = "[00:00:01] [main/INFO]: Starting Minecraft\nERROR: something went wrong\n";
    assert_eq!(engine().deobfuscate(log).text, log);
}

#[test]
fn engine_field_key_counted() {
    let r = engine().deobfuscate("value of field_8008 is 3");
    assert_eq!(r.text, "value of size is 3");
    assert_eq!(r.fields_mapped, 1);
}

#[test]
fn test_stack_line_slash_prefix() {
    let r = engine().deobfuscate("at net/minecraft/class_1799.method_1234(ItemStack.java:42)");
    assert!(r.text.contains("net.minecraft.item.ItemStack.getCount"));
}

#[test]
fn test_bare_class_in_paren() {
    let r = engine().deobfuscate("at net.minecraft.class_1799.method_1234(class_1799.java:42)");
    assert!(r.text.contains("net.minecraft.item.ItemStack"));
}

#[test]
fn test_unknown_source_and_native_method() {
    let r = engine().deobfuscate(
        "at net.minecraft.class_1297.method_6004(Unknown Source)\nat java.base/java.lang.Thread.run(Native Method)",
    );
    assert!(r.text.contains("net.minecraft.entity.Entity.tick(Unknown Source)"));
    // Module prefix untouched, `run` not a method_ key -> unchanged.
    assert!(r.text.contains("java.base/java.lang.Thread.run(Native Method)"));
}

#[test]
fn engine_keeps_line_breaks() {
    let log = "at net.minecraft.class_1799.method_1234(ItemStack.java:42)\r\n\
               Entity class_1297 ticked field_8008 times\n\
               \n\
               plain line";
    let r = engine().deobfuscate(log);
    assert_eq!(
        r.text,
        "at net.minecraft.item.ItemStack.getCount(ItemStack.java:42)\n\
         Entity net/minecraft/entity/Entity ticked size times\n\
         \n\
         plain line"
    );
    assert_eq!(r.text.matches('\n').count(), log.matches('\n').count());
    assert_eq!((r.classes_mapped, r.methods_mapped, r.fields_mapped), (2, 1, 1));
}
