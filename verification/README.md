# spinyarn

A Minecraft log deobfuscator with machine-checked contracts. Obfuscated stack
traces (`class_XXX`, `method_XXX`, `field_XXX` from Fabric Yarn, or the short
names of Mojang's official mappings) are rewritten to readable names.

## Layout

- `src/` — the library, verified with Verus:
  - `text.rs` — character-level helpers (search, trimming, splitting, decimal
    numbers) with their specifications;
  - `mapping/tiny_v2.rs` — the Tiny v1/v2 parser into global class, method,
    field and nested-class tables;
  - `mapping/vanilla.rs` — the TSRG (Mojang) parser with per-class, line-range
    scoped members;
  - `mapping/dispatcher.rs` — mapping families, cache keys, file locations;
  - `mapping/download.rs` — version tokens, Maven build selection, gzip
    decoding and the plan that keeps a mapping file available;
  - `deobfuscator/` — the Yarn line engine (structured stack frames plus a
    residual key pass) and the Vanilla engine;
  - `cache.rs` — the LRU cache with high/low watermark eviction;
  - `facade.rs` — the `Spinyarn` engine: settings, cache use, availability;
  - `launcher.rs` — Mojang's launcher metadata read from its JSON bytes, and
    what is picked out of it;
  - `api.rs`, `error.rs`, `listing.rs`, `capi.rs`, `config.rs` — what the HTTP
    API and the C interface decide.
- `app/` — the service around it: Axum handlers, configuration files, file
  system and network access, and the C ABI functions.
- `tests/` — behaviour tests run against the compiled library.
