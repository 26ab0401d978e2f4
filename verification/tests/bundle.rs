use bundler::bundler::{BuildError, Bundler, SourceFile};
use bundler::plugin::{IdentityPlugin, PluginManager};
use bundler::Config;

fn ws(files: &[(&str, &str)]) -> Vec<SourceFile> {
    files
        .iter()
        .map(|(p, c)| SourceFile { path: p.as_bytes().to_vec(), content: c.as_bytes().to_vec() })
        .collect()
}

fn contains_sub(haystack: &[u8], needle: &[u8]) -> bool {
    if needle.is_empty() {
        return true;
    }
    haystack.windows(needle.len()).any(|w| w == needle)
}

fn count_sub(haystack: &[u8], needle: &[u8]) -> usize {
    if needle.is_empty() {
        return 0;
    }
    haystack.windows(needle.len()).filter(|w| *w == needle).count()
}

fn new_bundler(entry: &str) -> Bundler<IdentityPlugin> {
    let config = Config::new(entry, "out.js");
    let plugins: PluginManager<IdentityPlugin> = PluginManager::new();
    Bundler::new(config, plugins)
}

#[test]
fn test_diamond_shared_module_once() {
    // app imports a and b; both import shared: shared is transformed and
    // assembled exactly once.
    let files = ws(&[
        ("app.js", "import \"./a.js\";import \"./b.js\";start();\n"),
        ("a.js", "import \"./shared.js\";a();\n"),
        ("b.js", "import \"./shared.js\";b();\n"),
        ("shared.js", "shared();\n"),
    ]);
    let mut b = new_bundler("app.js");
    let out = b.bundle(&files).expect("build should succeed");
    assert_eq!(out.stats.modules_processed, 4);
    assert_eq!(b.cache.len(), 4);
    assert_eq!(count_sub(&out.bundle, b"// shared.js\n"), 1);
    assert_eq!(count_sub(&out.bundle, b"shared();"), 1);
    let expected = "// app.js\nimport \"./a.js\";import \"./b.js\";start();\n\n\
// a.js\nimport \"./shared.js\";a();\n\n\
// b.js\nimport \"./shared.js\";b();\n\n\
// shared.js\nshared();\n\n";
    assert_eq!(out.bundle, expected.as_bytes().to_vec());
}

#[test]
fn test_discovery_order_is_breadth_first() {
    let files = ws(&[
        ("app.js", "import \"./a.js\";import \"./b.js\";\n"),
        ("a.js", "import \"./shared.js\";\n"),
        ("b.js", "import \"./shared.js\";\n"),
        ("shared.js", "s();\n"),
    ]);
    let mut b = new_bundler("app.js");
    let out = b.bundle(&files).expect("build should succeed");
    let pos = |needle: &[u8]| -> usize {
        out.bundle
            .windows(needle.len())
            .position(|w| w == needle)
            .expect("header present")
    };
    let p_app = pos(b"// app.js\n");
    let p_a = pos(b"// a.js\n");
    let p_b = pos(b"// b.js\n");
    let p_s = pos(b"// shared.js\n");
    assert!(p_app < p_a && p_a < p_b && p_b < p_s);
}

#[test]
fn test_cyclic_imports_terminate() {
    // a and b import each other; the build terminates and each appears
    // exactly once.
    let files = ws(&[
        ("a.js", "import \"./b.js\";a();\n"),
        ("b.js", "import \"./a.js\";b();\n"),
    ]);
    let mut b = new_bundler("a.js");
    let out = b.bundle(&files).expect("build should succeed");
    assert_eq!(out.stats.modules_processed, 2);
    assert_eq!(count_sub(&out.bundle, b"// a.js\n"), 1);
    assert_eq!(count_sub(&out.bundle, b"// b.js\n"), 1);
    assert_eq!(out.stats.cycles_detected, 2);
}

#[test]
fn test_build_is_deterministic() {
    let files = ws(&[
        ("app.js", "import \"./a.js\";\n"),
        ("a.js", "import \"./b.js\";\n"),
        ("b.js", "leaf();\n"),
    ]);
    let mut b1 = new_bundler("app.js");
    let mut b2 = new_bundler("app.js");
    let out1 = b1.bundle(&files).expect("first build");
    let out2 = b2.bundle(&files).expect("second build");
    assert_eq!(out1.bundle, out2.bundle);
    assert_eq!(out1.manifest, out2.manifest);
    assert_eq!(out1.stats, out2.stats);
}

#[test]
fn test_missing_entry_is_read_failure() {
    let files = ws(&[("other.js", "x();\n")]);
    let mut b = new_bundler("app.js");
    match b.bundle(&files) {
        Err(BuildError::ReadFailure(p)) => assert_eq!(p, b"app.js".to_vec()),
        _ => panic!("expected a read failure for the missing entry"),
    }
}

#[test]
fn test_unresolved_import_drops_edge() {
    // A reference that resolves nowhere drops one edge; the build still
    // succeeds and reports the count.
    let files = ws(&[("app.js", "import \"./nope.js\";run();\n")]);
    let mut b = new_bundler("app.js");
    let out = b.bundle(&files).expect("build should succeed");
    assert_eq!(out.stats.edges_dropped, 1);
    assert_eq!(out.stats.modules_processed, 1);
    assert!(contains_sub(&out.bundle, b"run();"));
}

#[test]
fn test_code_splitting_produces_chunk_manifest_and_load_call() {
    // Splitting an import of ./util.js from main.js: a chunk under the js
    // bucket, a manifest line, and a chunk-load call in the parent.
    let files = ws(&[
        ("main.js", "import \"./util.js\";main();\n"),
        ("util.js", "util();\n"),
    ]);
    let config = {
        let mut c = Config::new("main.js", "out.js");
        c.code_splitting = true;
        c.output_dir = b"dist".to_vec();
        c
    };
    let plugins: PluginManager<IdentityPlugin> = PluginManager::new();
    let mut b = Bundler::new(config, plugins);
    let out = b.bundle(&files).expect("build should succeed");
    assert_eq!(out.chunks.len(), 1);
    let chunk = &out.chunks[0];
    assert!(chunk.name.starts_with(b"chunk_"));
    assert!(chunk.name.ends_with(b".js"));
    assert!(chunk.path.starts_with(b"dist/js/"));
    assert_eq!(chunk.content, b"util();\n".to_vec());
    let mut line = chunk.name.clone();
    line.extend_from_slice(b": ");
    line.extend_from_slice(&chunk.path);
    line.push(b'\n');
    assert_eq!(out.manifest, line);
    let mut call = b"loadChunk('".to_vec();
    call.extend_from_slice(&chunk.name);
    call.extend_from_slice(b"');");
    assert!(contains_sub(&out.bundle, &call));
    assert!(!contains_sub(&out.bundle, b"import \"./util.js\";"));
    assert!(!contains_sub(&out.bundle, b"// util.js\n"));
}

#[test]
fn test_tree_shaking_keeps_bundle_unchanged_for_connected_graph() {
    let files = ws(&[
        ("app.js", "import \"./a.js\";\n"),
        ("a.js", "a();\n"),
    ]);
    let mut plain = new_bundler("app.js");
    let out_plain = plain.bundle(&files).expect("plain build");
    let config = {
        let mut c = Config::new("app.js", "out.js");
        c.tree_shaking = true;
        c
    };
    let plugins: PluginManager<IdentityPlugin> = PluginManager::new();
    let mut shaken = Bundler::new(config, plugins);
    let out_shaken = shaken.bundle(&files).expect("shaken build");
    assert_eq!(out_plain.bundle, out_shaken.bundle);
}

#[test]
fn test_sourcemap_emitted_when_enabled() {
    let files = ws(&[("app.js", "app();\n")]);
    let config = {
        let mut c = Config::new("app.js", "out.js");
        c.generate_sourcemaps = true;
        c
    };
    let plugins: PluginManager<IdentityPlugin> = PluginManager::new();
    let mut b = Bundler::new(config, plugins);
    let out = b.bundle(&files).expect("build should succeed");
    let map = out.source_map.expect("map expected");
    assert!(contains_sub(&map, b"{\"version\":3,"));
    assert!(contains_sub(&map, b"\"sources\":[\"app.js\"]"));
    let mut plain = new_bundler("app.js");
    let out2 = plain.bundle(&files).expect("build should succeed");
    assert!(out2.source_map.is_none());
}

#[test]
fn test_css_import_syntax() {
    let files = ws(&[
        ("style.css", "@import \"./base.css\";body{}\n"),
        ("base.css", "h1{}\n"),
    ]);
    let mut b = new_bundler("style.css");
    let out = b.bundle(&files).expect("build should succeed");
    assert_eq!(out.stats.modules_processed, 2);
    assert!(contains_sub(&out.bundle, b"// base.css\n"));
}

#[test]
fn test_json_import_syntax() {
    let files = ws(&[
        ("data.json", "{\"$import\": \"./extra.json\", \"k\": 1}\n"),
        ("extra.json", "{\"v\": 2}\n"),
    ]);
    let mut b = new_bundler("data.json");
    let out = b.bundle(&files).expect("build should succeed");
    assert_eq!(out.stats.modules_processed, 2);
}
