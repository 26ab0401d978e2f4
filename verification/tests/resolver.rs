use bundler::plugin::{IdentityPlugin, PluginManager};
use bundler::resolver::{
    join_path, normalize_path, parent_dir, resolve_path, try_alternate_resolutions, ResolveError,
};

fn b(s: &str) -> Vec<u8> {
    s.as_bytes().to_vec()
}

fn paths(ps: &[&str]) -> Vec<Vec<u8>> {
    ps.iter().map(|p| b(p)).collect()
}

fn no_plugins() -> PluginManager<IdentityPlugin> {
    PluginManager::new()
}

#[test]
fn test_resolve_relative_reference() {
    let existing = paths(&["src/util.js", "src/main.js"]);
    let r = resolve_path(
        &b("src/main.js"),
        &b("./util.js"),
        &no_plugins(),
        &b(""),
        &Vec::new(),
        &existing,
    );
    assert_eq!(r, Ok(b("src/util.js")));
}

#[test]
fn test_resolve_parent_reference() {
    let existing = paths(&["lib/a.js", "src/main.js"]);
    let r = resolve_path(
        &b("src/main.js"),
        &b("../lib/a.js"),
        &no_plugins(),
        &b(""),
        &Vec::new(),
        &existing,
    );
    assert_eq!(r, Ok(b("lib/a.js")));
}

#[test]
fn test_resolve_bare_reference_uses_search_path() {
    let existing = paths(&["vendor/dep.js"]);
    let r = resolve_path(
        &b("main.js"),
        &b("dep.js"),
        &no_plugins(),
        &b("vendor"),
        &Vec::new(),
        &existing,
    );
    assert_eq!(r, Ok(b("vendor/dep.js")));
}

#[test]
fn test_resolve_fallback_extension() {
    // The literal path does not exist; the first configured extension
    // that produces an existing file wins.
    let existing = paths(&["src/util.js"]);
    let exts = paths(&["css", "js"]);
    let r = resolve_path(
        &b("src/main.js"),
        &b("./util"),
        &no_plugins(),
        &b(""),
        &exts,
        &existing,
    );
    assert_eq!(r, Ok(b("src/util.js")));
}

#[test]
fn test_resolve_not_found() {
    let existing = paths(&["src/main.js"]);
    let r = resolve_path(
        &b("src/main.js"),
        &b("./gone.js"),
        &no_plugins(),
        &b(""),
        &Vec::new(),
        &existing,
    );
    assert_eq!(r, Err(ResolveError::NotFound));
}

#[test]
fn test_resolve_rejects_traversal_outside_root() {
    let existing = paths(&["main.js"]);
    let r = resolve_path(
        &b("main.js"),
        &b("../evil.js"),
        &no_plugins(),
        &b(""),
        &Vec::new(),
        &existing,
    );
    assert_eq!(r, Err(ResolveError::Rejected));
}

#[test]
fn test_normalize_path_resolves_dots() {
    assert_eq!(normalize_path(&b("a/./b/../c.js")), Some(b("a/c.js")));
    assert_eq!(normalize_path(&b("a//b.js")), Some(b("a/b.js")));
    assert_eq!(normalize_path(&b("../a.js")), None);
}

#[test]
fn test_parent_dir_and_join() {
    assert_eq!(parent_dir(&b("src/deep/mod.js")), b("src/deep"));
    assert_eq!(parent_dir(&b("top.js")), b(""));
    assert_eq!(join_path(&b(""), &b("x.js")), b("x.js"));
    assert_eq!(join_path(&b("src"), &b("x.js")), b("src/x.js"));
}

#[test]
fn test_try_alternate_resolutions_order() {
    let existing = paths(&["m.css", "m.js"]);
    let exts = paths(&["js", "css"]);
    let r = try_alternate_resolutions(&b("m"), &exts, &existing);
    assert_eq!(r, Some(b("m.js")));
    let none = try_alternate_resolutions(&b("q"), &exts, &existing);
    assert_eq!(none, None);
}
