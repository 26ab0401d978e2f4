use bundler::plugin::{IdentityPlugin, PluginManager};
use bundler::strip::{remove_type_annotations, TypeAnnotationStripper};

fn b(s: &str) -> Vec<u8> {
    s.as_bytes().to_vec()
}

#[test]
fn test_empty_manager_declines_everything() {
    let m: PluginManager<IdentityPlugin> = PluginManager::new();
    assert_eq!(m.resolve(&b("a.js")), None);
    assert_eq!(m.load(&b("a.js"), &b("x")), None);
    assert_eq!(m.transform(&b("a.js"), &b("x")), None);
}

#[test]
fn test_identity_plugin_declines() {
    let mut m: PluginManager<IdentityPlugin> = PluginManager::new();
    m.register(IdentityPlugin);
    m.register(IdentityPlugin);
    assert_eq!(m.resolve(&b("a.js")), None);
    assert_eq!(m.load(&b("a.js"), &b("x")), None);
}

#[test]
fn test_stripper_plugin_claims_load() {
    let mut m: PluginManager<TypeAnnotationStripper> = PluginManager::new();
    m.register(TypeAnnotationStripper);
    let code = b("start();\n        const count: number = 5;\n");
    let loaded = m.load(&b("a.ts"), &code).expect("the stripper claims every load");
    assert_eq!(loaded, remove_type_annotations(&code));
    let transformed = m.transform(&b("a.ts"), &code).expect("claims transforms too");
    assert_eq!(transformed, loaded);
    assert_eq!(m.resolve(&b("a.ts")), None);
}

#[test]
fn test_remove_type_annotations_strips_something() {
    // The transform must actually rewrite annotated code: handing the
    // input back unchanged would fail here.
    let code = b("start();\n        const count: number = 5;\nend();");
    let stripped = remove_type_annotations(&code);
    assert_ne!(stripped, code);
    assert!(stripped.len() < code.len());
    assert_eq!(stripped, b("start();end();"));
    assert_eq!(remove_type_annotations(&Vec::new()), Vec::<u8>::new());
}
