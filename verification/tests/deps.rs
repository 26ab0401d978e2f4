use bundler::depsmanager::DependencyManager;

fn b(s: &str) -> Vec<u8> {
    s.as_bytes().to_vec()
}

#[test]
fn test_add_and_resolve() {
    let mut m = DependencyManager::new();
    m.add_dependency(&b("react"), &b("vendor/react.js"));
    m.add_dependency(&b("vue"), &b("vendor/vue.js"));
    assert_eq!(m.resolve_dependency(&b("react")), Some(b("vendor/react.js")));
    assert_eq!(m.resolve_dependency(&b("gone")), None);
}

#[test]
fn test_add_replaces_existing_entry() {
    let mut m = DependencyManager::new();
    m.add_dependency(&b("react"), &b("old.js"));
    m.add_dependency(&b("react"), &b("new.js"));
    assert_eq!(m.resolve_dependency(&b("react")), Some(b("new.js")));
    assert_eq!(m.list_dependencies().len(), 1);
}

#[test]
fn test_remove_and_update() {
    let mut m = DependencyManager::new();
    m.add_dependency(&b("a"), &b("a.js"));
    assert!(m.remove_dependency(&b("a")));
    assert!(!m.remove_dependency(&b("a")));
    assert!(!m.update_dependency(&b("a"), &b("x.js")));
    m.add_dependency(&b("a"), &b("a.js"));
    assert!(m.update_dependency(&b("a"), &b("a2.js")));
    assert_eq!(m.resolve_dependency(&b("a")), Some(b("a2.js")));
}

#[test]
fn test_list_keeps_insertion_order() {
    let mut m = DependencyManager::new();
    m.add_dependency(&b("one"), &b("1.js"));
    m.add_dependency(&b("two"), &b("2.js"));
    let listed = m.list_dependencies();
    assert_eq!(listed[0].0, b("one"));
    assert_eq!(listed[1].0, b("two"));
}

#[test]
fn test_validate_dependency_path() {
    let m = DependencyManager::new();
    let existing = vec![b("vendor/react.js")];
    assert!(m.validate_dependency_path(&b("vendor/react.js"), &existing));
    assert!(!m.validate_dependency_path(&b("vendor/vue.js"), &existing));
}
