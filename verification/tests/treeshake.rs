use bundler::graph::{Graph, Node};
use bundler::treeshake::{detect_cycles, remove_unreachable_nodes, tree_shaker};

fn b(s: &str) -> Vec<u8> {
    s.as_bytes().to_vec()
}

fn graph(edges: &[(&str, &[&str])]) -> Graph {
    let mut g = Graph::new();
    for (id, deps) in edges {
        let mut node = Node::new(&b(id));
        for d in *deps {
            node.add_dependency(&b(d));
        }
        g.insert(node);
    }
    g
}

fn contains(set: &[Vec<u8>], x: &str) -> bool {
    set.iter().any(|e| e == &b(x))
}

#[test]
fn test_tree_shaker_excludes_unreferenced() {
    // Entry {A} over A -> B with C unreferenced: exactly {A, B}.
    let g = graph(&[("A", &["B"]), ("B", &[]), ("C", &[])]);
    let reachable = tree_shaker(&g, &vec![b("A")]);
    assert_eq!(reachable.len(), 2);
    assert!(contains(&reachable, "A"));
    assert!(contains(&reachable, "B"));
    assert!(!contains(&reachable, "C"));
}

#[test]
fn test_tree_shaker_cycle_members_once() {
    // A -> B -> A: construction terminates and both appear exactly once.
    let g = graph(&[("A", &["B"]), ("B", &["A"])]);
    let reachable = tree_shaker(&g, &vec![b("A")]);
    assert_eq!(reachable.len(), 2);
    assert!(contains(&reachable, "A"));
    assert!(contains(&reachable, "B"));
}

#[test]
fn test_tree_shaker_deep_chain() {
    let g = graph(&[("A", &["B"]), ("B", &["C"]), ("C", &[]), ("D", &["A"])]);
    let reachable = tree_shaker(&g, &vec![b("A")]);
    assert_eq!(reachable.len(), 3);
    assert!(!contains(&reachable, "D"));
}

#[test]
fn test_remove_unreachable_nodes() {
    let g = graph(&[("A", &["B"]), ("B", &[]), ("C", &[])]);
    let reachable = tree_shaker(&g, &vec![b("A")]);
    let pruned = remove_unreachable_nodes(&g, &reachable);
    assert_eq!(pruned.node_count(), 2);
    assert_eq!(pruned.id_at(0), b("A"));
    assert_eq!(pruned.id_at(1), b("B"));
    assert_eq!(pruned.deps_at(0), vec![b("B")]);
}

#[test]
fn test_detect_cycles_reports_members() {
    let g = graph(&[("A", &["B"]), ("B", &["C"]), ("C", &["A"]), ("D", &[])]);
    let cycles = detect_cycles(&g);
    assert_eq!(cycles, vec![b("A"), b("B"), b("C")]);
}

#[test]
fn test_detect_cycles_empty_on_acyclic_graph() {
    let g = graph(&[("A", &["B"]), ("B", &["C"]), ("C", &[])]);
    assert!(detect_cycles(&g).is_empty());
}

#[test]
fn test_detect_cycles_self_loop() {
    let g = graph(&[("A", &["A"]), ("B", &[])]);
    assert_eq!(detect_cycles(&g), vec![b("A")]);
}

#[test]
fn test_node_valid_id() {
    assert!(Node::new(&b("Node_1")).has_valid_id());
    assert!(!Node::new(&b("bad id")).has_valid_id());
    assert!(!Node::new(&b("")).has_valid_id());
}

#[test]
fn test_node_dependencies_deduplicate() {
    let mut n = Node::new(&b("A"));
    n.add_dependency(&b("B"));
    n.add_dependency(&b("B"));
    n.add_dependency(&b("C"));
    assert_eq!(n.dependencies, vec![b("B"), b("C")]);
}
