//! The dependency graph: module identities and their outgoing edges.
//!
//! Nodes are kept in first-discovery order and edges in first-appearance
//! order, so that every traversal of the graph is deterministic. The graph
//! is navigable in the presence of cycles; the algorithms over it live in
//! the tree-shaking module.

use vstd::prelude::*;

use crate::bytesutil::views;

verus! {

/// One node of the dependency graph.
pub struct Node {
    /// The module identity this node stands for.
    pub id: Vec<u8>,
    /// Identities this module depends on, in first-appearance order,
    /// without duplicates.
    pub dependencies: Vec<Vec<u8>>,
}

/// The mathematical view of a node: its identity and edge targets.
#[verifier::ext_equal]
pub struct NodeModel {
    pub id: Seq<u8>,
    pub deps: Seq<Seq<u8>>,
}

impl Node {
    /// The node's mathematical view.
    pub open spec fn model(self) -> NodeModel {
        NodeModel { id: self.id@, deps: views(self.dependencies@) }
    }

    /// Creates a node with the given identity and no dependencies.
    pub fn new(id: &Vec<u8>) -> (n: Node)
        ensures
            n.model().id == id@,
            n.model().deps =~= Seq::<Seq<u8>>::empty(),
    {
        Node { id: crate::bytesutil::clone_bytes(id), dependencies: Vec::new() }
    }

    /// Records an edge to `dependency`, keeping the edge list free of
    /// duplicates.
    pub fn add_dependency(&mut self, dependency: &Vec<u8>)
        ensures
            final(self).model().id == old(self).model().id,
            final(self).model().deps == add_dep(old(self).model().deps, dependency@),
    {
        if !crate::bytesutil::list_contains(&self.dependencies, dependency) {
            let ghost prev = views(self.dependencies@);
            let dep = crate::bytesutil::clone_bytes(dependency);
            self.dependencies.push(dep);
            proof {
                assert(views(self.dependencies@) =~= prev.push(dependency@));
            }
        }
    }

    /// Whether the identity is a nonempty word of letters, digits and
    /// underscores.
    pub fn has_valid_id(&self) -> (r: bool)
        ensures
            r == valid_id(self.id@),
    {
        if self.id.len() == 0 {
            return false;
        }
        let mut i: usize = 0;
        while i < self.id.len()
            invariant
                0 <= i <= self.id@.len(),
                forall|j: int| 0 <= j < i ==> id_byte(self.id@[j]),
            decreases self.id@.len() - i,
        {
            let b = self.id[i];
            let ok = (b >= 65 && b <= 90) || (b >= 97 && b <= 122) || (b >= 48 && b <= 57) || b
                == 95;
            if !ok {
                return false;
            }
            i = i + 1;
        }
        true
    }
}

/// Whether `b` is an ASCII letter, digit or underscore.
pub open spec fn id_byte(b: u8) -> bool {
    (65 <= b <= 90) || (97 <= b <= 122) || (48 <= b <= 57) || b == 95
}

/// Whether `id` is a nonempty word of letters, digits and underscores.
pub open spec fn valid_id(id: Seq<u8>) -> bool {
    id.len() > 0 && forall|j: int| 0 <= j < id.len() ==> id_byte(id[j])
}

/// Appends `to` to an edge list unless it is already present.
pub open spec fn add_dep(deps: Seq<Seq<u8>>, to: Seq<u8>) -> Seq<Seq<u8>> {
    if deps.contains(to) {
        deps
    } else {
        deps.push(to)
    }
}

/// The index of the first node with identity `id`, if any.
pub open spec fn find_idx(m: Seq<NodeModel>, id: Seq<u8>) -> Option<int>
    decreases m.len(),
{
    if m.len() == 0 {
        None
    } else if m.first().id == id {
        Some(0)
    } else {
        match find_idx(m.drop_first(), id) {
            Some(j) => Some(j + 1),
            None => None,
        }
    }
}

/// `find_idx` returns the least index whose node carries `id`, and `None`
/// exactly when no node does.
pub proof fn lemma_find_idx(m: Seq<NodeModel>, id: Seq<u8>)
    ensures
        match find_idx(m, id) {
            Some(i) => 0 <= i < m.len() && m[i].id == id && forall|j: int|
                0 <= j < i ==> m[j].id != id,
            None => forall|j: int| 0 <= j < m.len() ==> m[j].id != id,
        },
    decreases m.len(),
{
    if m.len() == 0 {
    } else if m.first().id == id {
        assert(m[0].id == id);
    } else {
        lemma_find_idx(m.drop_first(), id);
        match find_idx(m.drop_first(), id) {
            Some(j) => {
                assert(m.drop_first()[j] == m[j + 1]);
                assert forall|k: int| 0 <= k < j + 1 implies m[k].id != id by {
                    if k == 0 {
                        assert(m[0] == m.first());
                    } else {
                        assert(m.drop_first()[k - 1] == m[k]);
                        assert(m.drop_first()[k - 1].id != id);
                    }
                }
            },
            None => {
                assert forall|k: int| 0 <= k < m.len() implies m[k].id != id by {
                    if k == 0 {
                        assert(m[0] == m.first());
                    } else {
                        assert(m.drop_first()[k - 1] == m[k]);
                        assert(m.drop_first()[k - 1].id != id);
                    }
                }
            },
        }
    }
}

/// The edge targets recorded for `id`: those of the first node carrying
/// `id`, or none when `id` is not in the graph.
pub open spec fn deps_of(m: Seq<NodeModel>, id: Seq<u8>) -> Seq<Seq<u8>> {
    match find_idx(m, id) {
        Some(i) => m[i].deps,
        None => Seq::empty(),
    }
}

/// Whether the graph records an edge from `a` to `b`.
pub open spec fn edge(m: Seq<NodeModel>, a: Seq<u8>, b: Seq<u8>) -> bool {
    deps_of(m, a).contains(b)
}

/// The identities of the graph's nodes, in insertion order.
pub open spec fn ids_of(m: Seq<NodeModel>) -> Seq<Seq<u8>> {
    m.map_values(|n: NodeModel| n.id)
}

/// The graph after recording an edge from `from` to `to`: the `from` node
/// gains the edge (created at the end of the node list if absent); every
/// other node is untouched.
pub open spec fn spec_add_edge(m: Seq<NodeModel>, from: Seq<u8>, to: Seq<u8>) -> Seq<NodeModel> {
    match find_idx(m, from) {
        Some(i) => m.update(i, NodeModel { id: from, deps: add_dep(m[i].deps, to) }),
        None => m.push(NodeModel { id: from, deps: seq![to] }),
    }
}

/// The graph after recording `from` as a node, without any new edge.
pub open spec fn spec_add_node(m: Seq<NodeModel>, from: Seq<u8>) -> Seq<NodeModel> {
    match find_idx(m, from) {
        Some(i) => m,
        None => m.push(NodeModel { id: from, deps: Seq::empty() }),
    }
}

/// A dependency graph, navigable in the presence of cycles.
pub struct Graph {
    nodes: Vec<Node>,
}

impl Graph {
    /// The graph's mathematical view: the node models in insertion order.
    pub closed spec fn model(self) -> Seq<NodeModel> {
        self.nodes@.map_values(|n: Node| n.model())
    }

    /// Well-formedness: node identities are unique.
    pub open spec fn wf(self) -> bool {
        ids_of(self.model()).no_duplicates()
    }

    /// Creates an empty graph.
    pub fn new() -> (g: Graph)
        ensures
            g.model() =~= Seq::<NodeModel>::empty(),
            g.wf(),
    {
        let g = Graph { nodes: Vec::new() };
        proof {
            assert(ids_of(g.model()) =~= Seq::<Seq<u8>>::empty());
        }
        g
    }

    /// The number of nodes.
    pub fn node_count(&self) -> (n: usize)
        ensures
            n == self.model().len(),
    {
        self.nodes.len()
    }

    /// The identity of the node at position `i`.
    pub fn id_at(&self, i: usize) -> (r: Vec<u8>)
        requires
            i < self.model().len(),
        ensures
            r@ == self.model()[i as int].id,
    {
        crate::bytesutil::clone_bytes(&self.nodes[i].id)
    }

    /// The edge targets of the node at position `i`.
    pub fn deps_at(&self, i: usize) -> (r: Vec<Vec<u8>>)
        requires
            i < self.model().len(),
        ensures
            views(r@) == self.model()[i as int].deps,
    {
        crate::bytesutil::clone_list(&self.nodes[i].dependencies)
    }

    /// The index of the first node carrying `id`, if any.
    pub fn find_node(&self, id: &Vec<u8>) -> (r: Option<usize>)
        ensures
            match r {
                Some(i) => find_idx(self.model(), id@) == Some(i as int),
                None => find_idx(self.model(), id@) is None,
            },
    {
        proof {
            lemma_find_idx(self.model(), id@);
        }
        let mut i: usize = 0;
        while i < self.nodes.len()
            invariant
                0 <= i <= self.model().len(),
                forall|j: int| 0 <= j < i ==> self.model()[j].id != id@,
            decreases self.model().len() - i,
        {
            if crate::bytesutil::bytes_eq(&self.nodes[i].id, id) {
                proof {
                    lemma_find_idx_unique(self.model(), id@, i as int);
                }
                return Some(i);
            }
            i = i + 1;
        }
        None
    }

    /// Records `id` as a node, creating it at the end when absent.
    pub fn ensure_node(&mut self, id: &Vec<u8>)
        ensures
            final(self).model() == spec_add_node(old(self).model(), id@),
            old(self).wf() ==> final(self).wf(),
    {
        proof {
            lemma_find_idx(self.model(), id@);
        }
        let found = self.find_node(id);
        match found {
            Some(_) => {
                proof {
                    assert(self.model() =~= spec_add_node(old(self).model(), id@));
                }
            },
            None => {
                let ghost prev = self.model();
                self.nodes.push(Node::new(id));
                proof {
                    assert(self.model() =~= prev.push(NodeModel { id: id@, deps: Seq::empty() }));
                    if old(self).wf() {
                        lemma_ids_push(prev, NodeModel { id: id@, deps: Seq::empty() });
                    }
                }
            },
        }
    }

    /// Records an edge from `from` to `to`, creating the `from` node when
    /// absent and keeping its edge list free of duplicates.
    pub fn add_edge(&mut self, from: &Vec<u8>, to: &Vec<u8>)
        ensures
            final(self).model() == spec_add_edge(old(self).model(), from@, to@),
            old(self).wf() ==> final(self).wf(),
    {
        proof {
            lemma_find_idx(self.model(), from@);
        }
        let found = self.find_node(from);
        match found {
            Some(i) => {
                let ghost prev = self.model();
                let mut node = self.nodes.remove(i);
                node.add_dependency(to);
                self.nodes.insert(i, node);
                proof {
                    assert(self.model() =~= prev.update(
                        i as int,
                        NodeModel { id: from@, deps: add_dep(prev[i as int].deps, to@) },
                    ));
                    if old(self).wf() {
                        assert(ids_of(self.model()) =~= ids_of(prev));
                    }
                }
            },
            None => {
                let ghost prev = self.model();
                let mut node = Node::new(from);
                node.add_dependency(to);
                self.nodes.push(node);
                proof {
                    assert(add_dep(Seq::<Seq<u8>>::empty(), to@) =~= seq![to@]);
                    assert(self.model() =~= prev.push(NodeModel { id: from@, deps: seq![to@] }));
                    if old(self).wf() {
                        lemma_ids_push(prev, NodeModel { id: from@, deps: seq![to@] });
                    }
                }
            },
        }
    }

    /// Inserts a fully built node, ignored when its identity is already
    /// present.
    pub fn insert(&mut self, node: Node)
        ensures
            find_idx(old(self).model(), node.model().id) is Some ==> final(self).model() == old(
                self,
            ).model(),
            find_idx(old(self).model(), node.model().id) is None ==> final(self).model() == old(
                self,
            ).model().push(node.model()),
            old(self).wf() ==> final(self).wf(),
    {
        proof {
            lemma_find_idx(self.model(), node.model().id);
        }
        let found = self.find_node(&node.id);
        match found {
            Some(_) => {},
            None => {
                let ghost prev = self.model();
                self.nodes.push(node);
                proof {
                    assert(self.model() =~= prev.push(node.model()));
                    if old(self).wf() {
                        lemma_ids_push(prev, node.model());
                    }
                }
            },
        }
    }
}

/// If position `i` carries `id` and no earlier position does, then
/// `find_idx` returns `i`.
pub proof fn lemma_find_idx_unique(m: Seq<NodeModel>, id: Seq<u8>, i: int)
    requires
        0 <= i < m.len(),
        m[i].id == id,
        forall|j: int| 0 <= j < i ==> m[j].id != id,
    ensures
        find_idx(m, id) == Some(i),
{
    lemma_find_idx(m, id);
    match find_idx(m, id) {
        Some(k) => {
            if k < i {
                assert(m[k].id != id);
            }
            if i < k {
                assert(m[i].id != id);
            }
        },
        None => {
            assert(m[i].id != id);
        },
    }
}

/// Pushing a node with a fresh identity keeps the identity list free of
/// duplicates.
proof fn lemma_ids_push(m: Seq<NodeModel>, n: NodeModel)
    requires
        ids_of(m).no_duplicates(),
        find_idx(m, n.id) is None,
    ensures
        ids_of(m.push(n)).no_duplicates(),
{
    lemma_find_idx(m, n.id);
    assert(ids_of(m.push(n)) =~= ids_of(m).push(n.id));
    assert forall|j: int, k: int|
        0 <= j < k < ids_of(m.push(n)).len() implies ids_of(m.push(n))[j] != ids_of(m.push(n))[k] by {
        if k < m.len() {
            assert(ids_of(m)[j] != ids_of(m)[k]);
        } else {
            assert(m[j].id != n.id);
        }
    }
}

} // verus!
