//! Reachability over the dependency graph: tree shaking, pruning of
//! unreachable nodes, and cycle detection.
//!
//! Reachability is specified by the existence of an edge path from an entry
//! identity; the worklist algorithm below is proved to compute exactly the
//! reachable set, and to terminate in the presence of cycles.

use vstd::prelude::*;
use vstd::seq_lib::seq_to_set_is_finite;
use vstd::set_lib::lemma_len_subset;

use crate::bytesutil::{clone_bytes, clone_list, list_contains, views};
use crate::graph::{deps_of, find_idx, Graph, NodeModel};

verus! {

/// Whether consecutive elements of `p` are joined by graph edges.
pub open spec fn valid_path(m: Seq<NodeModel>, p: Seq<Seq<u8>>) -> bool {
    forall|i: int| 0 <= i < p.len() - 1 ==> #[trigger] deps_of(m, p[i]).contains(p[i + 1])
}

/// Whether `id` is reachable from one of `entries` by following edges.
/// An entry reaches itself by the one-element path.
pub open spec fn reaches(m: Seq<NodeModel>, entries: Seq<Seq<u8>>, id: Seq<u8>) -> bool {
    exists|p: Seq<Seq<u8>>|
        p.len() > 0 && entries.contains(p.first()) && valid_path(m, p) && p.last() == id
}

/// Whether `id` lies on a cycle: some nonempty edge path leads from `id`
/// back to itself.
pub open spec fn on_cycle(m: Seq<NodeModel>, id: Seq<u8>) -> bool {
    exists|p: Seq<Seq<u8>>|
        p.len() >= 2 && p.first() == id && p.last() == id && valid_path(m, p)
}

/// Every entry reaches itself.
pub proof fn lemma_reaches_entry(m: Seq<NodeModel>, entries: Seq<Seq<u8>>, e: Seq<u8>)
    requires
        entries.contains(e),
    ensures
        reaches(m, entries, e),
{
    let p = seq![e];
    assert(p.len() > 0 && entries.contains(p.first()) && valid_path(m, p) && p.last() == e);
}

/// Reachability extends along an edge.
pub proof fn lemma_reaches_step(m: Seq<NodeModel>, entries: Seq<Seq<u8>>, a: Seq<u8>, b: Seq<u8>)
    requires
        reaches(m, entries, a),
        deps_of(m, a).contains(b),
    ensures
        reaches(m, entries, b),
{
    let p = choose|p: Seq<Seq<u8>>|
        p.len() > 0 && entries.contains(p.first()) && valid_path(m, p) && p.last() == a;
    let q = p.push(b);
    assert forall|i: int| 0 <= i < q.len() - 1 implies #[trigger] deps_of(m, q[i]).contains(
        q[i + 1],
    ) by {
        if i < p.len() - 1 {
            assert(q[i] == p[i] && q[i + 1] == p[i + 1]);
        } else {
            assert(q[i] == p.last() && q[i + 1] == b);
        }
    }
    assert(q.len() > 0 && entries.contains(q.first()) && valid_path(m, q) && q.last() == b);
}

/// A set of identities closed under edges contains the last element of any
/// valid path that starts inside it.
proof fn lemma_closed_path(m: Seq<NodeModel>, cl: Seq<Seq<u8>>, p: Seq<Seq<u8>>)
    requires
        p.len() > 0,
        cl.contains(p.first()),
        valid_path(m, p),
        forall|a: Seq<u8>, b: Seq<u8>|
            cl.contains(a) && #[trigger] deps_of(m, a).contains(b) ==> cl.contains(b),
    ensures
        cl.contains(p.last()),
    decreases p.len(),
{
    if p.len() == 1 {
    } else {
        let i0: int = 0;
        assert(deps_of(m, p[i0]).contains(p[i0 + 1]));
        let q = p.drop_first();
        assert forall|i: int| 0 <= i < q.len() - 1 implies #[trigger] deps_of(m, q[i]).contains(
            q[i + 1],
        ) by {
            assert(q[i] == p[i + 1] && q[i + 1] == p[i + 2]);
            assert(deps_of(m, p[i + 1]).contains(p[i + 2]));
        }
        assert(cl.contains(q.first()));
        lemma_closed_path(m, cl, q);
        assert(q.last() == p.last());
    }
}

/// Membership carries over to a concatenation from the left part.
proof fn lemma_add_contains_left(a: Seq<Seq<u8>>, b: Seq<Seq<u8>>, x: Seq<u8>)
    requires
        a.contains(x),
    ensures
        (a + b).contains(x),
{
    let i = choose|i: int| 0 <= i < a.len() && a[i] == x;
    assert((a + b)[i] == x);
}

/// Membership carries over to a concatenation from the right part.
proof fn lemma_add_contains_right(a: Seq<Seq<u8>>, b: Seq<Seq<u8>>, x: Seq<u8>)
    requires
        b.contains(x),
    ensures
        (a + b).contains(x),
{
    let i = choose|i: int| 0 <= i < b.len() && b[i] == x;
    assert((a + b)[a.len() + i] == x);
}

/// Membership survives a push.
proof fn lemma_push_keeps(s: Seq<Seq<u8>>, x: Seq<u8>, y: Seq<u8>)
    requires
        s.contains(y),
    ensures
        s.push(x).contains(y),
{
    let i = choose|i: int| 0 <= i < s.len() && s[i] == y;
    assert(s.push(x)[i] == y);
}

/// A pushed element is a member.
proof fn lemma_push_has(s: Seq<Seq<u8>>, x: Seq<u8>)
    ensures
        s.push(x).contains(x),
{
    assert(s.push(x)[s.len() as int] == x);
}

/// Pushing a fresh element keeps a sequence free of duplicates.
proof fn lemma_nodup_push(s: Seq<Seq<u8>>, x: Seq<u8>)
    requires
        s.no_duplicates(),
        !s.contains(x),
    ensures
        s.push(x).no_duplicates(),
{
    assert forall|j: int, k: int|
        0 <= j < k < s.push(x).len() implies s.push(x)[j] != s.push(x)[k] by {
        if k < s.len() {
        } else {
            assert(s.push(x)[j] == s[j]);
            if s[j] == x {
                assert(s.contains(x));
            }
        }
    }
}

/// Restores the worklist invariants after one visited identity has been
/// moved from the queue into the reachable list and its missing edge
/// targets have been queued.
proof fn lemma_visit_restore(
    m: Seq<NodeModel>,
    entries: Seq<Seq<u8>>,
    uni: Set<Seq<u8>>,
    pre_reach: Seq<Seq<u8>>,
    pre_visit: Seq<Seq<u8>>,
    cur_reach: Seq<Seq<u8>>,
    cur_visit: Seq<Seq<u8>>,
    idv: Seq<u8>,
)
    requires
        cur_reach == pre_reach.push(idv),
        pre_visit.len() > 0,
        pre_visit.last() == idv,
        reaches(m, entries, idv),
        uni.contains(idv),
        forall|x: Seq<u8>| #[trigger] pre_reach.contains(x) ==> reaches(m, entries, x)
            && uni.contains(x),
        forall|j: int|
            0 <= j < deps_of(m, idv).len() ==> cur_reach.contains(deps_of(m, idv)[j])
                || cur_visit.contains(deps_of(m, idv)[j]),
        forall|x: Seq<u8>| #[trigger] pre_visit.drop_last().contains(x) ==> cur_visit.contains(x),
        forall|a: Seq<u8>, b: Seq<u8>|
            pre_reach.contains(a) && #[trigger] deps_of(m, a).contains(b) ==> pre_reach.contains(b)
                || pre_visit.contains(b),
        forall|e: Seq<u8>|
            entries.contains(e) ==> pre_reach.contains(e) || pre_visit.contains(e),
    ensures
        forall|x: Seq<u8>| #[trigger] cur_reach.contains(x) ==> reaches(m, entries, x)
            && uni.contains(x),
        forall|a: Seq<u8>, b: Seq<u8>|
            cur_reach.contains(a) && #[trigger] deps_of(m, a).contains(b) ==> cur_reach.contains(b)
                || cur_visit.contains(b),
        forall|e: Seq<u8>|
            entries.contains(e) ==> cur_reach.contains(e) || cur_visit.contains(e),
{
    assert forall|x: Seq<u8>| #[trigger] cur_reach.contains(x) implies reaches(m, entries, x)
        && uni.contains(x) by {
        let j = choose|j: int| 0 <= j < cur_reach.len() && cur_reach[j] == x;
        if j < pre_reach.len() {
            assert(pre_reach[j] == x);
            assert(pre_reach.contains(x));
        } else {
            assert(x == idv);
        }
    }
    assert forall|a: Seq<u8>, b: Seq<u8>|
        cur_reach.contains(a) && #[trigger] deps_of(m, a).contains(b) implies cur_reach.contains(b)
        || cur_visit.contains(b) by {
        if a == idv {
            let j = choose|j: int| 0 <= j < deps_of(m, idv).len() && deps_of(m, idv)[j] == b;
            assert(cur_reach.contains(deps_of(m, idv)[j]) || cur_visit.contains(
                deps_of(m, idv)[j],
            ));
        } else {
            let ja = choose|ja: int| 0 <= ja < cur_reach.len() && cur_reach[ja] == a;
            assert(pre_reach[ja] == a);
            assert(pre_reach.contains(a));
            assert(pre_reach.contains(b) || pre_visit.contains(b));
            if pre_reach.contains(b) {
                lemma_push_keeps(pre_reach, idv, b);
            } else {
                let j = choose|j: int| 0 <= j < pre_visit.len() && pre_visit[j] == b;
                if j < pre_visit.len() - 1 {
                    assert(pre_visit.drop_last()[j] == b);
                    assert(pre_visit.drop_last().contains(b));
                } else {
                    assert(b == idv);
                    lemma_push_has(pre_reach, idv);
                }
            }
        }
    }
    assert forall|e: Seq<u8>| entries.contains(e) implies cur_reach.contains(e)
        || cur_visit.contains(e) by {
        assert(pre_reach.contains(e) || pre_visit.contains(e));
        if pre_reach.contains(e) {
            lemma_push_keeps(pre_reach, idv, e);
        } else {
            let j = choose|j: int| 0 <= j < pre_visit.len() && pre_visit[j] == e;
            if j < pre_visit.len() - 1 {
                assert(pre_visit.drop_last()[j] == e);
                assert(pre_visit.drop_last().contains(e));
            } else {
                assert(e == idv);
                lemma_push_has(pre_reach, idv);
            }
        }
    }
}

/// Restores the worklist invariants after an identity already known
/// reachable has simply been popped from the queue.
proof fn lemma_skip_restore(
    m: Seq<NodeModel>,
    entries: Seq<Seq<u8>>,
    reach: Seq<Seq<u8>>,
    pre_visit: Seq<Seq<u8>>,
    cur_visit: Seq<Seq<u8>>,
)
    requires
        pre_visit.len() > 0,
        cur_visit == pre_visit.drop_last(),
        reach.contains(pre_visit.last()),
        forall|a: Seq<u8>, b: Seq<u8>|
            reach.contains(a) && #[trigger] deps_of(m, a).contains(b) ==> reach.contains(b)
                || pre_visit.contains(b),
        forall|e: Seq<u8>| entries.contains(e) ==> reach.contains(e) || pre_visit.contains(e),
    ensures
        forall|a: Seq<u8>, b: Seq<u8>|
            reach.contains(a) && #[trigger] deps_of(m, a).contains(b) ==> reach.contains(b)
                || cur_visit.contains(b),
        forall|e: Seq<u8>| entries.contains(e) ==> reach.contains(e) || cur_visit.contains(e),
{
    assert forall|a: Seq<u8>, b: Seq<u8>|
        reach.contains(a) && #[trigger] deps_of(m, a).contains(b) implies reach.contains(b)
        || cur_visit.contains(b) by {
        if !reach.contains(b) {
            let j = choose|j: int| 0 <= j < pre_visit.len() && pre_visit[j] == b;
            if j < pre_visit.len() - 1 {
                assert(cur_visit[j] == b);
            } else {
                assert(b == pre_visit.last());
            }
        }
    }
    assert forall|e: Seq<u8>| entries.contains(e) implies reach.contains(e) || cur_visit.contains(
        e,
    ) by {
        if !reach.contains(e) {
            let j = choose|j: int| 0 <= j < pre_visit.len() && pre_visit[j] == e;
            if j < pre_visit.len() - 1 {
                assert(cur_visit[j] == e);
            } else {
                assert(e == pre_visit.last());
            }
        }
    }
}

/// All identities mentioned by the graph: each node's identity followed by
/// its edge targets, in node order.
pub open spec fn graph_elems(m: Seq<NodeModel>) -> Seq<Seq<u8>>
    decreases m.len(),
{
    if m.len() == 0 {
        Seq::empty()
    } else {
        (seq![m.first().id] + m.first().deps) + graph_elems(m.drop_first())
    }
}

/// The identity and edge targets of every node occur in `graph_elems`.
proof fn lemma_graph_elems(m: Seq<NodeModel>, i: int)
    requires
        0 <= i < m.len(),
    ensures
        graph_elems(m).contains(m[i].id),
        forall|d: Seq<u8>| m[i].deps.contains(d) ==> graph_elems(m).contains(d),
    decreases m.len(),
{
    let head = seq![m.first().id] + m.first().deps;
    if i == 0 {
        assert(head[0] == m[0].id);
        lemma_add_contains_left(head, graph_elems(m.drop_first()), m[0].id);
        assert forall|d: Seq<u8>| m[i].deps.contains(d) implies graph_elems(m).contains(d) by {
            let k = choose|k: int| 0 <= k < m[0].deps.len() && m[0].deps[k] == d;
            assert(head[1 + k] == d);
            lemma_add_contains_left(head, graph_elems(m.drop_first()), d);
        }
    } else {
        lemma_graph_elems(m.drop_first(), i - 1);
        assert(m.drop_first()[i - 1] == m[i]);
        lemma_add_contains_right(head, graph_elems(m.drop_first()), m[i].id);
        assert forall|d: Seq<u8>| m[i].deps.contains(d) implies graph_elems(m).contains(d) by {
            assert(graph_elems(m.drop_first()).contains(d));
            lemma_add_contains_right(head, graph_elems(m.drop_first()), d);
        }
    }
}

/// Computes the set of identities reachable from `entry_points`, as a list
/// without duplicates. Terminates on cyclic graphs; a member of a cycle
/// appears exactly once.
#[verifier::spinoff_prover]
#[verifier::rlimit(100)]
pub fn tree_shaker(g: &Graph, entry_points: &Vec<Vec<u8>>) -> (r: Vec<Vec<u8>>)
    ensures
        views(r@).no_duplicates(),
        forall|id: Seq<u8>|
            #[trigger] views(r@).contains(id) <==> reaches(
                g.model(),
                views(entry_points@),
                id,
            ),
{
    let ghost m = g.model();
    let ghost entries = views(entry_points@);
    let ghost uni = (entries + graph_elems(m)).to_set();
    proof {
        broadcast use seq_to_set_is_finite;

        assert forall|x: Seq<u8>| entries.contains(x) implies uni.contains(x) by {
            lemma_add_contains_left(entries, graph_elems(m), x);
        }
    }
    let mut reachable: Vec<Vec<u8>> = Vec::new();
    let mut to_visit: Vec<Vec<u8>> = clone_list(entry_points);
    proof {
        assert forall|x: Seq<u8>| views(to_visit@).contains(x) implies reaches(m, entries, x)
            && uni.contains(x) by {
            lemma_reaches_entry(m, entries, x);
        }
        assert(views(reachable@) =~= Seq::<Seq<u8>>::empty());
        assert(views(reachable@).to_set() =~= Set::<Seq<u8>>::empty());
    }
    while to_visit.len() > 0
        invariant
            views(reachable@).no_duplicates(),
            uni.finite(),
            views(reachable@).to_set().len() <= uni.len(),
            forall|x: Seq<u8>| #[trigger]
                views(reachable@).contains(x) ==> reaches(m, entries, x) && uni.contains(x),
            forall|x: Seq<u8>| #[trigger]
                views(to_visit@).contains(x) ==> reaches(m, entries, x) && uni.contains(x),
            forall|a: Seq<u8>, b: Seq<u8>|
                views(reachable@).contains(a) && #[trigger] deps_of(m, a).contains(b) ==> views(
                    reachable@,
                ).contains(b) || views(to_visit@).contains(b),
            forall|e: Seq<u8>|
                entries.contains(e) ==> views(reachable@).contains(e) || views(
                    to_visit@,
                ).contains(e),
        decreases uni.len() - views(reachable@).to_set().len(), to_visit@.len(),
    {
        let ghost pre_visit = views(to_visit@);
        let id = to_visit.pop().unwrap();
        proof {
            assert(pre_visit.contains(pre_visit.last()));
            assert(id@ == pre_visit.last());
            assert(views(to_visit@) =~= pre_visit.drop_last());
            assert forall|x: Seq<u8>| #[trigger] views(to_visit@).contains(x) implies
                pre_visit.contains(x) by {
                let k = choose|k: int| 0 <= k < views(to_visit@).len() && views(to_visit@)[k] == x;
                assert(pre_visit[k] == x);
            }
        }
        let found = g.find_node(&id);
        proof {
            crate::graph::lemma_find_idx(m, id@);
        }
        if !list_contains(&reachable, &id) {
            let ghost idv = id@;
            let ghost depsv = deps_of(m, idv);
            let ghost pre_reach = views(reachable@);
            proof {
                lemma_nodup_push(pre_reach, idv);
                pre_reach.unique_seq_to_set();
                pre_reach.push(idv).unique_seq_to_set();
                pre_reach.lemma_push_to_set_commute(idv);
                assert forall|x: Seq<u8>|
                    pre_reach.push(idv).to_set().contains(x) implies uni.contains(x) by {
                    if x != idv {
                        assert(pre_reach.contains(x));
                    }
                }
                lemma_len_subset(pre_reach.push(idv).to_set(), uni);
            }
            reachable.push(id);
            proof {
                assert(views(reachable@) =~= pre_reach.push(idv));
                lemma_push_has(pre_reach, idv);
            }
            match found {
                Some(i) => {
                    let deps = g.deps_at(i);
                    proof {
                        assert(depsv == m[i as int].deps);
                        lemma_graph_elems(m, i as int);
                        assert(pre_visit.contains(idv));
                        assert(reaches(m, entries, idv));
                        assert forall|d: Seq<u8>| #[trigger] depsv.contains(d) implies uni.contains(
                            d,
                        ) && reaches(m, entries, d) by {
                            assert(graph_elems(m).contains(d));
                            lemma_add_contains_right(entries, graph_elems(m), d);
                            lemma_reaches_step(m, entries, idv, d);
                        }
                    }
                    let mut k: usize = 0;
                    while k < deps.len()
                        invariant
                            0 <= k <= depsv.len(),
                            views(deps@) == depsv,
                            views(reachable@).contains(idv),
                            forall|x: Seq<u8>| #[trigger]
                                views(to_visit@).contains(x) ==> reaches(m, entries, x)
                                    && uni.contains(x),
                            forall|j: int|
                                0 <= j < k ==> views(reachable@).contains(depsv[j]) || views(
                                    to_visit@,
                                ).contains(depsv[j]),
                            forall|x: Seq<u8>| #[trigger]
                                pre_visit.drop_last().contains(x) ==> views(
                                    to_visit@,
                                ).contains(x),
                        decreases depsv.len() - k,
                    {
                        if !list_contains(&reachable, &deps[k]) {
                            let ghost pre = views(to_visit@);
                            to_visit.push(clone_bytes(&deps[k]));
                            proof {
                                assert(views(to_visit@) =~= pre.push(depsv[k as int]));
                                assert(depsv.contains(depsv[k as int]));
                                assert(uni.contains(depsv[k as int]) && reaches(
                                    m,
                                    entries,
                                    depsv[k as int],
                                ));
                                lemma_push_has(pre, depsv[k as int]);
                                assert forall|x: Seq<u8>| #[trigger] pre.contains(x) implies views(
                                    to_visit@,
                                ).contains(x) by {
                                    lemma_push_keeps(pre, depsv[k as int], x);
                                }
                                assert forall|x: Seq<u8>| #[trigger]
                                    views(to_visit@).contains(x) implies reaches(m, entries, x)
                                    && uni.contains(x) by {
                                    let j = choose|j: int|
                                        0 <= j < views(to_visit@).len() && views(to_visit@)[j]
                                            == x;
                                    if j < pre.len() {
                                        assert(pre[j] == x);
                                        assert(pre.contains(x));
                                    } else {
                                        assert(x == depsv[k as int]);
                                    }
                                }
                            }
                        }
                        k = k + 1;
                    }
                    proof {
                        assert(forall|j: int|
                            0 <= j < depsv.len() ==> views(reachable@).contains(depsv[j]) || views(
                                to_visit@,
                            ).contains(depsv[j]));
                    }
                },
                None => {
                    proof {
                        assert(depsv =~= Seq::<Seq<u8>>::empty());
                        assert(forall|j: int|
                            0 <= j < depsv.len() ==> views(reachable@).contains(depsv[j]) || views(
                                to_visit@,
                            ).contains(depsv[j]));
                        assert(forall|x: Seq<u8>| #[trigger]
                            pre_visit.drop_last().contains(x) ==> views(to_visit@).contains(x));
                    }
                },
            }
            proof {
                lemma_visit_restore(
                    m,
                    entries,
                    uni,
                    pre_reach,
                    pre_visit,
                    views(reachable@),
                    views(to_visit@),
                    idv,
                );
            }
        } else {
            proof {
                lemma_skip_restore(m, entries, views(reachable@), pre_visit, views(to_visit@));
            }
        }
    }
    proof {
        assert(views(to_visit@).len() == 0);
        assert forall|id: Seq<u8>| reaches(m, entries, id) implies views(reachable@).contains(
            id,
        ) by {
            let p = choose|p: Seq<Seq<u8>>|
                p.len() > 0 && entries.contains(p.first()) && valid_path(m, p) && p.last() == id;
            assert forall|x: Seq<u8>| views(to_visit@).contains(x) implies false by {
                let j = choose|j: int| 0 <= j < views(to_visit@).len() && views(to_visit@)[j] == x;
            }
            assert(views(reachable@).contains(p.first()));
            lemma_closed_path(m, views(reachable@), p);
        }
    }
    reachable
}

/// Elements of a filtered sequence come from the original sequence.
pub proof fn lemma_filter_from<A>(s: Seq<A>, pred: spec_fn(A) -> bool)
    ensures
        forall|x: A| #[trigger] s.filter(pred).contains(x) ==> s.contains(x),
    decreases s.len(),
{
    reveal(Seq::filter);
    if s.len() == 0 {
    } else {
        lemma_filter_from(s.drop_last(), pred);
        assert forall|x: A| #[trigger] s.filter(pred).contains(x) implies s.contains(x) by {
            let f = s.filter(pred);
            let j = choose|j: int| 0 <= j < f.len() && f[j] == x;
            if pred(s.last()) && j == f.len() - 1 {
                assert(s[s.len() - 1] == x);
            } else {
                assert(s.drop_last().filter(pred).contains(x));
                let k = choose|k: int|
                    0 <= k < s.drop_last().len() && s.drop_last()[k] == x;
                assert(s[k] == x);
            }
        }
    }
}

/// Filtering a duplicate-free sequence leaves it duplicate-free.
pub proof fn lemma_filter_nodup<A>(s: Seq<A>, pred: spec_fn(A) -> bool)
    requires
        s.no_duplicates(),
    ensures
        s.filter(pred).no_duplicates(),
    decreases s.len(),
{
    reveal(Seq::filter);
    if s.len() == 0 {
    } else {
        assert(s.drop_last().no_duplicates());
        lemma_filter_nodup(s.drop_last(), pred);
        let f = s.filter(pred);
        if pred(s.last()) {
            let rest = s.drop_last().filter(pred);
            lemma_filter_from(s.drop_last(), pred);
            assert forall|j: int, k: int| 0 <= j < k < f.len() implies f[j] != f[k] by {
                if k < rest.len() {
                    assert(rest[j] != rest[k]);
                } else {
                    assert(f[j] == rest[j]);
                    if rest[j] == s.last() {
                        assert(rest.contains(s.last()));
                        assert(s.drop_last().contains(s.last()));
                        let m = choose|m: int|
                            0 <= m < s.drop_last().len() && s.drop_last()[m] == s.last();
                        assert(s[m] == s[s.len() - 1]);
                    }
                }
            }
        }
    }
}

/// Keeps exactly the nodes whose identity is in `reachable`; node order and
/// edge lists are untouched.
pub fn remove_unreachable_nodes(g: &Graph, reachable: &Vec<Vec<u8>>) -> (r: Graph)
    requires
        g.wf(),
    ensures
        r.model() == g.model().filter(
            |n: NodeModel| views(reachable@).contains(n.id),
        ),
        r.wf(),
{
    proof {
        reveal(Seq::filter);
    }
    let ghost m = g.model();
    let ghost pred = |n: NodeModel| views(reachable@).contains(n.id);
    let mut out = Graph::new();
    let mut i: usize = 0;
    proof {
        assert(m.take(0) =~= Seq::<NodeModel>::empty());
        assert(out.model() =~= m.take(0).filter(pred));
    }
    while i < g.node_count()
        invariant
            0 <= i <= m.len(),
            out.model() == m.take(i as int).filter(pred),
            out.wf(),
        decreases m.len() - i,
    {
        let id = g.id_at(i);
        proof {
            assert(m.take(i + 1).drop_last() =~= m.take(i as int));
            assert(m.take(i + 1).last() == m[i as int]);
        }
        if list_contains(reachable, &id) {
            let deps = g.deps_at(i);
            let node = crate::graph::Node { id, dependencies: deps };
            proof {
                assert(node.model() =~= m[i as int]);
                match crate::graph::find_idx(out.model(), node.model().id) {
                    Some(j) => {
                        crate::graph::lemma_find_idx(out.model(), node.model().id);
                        let f = m.take(i as int).filter(pred);
                        lemma_filter_from(m.take(i as int), pred);
                        assert(f.contains(f[j]));
                        assert(m.take(i as int).contains(f[j]));
                        let k = choose|k: int|
                            0 <= k < m.take(i as int).len() && m.take(i as int)[k] == f[j];
                        assert(crate::graph::ids_of(m)[k] == m[i as int].id);
                        assert(crate::graph::ids_of(m)[i as int] == m[i as int].id);
                        assert(false);
                    },
                    None => {},
                }
            }
            out.insert(node);
            proof {
                assert(out.model() =~= m.take(i + 1).filter(pred));
            }
        } else {
            proof {
                assert(out.model() =~= m.take(i + 1).filter(pred));
            }
        }
        i = i + 1;
    }
    proof {
        assert(m.take(m.len() as int) =~= m);
    }
    out
}

/// An identity lies on a cycle exactly when it is reachable from its own
/// edge targets.
pub proof fn lemma_on_cycle_iff(m: Seq<NodeModel>, id: Seq<u8>)
    ensures
        on_cycle(m, id) <==> reaches(m, deps_of(m, id), id),
{
    if on_cycle(m, id) {
        let p = choose|p: Seq<Seq<u8>>|
            p.len() >= 2 && p.first() == id && p.last() == id && valid_path(m, p);
        let q = p.drop_first();
        let i0: int = 0;
        assert(deps_of(m, p[i0]).contains(p[i0 + 1]));
        assert(q.first() == p[1]);
        assert forall|i: int| 0 <= i < q.len() - 1 implies #[trigger] deps_of(m, q[i]).contains(
            q[i + 1],
        ) by {
            assert(q[i] == p[i + 1] && q[i + 1] == p[i + 2]);
            assert(deps_of(m, p[i + 1]).contains(p[i + 2]));
        }
        assert(q.len() > 0 && deps_of(m, id).contains(q.first()) && valid_path(m, q) && q.last()
            == id);
    }
    if reaches(m, deps_of(m, id), id) {
        let q = choose|q: Seq<Seq<u8>>|
            q.len() > 0 && deps_of(m, id).contains(q.first()) && valid_path(m, q) && q.last()
                == id;
        let p = seq![id] + q;
        assert(p.len() >= 2);
        assert(p.first() == id);
        assert(p.last() == q.last());
        assert forall|i: int| 0 <= i < p.len() - 1 implies #[trigger] deps_of(m, p[i]).contains(
            p[i + 1],
        ) by {
            if i == 0 {
                assert(p[0] == id && p[1] == q.first());
            } else {
                let j = i - 1;
                assert(p[i] == q[j] && p[i + 1] == q[j + 1]);
                assert(deps_of(m, q[j]).contains(q[j + 1]));
            }
        }
        assert(on_cycle(m, id));
    }
}

/// Reports every node identity that lies on a cycle, in node order.
/// Cycles are diagnostics: detection never alters the graph.
pub fn detect_cycles(g: &Graph) -> (r: Vec<Vec<u8>>)
    requires
        g.wf(),
    ensures
        views(r@) == crate::graph::ids_of(g.model()).filter(
            |id: Seq<u8>| on_cycle(g.model(), id),
        ),
{
    proof {
        reveal(Seq::filter);
    }
    let ghost m = g.model();
    let ghost ids = crate::graph::ids_of(m);
    let ghost pred = |id: Seq<u8>| on_cycle(m, id);
    let mut out: Vec<Vec<u8>> = Vec::new();
    let mut i: usize = 0;
    proof {
        assert(ids.take(0) =~= Seq::<Seq<u8>>::empty());
        assert(views(out@) =~= ids.take(0).filter(pred));
    }
    while i < g.node_count()
        invariant
            0 <= i <= m.len(),
            views(out@) == ids.take(i as int).filter(pred),
        decreases m.len() - i,
    {
        let id = g.id_at(i);
        let deps = g.deps_at(i);
        proof {
            assert forall|j: int| 0 <= j < i implies m[j].id != id@ by {
                assert(ids[j] == m[j].id);
                assert(ids[i as int] == m[i as int].id);
                assert(ids[j] != ids[i as int]);
            }
            crate::graph::lemma_find_idx_unique(m, id@, i as int);
            assert(deps_of(m, id@) == m[i as int].deps);
            lemma_on_cycle_iff(m, id@);
            assert(ids.take(i + 1).drop_last() =~= ids.take(i as int));
            assert(ids.take(i + 1).last() == ids[i as int]);
        }
        let members = tree_shaker(g, &deps);
        if list_contains(&members, &id) {
            let ghost prev = views(out@);
            out.push(id);
            proof {
                assert(views(out@) =~= prev.push(ids[i as int]));
                assert(views(out@) =~= ids.take(i + 1).filter(pred));
            }
        } else {
            proof {
                assert(views(out@) =~= ids.take(i + 1).filter(pred));
            }
        }
        i = i + 1;
    }
    proof {
        assert(ids.take(ids.len() as int) =~= ids);
    }
    out
}

/// Graph construction and traversal terminate on a two-cycle, and both of
/// its members are reachable: with edges from `a` to `b` and from `b` back
/// to `a`, an entry set containing `a` reaches both.
pub proof fn lemma_two_cycle(m: Seq<NodeModel>, entries: Seq<Seq<u8>>, a: Seq<u8>, b: Seq<u8>)
    requires
        entries.contains(a),
        deps_of(m, a).contains(b),
        deps_of(m, b).contains(a),
    ensures
        reaches(m, entries, a),
        reaches(m, entries, b),
        on_cycle(m, a),
        on_cycle(m, b),
{
    lemma_reaches_entry(m, entries, a);
    lemma_reaches_step(m, entries, a, b);
    lemma_on_cycle_iff(m, a);
    lemma_on_cycle_iff(m, b);
    let i0: int = 0;
    let qa = seq![b, a];
    assert(deps_of(m, qa[i0]).contains(qa[i0 + 1]));
    assert(qa.len() > 0 && deps_of(m, a).contains(qa.first()) && valid_path(m, qa) && qa.last()
        == a);
    let qb = seq![a, b];
    assert(deps_of(m, qb[i0]).contains(qb[i0 + 1]));
    assert(qb.len() > 0 && deps_of(m, b).contains(qb.first()) && valid_path(m, qb) && qb.last()
        == b);
}

} // verus!
