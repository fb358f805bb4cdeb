//! The mathematical model of the navigator's directed graph: vertices are
//! positions in a sequence of `u64` weights, edges are (source, target,
//! label) triples in order of addition. Paths, cycles, reachability, and
//! the derived result sequences of the structural queries are defined here.

use vstd::prelude::*;

use crate::data::{DialogueChoice, DialogueNext, DialogueNode, NodeId};

verus! {

/// The worklist holds vertex `v`.
pub open spec fn stack_has(st: Seq<usize>, v: int) -> bool {
    exists|k: int| 0 <= k < st.len() && (#[trigger] st[k]) as int == v
}

/// Pushing commutes with projecting the `NodeId` values out.
pub proof fn lemma_map_values_push(s: Seq<NodeId>, x: NodeId)
    ensures
        s.push(x).map_values(|n: NodeId| n.0) == s.map_values(|n: NodeId| n.0).push(x.0),
{
    let lhs = s.push(x).map_values(|n: NodeId| n.0);
    let rhs = s.map_values(|n: NodeId| n.0).push(x.0);
    assert forall|j: int| 0 <= j < lhs.len() implies lhs[j] == rhs[j] by {
        if j < s.len() {
            assert(s.push(x)[j] == s[j]);
        }
    }
    assert(lhs =~= rhs);
}

/// The number of transitions a node's relation declares: one for a single
/// successor, one per choice.
pub open spec fn next_target_count(next: DialogueNext) -> int {
    match next {
        DialogueNext::Single(opt) => match opt {
            Some(_) => 1,
            None => 0,
        },
        DialogueNext::Choices(cs) => cs@.len() as int,
    }
}

/// The edges materialized for a choice list, in list order: one edge per
/// choice whose target id is registered in `m`, labeled with the choice's
/// text; choices with unregistered targets are silently skipped.
pub open spec fn choice_edges(m: Map<u64, usize>, src: int, cs: Seq<DialogueChoice>) -> Seq<
    (int, int, Seq<char>),
>
    decreases cs.len(),
{
    if cs.len() == 0 {
        Seq::empty()
    } else {
        choice_edges(m, src, cs.drop_last()) + (if m.contains_key(cs.last().next_node.0) {
            seq![(src, m[cs.last().next_node.0] as int, cs.last().text@)]
        } else {
            Seq::empty()
        })
    }
}

/// The edges materialized when a node with relation `next` is inserted as
/// vertex `src`, given the registration map `m` as it stands right after
/// the node's own registration: a single successor gives one edge with an
/// empty label; a choice list gives one labeled edge per choice; an edge
/// whose target is not registered in `m` is silently skipped.
pub open spec fn added_edges(m: Map<u64, usize>, src: int, next: DialogueNext) -> Seq<
    (int, int, Seq<char>),
> {
    match next {
        DialogueNext::Single(opt) => match opt {
            Some(t) => if m.contains_key(t.0) {
                seq![(src, m[t.0] as int, Seq::<char>::empty())]
            } else {
                Seq::empty()
            },
            None => Seq::empty(),
        },
        DialogueNext::Choices(cs) => choice_edges(m, src, cs@),
    }
}

/// `choice_edges` adds at most one edge per choice.
pub proof fn lemma_choice_edges_len(m: Map<u64, usize>, src: int, cs: Seq<DialogueChoice>)
    ensures
        choice_edges(m, src, cs).len() <= cs.len(),
    decreases cs.len(),
{
    if cs.len() > 0 {
        lemma_choice_edges_len(m, src, cs.drop_last());
    }
}

/// True iff the edge list holds an edge from `a` to `b`.
pub open spec fn has_edge(edges: Seq<(int, int, Seq<char>)>, a: int, b: int) -> bool {
    exists|i: int| 0 <= i < edges.len() && (#[trigger] edges[i]).0 == a && edges[i].1 == b
}

/// A walk through the graph: a nonempty vertex sequence in which each
/// consecutive pair is connected by an edge.
pub open spec fn is_path(edges: Seq<(int, int, Seq<char>)>, p: Seq<int>) -> bool {
    &&& p.len() >= 1
    &&& forall|i: int| 0 <= i < p.len() - 1 ==> has_edge(edges, #[trigger] p[i], p[i + 1])
}

/// The graph contains a cycle: some closed walk takes at least one edge.
pub open spec fn has_cycle(edges: Seq<(int, int, Seq<char>)>) -> bool {
    exists|p: Seq<int>| is_path(edges, p) && p.len() >= 2 && p[0] == p[p.len() - 1]
}

/// Vertex `v` can be reached from vertex `s` (trivially, every vertex
/// reaches itself by the one-vertex walk).
pub open spec fn reachable(edges: Seq<(int, int, Seq<char>)>, s: int, v: int) -> bool {
    exists|p: Seq<int>| is_path(edges, p) && p[0] == s && p[p.len() - 1] == v
}

/// The (target, label) pairs of the outgoing edges of `a` among the first
/// `k` edges, most recently added first.
pub open spec fn out_edges_upto(
    edges: Seq<(int, int, Seq<char>)>,
    a: int,
    k: int,
) -> Seq<(int, Seq<char>)>
    decreases k,
{
    if k <= 0 {
        Seq::empty()
    } else {
        (if edges[k - 1].0 == a {
            seq![(edges[k - 1].1, edges[k - 1].2)]
        } else {
            Seq::empty()
        }) + out_edges_upto(edges, a, k - 1)
    }
}

/// The (target, label) pairs of all outgoing edges of `a`, most recently
/// added first. This is the order petgraph's edge iteration documents.
pub open spec fn out_edges_of(edges: Seq<(int, int, Seq<char>)>, a: int) -> Seq<(int, Seq<char>)> {
    out_edges_upto(edges, a, edges.len() as int)
}

/// The ids one outgoing edge away from the node registered as `id`: the
/// weights at the targets of its vertex's outgoing edges, most recently
/// added edge first; empty when `id` is not registered. No distinction is
/// made between an unknown id and a known id with no edges.
pub open spec fn next_ids(
    verts: Seq<u64>,
    edges: Seq<(int, int, Seq<char>)>,
    m: Map<u64, usize>,
    id: u64,
) -> Seq<u64> {
    if m.contains_key(id) {
        out_edges_of(edges, m[id] as int).map_values(|e: (int, Seq<char>)| verts[e.0])
    } else {
        Seq::empty()
    }
}

/// Vertex `v` has no outgoing edge.
pub open spec fn is_leaf(edges: Seq<(int, int, Seq<char>)>, v: int) -> bool {
    forall|i: int| 0 <= i < edges.len() ==> (#[trigger] edges[i]).0 != v
}

/// The weights of the leaf vertices among the first `k`, in index order.
pub open spec fn leaf_ids_upto(
    verts: Seq<u64>,
    edges: Seq<(int, int, Seq<char>)>,
    k: int,
) -> Seq<u64>
    decreases k,
{
    if k <= 0 {
        Seq::empty()
    } else {
        leaf_ids_upto(verts, edges, k - 1) + (if is_leaf(edges, k - 1) {
            seq![verts[k - 1]]
        } else {
            Seq::empty()
        })
    }
}

/// The weights of the vertices among the first `k` that cannot be reached
/// from vertex `s`, in index order.
pub open spec fn unreachable_ids_upto(
    verts: Seq<u64>,
    edges: Seq<(int, int, Seq<char>)>,
    s: int,
    k: int,
) -> Seq<u64>
    decreases k,
{
    if k <= 0 {
        Seq::empty()
    } else {
        unreachable_ids_upto(verts, edges, s, k - 1) + (if !reachable(edges, s, k - 1) {
            seq![verts[k - 1]]
        } else {
            Seq::empty()
        })
    }
}

/// Every edge `choice_edges` materializes runs from `src` to a registered
/// vertex index.
pub proof fn lemma_choice_edges_endpoints(
    m: Map<u64, usize>,
    src: int,
    cs: Seq<DialogueChoice>,
    n: int,
)
    requires
        forall|k: u64| #[trigger] m.contains_key(k) ==> m[k] < n,
    ensures
        forall|j: int|
            0 <= j < choice_edges(m, src, cs).len() ==> {
                &&& (#[trigger] choice_edges(m, src, cs)[j]).0 == src
                &&& 0 <= choice_edges(m, src, cs)[j].1 < n
            },
    decreases cs.len(),
{
    if cs.len() > 0 {
        lemma_choice_edges_endpoints(m, src, cs.drop_last(), n);
        let sub = choice_edges(m, src, cs.drop_last());
        let whole = choice_edges(m, src, cs);
        assert forall|j: int| 0 <= j < whole.len() implies {
            &&& (#[trigger] whole[j]).0 == src
            &&& 0 <= whole[j].1 < n
        } by {
            if j < sub.len() {
                assert(whole[j] == sub[j]);
            }
        }
    }
}

/// Every edge `added_edges` materializes runs from `src` to a registered
/// vertex index.
pub proof fn lemma_added_edges_endpoints(
    m: Map<u64, usize>,
    src: int,
    next: DialogueNext,
    n: int,
)
    requires
        forall|k: u64| #[trigger] m.contains_key(k) ==> m[k] < n,
    ensures
        forall|j: int|
            0 <= j < added_edges(m, src, next).len() ==> {
                &&& (#[trigger] added_edges(m, src, next)[j]).0 == src
                &&& 0 <= added_edges(m, src, next)[j].1 < n
            },
{
    match next {
        DialogueNext::Single(_) => {},
        DialogueNext::Choices(cs) => {
            lemma_choice_edges_endpoints(m, src, cs@, n);
        },
    }
}

/// The target ids a node's relation declares, in declaration order.
pub open spec fn declared_target_ids(next: DialogueNext) -> Seq<u64> {
    match next {
        DialogueNext::Single(opt) => match opt {
            Some(t) => seq![t.0],
            None => Seq::empty(),
        },
        DialogueNext::Choices(cs) => cs@.map_values(|c: DialogueChoice| c.next_node.0),
    }
}

/// The (target vertex, label) pairs a node's relation declares under
/// registration map `m`, in declaration order: an empty label for a single
/// successor, the choice's display text otherwise.
pub open spec fn declared_out_pairs(m: Map<u64, usize>, next: DialogueNext) -> Seq<
    (int, Seq<char>),
> {
    match next {
        DialogueNext::Single(opt) => match opt {
            Some(t) => seq![(m[t.0] as int, Seq::<char>::empty())],
            None => Seq::empty(),
        },
        DialogueNext::Choices(cs) => cs@.map_values(
            |c: DialogueChoice| (m[c.next_node.0] as int, c.text@),
        ),
    }
}

/// Every target id the relation declares is registered in `m`.
pub open spec fn all_targets_registered(m: Map<u64, usize>, next: DialogueNext) -> bool {
    match next {
        DialogueNext::Single(opt) => match opt {
            Some(t) => m.contains_key(t.0),
            None => true,
        },
        DialogueNext::Choices(cs) => forall|i: int|
            0 <= i < cs@.len() ==> m.contains_key((#[trigger] cs@[i]).next_node.0),
    }
}

/// With every choice target registered, nothing is skipped: the
/// materialized edges are exactly the declared ones, in order.
pub proof fn lemma_choice_edges_all_registered(
    m: Map<u64, usize>,
    src: int,
    cs: Seq<DialogueChoice>,
)
    requires
        forall|i: int| 0 <= i < cs.len() ==> m.contains_key((#[trigger] cs[i]).next_node.0),
    ensures
        choice_edges(m, src, cs) == cs.map_values(
            |c: DialogueChoice| (src, m[c.next_node.0] as int, c.text@),
        ),
    decreases cs.len(),
{
    if cs.len() > 0 {
        let sub = cs.drop_last();
        assert forall|i: int| 0 <= i < sub.len() implies m.contains_key(
            (#[trigger] sub[i]).next_node.0,
        ) by {
            assert(sub[i] == cs[i]);
        }
        lemma_choice_edges_all_registered(m, src, sub);
        assert(m.contains_key(cs[cs.len() - 1].next_node.0));
        assert(choice_edges(m, src, cs) =~= cs.map_values(
            |c: DialogueChoice| (src, m[c.next_node.0] as int, c.text@),
        ));
    }
}

/// When the first edges all avoid source `a` and the appended edges all
/// carry it, the outgoing edges of `a` are exactly the appended ones,
/// newest first.
pub proof fn lemma_out_edges_concat(
    eold: Seq<(int, int, Seq<char>)>,
    eadd: Seq<(int, int, Seq<char>)>,
    a: int,
    k: int,
)
    requires
        forall|i: int| 0 <= i < eold.len() ==> (#[trigger] eold[i]).0 != a,
        forall|i: int| 0 <= i < eadd.len() ==> (#[trigger] eadd[i]).0 == a,
        eold.len() <= k <= eold.len() + eadd.len(),
    ensures
        out_edges_upto(eold + eadd, a, k) == eadd.take(k - eold.len()).map_values(
            |e: (int, int, Seq<char>)| (e.1, e.2),
        ).reverse(),
    decreases k,
{
    let whole = eold + eadd;
    if k == eold.len() {
        lemma_out_edges_upto_empty(whole, a, k);
        assert forall|i: int| 0 <= i < k implies (#[trigger] whole[i]).0 != a by {
            assert(whole[i] == eold[i]);
        }
        assert(out_edges_upto(whole, a, k) =~= eadd.take(0).map_values(
            |e: (int, int, Seq<char>)| (e.1, e.2),
        ).reverse());
    } else {
        lemma_out_edges_concat(eold, eadd, a, k - 1);
        let j = k - 1 - eold.len();
        assert(whole[k - 1] == eadd[j]);
        assert(whole[k - 1].0 == a);
        let lhs = out_edges_upto(whole, a, k);
        let rhs = eadd.take(k - eold.len()).map_values(
            |e: (int, int, Seq<char>)| (e.1, e.2),
        ).reverse();
        assert(lhs =~= rhs) by {
            let prev = eadd.take(j).map_values(|e: (int, int, Seq<char>)| (e.1, e.2)).reverse();
            assert(lhs == seq![(eadd[j].1, eadd[j].2)] + prev);
            assert(rhs.len() == j + 1);
            assert forall|x: int| 0 <= x < rhs.len() implies rhs[x] == lhs[x] by {
                assert(rhs[x] == (eadd[j - x].1, eadd[j - x].2));
                if x == 0 {
                    assert(lhs[0] == (eadd[j].1, eadd[j].2));
                } else {
                    assert(lhs[x] == prev[x - 1]);
                    assert(prev[x - 1] == (eadd[j - x].1, eadd[j - x].2));
                }
            }
        }
    }
}

/// The vertex weights of the navigator that inserting the nodes of `ns`,
/// in order, into an empty navigator produces: one vertex per node.
pub open spec fn build_verts(ns: Seq<DialogueNode>) -> Seq<u64>
    decreases ns.len(),
{
    if ns.len() == 0 {
        Seq::empty()
    } else {
        build_verts(ns.drop_last()).push(ns.last().id.0)
    }
}

/// The id-to-vertex map of that navigator: each insertion points the
/// node's id at its new vertex.
pub open spec fn build_map(ns: Seq<DialogueNode>) -> Map<u64, usize>
    decreases ns.len(),
{
    if ns.len() == 0 {
        Map::empty()
    } else {
        build_map(ns.drop_last()).insert(ns.last().id.0, (ns.len() - 1) as usize)
    }
}

/// The edges of that navigator: each insertion appends the edges its
/// relation materializes against the map as it stands right afterwards.
pub open spec fn build_edges(ns: Seq<DialogueNode>) -> Seq<(int, int, Seq<char>)>
    decreases ns.len(),
{
    if ns.len() == 0 {
        Seq::empty()
    } else {
        build_edges(ns.drop_last()) + added_edges(
            build_map(ns),
            ns.len() - 1,
            ns.last().next,
        )
    }
}

/// Every target that `ns[i]`'s relation declares is the id of some node at
/// position `i` or earlier: by insertion time it is registered.
pub open spec fn targets_registered_by(ns: Seq<DialogueNode>, i: int) -> bool {
    forall|t: u64|
        #[trigger] declared_target_ids(ns[i].next).contains(t) ==> exists|j: int|
            0 <= j <= i && (#[trigger] ns[j]).id.0 == t
}

/// The built state is well-formed: one vertex per node, edge endpoints
/// inside the vertex range, and the map consistent with the weights.
pub proof fn lemma_build_wf(ns: Seq<DialogueNode>)
    requires
        ns.len() < 0xffff_ffff,
    ensures
        build_verts(ns).len() == ns.len(),
        forall|i: int|
            0 <= i < build_edges(ns).len() ==> {
                &&& 0 <= (#[trigger] build_edges(ns)[i]).0 < ns.len()
                &&& 0 <= build_edges(ns)[i].1 < ns.len()
            },
        forall|k: u64|
            #[trigger] build_map(ns).contains_key(k) ==> build_map(ns)[k] < ns.len()
                && build_verts(ns)[build_map(ns)[k] as int] == k,
    decreases ns.len(),
{
    if ns.len() > 0 {
        let prefix = ns.drop_last();
        lemma_build_wf(prefix);
        let m = build_map(ns);
        let verts = build_verts(ns);
        let edges = build_edges(ns);
        let added = added_edges(m, ns.len() - 1, ns.last().next);
        assert forall|k: u64| #[trigger] m.contains_key(k) implies m[k] < ns.len()
            && verts[m[k] as int] == k by {
            if k != ns.last().id.0 {
                assert(build_map(prefix).contains_key(k));
                assert(verts[build_map(prefix)[k] as int] == build_verts(prefix)[build_map(
                    prefix,
                )[k] as int]);
            }
        }
        lemma_added_edges_endpoints(m, ns.len() - 1, ns.last().next, ns.len() as int);
        assert forall|i: int| 0 <= i < edges.len() implies {
            &&& 0 <= (#[trigger] edges[i]).0 < ns.len()
            &&& 0 <= edges[i].1 < ns.len()
        } by {
            if i < build_edges(prefix).len() {
                assert(edges[i] == build_edges(prefix)[i]);
                assert(0 <= build_edges(prefix)[i].0 < prefix.len());
            } else {
                assert(edges[i] == added[i - build_edges(prefix).len()]);
            }
        }
    }
}

/// Every inserted node's id is registered in the built map.
pub proof fn lemma_build_map_contains(ns: Seq<DialogueNode>, j: int)
    requires
        0 <= j < ns.len(),
    ensures
        build_map(ns).contains_key(ns[j].id.0),
    decreases ns.len(),
{
    if j < ns.len() - 1 {
        lemma_build_map_contains(ns.drop_last(), j);
        assert(ns.drop_last()[j] == ns[j]);
    }
}

/// With pairwise distinct ids, the built map points each node's id at
/// exactly its own vertex.
pub proof fn lemma_build_map_index(ns: Seq<DialogueNode>, j: int)
    requires
        ns.len() < 0xffff_ffff,
        0 <= j < ns.len(),
        forall|a: int, b: int|
            #![trigger ns[a], ns[b]]
            0 <= a < b < ns.len() ==> ns[a].id.0 != ns[b].id.0,
    ensures
        build_map(ns).contains_key(ns[j].id.0),
        build_map(ns)[ns[j].id.0] == j,
    decreases ns.len(),
{
    if j < ns.len() - 1 {
        let prefix = ns.drop_last();
        assert forall|a: int, b: int|
            #![trigger prefix[a], prefix[b]]
            0 <= a < b < prefix.len() implies prefix[a].id.0 != prefix[b].id.0 by {
            assert(prefix[a] == ns[a] && prefix[b] == ns[b]);
        }
        lemma_build_map_index(prefix, j);
        assert(prefix[j] == ns[j]);
        assert(ns[j].id.0 != ns.last().id.0);
    }
}

/// Appending edges that all avoid source `a` leaves the outgoing edges of
/// `a` unchanged.
pub proof fn lemma_out_edges_concat_absent(
    eold: Seq<(int, int, Seq<char>)>,
    eadd: Seq<(int, int, Seq<char>)>,
    a: int,
    k: int,
)
    requires
        forall|i: int| 0 <= i < eadd.len() ==> (#[trigger] eadd[i]).0 != a,
        eold.len() <= k <= eold.len() + eadd.len(),
    ensures
        out_edges_upto(eold + eadd, a, k) == out_edges_of(eold, a),
    decreases k,
{
    let whole = eold + eadd;
    if k == eold.len() {
        lemma_out_edges_upto_agree(eold, whole, a, k);
    } else {
        lemma_out_edges_concat_absent(eold, eadd, a, k - 1);
        assert(whole[k - 1] == eadd[k - 1 - eold.len()]);
        assert(out_edges_upto(whole, a, k) =~= out_edges_upto(whole, a, k - 1));
    }
}

/// `out_edges_upto` depends only on the first `k` edges.
pub proof fn lemma_out_edges_upto_agree(
    e1: Seq<(int, int, Seq<char>)>,
    e2: Seq<(int, int, Seq<char>)>,
    a: int,
    k: int,
)
    requires
        0 <= k <= e1.len(),
        k <= e2.len(),
        forall|i: int| 0 <= i < k ==> (#[trigger] e1[i]) == e2[i],
    ensures
        out_edges_upto(e1, a, k) == out_edges_upto(e2, a, k),
    decreases k,
{
    if k > 0 {
        lemma_out_edges_upto_agree(e1, e2, a, k - 1);
        assert(e1[k - 1] == e2[k - 1]);
    }
}

/// Reachability extends along an edge.
pub proof fn lemma_reachable_step(edges: Seq<(int, int, Seq<char>)>, s: int, u: int, v: int)
    requires
        reachable(edges, s, u),
        has_edge(edges, u, v),
    ensures
        reachable(edges, s, v),
{
    let p = choose|p: Seq<int>| is_path(edges, p) && p[0] == s && p[p.len() - 1] == u;
    let q = p.push(v);
    assert forall|i: int| 0 <= i < q.len() - 1 implies has_edge(
        edges,
        #[trigger] q[i],
        q[i + 1],
    ) by {
        if i < p.len() - 1 {
            assert(q[i] == p[i] && q[i + 1] == p[i + 1]);
        } else {
            assert(q[i] == u && q[i + 1] == v);
        }
    }
    assert(is_path(edges, q) && q[0] == s && q[q.len() - 1] == v);
}

/// The number of true entries of a boolean sequence.
pub open spec fn count_true(s: Seq<bool>) -> int
    decreases s.len(),
{
    if s.len() == 0 {
        0
    } else {
        count_true(s.drop_last()) + if s.last() {
            1int
        } else {
            0int
        }
    }
}

/// Setting a false entry to true raises the count by one.
pub proof fn lemma_count_true_update(s: Seq<bool>, j: int)
    requires
        0 <= j < s.len(),
        !s[j],
    ensures
        count_true(s.update(j, true)) == count_true(s) + 1,
    decreases s.len(),
{
    let t = s.update(j, true);
    if j == s.len() - 1 {
        assert(t.drop_last() =~= s.drop_last());
    } else {
        assert(t.drop_last() =~= s.drop_last().update(j, true));
        lemma_count_true_update(s.drop_last(), j);
    }
}

/// The count of true entries is between zero and the length.
pub proof fn lemma_count_true_bound(s: Seq<bool>)
    ensures
        0 <= count_true(s) <= s.len(),
    decreases s.len(),
{
    if s.len() > 0 {
        lemma_count_true_bound(s.drop_last());
    }
}

/// If a visited marking covers every edge endpoint and is closed under the
/// edges, then every path that starts at a visited vertex ends at one.
pub proof fn lemma_closed_visited(
    edges: Seq<(int, int, Seq<char>)>,
    vis: Seq<bool>,
    p: Seq<int>,
)
    requires
        forall|i: int|
            0 <= i < edges.len() ==> {
                &&& 0 <= (#[trigger] edges[i]).0 < vis.len()
                &&& 0 <= edges[i].1 < vis.len()
            },
        forall|i: int|
            0 <= i < edges.len() && vis[(#[trigger] edges[i]).0] ==> vis[edges[i].1],
        is_path(edges, p),
        0 <= p[0] < vis.len(),
        vis[p[0]],
    ensures
        0 <= p[p.len() - 1] < vis.len(),
        vis[p[p.len() - 1]],
    decreases p.len(),
{
    if p.len() > 1 {
        assert(has_edge(edges, p[0], p[1]));
        let ei = choose|i: int|
            0 <= i < edges.len() && (#[trigger] edges[i]).0 == p[0] && edges[i].1 == p[1];
        assert(vis[p[1]] && 0 <= p[1] < vis.len());
        let q = p.subrange(1, p.len() as int);
        assert forall|i: int| 0 <= i < q.len() - 1 implies has_edge(
            edges,
            #[trigger] q[i],
            q[i + 1],
        ) by {
            assert(q[i] == p[i + 1] && q[i + 1] == p[i + 2]);
        }
        lemma_closed_visited(edges, vis, q);
        assert(q[q.len() - 1] == p[p.len() - 1]);
    }
}

/// Every edge with source `a` among the first `k` contributes its (target,
/// label) pair to `out_edges_upto`.
pub proof fn lemma_out_edges_upto_covers(
    edges: Seq<(int, int, Seq<char>)>,
    a: int,
    k: int,
    i: int,
)
    requires
        0 <= i < k <= edges.len(),
        edges[i].0 == a,
    ensures
        exists|j: int|
            0 <= j < out_edges_upto(edges, a, k).len() && #[trigger] out_edges_upto(
                edges,
                a,
                k,
            )[j] == (edges[i].1, edges[i].2),
    decreases k,
{
    let whole = out_edges_upto(edges, a, k);
    if i == k - 1 {
        assert(whole[0] == (edges[i].1, edges[i].2));
    } else {
        lemma_out_edges_upto_covers(edges, a, k - 1, i);
        let sub = out_edges_upto(edges, a, k - 1);
        let j = choose|j: int| 0 <= j < sub.len() && #[trigger] sub[j] == (edges[i].1, edges[i].2);
        let head: Seq<(int, Seq<char>)> = if edges[k - 1].0 == a {
            seq![(edges[k - 1].1, edges[k - 1].2)]
        } else {
            Seq::empty()
        };
        assert(whole[head.len() + j] == sub[j]);
    }
}

/// Every element of `out_edges_upto` is the (target, label) of some edge
/// whose source is `a`.
pub proof fn lemma_out_edges_upto_from_edges(
    edges: Seq<(int, int, Seq<char>)>,
    a: int,
    k: int,
    j: int,
)
    requires
        0 <= k <= edges.len(),
        0 <= j < out_edges_upto(edges, a, k).len(),
    ensures
        exists|i: int|
            0 <= i < k && (#[trigger] edges[i]).0 == a && edges[i].1 == out_edges_upto(
                edges,
                a,
                k,
            )[j].0 && edges[i].2 == out_edges_upto(edges, a, k)[j].1,
    decreases k,
{
    if k > 0 {
        let head: Seq<(int, Seq<char>)> = if edges[k - 1].0 == a {
            seq![(edges[k - 1].1, edges[k - 1].2)]
        } else {
            Seq::empty()
        };
        if j < head.len() {
            assert(edges[k - 1].0 == a && edges[k - 1].1 == out_edges_upto(edges, a, k)[j].0
                && edges[k - 1].2 == out_edges_upto(edges, a, k)[j].1);
        } else {
            lemma_out_edges_upto_from_edges(edges, a, k - 1, j - head.len());
        }
    }
}

/// `out_edges_upto` is empty exactly when no edge among the first `k` has
/// source `a`.
pub proof fn lemma_out_edges_upto_empty(edges: Seq<(int, int, Seq<char>)>, a: int, k: int)
    requires
        0 <= k <= edges.len(),
    ensures
        out_edges_upto(edges, a, k).len() == 0 <==> (forall|i: int|
            0 <= i < k ==> (#[trigger] edges[i]).0 != a),
    decreases k,
{
    if k > 0 {
        lemma_out_edges_upto_empty(edges, a, k - 1);
    }
}

} // verus!
