//! Structural laws of the dialogue graph model, proved once and for all:
//! what the validator reports on an empty graph, on a single chain, on a
//! chain with a back-edge, and on a graph with an isolated node, and how a
//! freshly inserted node's materialized edges answer `get_next_nodes`.

use vstd::prelude::*;

use crate::data::{DialogueChoice, DialogueNext, DialogueNode};
use crate::graph::DialogueGraphNavigator;
use crate::model::{
    added_edges, all_targets_registered, build_edges, build_map, build_verts,
    declared_out_pairs, declared_target_ids, has_cycle, has_edge, is_leaf, is_path, leaf_ids_upto,
    lemma_added_edges_endpoints, lemma_build_map_contains, lemma_build_map_index, lemma_build_wf,
    lemma_choice_edges_all_registered, lemma_out_edges_concat, lemma_out_edges_concat_absent,
    lemma_out_edges_upto_from_edges, next_ids, out_edges_of, reachable, targets_registered_by,
    unreachable_ids_upto,
};

verus! {

/// A navigator with no vertices has no edges either, contains no cycle,
/// reports no leaf, and reports no node unreachable, whatever the start
/// id: its `validate` returns no errors.
pub proof fn lemma_empty_graph_validates(nav: DialogueGraphNavigator)
    requires
        nav.wf(),
        nav.verts().len() == 0,
    ensures
        !has_cycle(nav.edges()),
        nav.leaf_result().len() == 0,
        forall|start: u64| nav.unreachable_result(start).len() == 0,
{
    assert(nav.edges().len() == 0) by {
        if nav.edges().len() > 0 {
            let e0 = nav.edges()[0];
            assert(0 <= e0.0 < nav.verts().len());
            assert(false);
        }
    }
    assert(!has_cycle(nav.edges())) by {
        if has_cycle(nav.edges()) {
            let p = choose|p: Seq<int>|
                is_path(nav.edges(), p) && p.len() >= 2 && p[0] == p[p.len() - 1];
            assert(has_edge(nav.edges(), p[0], p[1]));
            assert(false);
        }
    }
    assert forall|start: u64| nav.unreachable_result(start).len() == 0 by {
        if nav.idx_of().contains_key(start) {
            assert(nav.idx_of()[start] < 0);
        }
    }
}

/// The edges form exactly a single unbranching chain over the vertices:
/// one edge from each vertex to the next, and nothing else.
pub open spec fn is_chain(verts: Seq<u64>, edges: Seq<(int, int, Seq<char>)>) -> bool {
    &&& verts.len() >= 1
    &&& edges.len() == verts.len() - 1
    &&& forall|i: int|
        0 <= i < edges.len() ==> (#[trigger] edges[i]).0 == i && edges[i].1 == i + 1
}

/// In a chain, a walk climbs exactly one vertex per step.
proof fn lemma_chain_path_climbs(edges: Seq<(int, int, Seq<char>)>, p: Seq<int>)
    requires
        forall|i: int|
            0 <= i < edges.len() ==> (#[trigger] edges[i]).0 == i && edges[i].1 == i + 1,
        is_path(edges, p),
    ensures
        p[p.len() - 1] == p[0] + p.len() - 1,
    decreases p.len(),
{
    if p.len() > 1 {
        let q = p.drop_last();
        assert forall|i: int| 0 <= i < q.len() - 1 implies has_edge(
            edges,
            #[trigger] q[i],
            q[i + 1],
        ) by {
            assert(q[i] == p[i] && q[i + 1] == p[i + 1]);
        }
        lemma_chain_path_climbs(edges, q);
        assert(has_edge(edges, p[p.len() - 2], p[p.len() - 1]));
        let e = choose|i: int|
            0 <= i < edges.len() && (#[trigger] edges[i]).0 == p[p.len() - 2] && edges[i].1 == p[
                p.len() - 1
            ];
        assert(p[p.len() - 1] == p[p.len() - 2] + 1);
    }
}

/// No vertex before the last of a chain is a leaf, so the leaf report is
/// empty up to there.
proof fn lemma_chain_leaf_prefix(verts: Seq<u64>, edges: Seq<(int, int, Seq<char>)>, k: int)
    requires
        is_chain(verts, edges),
        0 <= k <= verts.len() - 1,
    ensures
        leaf_ids_upto(verts, edges, k).len() == 0,
    decreases k,
{
    if k > 0 {
        lemma_chain_leaf_prefix(verts, edges, k - 1);
        assert(!is_leaf(edges, k - 1)) by {
            assert((edges[k - 1]).0 == k - 1);
        }
    }
}

/// Every chain vertex is reachable from the first.
proof fn lemma_chain_reachable(edges: Seq<(int, int, Seq<char>)>, v: int)
    requires
        forall|i: int|
            0 <= i < edges.len() ==> (#[trigger] edges[i]).0 == i && edges[i].1 == i + 1,
        0 <= v <= edges.len(),
    ensures
        reachable(edges, 0, v),
{
    let p = Seq::new((v + 1) as nat, |i: int| i);
    assert forall|i: int| 0 <= i < p.len() - 1 implies has_edge(
        edges,
        #[trigger] p[i],
        p[i + 1],
    ) by {
        assert((edges[i]).0 == i && (edges[i]).1 == i + 1);
    }
    assert(is_path(edges, p) && p[0] == 0 && p[p.len() - 1] == v);
}

/// In a chain, the unreachable report seeded at the first vertex is empty.
proof fn lemma_chain_unreachable_prefix(
    verts: Seq<u64>,
    edges: Seq<(int, int, Seq<char>)>,
    k: int,
)
    requires
        is_chain(verts, edges),
        0 <= k <= verts.len(),
    ensures
        unreachable_ids_upto(verts, edges, 0, k).len() == 0,
    decreases k,
{
    if k > 0 {
        lemma_chain_unreachable_prefix(verts, edges, k - 1);
        lemma_chain_reachable(edges, k - 1);
    }
}

/// A single chain has no cycle, exactly one leaf — its last vertex — and
/// every vertex reachable from its first: the unreachable report seeded at
/// the first vertex is empty.
pub proof fn lemma_chain_graph_properties(verts: Seq<u64>, edges: Seq<(int, int, Seq<char>)>)
    requires
        is_chain(verts, edges),
    ensures
        !has_cycle(edges),
        leaf_ids_upto(verts, edges, verts.len() as int) == seq![verts[verts.len() - 1]],
        unreachable_ids_upto(verts, edges, 0, verts.len() as int).len() == 0,
{
    let n = verts.len() as int;
    assert(!has_cycle(edges)) by {
        if has_cycle(edges) {
            let p = choose|p: Seq<int>|
                is_path(edges, p) && p.len() >= 2 && p[0] == p[p.len() - 1];
            lemma_chain_path_climbs(edges, p);
            assert(false);
        }
    }
    lemma_chain_leaf_prefix(verts, edges, n - 1);
    assert(is_leaf(edges, n - 1)) by {
        assert forall|i: int| 0 <= i < edges.len() implies (#[trigger] edges[i]).0 != n - 1 by {
            assert(edges[i].0 == i);
        }
    }
    assert(leaf_ids_upto(verts, edges, n) =~= seq![verts[n - 1]]);
    lemma_chain_unreachable_prefix(verts, edges, n);
}

/// A graph that holds a chain from vertex 0 up to vertex n-1 and an
/// explicit back-edge from the last vertex to the first contains a cycle,
/// whatever other edges it holds.
pub proof fn lemma_back_edge_makes_cycle(edges: Seq<(int, int, Seq<char>)>, n: int)
    requires
        n >= 1,
        forall|i: int| 0 <= i < n - 1 ==> #[trigger] has_edge(edges, i, i + 1),
        has_edge(edges, n - 1, 0),
    ensures
        has_cycle(edges),
{
    let p = Seq::new((n + 1) as nat, |i: int| if i < n { i } else { 0 });
    assert forall|i: int| 0 <= i < p.len() - 1 implies has_edge(
        edges,
        #[trigger] p[i],
        p[i + 1],
    ) by {
        if i < n - 1 {
            assert(p[i] == i && p[i + 1] == i + 1);
        } else {
            assert(p[i] == n - 1 && p[i + 1] == 0);
        }
    }
    assert(is_path(edges, p) && p.len() >= 2 && p[0] == p[p.len() - 1]);
}

/// Round trip from the authored relation to the navigator: when a node is
/// inserted while every target its relation declares is already
/// registered, the materialized edges are exactly the declared ones, and
/// the successor query on the node returns exactly the declared target
/// ids, most recently added edge first — the reverse of declaration order.
pub proof fn lemma_insert_round_trip(
    verts: Seq<u64>,
    edges: Seq<(int, int, Seq<char>)>,
    m: Map<u64, usize>,
    node: DialogueNode,
)
    requires
        verts.len() < 0xffff_ffff,
        forall|i: int| 0 <= i < edges.len() ==> 0 <= (#[trigger] edges[i]).0 < verts.len(),
        forall|k: u64|
            #[trigger] m.contains_key(k) ==> m[k] < verts.len() && verts[m[k] as int] == k,
        all_targets_registered(m.insert(node.id.0, verts.len() as usize), node.next),
    ensures
        ({
            let n = verts.len() as int;
            let verts1 = verts.push(node.id.0);
            let m1 = m.insert(node.id.0, verts.len() as usize);
            let edges1 = edges + added_edges(m1, n, node.next);
            &&& next_ids(verts1, edges1, m1, node.id.0) == declared_target_ids(
                node.next,
            ).reverse()
            &&& out_edges_of(edges1, n) == declared_out_pairs(m1, node.next).reverse()
        }),
{
    let n = verts.len() as int;
    let verts1 = verts.push(node.id.0);
    let m1 = m.insert(node.id.0, verts.len() as usize);
    let added = added_edges(m1, n, node.next);
    let edges1 = edges + added;
    assert forall|k: u64| #[trigger] m1.contains_key(k) implies m1[k] < n + 1
        && verts1[m1[k] as int] == k by {
        if k != node.id.0 {
            assert(m.contains_key(k));
            assert(verts1[m[k] as int] == verts[m[k] as int]);
        }
    }
    lemma_added_edges_endpoints(m1, n, node.next, n + 1);
    assert forall|i: int| 0 <= i < added.len() implies (#[trigger] added[i]).0 == n by {}
    lemma_out_edges_concat(edges, added, n, edges1.len() as int);
    assert(added.take(edges1.len() - edges.len()) =~= added);
    let proj = |e: (int, int, Seq<char>)| (e.1, e.2);
    let outs = out_edges_of(edges1, n);
    assert(outs == added.map_values(proj).reverse());
    assert(m1[node.id.0] == verts.len() as usize);
    let lhs = next_ids(verts1, edges1, m1, node.id.0);
    assert(lhs == outs.map_values(|e: (int, Seq<char>)| verts1[e.0]));
    let decl = declared_target_ids(node.next);
    match node.next {
        DialogueNext::Single(opt) => {
            match opt {
                Some(t) => {
                    assert(m1.contains_key(t.0));
                    assert(added == seq![(n, m1[t.0] as int, Seq::<char>::empty())]);
                    assert(outs =~= seq![(m1[t.0] as int, Seq::<char>::empty())]);
                    assert(verts1[m1[t.0] as int] == t.0);
                    assert(lhs =~= seq![t.0]);
                    assert(decl.reverse() =~= seq![t.0]);
                    assert(declared_out_pairs(m1, node.next).reverse() =~= outs);
                },
                None => {
                    assert(added == Seq::<(int, int, Seq<char>)>::empty());
                    assert(lhs =~= Seq::<u64>::empty());
                    assert(decl.reverse() =~= Seq::<u64>::empty());
                    assert(declared_out_pairs(m1, node.next).reverse() =~= outs);
                },
            }
        },
        DialogueNext::Choices(cs) => {
            lemma_choice_edges_all_registered(m1, n, cs@);
            let full = cs@.map_values(
                |c: DialogueChoice| (n, m1[c.next_node.0] as int, c.text@),
            );
            assert(added == full);
            let len = cs@.len() as int;
            assert(added.len() == len);
            assert(lhs.len() == len && decl.reverse().len() == len);
            let dp = declared_out_pairs(m1, node.next);
            assert forall|x: int| 0 <= x < len implies lhs[x] == decl.reverse()[x] && outs[x]
                == dp.reverse()[x] by {
                let c = cs@[len - 1 - x];
                assert(added[len - 1 - x] == (n, m1[c.next_node.0] as int, c.text@));
                assert(outs[x] == added.map_values(proj)[len - 1 - x]);
                assert(outs[x] == (m1[c.next_node.0] as int, c.text@));
                assert(m1.contains_key(c.next_node.0));
                assert(lhs[x] == verts1[m1[c.next_node.0] as int]);
                assert(decl.reverse()[x] == decl[len - 1 - x]);
                assert(decl[len - 1 - x] == c.next_node.0);
                assert(dp.reverse()[x] == dp[len - 1 - x]);
                assert(dp[len - 1 - x] == (m1[c.next_node.0] as int, c.text@));
            }
            assert(lhs =~= decl.reverse());
            assert(outs =~= dp.reverse());
        },
    }
}

/// The round trip at the navigator's interface: after `add_node` of a node
/// whose declared targets were all registered by the end of the insertion,
/// the successor query on that node's id answers with exactly the declared
/// target ids, most recently added edge first. The hypotheses are the
/// postconditions `add_node` establishes.
pub proof fn lemma_add_node_round_trip(
    old_nav: DialogueGraphNavigator,
    new_nav: DialogueGraphNavigator,
    node: DialogueNode,
)
    requires
        old_nav.wf(),
        old_nav.verts().len() < 0xffff_ffff,
        new_nav.verts() == old_nav.verts().push(node.id.0),
        new_nav.idx_of() == old_nav.idx_of().insert(node.id.0, old_nav.verts().len() as usize),
        new_nav.edges() == old_nav.edges() + added_edges(
            new_nav.idx_of(),
            old_nav.verts().len() as int,
            node.next,
        ),
        all_targets_registered(new_nav.idx_of(), node.next),
    ensures
        next_ids(new_nav.verts(), new_nav.edges(), new_nav.idx_of(), node.id.0)
            == declared_target_ids(node.next).reverse(),
        out_edges_of(new_nav.edges(), old_nav.verts().len() as int) == declared_out_pairs(
            new_nav.idx_of(),
            node.next,
        ).reverse(),
{
    lemma_insert_round_trip(old_nav.verts(), old_nav.edges(), old_nav.idx_of(), node);
}

/// Whole-build round trip: a navigator built by one `add_node` per store
/// node — the state the fold of `add_node`'s postconditions from the empty
/// navigator yields — with pairwise distinct ids, in an order where every
/// declared target is registered by the time its referencing node is
/// inserted, answers the successor query of every node with exactly the
/// targets that node's relation declares, most recently added edge first
/// (the reverse of the declaration order), and every node's outgoing edges
/// carry exactly the declared choice texts (empty for a single successor).
pub proof fn lemma_whole_build_round_trip(ns: Seq<DialogueNode>, k: int)
    requires
        ns.len() < 0xffff_ffff,
        forall|a: int, b: int|
            #![trigger ns[a], ns[b]]
            0 <= a < b < ns.len() ==> ns[a].id.0 != ns[b].id.0,
        forall|i: int| 0 <= i < ns.len() ==> #[trigger] targets_registered_by(ns, i),
        0 <= k < ns.len(),
    ensures
        next_ids(build_verts(ns), build_edges(ns), build_map(ns), ns[k].id.0)
            == declared_target_ids(ns[k].next).reverse(),
        out_edges_of(build_edges(ns), k) == declared_out_pairs(
            build_map(ns),
            ns[k].next,
        ).reverse(),
    decreases ns.len(),
{
    let prefix = ns.drop_last();
    let n1 = ns.len() - 1;
    let last = ns.last();
    let m = build_map(ns);
    assert(ns[n1 as int] == last);
    if k == n1 {
        lemma_build_wf(prefix);
        assert(all_targets_registered(m, last.next)) by {
            assert(targets_registered_by(ns, n1 as int));
            match last.next {
                DialogueNext::Single(opt) => {
                    match opt {
                        Some(t) => {
                            assert(declared_target_ids(last.next)[0] == t.0);
                            assert(declared_target_ids(last.next).contains(t.0));
                            let j = choose|j: int|
                                0 <= j <= n1 && (#[trigger] ns[j]).id.0 == t.0;
                            lemma_build_map_contains(ns, j);
                        },
                        None => {},
                    }
                },
                DialogueNext::Choices(cs) => {
                    assert forall|x: int| 0 <= x < cs@.len() implies m.contains_key(
                        (#[trigger] cs@[x]).next_node.0,
                    ) by {
                        assert(declared_target_ids(last.next)[x] == cs@[x].next_node.0);
                        assert(declared_target_ids(last.next).contains(cs@[x].next_node.0));
                        let j = choose|j: int|
                            0 <= j <= n1 && (#[trigger] ns[j]).id.0 == cs@[x].next_node.0;
                        lemma_build_map_contains(ns, j);
                    }
                },
            }
        }
        assert(m == build_map(prefix).insert(last.id.0, build_verts(prefix).len() as usize));
        lemma_insert_round_trip(build_verts(prefix), build_edges(prefix), build_map(prefix), last);
        assert(build_verts(ns) == build_verts(prefix).push(last.id.0));
        assert(build_edges(ns) == build_edges(prefix) + added_edges(m, n1 as int, last.next));
    } else {
        assert forall|a: int, b: int|
            #![trigger prefix[a], prefix[b]]
            0 <= a < b < prefix.len() implies prefix[a].id.0 != prefix[b].id.0 by {
            assert(prefix[a] == ns[a] && prefix[b] == ns[b]);
        }
        assert forall|i: int| 0 <= i < prefix.len() implies #[trigger] targets_registered_by(
            prefix,
            i,
        ) by {
            assert(targets_registered_by(ns, i));
            assert(prefix[i] == ns[i]);
            assert forall|t: u64|
                #[trigger] declared_target_ids(prefix[i].next).contains(t) implies exists|j: int|
                0 <= j <= i && (#[trigger] prefix[j]).id.0 == t by {
                assert(declared_target_ids(ns[i].next).contains(t));
                let j = choose|j: int| 0 <= j <= i && (#[trigger] ns[j]).id.0 == t;
                assert(prefix[j] == ns[j]);
                assert(prefix[j].id.0 == t);
            }
        }
        lemma_whole_build_round_trip(prefix, k);
        lemma_build_wf(prefix);
        lemma_build_wf(ns);
        lemma_build_map_index(ns, k);
        lemma_build_map_index(prefix, k);
        assert(prefix[k] == ns[k]);
        let id = ns[k].id.0;
        assert(m.contains_key(id) && m[id] == k);
        assert(build_map(prefix).contains_key(id) && build_map(prefix)[id] == k);
        let added = added_edges(m, n1 as int, last.next);
        lemma_added_edges_endpoints(m, n1 as int, last.next, ns.len() as int);
        assert forall|i: int| 0 <= i < added.len() implies (#[trigger] added[i]).0 != k by {
            assert(added[i].0 == n1 as int);
        }
        assert(build_edges(ns) == build_edges(prefix) + added);
        lemma_out_edges_concat_absent(
            build_edges(prefix),
            added,
            k,
            build_edges(ns).len() as int,
        );
        let outs = out_edges_of(build_edges(prefix), k);
        assert(out_edges_of(build_edges(ns), k) == outs);
        let lhs = next_ids(build_verts(ns), build_edges(ns), m, id);
        let prev = next_ids(build_verts(prefix), build_edges(prefix), build_map(prefix), id);
        assert(lhs == outs.map_values(|e: (int, Seq<char>)| build_verts(ns)[e.0]));
        assert(prev == outs.map_values(|e: (int, Seq<char>)| build_verts(prefix)[e.0]));
        assert forall|x: int| 0 <= x < outs.len() implies build_verts(ns)[(
        #[trigger] outs[x]).0] == build_verts(prefix)[outs[x].0] by {
            lemma_out_edges_upto_from_edges(
                build_edges(prefix),
                k,
                build_edges(prefix).len() as int,
                x,
            );
            let ei = choose|ei: int|
                0 <= ei < build_edges(prefix).len() && (#[trigger] build_edges(prefix)[ei]).0 == k
                    && build_edges(prefix)[ei].1 == outs[x].0 && build_edges(prefix)[ei].2
                    == outs[x].1;
            assert(0 <= build_edges(prefix)[ei].1 < prefix.len());
            assert(build_verts(ns) == build_verts(prefix).push(last.id.0));
        }
        assert(lhs =~= prev);
        assert(declared_out_pairs(m, ns[k].next) == declared_out_pairs(
            build_map(prefix),
            ns[k].next,
        )) by {
            assert(targets_registered_by(ns, k));
            match ns[k].next {
                DialogueNext::Single(opt) => {
                    match opt {
                        Some(t) => {
                            assert(declared_target_ids(ns[k].next)[0] == t.0);
                            assert(declared_target_ids(ns[k].next).contains(t.0));
                            let j = choose|j: int|
                                0 <= j <= k && (#[trigger] ns[j]).id.0 == t.0;
                            lemma_build_map_index(ns, j);
                            lemma_build_map_index(prefix, j);
                            assert(prefix[j] == ns[j]);
                            assert(m[t.0] == j && build_map(prefix)[t.0] == j);
                            assert(declared_out_pairs(m, ns[k].next) =~= declared_out_pairs(
                                build_map(prefix),
                                ns[k].next,
                            ));
                        },
                        None => {},
                    }
                },
                DialogueNext::Choices(cs) => {
                    assert forall|x: int| 0 <= x < cs@.len() implies m[(
                    #[trigger] cs@[x]).next_node.0] == build_map(prefix)[cs@[x].next_node.0] by {
                        assert(declared_target_ids(ns[k].next)[x] == cs@[x].next_node.0);
                        assert(declared_target_ids(ns[k].next).contains(cs@[x].next_node.0));
                        let j = choose|j: int|
                            0 <= j <= k && (#[trigger] ns[j]).id.0 == cs@[x].next_node.0;
                        lemma_build_map_index(ns, j);
                        lemma_build_map_index(prefix, j);
                        assert(prefix[j] == ns[j]);
                    }
                    assert(declared_out_pairs(m, ns[k].next) =~= declared_out_pairs(
                        build_map(prefix),
                        ns[k].next,
                    ));
                },
            }
        }
    }
}

/// An unreachable vertex's id stands in the unreachable report.
proof fn lemma_unreachable_ids_upto_contains(
    verts: Seq<u64>,
    edges: Seq<(int, int, Seq<char>)>,
    s: int,
    k: int,
    v: int,
)
    requires
        0 <= v < k <= verts.len(),
        !reachable(edges, s, v),
    ensures
        unreachable_ids_upto(verts, edges, s, k).contains(verts[v]),
    decreases k,
{
    let whole = unreachable_ids_upto(verts, edges, s, k);
    let sub = unreachable_ids_upto(verts, edges, s, k - 1);
    if v == k - 1 {
        assert(whole[sub.len() as int] == verts[v]);
    } else {
        lemma_unreachable_ids_upto_contains(verts, edges, s, k - 1, v);
        let j = choose|j: int| 0 <= j < sub.len() && sub[j] == verts[v];
        assert(whole[j] == verts[v]);
    }
}

/// With the start registered and a vertex that no edge enters and that is
/// not the start itself, `find_unreachable_nodes` reports that vertex's id.
pub proof fn lemma_isolated_node_reported(nav: DialogueGraphNavigator, start: u64, v: int)
    requires
        nav.wf(),
        nav.idx_of().contains_key(start),
        0 <= v < nav.verts().len(),
        v != nav.idx_of()[start],
        forall|i: int| 0 <= i < nav.edges().len() ==> (#[trigger] nav.edges()[i]).1 != v,
    ensures
        nav.unreachable_result(start).contains(nav.verts()[v]),
{
    lemma_isolated_vertex_unreachable(nav.edges(), nav.idx_of()[start] as int, v);
    lemma_unreachable_ids_upto_contains(
        nav.verts(),
        nav.edges(),
        nav.idx_of()[start] as int,
        nav.verts().len() as int,
        v,
    );
}

/// A vertex with no incoming edge at all cannot be reached from any other
/// vertex: with such an isolated vertex in the graph, a reachability check
/// seeded anywhere else must report it.
pub proof fn lemma_isolated_vertex_unreachable(edges: Seq<(int, int, Seq<char>)>, s: int, v: int)
    requires
        v != s,
        forall|i: int| 0 <= i < edges.len() ==> (#[trigger] edges[i]).1 != v,
    ensures
        !reachable(edges, s, v),
{
    if reachable(edges, s, v) {
        let p = choose|p: Seq<int>| is_path(edges, p) && p[0] == s && p[p.len() - 1] == v;
        if p.len() == 1 {
            assert(s == v);
        } else {
            assert(has_edge(edges, p[p.len() - 2], p[p.len() - 1]));
            let i = choose|i: int|
                0 <= i < edges.len() && (#[trigger] edges[i]).0 == p[p.len() - 2] && edges[i].1
                    == p[p.len() - 1];
            assert(edges[i].1 == v);
        }
        assert(false);
    }
}

} // verus!
