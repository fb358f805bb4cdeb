//! The graph navigator: a derived, traversal-ready directed graph built
//! from the authored dialogue nodes, and the structural validation queries
//! over it (cycles, unreachable nodes, dead ends).

use vstd::prelude::*;

use crate::data::{DialogueChoice, DialogueNext, DialogueNode, NodeId};
use crate::model::{
    added_edges, choice_edges, count_true, has_cycle, has_edge, is_leaf, is_path, leaf_ids_upto,
    lemma_added_edges_endpoints, lemma_choice_edges_len, lemma_closed_visited,
    lemma_count_true_bound, lemma_count_true_update, lemma_map_values_push,
    lemma_out_edges_upto_covers, lemma_out_edges_upto_empty, lemma_out_edges_upto_from_edges,
    lemma_reachable_step, next_ids, next_target_count, out_edges_of, reachable, stack_has,
    unreachable_ids_upto,
};
use crate::pgraph::{
    graph_add_edge, graph_add_node, graph_edges, graph_is_cyclic, graph_new, graph_node_count,
    graph_node_weight, graph_out_edges, graph_verts,
};

verus! {

broadcast use vstd::std_specs::hash::group_hash_axioms;

/// Information about a choice edge in the graph.
#[derive(Debug, Clone)]
pub struct ChoiceInfo {
    /// The display text of the choice the edge stands for; empty for a
    /// single-successor transition.
    pub choice_text: String,
}

/// Derived representation of the dialogue graph: vertices carry `NodeId`
/// values, edges carry the choice text of the transition, and a map takes
/// each registered `NodeId` value to its vertex index.
#[derive(Debug)]
pub struct DialogueGraphNavigator {
    /// The directed graph.
    graph: petgraph::graph::DiGraph<u64, ChoiceInfo>,
    /// Mapping from `NodeId` value to vertex index.
    node_map: std::collections::HashMap<u64, usize>,
}

impl DialogueGraphNavigator {
    /// The vertex weights (`NodeId` values), in vertex-index order.
    pub closed spec fn verts(self) -> Seq<u64> {
        graph_verts(self.graph)
    }

    /// The edges as (source index, target index, label) triples, in order
    /// of addition.
    pub closed spec fn edges(self) -> Seq<(int, int, Seq<char>)> {
        graph_edges(self.graph)
    }

    /// The registered `NodeId` values and their vertex indices.
    pub closed spec fn idx_of(self) -> Map<u64, usize> {
        self.node_map@
    }

    /// Well-formedness: every edge endpoint is a vertex; the map points
    /// each registered id at a vertex that carries it; and every vertex's
    /// weight is a registered id.
    pub open spec fn wf(self) -> bool {
        &&& forall|i: int|
            0 <= i < self.edges().len() ==> {
                &&& 0 <= (#[trigger] self.edges()[i]).0 < self.verts().len()
                &&& 0 <= self.edges()[i].1 < self.verts().len()
            }
        &&& forall|k: u64|
            #[trigger] self.idx_of().contains_key(k) ==> {
                &&& self.idx_of()[k] < self.verts().len()
                &&& self.verts()[self.idx_of()[k] as int] == k
            }
        &&& forall|i: int|
            0 <= i < self.verts().len() ==> self.idx_of().contains_key(
                #[trigger] self.verts()[i],
            )
    }

    /// Constructs an empty navigator.
    pub fn new() -> (nav: DialogueGraphNavigator)
        ensures
            nav.wf(),
            nav.verts() == Seq::<u64>::empty(),
            nav.edges() == Seq::<(int, int, Seq<char>)>::empty(),
            nav.idx_of() == Map::<u64, usize>::empty(),
    {
        DialogueGraphNavigator {
            graph: graph_new(),
            node_map: std::collections::HashMap::new(),
        }
    }

    /// Add a node to the graph: register a vertex carrying the node's id,
    /// then immediately materialize the outgoing edges its relation
    /// declares, using only the targets already registered at this moment —
    /// an edge to a target inserted later is silently skipped and never
    /// retried. Returns the new vertex's index.
    pub fn add_node(&mut self, node: &DialogueNode) -> (idx: usize)
        requires
            old(self).wf(),
            old(self).verts().len() < 0xffff_ffff,
            old(self).edges().len() + next_target_count(node.next) < 0xffff_ffff,
        ensures
            final(self).wf(),
            idx == old(self).verts().len(),
            final(self).verts() == old(self).verts().push(node.id.0),
            final(self).idx_of() == old(self).idx_of().insert(
                node.id.0,
                old(self).verts().len() as usize,
            ),
            final(self).edges() == old(self).edges() + added_edges(
                final(self).idx_of(),
                old(self).verts().len() as int,
                node.next,
            ),
    {
        let ghost verts0 = self.verts();
        let ghost edges0 = self.edges();
        let idx = graph_add_node(&mut self.graph, node.id.0);
        self.node_map.insert(node.id.0, idx);
        let ghost m = self.node_map@;
        let ghost verts1 = self.verts();
        proof {
            assert forall|k: u64| #[trigger] m.contains_key(k) implies m[k] < verts1.len()
                && verts1[m[k] as int] == k by {
                if k != node.id.0 {
                    assert(old(self).idx_of().contains_key(k));
                    assert(verts1[m[k] as int] == verts0[m[k] as int]);
                }
            }
            assert forall|i: int| 0 <= i < verts1.len() implies m.contains_key(
                #[trigger] verts1[i],
            ) by {
                if i < verts0.len() {
                    assert(verts1[i] == verts0[i]);
                    assert(old(self).idx_of().contains_key(verts0[i]));
                }
            }
        }
        match &node.next {
            DialogueNext::Single(opt) => {
                match opt {
                    Some(t) => {
                        if let Some(ti) = self.node_map.get(&t.0) {
                            proof {
                                assert(m.contains_key(t.0) && m[t.0] == *ti);
                            }
                            graph_add_edge(
                                &mut self.graph,
                                idx,
                                *ti,
                                ChoiceInfo { choice_text: String::new() },
                            );
                            proof {
                                assert(self.edges() =~= edges0 + added_edges(
                                    m,
                                    idx as int,
                                    node.next,
                                ));
                            }
                        } else {
                            proof {
                                assert(!m.contains_key(t.0));
                                assert(self.edges() =~= edges0 + added_edges(
                                    m,
                                    idx as int,
                                    node.next,
                                ));
                            }
                        }
                    },
                    None => {
                        proof {
                            assert(self.edges() =~= edges0 + added_edges(
                                m,
                                idx as int,
                                node.next,
                            ));
                        }
                    },
                }
            },
            DialogueNext::Choices(cs) => {
                let n_choices = cs.len();
                for i in 0..n_choices
                    invariant
                        n_choices == cs@.len(),
                        self.node_map@ == m,
                        self.verts() == verts1,
                        verts1.len() <= 0xffff_ffff,
                        idx < verts1.len(),
                        forall|k: u64|
                            #[trigger] m.contains_key(k) ==> m[k] < verts1.len(),
                        self.edges() == edges0 + choice_edges(m, idx as int, cs@.take(i as int)),
                        edges0.len() + n_choices < 0xffff_ffff,
                {
                    proof {
                        lemma_choice_edges_len(m, idx as int, cs@.take(i as int));
                    }
                    let c = &cs[i];
                    if let Some(ti) = self.node_map.get(&c.next_node.0) {
                        proof {
                            assert(m.contains_key(c.next_node.0) && m[c.next_node.0] == *ti);
                        }
                        graph_add_edge(
                            &mut self.graph,
                            idx,
                            *ti,
                            ChoiceInfo { choice_text: c.text.clone() },
                        );
                    }
                    proof {
                        assert(cs@.take(i + 1).drop_last() =~= cs@.take(i as int));
                        assert(cs@.take(i + 1).last() == cs@[i as int]);
                        assert(self.edges() =~= edges0 + choice_edges(
                            m,
                            idx as int,
                            cs@.take(i + 1),
                        ));
                    }
                }
                proof {
                    assert(cs@.take(n_choices as int) =~= cs@);
                }
            },
        }
        proof {
            lemma_added_edges_endpoints(m, idx as int, node.next, verts1.len() as int);
            let added = added_edges(m, idx as int, node.next);
            assert forall|i: int| 0 <= i < self.edges().len() implies {
                &&& 0 <= (#[trigger] self.edges()[i]).0 < verts1.len()
                &&& 0 <= self.edges()[i].1 < verts1.len()
            } by {
                if i < edges0.len() {
                    assert(self.edges()[i] == edges0[i]);
                    assert(0 <= edges0[i].0 < verts0.len());
                } else {
                    assert(self.edges()[i] == added[i - edges0.len()]);
                }
            }
        }
        idx
    }

    /// The nodes reachable via one outgoing edge from `node_id`, in the
    /// order the edge iteration yields them (most recently added edge
    /// first). Empty when `node_id` is unknown or has no edges; the two
    /// cases are not distinguished.
    pub fn get_next_nodes(&self, node_id: NodeId) -> (r: Vec<NodeId>)
        requires
            self.wf(),
        ensures
            r@.map_values(|n: NodeId| n.0) == next_ids(
                self.verts(),
                self.edges(),
                self.idx_of(),
                node_id.0,
            ),
    {
        let mut result: Vec<NodeId> = Vec::new();
        if let Some(idx) = self.node_map.get(&node_id.0) {
            proof {
                assert(self.idx_of().contains_key(node_id.0) && self.idx_of()[node_id.0] == *idx);
            }
            let outs = graph_out_edges(&self.graph, *idx);
            let ghost model_outs = out_edges_of(self.edges(), *idx as int);
            let n_outs = outs.len();
            proof {
                assert(model_outs.len() == outs@.len()) by {
                    assert(outs@.map_values(|p: (usize, String)| (p.0 as int, p.1@)).len()
                        == outs@.len());
                }
            }
            for i in 0..n_outs
                invariant
                    n_outs == outs@.len(),
                    model_outs == out_edges_of(self.edges(), self.idx_of()[node_id.0] as int),
                    outs@.map_values(|p: (usize, String)| (p.0 as int, p.1@)) == model_outs,
                    model_outs.len() == outs@.len(),
                    self.wf(),
                    result@.map_values(|n: NodeId| n.0) == model_outs.take(i as int).map_values(
                        |e: (int, Seq<char>)| self.verts()[e.0],
                    ),
            {
                let t = outs[i].0;
                proof {
                    assert(model_outs[i as int] == outs@.map_values(
                        |p: (usize, String)| (p.0 as int, p.1@),
                    )[i as int]);
                    assert(model_outs[i as int].0 == t as int);
                    lemma_out_edges_upto_from_edges(
                        self.edges(),
                        self.idx_of()[node_id.0] as int,
                        self.edges().len() as int,
                        i as int,
                    );
                }
                let w = graph_node_weight(&self.graph, t);
                let ghost result0 = result@;
                result.push(NodeId(w));
                proof {
                    let lhs = result@.map_values(|n: NodeId| n.0);
                    let rhs = model_outs.take(i + 1).map_values(
                        |e: (int, Seq<char>)| self.verts()[e.0],
                    );
                    assert(result0.map_values(|n: NodeId| n.0).len() == result0.len());
                    assert(result0.len() == i as int);
                    assert(result@ == result0.push(NodeId(w)));
                    assert forall|j: int| 0 <= j < i + 1 implies lhs[j] == rhs[j] by {
                        assert(model_outs.take(i + 1)[j] == model_outs[j]);
                        if j < i {
                            assert(result@[j] == result0[j]);
                            assert(result0.map_values(|n: NodeId| n.0)[j] == model_outs.take(
                                i as int,
                            ).map_values(|e: (int, Seq<char>)| self.verts()[e.0])[j]);
                            assert(model_outs.take(i as int)[j] == model_outs[j]);
                        }
                    }
                    assert(lhs =~= rhs);
                }
            }
            proof {
                assert(model_outs.take(n_outs as int) =~= model_outs);
            }
        }
        result
    }

    /// Find every node with no outgoing edge, in vertex-index order.
    pub fn find_leaf_nodes(&self) -> (r: Vec<NodeId>)
        requires
            self.wf(),
        ensures
            r@.map_values(|n: NodeId| n.0) == leaf_ids_upto(
                self.verts(),
                self.edges(),
                self.verts().len() as int,
            ),
    {
        let mut result: Vec<NodeId> = Vec::new();
        let n = graph_node_count(&self.graph);
        for i in 0..n
            invariant
                n == self.verts().len(),
                self.wf(),
                result@.map_values(|x: NodeId| x.0) == leaf_ids_upto(
                    self.verts(),
                    self.edges(),
                    i as int,
                ),
        {
            let outs = graph_out_edges(&self.graph, i);
            proof {
                lemma_out_edges_upto_empty(self.edges(), i as int, self.edges().len() as int);
                assert(outs@.len() == out_edges_of(self.edges(), i as int).len()) by {
                    assert(outs@.map_values(|p: (usize, String)| (p.0 as int, p.1@)).len()
                        == outs@.len());
                }
            }
            if outs.len() == 0 {
                let w = graph_node_weight(&self.graph, i);
                result.push(NodeId(w));
                proof {
                    assert(is_leaf(self.edges(), i as int));
                    assert(result@.map_values(|x: NodeId| x.0) =~= leaf_ids_upto(
                        self.verts(),
                        self.edges(),
                        i + 1,
                    ));
                }
            } else {
                proof {
                    assert(!is_leaf(self.edges(), i as int)) by {
                        assert(out_edges_of(self.edges(), i as int).len() > 0);
                    }
                    assert(result@.map_values(|x: NodeId| x.0) =~= leaf_ids_upto(
                        self.verts(),
                        self.edges(),
                        i + 1,
                    ));
                }
            }
        }
        result
    }

    /// Find every node that no path from `start_node` reaches, in
    /// vertex-index order, by a forward traversal seeded at the start
    /// vertex: the complement of the visited set. When `start_node` has no
    /// registered vertex the result is empty.
    pub fn find_unreachable_nodes(&self, start_node: NodeId) -> (r: Vec<NodeId>)
        requires
            self.wf(),
        ensures
            self.idx_of().contains_key(start_node.0) ==> r@.map_values(|x: NodeId| x.0)
                == unreachable_ids_upto(
                self.verts(),
                self.edges(),
                self.idx_of()[start_node.0] as int,
                self.verts().len() as int,
            ),
            !self.idx_of().contains_key(start_node.0) ==> r@ == Seq::<NodeId>::empty(),
    {
        let mut result: Vec<NodeId> = Vec::new();
        let start_idx: usize = match self.node_map.get(&start_node.0) {
            Some(s_ref) => *s_ref,
            None => {
                return result;
            },
        };
        proof {
            assert(self.idx_of().contains_key(start_node.0) && self.idx_of()[start_node.0]
                == start_idx);
        }
        let ghost s = start_idx as int;
        let ghost edges = self.edges();
        let n = graph_node_count(&self.graph);
        let mut visited: Vec<bool> = Vec::new();
        for i in 0..n
            invariant
                visited@.len() == i as int,
                forall|j: int| 0 <= j < i ==> !(#[trigger] visited@[j]),
        {
            visited.push(false);
        }
        visited[start_idx] = true;
        let mut stack: Vec<usize> = Vec::new();
        stack.push(start_idx);
        proof {
            assert(visited@[s] && stack@[0] == start_idx);
            assert(reachable(edges, s, s)) by {
                let p: Seq<int> = seq![s];
                assert(is_path(edges, p) && p[0] == s && p[p.len() - 1] == s);
            }
            assert forall|v: int| 0 <= v < n && visited@[v] implies reachable(edges, s, v) by {
                assert(v == s);
            }
        }
        while stack.len() > 0
            invariant
                self.wf(),
                n == self.verts().len(),
                edges == self.edges(),
                visited@.len() == n as int,
                0 <= s < n,
                visited@[s],
                forall|k: int|
                    0 <= k < stack@.len() ==> (#[trigger] stack@[k]) < n
                        && visited@[stack@[k] as int],
                forall|v: int| 0 <= v < n && visited@[v] ==> reachable(edges, s, v),
                forall|ei: int|
                    0 <= ei < edges.len() && visited@[(#[trigger] edges[ei]).0] && !stack_has(
                        stack@,
                        edges[ei].0,
                    ) ==> visited@[edges[ei].1],
            decreases n - count_true(visited@), stack@.len(),
        {
            proof {
                lemma_count_true_bound(visited@);
            }
            let ghost c0 = count_true(visited@);
            let ghost l0 = stack@.len();
            let ghost stack_pre = stack@;
            let u: usize = match stack.pop() {
                Some(x) => x,
                None => {
                    proof {
                        assert(false);
                    }
                    0
                },
            };
            proof {
                assert(stack_pre[stack_pre.len() - 1] == u);
                assert forall|ei: int|
                    0 <= ei < edges.len() && (#[trigger] edges[ei]).0 != u as int
                        && visited@[edges[ei].0] && !stack_has(stack@, edges[ei].0) implies
                    visited@[edges[ei].1] by {
                    assert(!stack_has(stack_pre, edges[ei].0)) by {
                        assert forall|k: int| 0 <= k < stack_pre.len() implies (
                        #[trigger] stack_pre[k]) as int != edges[ei].0 by {
                            if k < stack@.len() {
                                assert(stack@[k] == stack_pre[k]);
                            }
                        }
                    }
                }
            }
            let outs = graph_out_edges(&self.graph, u);
            let ghost model_outs = out_edges_of(edges, u as int);
            proof {
                assert(model_outs.len() == outs@.len()) by {
                    assert(outs@.map_values(|p: (usize, String)| (p.0 as int, p.1@)).len()
                        == outs@.len());
                }
            }
            let n_outs = outs.len();
            for j in 0..n_outs
                invariant
                    self.wf(),
                    n == self.verts().len(),
                    edges == self.edges(),
                    visited@.len() == n as int,
                    0 <= s < n,
                    visited@[s],
                    u < n,
                    visited@[u as int],
                    n_outs == outs@.len(),
                    outs@.map_values(|p: (usize, String)| (p.0 as int, p.1@)) == model_outs,
                    model_outs == out_edges_of(edges, u as int),
                    model_outs.len() == outs@.len(),
                    forall|k: int|
                        0 <= k < stack@.len() ==> (#[trigger] stack@[k]) < n
                            && visited@[stack@[k] as int],
                    forall|v: int| 0 <= v < n && visited@[v] ==> reachable(edges, s, v),
                    forall|ei: int|
                        0 <= ei < edges.len() && (#[trigger] edges[ei]).0 != u as int
                            && visited@[edges[ei].0] && !stack_has(stack@, edges[ei].0)
                            ==> visited@[edges[ei].1],
                    forall|k: int|
                        0 <= k < j ==> 0 <= (#[trigger] model_outs[k]).0 < n
                            && visited@[model_outs[k].0],
                    count_true(visited@) >= c0,
                    stack@.len() - (l0 - 1) == count_true(visited@) - c0,
            {
                let ghost visited0 = visited@;
                let ghost stack_before = stack@;
                proof {
                    assert(model_outs[j as int] == outs@.map_values(
                        |p: (usize, String)| (p.0 as int, p.1@),
                    )[j as int]);
                    lemma_out_edges_upto_from_edges(edges, u as int, edges.len() as int, j as int);
                }
                let t = outs[j].0;
                proof {
                    assert(has_edge(edges, u as int, t as int)) by {
                        let ei = choose|ei: int|
                            0 <= ei < edges.len() && (#[trigger] edges[ei]).0 == u as int
                                && edges[ei].1 == model_outs[j as int].0 && edges[ei].2
                                == model_outs[j as int].1;
                        assert(edges[ei].0 == u as int && edges[ei].1 == t as int);
                    }
                    assert(t < n);
                }
                if !visited[t] {
                    proof {
                        lemma_count_true_update(visited@, t as int);
                    }
                    visited[t] = true;
                    stack.push(t);
                    proof {
                        lemma_reachable_step(edges, s, u as int, t as int);
                        assert forall|v: int| 0 <= v < n && visited@[v] implies reachable(
                            edges,
                            s,
                            v,
                        ) by {
                            if v != t as int {
                                assert(visited0[v]);
                            }
                        }
                        assert forall|ei: int|
                            0 <= ei < edges.len() && (#[trigger] edges[ei]).0 != u as int
                                && visited@[edges[ei].0] && !stack_has(stack@, edges[ei].0)
                                implies visited@[edges[ei].1] by {
                            if edges[ei].0 == t as int {
                                assert(stack@[stack@.len() - 1] == t);
                                assert(stack_has(stack@, t as int));
                            } else {
                                assert(visited0[edges[ei].0]);
                                assert(!stack_has(stack_before, edges[ei].0)) by {
                                    assert forall|k: int|
                                        0 <= k < stack_before.len() implies (
                                        #[trigger] stack_before[k]) as int != edges[ei].0 by {
                                        assert(stack@[k] == stack_before[k]);
                                    }
                                }
                                assert(visited0[edges[ei].1]);
                            }
                        }
                        assert forall|k: int| 0 <= k < j + 1 implies 0 <= (
                        #[trigger] model_outs[k]).0 < n && visited@[model_outs[k].0] by {
                            if k < j {
                                assert(visited0[model_outs[k].0]);
                            } else {
                                assert(model_outs[k].0 == t as int);
                            }
                        }
                    }
                } else {
                    proof {
                        assert forall|k: int| 0 <= k < j + 1 implies 0 <= (
                        #[trigger] model_outs[k]).0 < n && visited@[model_outs[k].0] by {
                            if k == j {
                                assert(model_outs[k].0 == t as int);
                                assert(visited@[t as int]);
                            }
                        }
                    }
                }
            }
            proof {
                assert forall|ei: int|
                    0 <= ei < edges.len() && visited@[(#[trigger] edges[ei]).0] && !stack_has(
                        stack@,
                        edges[ei].0,
                    ) implies visited@[edges[ei].1] by {
                    if edges[ei].0 == u as int {
                        lemma_out_edges_upto_covers(edges, u as int, edges.len() as int, ei);
                        let j = choose|j: int|
                            0 <= j < model_outs.len() && #[trigger] model_outs[j] == (
                            edges[ei].1,
                            edges[ei].2,
                            );
                        assert(visited@[model_outs[j].0]);
                    }
                }
                lemma_count_true_bound(visited@);
            }
        }
        proof {
            assert forall|v: int| 0 <= v < n implies (visited@[v] <==> reachable(edges, s, v)) by {
                if reachable(edges, s, v) {
                    let p = choose|p: Seq<int>|
                        is_path(edges, p) && p[0] == s && p[p.len() - 1] == v;
                    assert forall|ei: int|
                        0 <= ei < edges.len() && visited@[(#[trigger] edges[ei]).0] implies
                        visited@[edges[ei].1] by {
                        assert(!stack_has(stack@, edges[ei].0));
                    }
                    lemma_closed_visited(edges, visited@, p);
                }
            }
        }
        for i in 0..n
            invariant
                self.wf(),
                n == self.verts().len(),
                edges == self.edges(),
                visited@.len() == n as int,
                0 <= s < n,
                forall|v: int| 0 <= v < n ==> ((#[trigger] visited@[v]) <==> reachable(edges, s, v)),
                result@.map_values(|x: NodeId| x.0) == unreachable_ids_upto(
                    self.verts(),
                    edges,
                    s,
                    i as int,
                ),
        {
            if !visited[i] {
                let w = graph_node_weight(&self.graph, i);
                let ghost result0 = result@;
                result.push(NodeId(w));
                proof {
                    lemma_map_values_push(result0, NodeId(w));
                    assert(!reachable(edges, s, i as int));
                    assert(result@.map_values(|x: NodeId| x.0) =~= unreachable_ids_upto(
                        self.verts(),
                        edges,
                        s,
                        i + 1,
                    ));
                }
            } else {
                proof {
                    assert(reachable(edges, s, i as int));
                    assert(result@.map_values(|x: NodeId| x.0) =~= unreachable_ids_upto(
                        self.verts(),
                        edges,
                        s,
                        i + 1,
                    ));
                }
            }
        }
        result
    }

    /// Check whether the graph contains any directed cycle.
    pub fn has_cycles(&self) -> (r: bool)
        ensures
            r == has_cycle(self.edges()),
    {
        graph_is_cyclic(&self.graph)
    }
}

/// A structural defect found by `validate`. A validation run can report
/// several at once; they are not mutually exclusive.
#[derive(Debug, Clone, PartialEq, Eq)]
pub enum ValidationError {
    /// The dialogue graph contains a cycle.
    ContainsCycles,
    /// Nodes that no path from the start node reaches.
    UnreachableNodes(Vec<NodeId>),
    /// Leaf nodes that may be unintentional dead ends.
    UnfinishedPaths(Vec<NodeId>),
}

/// The mathematical shape of a `ValidationError`: the same three cases over
/// plain id sequences.
pub ghost enum ValidationFinding {
    Cycles,
    Unreachable(Seq<u64>),
    Unfinished(Seq<u64>),
}

impl View for ValidationError {
    type V = ValidationFinding;

    open spec fn view(&self) -> ValidationFinding {
        match self {
            ValidationError::ContainsCycles => ValidationFinding::Cycles,
            ValidationError::UnreachableNodes(v) => ValidationFinding::Unreachable(
                v@.map_values(|n: NodeId| n.0),
            ),
            ValidationError::UnfinishedPaths(v) => ValidationFinding::Unfinished(
                v@.map_values(|n: NodeId| n.0),
            ),
        }
    }
}

/// The exact error list a validation run reports: a cycle finding if the
/// graph has a cycle, then the unreachable nodes if there are any, then the
/// leaf nodes if there are any.
pub open spec fn expected_findings(cyc: bool, unr: Seq<u64>, lf: Seq<u64>) -> Seq<
    ValidationFinding,
> {
    (if cyc {
        seq![ValidationFinding::Cycles]
    } else {
        Seq::empty()
    }) + (if unr.len() > 0 {
        seq![ValidationFinding::Unreachable(unr)]
    } else {
        Seq::empty()
    }) + (if lf.len() > 0 {
        seq![ValidationFinding::Unfinished(lf)]
    } else {
        Seq::empty()
    })
}

impl DialogueGraphNavigator {
    /// The ids `find_unreachable_nodes(start)` reports.
    pub open spec fn unreachable_result(self, start: u64) -> Seq<u64> {
        if self.idx_of().contains_key(start) {
            unreachable_ids_upto(
                self.verts(),
                self.edges(),
                self.idx_of()[start] as int,
                self.verts().len() as int,
            )
        } else {
            Seq::empty()
        }
    }

    /// The ids `find_leaf_nodes` reports.
    pub open spec fn leaf_result(self) -> Seq<u64> {
        leaf_ids_upto(self.verts(), self.edges(), self.verts().len() as int)
    }

    /// Run all three structural checks and aggregate every non-empty
    /// result. All checks always run; nothing is mutated or repaired.
    /// Success is exactly the absence of all three defects.
    pub fn validate(&self, start_node: NodeId) -> (r: Result<(), Vec<ValidationError>>)
        requires
            self.wf(),
        ensures
            match r {
                Ok(()) => {
                    &&& !has_cycle(self.edges())
                    &&& self.unreachable_result(start_node.0).len() == 0
                    &&& self.leaf_result().len() == 0
                },
                Err(es) => {
                    &&& es@.map_values(|e: ValidationError| e@) == expected_findings(
                        has_cycle(self.edges()),
                        self.unreachable_result(start_node.0),
                        self.leaf_result(),
                    )
                    &&& es@.len() > 0
                },
            },
    {
        let ghost cyc = has_cycle(self.edges());
        let ghost unr_ids = self.unreachable_result(start_node.0);
        let ghost lf_ids = self.leaf_result();
        let mut errors: Vec<ValidationError> = Vec::new();

        if self.has_cycles() {
            errors.push(ValidationError::ContainsCycles);
        }
        proof {
            assert(errors@.map_values(|e: ValidationError| e@) =~= (if cyc {
                seq![ValidationFinding::Cycles]
            } else {
                Seq::<ValidationFinding>::empty()
            }));
        }

        let unreachable = self.find_unreachable_nodes(start_node);
        proof {
            assert(unreachable@.map_values(|n: NodeId| n.0) == unr_ids);
        }
        let ghost errors1 = errors@;
        if unreachable.len() > 0 {
            proof {
                assert(unr_ids.len() == unreachable@.len()) by {
                    assert(unreachable@.map_values(|n: NodeId| n.0).len() == unreachable@.len());
                }
            }
            errors.push(ValidationError::UnreachableNodes(unreachable));
        } else {
            proof {
                assert(unr_ids.len() == unreachable@.len()) by {
                    assert(unreachable@.map_values(|n: NodeId| n.0).len() == unreachable@.len());
                }
            }
        }
        proof {
            assert(errors@.map_values(|e: ValidationError| e@) =~= (if cyc {
                seq![ValidationFinding::Cycles]
            } else {
                Seq::<ValidationFinding>::empty()
            }) + (if unr_ids.len() > 0 {
                seq![ValidationFinding::Unreachable(unr_ids)]
            } else {
                Seq::<ValidationFinding>::empty()
            }));
        }

        let leaves = self.find_leaf_nodes();
        proof {
            assert(leaves@.map_values(|n: NodeId| n.0) == lf_ids);
            assert(lf_ids.len() == leaves@.len()) by {
                assert(leaves@.map_values(|n: NodeId| n.0).len() == leaves@.len());
            }
        }
        if leaves.len() > 0 {
            errors.push(ValidationError::UnfinishedPaths(leaves));
        }
        proof {
            assert(errors@.map_values(|e: ValidationError| e@) =~= expected_findings(
                cyc,
                unr_ids,
                lf_ids,
            ));
        }

        if errors.is_empty() {
            Ok(())
        } else {
            Err(errors)
        }
    }
}

impl Default for DialogueGraphNavigator {
    /// An empty navigator, the same as `new`.
    fn default() -> (nav: Self)
        ensures
            nav.wf(),
            nav.verts() == Seq::<u64>::empty(),
            nav.edges() == Seq::<(int, int, Seq<char>)>::empty(),
            nav.idx_of() == Map::<u64, usize>::empty(),
    {
        DialogueGraphNavigator::new()
    }
}

} // verus!
