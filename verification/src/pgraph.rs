//! The trusted boundary to petgraph. The navigator stores its derived graph
//! in a `petgraph::graph::DiGraph`; every call into it goes through one of
//! the wrappers below, whose contracts speak of two named views of the
//! structure: the vertex weights in index order (`graph_verts`) and the
//! (source, target, label) edges in order of addition (`graph_edges`).

use vstd::prelude::*;

use petgraph::visit::EdgeRef;

use crate::graph::ChoiceInfo;
use crate::model::{has_cycle, out_edges_of};

verus! {

#[verifier::external_type_specification]
#[verifier::external_body]
#[verifier::reject_recursive_types(N)]
#[verifier::reject_recursive_types(E)]
#[verifier::reject_recursive_types(Ty)]
#[verifier::reject_recursive_types(Ix)]
pub struct ExGraph<N, E, Ty, Ix>(petgraph::graph::Graph<N, E, Ty, Ix>);

#[verifier::external_type_specification]
#[verifier::external_body]
pub struct ExDirected(petgraph::Directed);

/// The vertex weights of the graph, in index order.
pub uninterp spec fn graph_verts(g: petgraph::graph::DiGraph<u64, ChoiceInfo>) -> Seq<u64>;

/// The edges of the graph as (source index, target index, label) triples,
/// in order of addition.
pub uninterp spec fn graph_edges(g: petgraph::graph::DiGraph<u64, ChoiceInfo>) -> Seq<
    (int, int, Seq<char>),
>;

/// Relies on petgraph's `Graph::new`: the new graph has no nodes and no
/// edges.
#[verifier::external_body]
pub(crate) fn graph_new() -> (g: petgraph::graph::DiGraph<u64, ChoiceInfo>)
    ensures
        graph_verts(g) == Seq::<u64>::empty(),
        graph_edges(g) == Seq::<(int, int, Seq<char>)>::empty(),
{
    petgraph::graph::DiGraph::new()
}

/// Relies on petgraph's `Graph::node_count`: the number of vertices.
#[verifier::external_body]
pub(crate) fn graph_node_count(g: &petgraph::graph::DiGraph<u64, ChoiceInfo>) -> (n: usize)
    ensures
        n == graph_verts(*g).len(),
{
    g.node_count()
}

/// Relies on petgraph's `Graph::add_node`: appends one vertex with the
/// given weight and returns its index; the edges are unchanged. The call
/// panics only at the `u32` index limit, which the precondition excludes.
#[verifier::external_body]
pub(crate) fn graph_add_node(g: &mut petgraph::graph::DiGraph<u64, ChoiceInfo>, w: u64) -> (idx:
    usize)
    requires
        graph_verts(*old(g)).len() < 0xffff_ffff,
    ensures
        graph_verts(*final(g)) == graph_verts(*old(g)).push(w),
        graph_edges(*final(g)) == graph_edges(*old(g)),
        idx == graph_verts(*old(g)).len(),
{
    g.add_node(w).index()
}

/// Relies on petgraph's `Graph::add_edge`: appends one edge from `a` to
/// `b` with the given label; the vertices are unchanged. The call panics
/// on a missing endpoint or at the `u32` index limit, which the
/// preconditions exclude.
#[verifier::external_body]
pub(crate) fn graph_add_edge(
    g: &mut petgraph::graph::DiGraph<u64, ChoiceInfo>,
    a: usize,
    b: usize,
    label: ChoiceInfo,
)
    requires
        a < graph_verts(*old(g)).len(),
        b < graph_verts(*old(g)).len(),
        graph_edges(*old(g)).len() < 0xffff_ffff,
    ensures
        graph_verts(*final(g)) == graph_verts(*old(g)),
        graph_edges(*final(g)) == graph_edges(*old(g)).push(
            (a as int, b as int, label.choice_text@),
        ),
{
    g.add_edge(
        petgraph::graph::NodeIndex::new(a),
        petgraph::graph::NodeIndex::new(b),
        label,
    );
}

/// Relies on petgraph's `Graph::node_weight`: `Some` of the weight for
/// every index below the node count, which the precondition guarantees.
#[verifier::external_body]
pub(crate) fn graph_node_weight(g: &petgraph::graph::DiGraph<u64, ChoiceInfo>, a: usize) -> (w:
    u64)
    requires
        a < graph_verts(*g).len(),
    ensures
        w == graph_verts(*g)[a as int],
{
    *g.node_weight(petgraph::graph::NodeIndex::new(a)).unwrap()
}

/// Relies on petgraph's `Graph::edges`: the outgoing edges of `a`, listed
/// in reverse order of their addition (most recently added first). The
/// precondition keeps `a` inside the `u32` index domain, where the
/// `NodeIndex` constructor in the body is lossless.
#[verifier::external_body]
pub(crate) fn graph_out_edges(g: &petgraph::graph::DiGraph<u64, ChoiceInfo>, a: usize) -> (r: Vec<
    (usize, String),
>)
    requires
        a < graph_verts(*g).len(),
    ensures
        r@.map_values(|p: (usize, String)| (p.0 as int, p.1@)) == out_edges_of(
            graph_edges(*g),
            a as int,
        ),
{
    g.edges(petgraph::graph::NodeIndex::new(a)).map(
        |e| (e.target().index(), e.weight().choice_text.clone()),
    ).collect()
}

/// Relies on petgraph's `algo::is_cyclic_directed`: returns true if and
/// only if the directed graph contains a cycle.
#[verifier::external_body]
pub(crate) fn graph_is_cyclic(g: &petgraph::graph::DiGraph<u64, ChoiceInfo>) -> (r: bool)
    ensures
        r == has_cycle(graph_edges(*g)),
{
    petgraph::algo::is_cyclic_directed(g)
}

} // verus!
