//! The interference graph's backing store: an undirected `petgraph`
//! graph over node indices with `i64` edge weights, seen by the verifier
//! through two uninterpreted observers and a handful of trusted wrappers.
//!
//! The model: `gm_nodes` is the node sequence in insertion order, and
//! `gm_edges` maps each undirected edge, keyed by its endpoints in
//! ascending order, to its weight. Every wrapper states how the call moves
//! these two observers, exactly as `petgraph`'s source shows.

use vstd::prelude::*;

use petgraph::graphmap::UnGraphMap;

verus! {

/// The type of the interference graph's store.
#[verifier::external_type_specification]
#[verifier::external_body]
#[verifier::reject_recursive_types(N)]
#[verifier::reject_recursive_types(E)]
#[verifier::reject_recursive_types(Ty)]
#[verifier::reject_recursive_types(S)]
pub struct ExGraphMap<N, E, Ty, S>(petgraph::graphmap::GraphMap<N, E, Ty, S>)
    where S: std::hash::BuildHasher;

/// The marker type for undirected edges.
#[verifier::external_type_specification]
#[verifier::external_body]
pub struct ExUndirected(petgraph::Undirected);

/// The store instantiated at node indices and signed weights.
pub type RigStore = UnGraphMap<usize, i64>;

/// The graph's nodes, in insertion order.
pub uninterp spec fn gm_nodes(g: RigStore) -> Seq<usize>;

/// The graph's edges: each undirected edge, keyed by its endpoints in
/// ascending order, mapped to its weight.
pub uninterp spec fn gm_edges(g: RigStore) -> Map<(usize, usize), i64>;

/// The key an undirected edge between `a` and `b` is stored under.
pub open spec fn edge_key(a: usize, b: usize) -> (usize, usize) {
    if a <= b {
        (a, b)
    } else {
        (b, a)
    }
}

/// A graph with no nodes and no edges.
pub open spec fn gm_empty(g: RigStore) -> bool {
    gm_nodes(g) == Seq::<usize>::empty() && gm_edges(g) == Map::<(usize, usize), i64>::empty()
}

/// Relies on GraphMap::new: the new graph has no nodes and no edges.
#[verifier::external_body]
pub(crate) fn graph_new() -> (g: RigStore)
    ensures
        gm_empty(g),
{
    UnGraphMap::new()
}

/// Relies on GraphMap::add_node: a missing node is appended to the node
/// order, a present one leaves the graph unchanged; edges are untouched.
#[verifier::external_body]
pub(crate) fn graph_add_node(g: &mut RigStore, n: usize)
    ensures
        gm_edges(*final(g)) == gm_edges(*old(g)),
        gm_nodes(*final(g)) == if gm_nodes(*old(g)).contains(n) {
            gm_nodes(*old(g))
        } else {
            gm_nodes(*old(g)).push(n)
        },
{
    g.add_node(n);
}

/// Relies on GraphMap::add_edge: with both endpoints already present, the
/// node order is unchanged and the edge, keyed by its ascending endpoint
/// pair, is set to the given weight.
#[verifier::external_body]
pub(crate) fn graph_add_edge(g: &mut RigStore, a: usize, b: usize, w: i64)
    requires
        a != b,
        gm_nodes(*old(g)).contains(a),
        gm_nodes(*old(g)).contains(b),
    ensures
        gm_nodes(*final(g)) == gm_nodes(*old(g)),
        gm_edges(*final(g)) == gm_edges(*old(g)).insert(edge_key(a, b), w),
{
    g.add_edge(a, b, w);
}

/// Relies on GraphMap::edge_weight: the weight stored under the ascending
/// endpoint pair, or `None` where the edge does not exist.
#[verifier::external_body]
pub(crate) fn graph_edge_weight(g: &RigStore, a: usize, b: usize) -> (r: Option<
    i64,
>)
    ensures
        r == if gm_edges(*g).contains_key(edge_key(a, b)) {
            Some(gm_edges(*g)[edge_key(a, b)])
        } else {
            None::<i64>
        },
{
    g.edge_weight(a, b).copied()
}

/// Relies on GraphMap::edge_weight_mut: an existing edge's weight is
/// overwritten and `true` returned; a missing edge leaves the graph
/// unchanged and returns `false`. Nodes are untouched either way.
#[verifier::external_body]
pub(crate) fn graph_set_edge_weight(g: &mut RigStore, a: usize, b: usize, w: i64) -> (r: bool)
    ensures
        gm_nodes(*final(g)) == gm_nodes(*old(g)),
        r == gm_edges(*old(g)).contains_key(edge_key(a, b)),
        gm_edges(*final(g)) == if gm_edges(*old(g)).contains_key(edge_key(a, b)) {
            gm_edges(*old(g)).insert(edge_key(a, b), w)
        } else {
            gm_edges(*old(g))
        },
{
    match g.edge_weight_mut(a, b) {
        Some(x) => {
            *x = w;
            true
        },
        None => false,
    }
}

} // verus!
