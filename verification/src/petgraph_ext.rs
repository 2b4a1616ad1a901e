//! The petgraph undirected graph that stores the vertices and edges of a
//! [`crate::graph::Graph`], with the contracts of the petgraph methods the
//! library calls.
//!
//! The contents of a petgraph graph are described by two names: the node
//! weights in index order ([`pg_nodes`]) and the edges in index order as
//! `(source, target, weight)` triples ([`pg_edges`]).

use vstd::prelude::*;

use crate::graph::{EColor, VColor};
use crate::seqs::count_if;
use petgraph::graph::Graph as PetGraph;
use petgraph::visit::EdgeRef;

verus! {

#[verifier::external_type_specification]
#[verifier::external_body]
#[verifier::reject_recursive_types(N)]
#[verifier::reject_recursive_types(E)]
#[verifier::reject_recursive_types(Ty)]
#[verifier::reject_recursive_types(Ix)]
pub struct ExPetGraph<N, E, Ty, Ix>(PetGraph<N, E, Ty, Ix>);

#[verifier::external_type_specification]
#[verifier::external_body]
pub struct ExUndirected(petgraph::Undirected);

/// The petgraph graph type holding the colored multigraph.
pub type PGraph = petgraph::graph::Graph<VColor, EColor, petgraph::Undirected, u32>;

/// Node weights of a petgraph graph, by node index.
pub uninterp spec fn pg_nodes(g: petgraph::graph::Graph<VColor, EColor, petgraph::Undirected, u32>) -> Seq<VColor>;

/// Edges of a petgraph graph, by edge index, as `(source, target, weight)`.
pub uninterp spec fn pg_edges(g: petgraph::graph::Graph<VColor, EColor, petgraph::Undirected, u32>) -> Seq<(usize, usize, EColor)>;

/// petgraph's index type is `u32`; `u32::MAX` is reserved as "no index".
pub open spec fn index_limit() -> nat {
    0xFFFF_FFFFnat
}

/// Edge `e` joins `a` and `b` (in either direction).
pub open spec fn connects(e: (usize, usize, EColor), a: usize, b: usize) -> bool {
    (e.0 == a && e.1 == b) || (e.0 == b && e.1 == a)
}

/// Some edge of `edges` joins `a` and `b`.
pub open spec fn adjacent(edges: Seq<(usize, usize, EColor)>, a: usize, b: usize) -> bool {
    exists|i: int| 0 <= i < edges.len() && connects(#[trigger] edges[i], a, b)
}

/// Number of edges of `edges` joining `a` and `b`.
pub open spec fn multiplicity(edges: Seq<(usize, usize, EColor)>, a: usize, b: usize) -> nat {
    count_if(edges, linking(a, b))
}

/// The edge joins `a` and `b` (in either direction).
pub open spec fn linking(a: usize, b: usize) -> spec_fn((usize, usize, EColor)) -> bool {
    |e: (usize, usize, EColor)| connects(e, a, b)
}

/// `UnGraph::default`: an empty graph.
#[verifier::external_body]
pub(crate) fn pg_new() -> (g: PGraph)
    ensures
        pg_nodes(g) == Seq::<VColor>::empty(),
        pg_edges(g) == Seq::<(usize, usize, EColor)>::empty(),
{
    petgraph::graph::UnGraph::default()
}

/// `Graph::clone`: the same nodes and edges at the same indices.
#[verifier::external_body]
pub(crate) fn pg_clone(g: &PGraph) -> (r: PGraph)
    ensures
        pg_nodes(r) == pg_nodes(*g),
        pg_edges(r) == pg_edges(*g),
{
    g.clone()
}

/// `Graph::node_count`.
#[verifier::external_body]
pub(crate) fn pg_node_count(g: &PGraph) -> (r: usize)
    ensures
        r == pg_nodes(*g).len(),
{
    g.node_count()
}

/// `Graph::edge_count`.
#[verifier::external_body]
pub(crate) fn pg_edge_count(g: &PGraph) -> (r: usize)
    ensures
        r == pg_edges(*g).len(),
{
    g.edge_count()
}

/// `Graph::add_node`: appends a node; it panics only when the new index
/// would be `u32::MAX`, which `requires` leaves out.
#[verifier::external_body]
pub(crate) fn pg_add_node(g: &mut PGraph, w: VColor) -> (r: usize)
    requires
        pg_nodes(*old(g)).len() + 1 < index_limit(),
    ensures
        r == pg_nodes(*old(g)).len(),
        pg_nodes(*final(g)) == pg_nodes(*old(g)).push(w),
        pg_edges(*final(g)) == pg_edges(*old(g)),
{
    g.add_node(w).index()
}

/// `Graph::add_edge`: appends the edge `(a, b, w)`; it panics on a missing
/// endpoint or when the new index would be `u32::MAX`, which `requires`
/// leaves out.
#[verifier::external_body]
pub(crate) fn pg_add_edge(g: &mut PGraph, a: usize, b: usize, w: EColor) -> (r: usize)
    requires
        a < pg_nodes(*old(g)).len(),
        b < pg_nodes(*old(g)).len(),
        pg_edges(*old(g)).len() + 1 < index_limit(),
    ensures
        r == pg_edges(*old(g)).len(),
        pg_nodes(*final(g)) == pg_nodes(*old(g)),
        pg_edges(*final(g)) == pg_edges(*old(g)).push((a, b, w)),
{
    g.add_edge(petgraph::graph::NodeIndex::new(a), petgraph::graph::NodeIndex::new(b), w).index()
}

/// `Graph::update_edge`: when an edge joins `a` and `b`, one such edge (the
/// first found in `a`'s edge lists; which one is left unsaid here) gets the
/// weight `w`; otherwise the edge `(a, b, w)` is appended.
#[verifier::external_body]
pub(crate) fn pg_update_edge(g: &mut PGraph, a: usize, b: usize, w: EColor) -> (r: usize)
    requires
        a < pg_nodes(*old(g)).len(),
        b < pg_nodes(*old(g)).len(),
        !adjacent(pg_edges(*old(g)), a, b) ==> pg_edges(*old(g)).len() + 1 < index_limit(),
    ensures
        pg_nodes(*final(g)) == pg_nodes(*old(g)),
        adjacent(pg_edges(*old(g)), a, b) ==> {
            &&& r < pg_edges(*old(g)).len()
            &&& connects(pg_edges(*old(g))[r as int], a, b)
            &&& pg_edges(*final(g)) == pg_edges(*old(g)).update(
                r as int,
                (pg_edges(*old(g))[r as int].0, pg_edges(*old(g))[r as int].1, w),
            )
        },
        !adjacent(pg_edges(*old(g)), a, b) ==> {
            &&& r == pg_edges(*old(g)).len()
            &&& pg_edges(*final(g)) == pg_edges(*old(g)).push((a, b, w))
        },
{
    g.update_edge(petgraph::graph::NodeIndex::new(a), petgraph::graph::NodeIndex::new(b), w).index()
}

/// `Graph::contains_edge`: some edge joins `a` and `b`.
#[verifier::external_body]
pub(crate) fn pg_contains_edge(g: &PGraph, a: usize, b: usize) -> (r: bool)
    requires
        a < index_limit(),
        b < index_limit(),
    ensures
        r == adjacent(pg_edges(*g), a, b),
{
    g.contains_edge(petgraph::graph::NodeIndex::new(a), petgraph::graph::NodeIndex::new(b))
}

/// `Graph::find_edge`: `None` when no edge joins `a` and `b`, else the
/// index of one that does (which one is left unsaid here).
#[verifier::external_body]
pub(crate) fn pg_find_edge(g: &PGraph, a: usize, b: usize) -> (r: Option<usize>)
    requires
        a < index_limit(),
        b < index_limit(),
    ensures
        r is None <==> !adjacent(pg_edges(*g), a, b),
        r matches Some(e) ==> e < pg_edges(*g).len() && connects(pg_edges(*g)[e as int], a, b),
{
    g.find_edge(petgraph::graph::NodeIndex::new(a), petgraph::graph::NodeIndex::new(b)).map(|e| e.index())
}

/// `Graph::remove_edge`: swap-removes edge `e` (the last edge takes its
/// index) and returns its weight; `None` and no change when `e` is out of
/// range.
#[verifier::external_body]
pub(crate) fn pg_remove_edge(g: &mut PGraph, e: usize) -> (r: Option<EColor>)
    requires
        e < index_limit(),
    ensures
        pg_nodes(*final(g)) == pg_nodes(*old(g)),
        e < pg_edges(*old(g)).len() ==> {
            &&& r == Some(pg_edges(*old(g))[e as int].2)
            &&& pg_edges(*final(g)) == pg_edges(*old(g)).update(e as int, pg_edges(*old(g)).last()).drop_last()
        },
        e >= pg_edges(*old(g)).len() ==> r is None && pg_edges(*final(g)) == pg_edges(*old(g)),
{
    g.remove_edge(petgraph::graph::EdgeIndex::new(e))
}

/// `Graph::neighbors` collected: every element is the other endpoint of an
/// edge at `v`, and the other endpoint of every edge at `v` occurs (the
/// order and repetitions are left unsaid here).
#[verifier::external_body]
pub(crate) fn pg_neighbors(g: &PGraph, v: usize) -> (r: Vec<usize>)
    requires
        v < index_limit(),
    ensures
        forall|i: int|
            0 <= i < r.len() ==> #[trigger] adjacent(pg_edges(*g), v, r[i]) && r[i] < pg_nodes(*g).len(),
        forall|j: int|
            0 <= j < pg_edges(*g).len() && pg_edges(*g)[j].0 == v ==> r@.contains(#[trigger] pg_edges(*g)[j].1),
        forall|j: int|
            0 <= j < pg_edges(*g).len() && pg_edges(*g)[j].1 == v ==> r@.contains(#[trigger] pg_edges(*g)[j].0),
{
    g.neighbors(petgraph::graph::NodeIndex::new(v)).map(|x| x.index()).collect()
}

/// `Graph::edge_references` collected: `(source, target, index)` of every
/// edge, in index order.
#[verifier::external_body]
pub(crate) fn pg_edge_references(g: &PGraph) -> (r: Vec<(usize, usize, usize)>)
    ensures
        r.len() == pg_edges(*g).len(),
        forall|i: int|
            0 <= i < r.len() ==> #[trigger] r[i] == (pg_edges(*g)[i].0, pg_edges(*g)[i].1, i as usize),
{
    g.edge_references().map(|er| (er.source().index(), er.target().index(), er.id().index())).collect()
}

/// `Graph::edge_weight`.
#[verifier::external_body]
pub(crate) fn pg_edge_weight(g: &PGraph, e: usize) -> (r: Option<EColor>)
    requires
        e < index_limit(),
    ensures
        e < pg_edges(*g).len() ==> r == Some(pg_edges(*g)[e as int].2),
        e >= pg_edges(*g).len() ==> r is None,
{
    g.edge_weight(petgraph::graph::EdgeIndex::new(e)).copied()
}

/// `Graph::edge_weight_mut`, written through: edge `e` gets weight `w`; no
/// change when `e` is out of range.
#[verifier::external_body]
pub(crate) fn pg_set_edge_weight(g: &mut PGraph, e: usize, w: EColor)
    requires
        e < index_limit(),
    ensures
        pg_nodes(*final(g)) == pg_nodes(*old(g)),
        e < pg_edges(*old(g)).len() ==> pg_edges(*final(g)) == pg_edges(*old(g)).update(
            e as int,
            (pg_edges(*old(g))[e as int].0, pg_edges(*old(g))[e as int].1, w),
        ),
        e >= pg_edges(*old(g)).len() ==> pg_edges(*final(g)) == pg_edges(*old(g)),
{
    if let Some(x) = g.edge_weight_mut(petgraph::graph::EdgeIndex::new(e)) {
        *x = w;
    }
}

/// `Graph::node_weight`.
#[verifier::external_body]
pub(crate) fn pg_node_weight(g: &PGraph, v: usize) -> (r: Option<&VColor>)
    requires
        v < index_limit(),
    ensures
        v < pg_nodes(*g).len() ==> r == Some(&pg_nodes(*g)[v as int]),
        v >= pg_nodes(*g).len() ==> r is None,
{
    g.node_weight(petgraph::graph::NodeIndex::new(v))
}

/// `Graph::node_weight_mut`, written through: node `v` gets weight `w`; no
/// change when `v` is out of range.
#[verifier::external_body]
pub(crate) fn pg_set_node_weight(g: &mut PGraph, v: usize, w: VColor)
    requires
        v < index_limit(),
    ensures
        pg_edges(*final(g)) == pg_edges(*old(g)),
        v < pg_nodes(*old(g)).len() ==> pg_nodes(*final(g)) == pg_nodes(*old(g)).update(v as int, w),
        v >= pg_nodes(*old(g)).len() ==> pg_nodes(*final(g)) == pg_nodes(*old(g)),
{
    if let Some(x) = g.node_weight_mut(petgraph::graph::NodeIndex::new(v)) {
        *x = w;
    }
}

/// `Graph::edges_connecting(a, b).count()`: the number of edges joining `a`
/// and `b` (a self-loop counts once).
#[verifier::external_body]
pub(crate) fn pg_edges_connecting_count(g: &PGraph, a: usize, b: usize) -> (r: usize)
    requires
        a < index_limit(),
        b < index_limit(),
    ensures
        r == multiplicity(pg_edges(*g), a, b),
{
    g.edges_connecting(petgraph::graph::NodeIndex::new(a), petgraph::graph::NodeIndex::new(b)).count()
}

} // verus!
