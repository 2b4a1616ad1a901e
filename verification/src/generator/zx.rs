//! Random graph-like ZX-diagrams: every vertex a Z spider with phase 0,
//! every edge a Hadamard edge, on a `G(n, m)` topology.

use vstd::prelude::*;

use crate::generator::random::{gnm, max_pairs};
use crate::graph::{EColor, Graph, GraphModel, VColor};
use crate::petgraph_ext::index_limit;
use crate::seqs::lemma_idx_filter;

verus! {

/// `n` alive Z spiders of phase 0, joined by Hadamard edges `(u, v)` with
/// `u < v < n`, no two on the same pair.
pub open spec fn graph_like_zx(m: GraphModel, n: nat) -> bool {
    &&& m.nodes == Seq::new(n, |i: int| VColor::Z(0))
    &&& m.alive == Seq::new(n, |i: int| true)
    &&& forall|i: int| 0 <= i < m.edges.len() ==> (#[trigger] m.edges[i]).0 < m.edges[i].1 < n && m.edges[i].2 == EColor::H
    &&& forall|i: int, j: int|
        0 <= i < j < m.edges.len() ==> ((#[trigger] m.edges[i]).0 != (#[trigger] m.edges[j]).0 || m.edges[i].1 != m.edges[j].1)
}

/// A random graph-like ZX-diagram with `n` spiders and `min(e, n(n-1)/2)`
/// Hadamard edges, the topology drawn as by [`gnm`].
pub fn rand_graph_like_zx(n: usize, e: usize, rng: &mut rand::rngs::StdRng) -> (g: Graph)
    requires
        n < index_limit(),
        n * n <= usize::MAX,
        n * n + 1 < index_limit() || e + 1 < index_limit(),
    ensures
        g.wf(),
        graph_like_zx(g@, n as nat),
        g@.edges.len() == if e < max_pairs(n as nat) { e as nat } else { max_pairs(n as nat) },
{
    let mut g = gnm(n, e, rng);
    let ghost g0 = g@;
    let vertices = g.alive_vertices();
    proof {
        g.lemma_wf();
        let p = |i: usize| (i as int) < g0.alive.len() && g0.alive[i as int];
        lemma_idx_filter(p, n as nat);
        assert forall|u: usize| u < n implies vertices@.contains(u) by {
            assert(p(u));
        }
    }
    let mut t: usize = 0;
    while t < vertices.len()
        invariant
            g.wf(),
            t <= vertices.len(),
            vertices@ == g0.alive_list(),
            forall|u: usize| u < n ==> #[trigger] vertices@.contains(u),
            forall|j: int| 0 <= j < vertices.len() ==> #[trigger] vertices[j] < n,
            g@.nodes.len() == n,
            g@.alive == g0.alive,
            g@.edges == g0.edges,
            forall|j: int| 0 <= j < t ==> g@.nodes[#[trigger] vertices[j] as int] == VColor::Z(0),
        decreases vertices.len() - t,
    {
        g.set_color(vertices[t], VColor::Z(0));
        t += 1;
    }
    proof {
        assert forall|i: int| 0 <= i < n implies g@.nodes[i] == VColor::Z(0) by {
            assert(vertices@.contains(i as usize));
            let j = choose|j: int| 0 <= j < vertices.len() && vertices[j] == i as usize;
            assert(g@.nodes[vertices[j] as int] == VColor::Z(0));
        }
        assert(g@.nodes =~= Seq::new(n as nat, |i: int| VColor::Z(0)));
    }
    let ghost g1 = g@;
    let edges = g.edges();
    proof {
        let p = |i: usize|
            (i as int) < g1.edges.len() && g1.is_alive(g1.edges[i as int].0) && g1.is_alive(g1.edges[i as int].1);
        lemma_idx_filter(p, g1.edges.len());
    }
    let mut k: usize = 0;
    while k < edges.len()
        invariant
            g.wf(),
            k <= edges.len(),
            g@.nodes == g1.nodes,
            g@.alive == g1.alive,
            g@.edges.len() == g1.edges.len(),
            forall|i: int| 0 <= i < g1.edges.len() ==> (#[trigger] g@.edges[i]).0 == g1.edges[i].0 && g@.edges[i].1 == g1.edges[i].1,
            edges.len() == g1.alive_edge_ids().len(),
            forall|q: int| 0 <= q < edges.len() ==> #[trigger] edges[q].2 == g1.alive_edge_ids()[q],
            forall|q: int| 0 <= q < k ==> g@.edges[#[trigger] g1.alive_edge_ids()[q] as int].2 == EColor::H,
            forall|q: int| 0 <= q < edges.len() ==> #[trigger] g1.alive_edge_ids()[q] < g1.edges.len(),
        decreases edges.len() - k,
    {
        let ghost before = g@;
        g.set_edge_color(edges[k].2, EColor::H);
        k += 1;
        proof {
            assert forall|q: int| 0 <= q < k implies g@.edges[#[trigger] g1.alive_edge_ids()[q] as int].2 == EColor::H by {
                if q < k - 1 {
                    assert(before.edges[g1.alive_edge_ids()[q] as int].2 == EColor::H);
                }
            }
        }
    }
    proof {
        let ids = g1.alive_edge_ids();
        let p = |i: usize|
            (i as int) < g1.edges.len() && g1.is_alive(g1.edges[i as int].0) && g1.is_alive(g1.edges[i as int].1);
        assert forall|i: int| 0 <= i < g@.edges.len() implies (#[trigger] g@.edges[i]).0 < g@.edges[i].1 < n
            && g@.edges[i].2 == EColor::H by {
            assert(g0.edges[i].0 < g0.edges[i].1 < n);
            assert(p(i as usize));
            assert(ids.contains(i as usize));
            let q = choose|q: int| 0 <= q < ids.len() && ids[q] == i as usize;
            assert(g@.edges[ids[q] as int].2 == EColor::H);
        }
        assert forall|i: int, j: int| 0 <= i < j < g@.edges.len() implies ((#[trigger] g@.edges[i]).0
            != (#[trigger] g@.edges[j]).0 || g@.edges[i].1 != g@.edges[j].1) by {
            assert(g0.edges[i].0 != g0.edges[j].0 || g0.edges[i].1 != g0.edges[j].1);
        }
    }
    g
}

} // verus!
