//! The colored multigraph with logical vertex deletion.
//!
//! Vertices and edges live in a petgraph undirected graph; vertices are
//! never removed from it. An `alive` bitset marks the vertices that have not
//! been eliminated, so vertex indices stay stable across eliminations.
//! Eliminating a vertex (making it simplicial, then deleting it) is the
//! central primitive of the treewidth solvers.

use vstd::prelude::*;

use crate::bitset::{
    fbs_bits, fbs_contains, fbs_count_ones, fbs_grow, fbs_insert, fbs_len, fbs_new, fbs_ones, fbs_set,
    ones_of,
};
use crate::petgraph_ext::{
    adjacent, connects, index_limit, multiplicity, pg_add_edge, pg_add_node, pg_clone,
    pg_contains_edge, pg_edge_count, pg_edge_references, pg_edge_weight, pg_edges,
    pg_edges_connecting_count, pg_find_edge, pg_neighbors, pg_new, pg_node_count, pg_node_weight,
    pg_nodes, pg_remove_edge, pg_set_edge_weight, pg_set_node_weight, pg_update_edge, PGraph,
};
use crate::bitset::fbs_clone;
use crate::text::{chars_to_string, dec, push_dec, push_str};
use crate::seqs::{
    after, and_pred, count_below, count_if, lemma_count_if_pos, lemma_count_if_swap_remove, count_true, idx_filter, lemma_count_below_ext, lemma_count_below_flip,
    lemma_count_below_le, lemma_count_if_le, lemma_count_if_none, lemma_count_if_push, lemma_idx_filter,
    lemma_idx_filter_ext, strictly_increasing, lemma_sum_below_bump, lemma_sum_below_ext,
    lemma_sum_below_le, sum_below,
};

verus! {

/// The per-vertex color: a Z or X spider with phase `s * pi / 4`, a
/// Hadamard node, or no color (`NC`, the default).
#[derive(Clone, Copy, Debug, PartialEq, Eq, Structural)]
pub enum VColor {
    Z(u8),
    X(u8),
    H,
    NC,
}

/// The per-edge color: a Hadamard edge or a normal one (`NC`, the default).
#[derive(Clone, Copy, Debug, PartialEq, Eq, Structural)]
pub enum EColor {
    H,
    NC,
}

impl Default for VColor {
    fn default() -> (r: Self)
        ensures
            r == VColor::NC,
    {
        VColor::NC
    }
}

impl Default for EColor {
    fn default() -> (r: Self)
        ensures
            r == EColor::NC,
    {
        EColor::NC
    }
}

/// An undirected multigraph (parallel edges and self-loops allowed) with a
/// color per vertex and per edge, and logical vertex deletion.
#[derive(Debug)]
pub struct Graph {
    inner: PGraph,
    /// `alive[i]` is true iff vertex `i` has not been eliminated.
    alive: fixedbitset::FixedBitSet,
}

/// The mathematical model of a [`Graph`].
pub struct GraphModel {
    /// Vertex colors by index (alive or not).
    pub nodes: Seq<VColor>,
    /// Edges by index, as `(source, target, color)`.
    pub edges: Seq<(usize, usize, EColor)>,
    /// Liveness by vertex index.
    pub alive: Seq<bool>,
}

impl Default for Graph {
    /// An empty graph.
    fn default() -> (g: Self)
        ensures
            g.wf(),
            g@.nodes == Seq::<VColor>::empty(),
            g@.edges == Seq::<(usize, usize, EColor)>::empty(),
            g@.alive == Seq::<bool>::empty(),
    {
        Graph::new()
    }
}

impl View for Graph {
    type V = GraphModel;

    closed spec fn view(&self) -> GraphModel {
        GraphModel { nodes: pg_nodes(self.inner), edges: pg_edges(self.inner), alive: fbs_bits(self.alive) }
    }
}

/// The edge joins `a` and `b` (in either direction) and has color `c`.
pub open spec fn joins(a: usize, b: usize, c: EColor) -> spec_fn((usize, usize, EColor)) -> bool {
    |e: (usize, usize, EColor)| connects(e, a, b) && e.2 == c
}

impl GraphModel {
    /// Well-formedness: one liveness bit per vertex, edge endpoints are
    /// vertices, and the counts stay below petgraph's `u32` index limit.
    pub open spec fn wf(self) -> bool {
        &&& self.alive.len() == self.nodes.len()
        &&& self.nodes.len() < index_limit()
        &&& self.nodes.len() * self.nodes.len() <= usize::MAX
        &&& self.edges.len() < index_limit()
        &&& forall|i: int|
            0 <= i < self.edges.len() ==> (#[trigger] self.edges[i]).0 < self.nodes.len() && self.edges[i].1
                < self.nodes.len()
    }

    pub open spec fn n(self) -> nat {
        self.nodes.len()
    }

    pub open spec fn is_alive(self, v: usize) -> bool {
        (v as int) < self.alive.len() && self.alive[v as int]
    }

    /// Some edge joins `a` and `b`.
    pub open spec fn adj(self, a: usize, b: usize) -> bool {
        adjacent(self.edges, a, b)
    }

    /// `u` is an alive neighbor of `v` other than `v` itself.
    pub open spec fn is_nbr(self, v: usize, u: usize) -> bool {
        u != v && self.is_alive(u) && self.adj(v, u)
    }

    pub open spec fn nbr_pred(self, v: usize) -> spec_fn(usize) -> bool {
        |u: usize| self.is_nbr(v, u)
    }

    /// The alive neighbors of `v`, ascending, without repetition.
    pub open spec fn nbrs(self, v: usize) -> Seq<usize> {
        idx_filter(self.nbr_pred(v), self.nodes.len())
    }

    /// The alive vertices, ascending.
    pub open spec fn alive_list(self) -> Seq<usize> {
        ones_of(self.alive)
    }

    /// Number of alive vertices.
    pub open spec fn alive_count(self) -> nat {
        count_true(self.alive)
    }

    /// Number of edges joining `a` and `b` (a self-loop counts once).
    pub open spec fn mult(self, a: usize, b: usize) -> nat {
        multiplicity(self.edges, a, b)
    }

    /// Number of vertices `a < b` joined to `b` by some edge.
    pub open spec fn row_adj(self, b: nat) -> nat {
        count_below(|a: nat| a < b && self.adj(a as usize, b as usize), b)
    }

    /// Number of vertex pairs `a < b` joined by some edge.
    pub open spec fn pair_count(self) -> nat {
        sum_below(|b: nat| self.row_adj(b), self.nodes.len())
    }

    /// Number of edges joining `a` and `b` with color `c`.
    pub open spec fn cmult(self, a: usize, b: usize, c: EColor) -> nat {
        count_if(self.edges, joins(a, b, c))
    }

    /// Room left below the edge index limit once every vertex pair is joined:
    /// eliminations and contractions keep it unchanged.
    pub open spec fn fill_room(self) -> int {
        self.edges.len() + self.nodes.len() * self.nodes.len() - self.pair_count()
    }

    /// Every pair `a < b` among the entries of `s` is adjacent.
    pub open spec fn is_clique(self, s: Seq<usize>) -> bool {
        forall|i: int, j: int| 0 <= i < j < s.len() ==> self.adj(s[i], s[j])
    }

    /// Every pair `i < j` of positions other than `skip` is adjacent.
    pub open spec fn is_clique_without(self, s: Seq<usize>, skip: int) -> bool {
        forall|i: int, j: int| 0 <= i < j < s.len() && i != skip && j != skip ==> self.adj(s[i], s[j])
    }

    /// The non-adjacent pairs `(s[i], s[j])` with `i < j < k`, by `j`.
    pub open spec fn row_missing(self, s: Seq<usize>, i: int, k: int) -> Seq<(usize, usize)>
        decreases k - i,
    {
        if k <= i + 1 {
            Seq::<(usize, usize)>::empty()
        } else {
            let prev = self.row_missing(s, i, k - 1);
            if !self.adj(s[i], s[k - 1]) {
                prev.push((s[i], s[k - 1]))
            } else {
                prev
            }
        }
    }

    /// Rows `0..r` of [`GraphModel::row_missing`], concatenated.
    pub open spec fn missing_rows(self, s: Seq<usize>, r: int) -> Seq<(usize, usize)>
        decreases r,
    {
        if r <= 0 {
            Seq::<(usize, usize)>::empty()
        } else {
            self.missing_rows(s, r - 1) + self.row_missing(s, r - 1, s.len() as int)
        }
    }

    /// The non-adjacent pairs of `s`, row by row.
    pub open spec fn missing_pairs(self, s: Seq<usize>) -> Seq<(usize, usize)> {
        self.missing_rows(s, s.len() as int)
    }

    /// The alive edges (both endpoints alive) as `(source, target, index)`,
    /// in index order.
    pub open spec fn alive_edge_ids(self) -> Seq<usize> {
        idx_filter(
            |i: usize|
                (i as int) < self.edges.len() && self.is_alive(self.edges[i as int].0) && self.is_alive(
                    self.edges[i as int].1,
                ),
            self.edges.len(),
        )
    }
}

/// The alive edges of `m`: `(source, target, index)` for every edge whose
/// endpoints are both alive, in index order.
pub open spec fn alive_edges_of(m: GraphModel, r: Seq<(usize, usize, usize)>) -> bool {
    &&& r.len() == m.alive_edge_ids().len()
    &&& forall|k: int|
        0 <= k < r.len() ==> #[trigger] r[k] == (
            m.edges[m.alive_edge_ids()[k] as int].0,
            m.edges[m.alive_edge_ids()[k] as int].1,
            m.alive_edge_ids()[k],
        )
}

impl Graph {
    pub closed spec fn wf(&self) -> bool {
        self@.wf()
    }

    pub proof fn lemma_wf(&self)
        requires
            self.wf(),
        ensures
            self@.wf(),
    {
    }

    /// An empty graph.
    pub fn new() -> (g: Self)
        ensures
            g.wf(),
            g@.nodes == Seq::<VColor>::empty(),
            g@.edges == Seq::<(usize, usize, EColor)>::empty(),
            g@.alive == Seq::<bool>::empty(),
    {
        Graph { inner: pg_new(), alive: fbs_new() }
    }

    /// Add an isolated alive vertex of color `color`; returns its index.
    pub fn add_vertex_with(&mut self, color: VColor) -> (r: usize)
        requires
            old(self).wf(),
            old(self)@.nodes.len() + 1 < index_limit(),
            (old(self)@.nodes.len() + 1) * (old(self)@.nodes.len() + 1) <= usize::MAX,
        ensures
            final(self).wf(),
            r == old(self)@.nodes.len(),
            final(self)@.nodes == old(self)@.nodes.push(color),
            final(self)@.edges == old(self)@.edges,
            final(self)@.alive == old(self)@.alive.push(true),
    {
        let idx = pg_add_node(&mut self.inner, color);
        let new_len = idx + 1;
        if fbs_len(&self.alive) < new_len {
            fbs_grow(&mut self.alive, new_len);
        }
        fbs_insert(&mut self.alive, idx);
        proof {
            assert(self@.alive =~= old(self)@.alive.push(true));
            assert forall|i: int| 0 <= i < self@.edges.len() implies (#[trigger] self@.edges[i]).0
                < self@.nodes.len() && self@.edges[i].1 < self@.nodes.len() by {
                assert(old(self)@.edges[i] == self@.edges[i]);
            }
        }
        idx
    }

    /// Add an isolated alive vertex of color `NC`; returns its index.
    pub fn add_vertex(&mut self) -> (r: usize)
        requires
            old(self).wf(),
            old(self)@.nodes.len() + 1 < index_limit(),
            (old(self)@.nodes.len() + 1) * (old(self)@.nodes.len() + 1) <= usize::MAX,
        ensures
            final(self).wf(),
            r == old(self)@.nodes.len(),
            final(self)@.nodes == old(self)@.nodes.push(VColor::NC),
            final(self)@.edges == old(self)@.edges,
            final(self)@.alive == old(self)@.alive.push(true),
    {
        self.add_vertex_with(VColor::NC)
    }

    /// The color of vertex `v` (which must exist).
    pub fn color(&self, v: usize) -> (r: &VColor)
        requires
            self.wf(),
            v < self@.nodes.len(),
        ensures
            *r == self@.nodes[v as int],
    {
        pg_node_weight(&self.inner, v).unwrap()
    }

    /// Replace the color of vertex `v` (which must exist).
    pub fn set_color(&mut self, v: usize, color: VColor)
        requires
            old(self).wf(),
            v < old(self)@.nodes.len(),
        ensures
            final(self).wf(),
            final(self)@.nodes == old(self)@.nodes.update(v as int, color),
            final(self)@.edges == old(self)@.edges,
            final(self)@.alive == old(self)@.alive,
    {
        pg_set_node_weight(&mut self.inner, v, color);
    }

    /// Copy of the color of vertex `v` (which must exist).
    pub fn label(&self, v: usize) -> (r: VColor)
        requires
            self.wf(),
            v < self@.nodes.len(),
        ensures
            r == self@.nodes[v as int],
    {
        *self.color(v)
    }

    /// Number of vertices (alive or not).
    pub fn node_count(&self) -> (r: usize)
        requires
            self.wf(),
        ensures
            r == self@.nodes.len(),
    {
        pg_node_count(&self.inner)
    }

    /// Mark `v` (which must exist) as eliminated, without fill-in.
    pub fn mark_dead(&mut self, v: usize)
        requires
            old(self).wf(),
            v < old(self)@.nodes.len(),
        ensures
            final(self).wf(),
            final(self)@.nodes == old(self)@.nodes,
            final(self)@.edges == old(self)@.edges,
            final(self)@.alive == old(self)@.alive.update(v as int, false),
    {
        fbs_set(&mut self.alive, v, false);
    }

    /// Number of alive vertices.
    pub fn alive_count(&self) -> (r: usize)
        requires
            self.wf(),
        ensures
            r == self@.alive_count(),
    {
        fbs_count_ones(&self.alive)
    }

    /// Is `v` alive (not eliminated)?
    pub fn is_alive(&self, v: usize) -> (r: bool)
        requires
            self.wf(),
        ensures
            r == self@.is_alive(v),
    {
        fbs_contains(&self.alive, v)
    }

    /// The alive vertices, ascending.
    pub fn alive_vertices(&self) -> (r: Vec<usize>)
        requires
            self.wf(),
        ensures
            r@ == self@.alive_list(),
    {
        fbs_ones(&self.alive)
    }

    /// The alive neighbors of `v` other than `v`, ascending, without
    /// repetition (parallel edges and self-loops collapse).
    pub fn alive_neighbors(&self, v: usize) -> (r: Vec<usize>)
        requires
            self.wf(),
        ensures
            r@ == self@.nbrs(v),
    {
        let n = pg_node_count(&self.inner);
        let ghost m = self@;
        let ghost p = m.nbr_pred(v);
        if v >= n {
            proof {
                assert forall|u: usize| u < n implies !#[trigger] p(u) by {
                    if m.adj(v, u) {
                        let i = choose|i: int| 0 <= i < m.edges.len() && connects(#[trigger] m.edges[i], v, u);
                        assert(m.edges[i].0 < n && m.edges[i].1 < n);
                    }
                }
                lemma_idx_filter_ext(p, |u: usize| false, n as nat);
                lemma_idx_filter_empty(n as nat);
            }
            return Vec::new();
        }
        let raw = pg_neighbors(&self.inner, v);
        let mut mark: Vec<bool> = Vec::new();
        let mut k: usize = 0;
        while k < n
            invariant
                k <= n,
                mark.len() == k,
                forall|u: int| 0 <= u < k ==> !mark[u],
            decreases n - k,
        {
            mark.push(false);
            k += 1;
        }
        let mut i: usize = 0;
        while i < raw.len()
            invariant
                n == m.nodes.len(),
                m == self@,
                m.wf(),
                v < n,
                mark.len() == n,
                i <= raw.len(),
                forall|j: int|
                    0 <= j < raw.len() ==> #[trigger] adjacent(m.edges, v, raw[j]) && raw[j] < m.nodes.len(),
                forall|u: int| 0 <= u < n && mark[u] ==> m.is_nbr(v, u as usize),
                forall|j: int|
                    0 <= j < i && raw[j] != v && m.is_alive(raw[j]) ==> mark[#[trigger] raw[j] as int],
            decreases raw.len() - i,
        {
            let x = raw[i];
            if x != v && fbs_contains(&self.alive, x) {
                assert(adjacent(m.edges, v, raw[i as int]));
                mark.set(x, true);
            }
            i += 1;
        }
        proof {
            assert forall|u: usize| u < n && m.is_nbr(v, u) implies mark[u as int] by {
                let e = choose|e: int| 0 <= e < m.edges.len() && connects(#[trigger] m.edges[e], v, u);
                if m.edges[e].0 == v {
                    assert(raw@.contains(m.edges[e].1));
                    let j = choose|j: int| 0 <= j < raw.len() && raw[j] == m.edges[e].1;
                    assert(raw[j] == u);
                } else {
                    assert(m.edges[e].1 == v);
                    assert(raw@.contains(m.edges[e].0));
                    let j = choose|j: int| 0 <= j < raw.len() && raw[j] == m.edges[e].0;
                    assert(raw[j] == u);
                }
            }
        }
        let mut res: Vec<usize> = Vec::new();
        let mut u: usize = 0;
        while u < n
            invariant
                n == m.nodes.len(),
                m == self@,
                mark.len() == n,
                u <= n,
                p == m.nbr_pred(v),
                forall|w: usize| w < n ==> (mark[w as int] <==> p(w)),
                res@ == idx_filter(p, u as nat),
            decreases n - u,
        {
            if mark[u] {
                res.push(u);
            }
            u += 1;
        }
        res
    }

    /// Number of alive neighbors of `v` (other than `v`).
    pub fn degree(&self, v: usize) -> (r: usize)
        requires
            self.wf(),
        ensures
            r == self@.nbrs(v).len(),
    {
        self.alive_neighbors(v).len()
    }

    /// Add an edge `{a, b}` of color `NC`. Parallel edges and self-loops are
    /// kept (the graph is a multigraph).
    pub fn add_edge(&mut self, a: usize, b: usize)
        requires
            old(self).wf(),
            a < old(self)@.nodes.len(),
            b < old(self)@.nodes.len(),
            old(self)@.edges.len() + 1 < index_limit(),
        ensures
            final(self).wf(),
            final(self)@.nodes == old(self)@.nodes,
            final(self)@.alive == old(self)@.alive,
            final(self)@.edges == old(self)@.edges.push((a, b, EColor::NC)),
    {
        self.add_edge_c(a, b, EColor::NC)
    }

    /// Add an edge `{a, b}` of color `c`.
    pub fn add_edge_c(&mut self, a: usize, b: usize, c: EColor)
        requires
            old(self).wf(),
            a < old(self)@.nodes.len(),
            b < old(self)@.nodes.len(),
            old(self)@.edges.len() + 1 < index_limit(),
        ensures
            final(self).wf(),
            final(self)@.nodes == old(self)@.nodes,
            final(self)@.alive == old(self)@.alive,
            final(self)@.edges == old(self)@.edges.push((a, b, c)),
    {
        pg_add_edge(&mut self.inner, a, b, c);
        proof {
            assert forall|i: int| 0 <= i < self@.edges.len() implies (#[trigger] self@.edges[i]).0
                < self@.nodes.len() && self@.edges[i].1 < self@.nodes.len() by {
                if i < old(self)@.edges.len() {
                    assert(self@.edges[i] == old(self)@.edges[i]);
                }
            }
        }
    }

    /// Join `a` and `b` by an `NC` edge unless some edge already joins them,
    /// in which case one joining edge becomes `NC`; self-loops are ignored.
    pub fn ensure_edge(&mut self, a: usize, b: usize)
        requires
            old(self).wf(),
            a < old(self)@.nodes.len(),
            b < old(self)@.nodes.len(),
            old(self)@.fill_room() < index_limit(),
        ensures
            final(self).wf(),
            final(self)@.nodes == old(self)@.nodes,
            final(self)@.alive == old(self)@.alive,
            forall|x: usize, y: usize|
                #[trigger] final(self)@.adj(x, y) <==> old(self)@.adj(x, y) || (a != b && connects(
                    (a, b, EColor::NC),
                    x,
                    y,
                )),
            final(self)@.fill_room() == old(self)@.fill_room(),
            final(self)@.edges.len() >= old(self)@.edges.len(),
    {
        self.ensure_edge_c(a, b, EColor::NC)
    }

    /// Join `a` and `b` by an edge of color `c` unless some edge already
    /// joins them, in which case one joining edge (the first petgraph finds)
    /// gets color `c`; self-loops are ignored.
    pub fn ensure_edge_c(&mut self, a: usize, b: usize, c: EColor)
        requires
            old(self).wf(),
            a < old(self)@.nodes.len(),
            b < old(self)@.nodes.len(),
            old(self)@.fill_room() < index_limit(),
        ensures
            final(self).wf(),
            final(self)@.nodes == old(self)@.nodes,
            final(self)@.alive == old(self)@.alive,
            forall|x: usize, y: usize|
                #[trigger] final(self)@.adj(x, y) <==> old(self)@.adj(x, y) || (a != b && connects(
                    (a, b, c),
                    x,
                    y,
                )),
            final(self)@.fill_room() == old(self)@.fill_room(),
            final(self)@.edges.len() >= old(self)@.edges.len(),
            a == b ==> final(self)@.edges == old(self)@.edges,
            a != b && !old(self)@.adj(a, b) ==> final(self)@.edges == old(self)@.edges.push((a, b, c)),
    {
        if a != b {
            let ghost m = self@;
            proof {
                lemma_pair_count_bound(m);
                if !m.adj(a, b) {
                    if a < b {
                        assert(!m.adj(a, b));
                    } else {
                        assert(!m.adj(b, a));
                    }
                }
            }
            let r = pg_update_edge(&mut self.inner, a, b, c);
            proof {
                let m2 = self@;
                if m.adj(a, b) {
                    lemma_adj_recolor(m, m2, r as int, c);
                    lemma_pair_count_same(m, m2);
                    assert forall|i: int| 0 <= i < m2.edges.len() implies (#[trigger] m2.edges[i]).0
                        < m2.nodes.len() && m2.edges[i].1 < m2.nodes.len() by {
                        assert(m2.edges[i].0 == m.edges[i].0 && m2.edges[i].1 == m.edges[i].1);
                    }
                } else {
                    lemma_adj_push(m, m2, (a, b, c));
                    if a < b {
                        lemma_pair_count_flip(m, m2, a, b);
                    } else {
                        lemma_pair_count_flip(m, m2, b, a);
                    }
                    assert forall|i: int| 0 <= i < m2.edges.len() implies (#[trigger] m2.edges[i]).0
                        < m2.nodes.len() && m2.edges[i].1 < m2.nodes.len() by {
                        if i < m.edges.len() {
                            assert(m2.edges[i] == m.edges[i]);
                        }
                    }
                }
            }
        }
    }

    /// The alive edges (both endpoints alive) as `(source, target, edge
    /// index)`, in index order; parallel edges appear separately.
    pub fn edges(&self) -> (r: Vec<(usize, usize, usize)>)
        requires
            self.wf(),
        ensures
            alive_edges_of(self@, r@),
    {
        let refs = pg_edge_references(&self.inner);
        let ghost m = self@;
        let ghost p = |i: usize|
            (i as int) < m.edges.len() && m.is_alive(m.edges[i as int].0) && m.is_alive(m.edges[i as int].1);
        let mut out: Vec<(usize, usize, usize)> = Vec::new();
        let ghost mut ids: Seq<usize> = Seq::empty();
        let mut k: usize = 0;
        while k < refs.len()
            invariant
                m == self@,
                refs.len() == m.edges.len(),
                forall|i: int| 0 <= i < refs.len() ==> #[trigger] refs[i] == (m.edges[i].0, m.edges[i].1, i as usize),
                k <= refs.len(),
                p == (|i: usize|
                    (i as int) < m.edges.len() && m.is_alive(m.edges[i as int].0) && m.is_alive(m.edges[i as int].1)),
                ids == idx_filter(p, k as nat),
                out.len() == ids.len(),
                forall|j: int|
                    0 <= j < out.len() ==> #[trigger] out[j] == (m.edges[ids[j] as int].0, m.edges[ids[j] as int].1, ids[j]),
            decreases refs.len() - k,
        {
            let (s, t, e) = refs[k];
            if fbs_contains(&self.alive, s) && fbs_contains(&self.alive, t) {
                out.push((s, t, e));
                proof {
                    ids = ids.push(k);
                }
            }
            k += 1;
        }
        out
    }

    /// The color of edge `e` (which must exist).
    pub fn edge_color(&self, e: usize) -> (r: EColor)
        requires
            self.wf(),
            e < self@.edges.len(),
        ensures
            r == self@.edges[e as int].2,
    {
        pg_edge_weight(&self.inner, e).unwrap()
    }

    /// Replace the color of edge `e`; no change when `e` does not exist.
    pub fn set_edge_color(&mut self, e: usize, c: EColor)
        requires
            old(self).wf(),
        ensures
            final(self).wf(),
            final(self)@.nodes == old(self)@.nodes,
            final(self)@.alive == old(self)@.alive,
            e < old(self)@.edges.len() ==> final(self)@.edges == old(self)@.edges.update(
                e as int,
                (old(self)@.edges[e as int].0, old(self)@.edges[e as int].1, c),
            ),
            e >= old(self)@.edges.len() ==> final(self)@.edges == old(self)@.edges,
    {
        if e < pg_edge_count(&self.inner) {
            pg_set_edge_weight(&mut self.inner, e, c);
            proof {
                let m = old(self)@;
                let m2 = self@;
                assert forall|i: int| 0 <= i < m2.edges.len() implies (#[trigger] m2.edges[i]).0
                    < m2.nodes.len() && m2.edges[i].1 < m2.nodes.len() by {
                    assert(m2.edges[i].0 == m.edges[i].0 && m2.edges[i].1 == m.edges[i].1);
                }
            }
        }
    }

    /// Number of edges joining `a` and `b` (0 if none); a self-loop counts
    /// once.
    pub fn edge_multiplicity(&self, a: usize, b: usize) -> (r: usize)
        requires
            self.wf(),
        ensures
            r == self@.mult(a, b),
    {
        let n = pg_node_count(&self.inner);
        if a >= n || b >= n {
            proof {
                lemma_mult_zero_outside(self@, a, b);
            }
            return 0;
        }
        pg_edges_connecting_count(&self.inner, a, b)
    }

    /// Remove one edge joining `a` and `b` (the first petgraph finds), if
    /// any. The last edge takes the index of the removed one.
    pub fn remove_edge(&mut self, a: usize, b: usize)
        requires
            old(self).wf(),
        ensures
            final(self).wf(),
            final(self)@.nodes == old(self)@.nodes,
            final(self)@.alive == old(self)@.alive,
            !old(self)@.adj(a, b) ==> final(self)@.edges == old(self)@.edges,
            old(self)@.adj(a, b) ==> exists|e: int|
                0 <= e < old(self)@.edges.len() && connects(#[trigger] old(self)@.edges[e], a, b)
                    && final(self)@.edges == old(self)@.edges.update(e, old(self)@.edges.last()).drop_last(),
    {
        let n = pg_node_count(&self.inner);
        if a >= n || b >= n {
            proof {
                if self@.adj(a, b) {
                    let i = choose|i: int| 0 <= i < self@.edges.len() && connects(#[trigger] self@.edges[i], a, b);
                    assert(self@.edges[i].0 < n && self@.edges[i].1 < n);
                }
            }
            return;
        }
        match pg_find_edge(&self.inner, a, b) {
            Some(e) => {
                pg_remove_edge(&mut self.inner, e);
                proof {
                    let m = old(self)@;
                    let m2 = self@;
                    assert forall|i: int| 0 <= i < m2.edges.len() implies (#[trigger] m2.edges[i]).0
                        < m2.nodes.len() && m2.edges[i].1 < m2.nodes.len() by {
                        if i == e {
                            assert(m2.edges[i] == m.edges[m.edges.len() - 1]);
                        } else {
                            assert(m2.edges[i] == m.edges[i]);
                        }
                    }
                    assert(connects(m.edges[e as int], a, b));
                }
            },
            None => {},
        }
    }

    /// Mark `v` (which must exist) as deleted.
    pub fn remove_vertex(&mut self, v: usize)
        requires
            old(self).wf(),
            v < old(self)@.nodes.len(),
        ensures
            final(self).wf(),
            final(self)@.nodes == old(self)@.nodes,
            final(self)@.edges == old(self)@.edges,
            final(self)@.alive == old(self)@.alive.update(v as int, false),
    {
        fbs_set(&mut self.alive, v, false);
    }

    /// Number of edges, counting parallel edges and self-loops separately.
    pub fn edge_count(&self) -> (r: usize)
        requires
            self.wf(),
        ensures
            r == self@.edges.len(),
    {
        pg_edge_count(&self.inner)
    }

    /// `"Graph with {n} vertices and {m} edges"`.
    pub fn info(&self) -> (r: String)
        requires
            self.wf(),
        ensures
            r@ == "Graph with "@ + dec(self@.nodes.len()) + " vertices and "@ + dec(self@.edges.len())
                + " edges"@,
    {
        let mut out: Vec<char> = Vec::new();
        push_str(&mut out, "Graph with ");
        push_dec(&mut out, self.node_count() as u64);
        push_str(&mut out, " vertices and ");
        push_dec(&mut out, self.edge_count() as u64);
        push_str(&mut out, " edges");
        proof {
            assert(out@ =~= "Graph with "@ + dec(self@.nodes.len()) + " vertices and "@ + dec(
                self@.edges.len(),
            ) + " edges"@);
        }
        chars_to_string(&out)
    }

    /// A graph of `n` isolated alive `NC` vertices.
    pub fn with_capacity(n: usize) -> (g: Self)
        requires
            n < index_limit(),
            n * n <= usize::MAX,
        ensures
            g.wf(),
            g@.nodes == Seq::new(n as nat, |i: int| VColor::NC),
            g@.alive == Seq::new(n as nat, |i: int| true),
            g@.edges == Seq::<(usize, usize, EColor)>::empty(),
    {
        let mut g = Self::new();
        let mut i: usize = 0;
        while i < n
            invariant
                i <= n,
                n < index_limit(),
                n * n <= usize::MAX,
                g.wf(),
                g@.nodes == Seq::new(i as nat, |k: int| VColor::NC),
                g@.alive == Seq::new(i as nat, |k: int| true),
                g@.edges == Seq::<(usize, usize, EColor)>::empty(),
            decreases n - i,
        {
            proof {
                assert((i + 1) * (i + 1) <= n * n) by (nonlinear_arith)
                    requires
                        i + 1 <= n,
                ;
            }
            g.add_vertex();
            i += 1;
            proof {
                assert(g@.nodes =~= Seq::new(i as nat, |k: int| VColor::NC));
                assert(g@.alive =~= Seq::new(i as nat, |k: int| true));
            }
        }
        g
    }

    /// An uncolored graph from a list of edges: vertices `0..=max index`
    /// are created on demand; duplicate pairs become parallel edges and
    /// self-loops are kept.
    pub fn from_edges(edges: Vec<(usize, usize)>) -> (g: Self)
        requires
            forall|i: int| 0 <= i < edges.len() ==> (#[trigger] edges[i]).0 + 1 < index_limit() && edges[i].1 + 1 < index_limit(),
            edges.len() + 1 < index_limit(),
            forall|i: int| 0 <= i < edges.len() ==> ((#[trigger] edges[i]).0 + 1) * (edges[i].0 + 1) <= usize::MAX && (edges[i].1 + 1) * (edges[i].1 + 1) <= usize::MAX,
        ensures
            g.wf(),
            g@.nodes.len() == max_endpoint(edges@),
            g@.nodes == Seq::new(g@.nodes.len(), |i: int| VColor::NC),
            g@.alive == Seq::new(g@.nodes.len(), |i: int| true),
            g@.edges == Seq::new(edges.len() as nat, |i: int| (edges[i].0, edges[i].1, EColor::NC)),
    {
        let mut g = Self::new();
        let mut k: usize = 0;
        while k < edges.len()
            invariant
                k <= edges.len(),
                forall|i: int| 0 <= i < edges.len() ==> (#[trigger] edges[i]).0 + 1 < index_limit() && edges[i].1 + 1 < index_limit(),
                edges.len() + 1 < index_limit(),
                forall|i: int| 0 <= i < edges.len() ==> ((#[trigger] edges[i]).0 + 1) * (edges[i].0 + 1) <= usize::MAX && (edges[i].1 + 1) * (edges[i].1 + 1) <= usize::MAX,
                g.wf(),
                g@.nodes.len() == max_endpoint(edges@.take(k as int)),
                g@.nodes == Seq::new(g@.nodes.len(), |i: int| VColor::NC),
                g@.alive == Seq::new(g@.nodes.len(), |i: int| true),
                g@.edges == Seq::new(k as nat, |i: int| (edges[i].0, edges[i].1, EColor::NC)),
            decreases edges.len() - k,
        {
            let (u, v) = edges[k];
            let top = if u > v { u } else { v };
            while fbs_len(&g.alive) <= top
                invariant
                    g.wf(),
                    top + 1 < index_limit(),
                    (top + 1) * (top + 1) <= usize::MAX,
                    g@.nodes.len() >= max_endpoint(edges@.take(k as int)),
                    g@.nodes.len() <= if max_endpoint(edges@.take(k as int)) > top + 1 { max_endpoint(edges@.take(k as int)) } else { (top + 1) as nat },
                    g@.nodes == Seq::new(g@.nodes.len(), |i: int| VColor::NC),
                    g@.alive == Seq::new(g@.nodes.len(), |i: int| true),
                    g@.edges == Seq::new(k as nat, |i: int| (edges[i].0, edges[i].1, EColor::NC)),
                decreases top + 1 - g@.nodes.len(),
            {
                proof {
                    let l = g@.nodes.len();
                    assert((l + 1) * (l + 1) <= (top + 1) * (top + 1)) by (nonlinear_arith)
                        requires
                            l + 1 <= top + 1,
                    ;
                }
                g.add_vertex();
                proof {
                    assert(g@.nodes =~= Seq::new(g@.nodes.len(), |i: int| VColor::NC));
                    assert(g@.alive =~= Seq::new(g@.nodes.len(), |i: int| true));
                }
            }
            g.add_edge(u, v);
            proof {
                assert(edges@.take(k + 1).drop_last() =~= edges@.take(k as int));
                assert(edges@.take(k + 1).last() == edges@[k as int]);
                assert(g@.edges =~= Seq::new((k + 1) as nat, |i: int| (edges[i].0, edges[i].1, EColor::NC)));
            }
            k += 1;
        }
        proof {
            assert(edges@.take(edges.len() as int) =~= edges@);
        }
        g
    }

    /// A copy of this graph, with the same vertex and edge indices.
    pub fn clone(&self) -> (r: Self)
        requires
            self.wf(),
        ensures
            r.wf(),
            r@ == self@,
    {
        Graph { inner: pg_clone(&self.inner), alive: fbs_clone(&self.alive) }
    }

    /// The fill-in edges that eliminating `v` would add: the non-adjacent
    /// pairs among `v`'s alive neighbors, row by row.
    pub fn fill_in_edges(&self, v: usize) -> (r: Vec<(usize, usize)>)
        requires
            self.wf(),
        ensures
            r@ == self@.missing_pairs(self@.nbrs(v)),
    {
        let nbrs = self.alive_neighbors(v);
        let ghost m = self@;
        let d = nbrs.len();
        let mut out: Vec<(usize, usize)> = Vec::new();
        let mut i: usize = 0;
        while i < d
            invariant
                self.wf(),
                m == self@,
                d == nbrs.len(),
                i <= d,
                out@ == m.missing_rows(nbrs@, i as int),
            decreases d - i,
        {
            let mut j: usize = i + 1;
            while j < d
                invariant
                    self.wf(),
                    m == self@,
                    d == nbrs.len(),
                    i < d,
                    i + 1 <= j <= d,
                    out@ == m.missing_rows(nbrs@, i as int) + m.row_missing(nbrs@, i as int, j as int),
                decreases d - j,
            {
                if !self.has_edge(nbrs[i], nbrs[j]) {
                    out.push((nbrs[i], nbrs[j]));
                }
                proof {
                    let prev = m.missing_rows(nbrs@, i as int);
                    assert(m.row_missing(nbrs@, i as int, j + 1) == if !m.adj(nbrs@[i as int], nbrs@[j as int]) {
                        m.row_missing(nbrs@, i as int, j as int).push((nbrs@[i as int], nbrs@[j as int]))
                    } else {
                        m.row_missing(nbrs@, i as int, j as int)
                    });
                    assert(out@ =~= prev + m.row_missing(nbrs@, i as int, j + 1));
                }
                j += 1;
            }
            i += 1;
        }
        out
    }

    /// Number of fill-in edges that eliminating `v` would add: the number of
    /// non-adjacent pairs among `v`'s alive neighbors, computed as
    /// `C(deg, 2)` minus the adjacent pairs.
    pub fn fill_in_count(&self, v: usize) -> (r: usize)
        requires
            self.wf(),
        ensures
            r == self@.missing_pairs(self@.nbrs(v)).len(),
    {
        let nbrs = self.alive_neighbors(v);
        let ghost m = self@;
        let d = nbrs.len();
        proof {
            lemma_idx_filter(m.nbr_pred(v), m.nodes.len());
        }
        if d < 2 {
            proof {
                if d == 1 {
                    assert(m.missing_rows(nbrs@, 1) == m.missing_rows(nbrs@, 0) + m.row_missing(nbrs@, 0, 1));
                }
            }
            return 0;
        }
        proof {
            assert(d * d <= m.nodes.len() * m.nodes.len()) by (nonlinear_arith)
                requires
                    d <= m.nodes.len(),
            ;
            assert(d * (d - 1) <= d * d) by (nonlinear_arith);
        }
        let pairs = d * (d - 1) / 2;
        let mut existing: usize = 0;
        let ghost mut visited: int = 0;
        let mut i: usize = 0;
        while i < d
            invariant
                self.wf(),
                m == self@,
                d == nbrs.len(),
                d >= 2,
                i <= d,
                2 * visited == i * (2 * d - i - 1),
                existing <= visited,
                d * d <= usize::MAX,
                existing + m.missing_rows(nbrs@, i as int).len() == visited,
            decreases d - i,
        {
            let ghost vis_i = visited;
            let mut j: usize = i + 1;
            while j < d
                invariant
                    self.wf(),
                    m == self@,
                    d == nbrs.len(),
                    i < d,
                    i + 1 <= j <= d,
                    visited == vis_i + (j - i - 1),
                    2 * vis_i == i * (2 * d - i - 1),
                    existing <= visited,
                    d * d <= usize::MAX,
                    existing + m.missing_rows(nbrs@, i as int).len() + m.row_missing(
                        nbrs@,
                        i as int,
                        j as int,
                    ).len() == visited,
                decreases d - j,
            {
                proof {
                    assert(m.row_missing(nbrs@, i as int, j + 1) == if !m.adj(nbrs@[i as int], nbrs@[j as int]) {
                        m.row_missing(nbrs@, i as int, j as int).push((nbrs@[i as int], nbrs@[j as int]))
                    } else {
                        m.row_missing(nbrs@, i as int, j as int)
                    });
                }
                proof {
                    assert(existing < d * d) by (nonlinear_arith)
                        requires
                            existing <= visited,
                            visited == vis_i + (j - i - 1),
                            2 * vis_i == i * (2 * d - i - 1),
                            i < d,
                            j < d,
                    ;
                }
                if self.has_edge(nbrs[i], nbrs[j]) {
                    existing += 1;
                }
                proof {
                    visited = visited + 1;
                }
                j += 1;
            }
            proof {
                assert(m.missing_rows(nbrs@, i + 1) == m.missing_rows(nbrs@, i as int) + m.row_missing(
                    nbrs@,
                    i as int,
                    d as int,
                ));
                assert(2 * visited == (i + 1) * (2 * d - (i + 1) - 1)) by (nonlinear_arith)
                    requires
                        visited == vis_i + (d - i - 1),
                        2 * vis_i == i * (2 * d - i - 1),
                ;
            }
            i += 1;
        }
        proof {
            assert(2 * visited == d * (d - 1)) by (nonlinear_arith)
                requires
                    2 * visited == d * (2 * d - d - 1),
            ;
        }
        pairs - existing
    }

    /// Is `v` simplicial: do its alive neighbors form a clique? (Vacuously
    /// true with fewer than two neighbors.)
    pub fn is_simplicial(&self, v: usize) -> (r: bool)
        requires
            self.wf(),
        ensures
            r == self@.is_clique(self@.nbrs(v)),
    {
        let nbrs = self.alive_neighbors(v);
        self.clique_without(&nbrs, nbrs.len())
    }

    /// Do the entries of `s` at positions other than `skip` form a clique?
    fn clique_without(&self, s: &Vec<usize>, skip: usize) -> (r: bool)
        requires
            self.wf(),
        ensures
            r == self@.is_clique_without(s@, skip as int),
            skip >= s.len() ==> r == self@.is_clique(s@),
    {
        let ghost m = self@;
        let d = s.len();
        let mut i: usize = 0;
        while i < d
            invariant
                self.wf(),
                m == self@,
                d == s.len(),
                i <= d,
                forall|p: int, q: int|
                    0 <= p < i && p < q < d && p != skip && q != skip ==> m.adj(s@[p], s@[q]),
            decreases d - i,
        {
            if i != skip {
                let mut j: usize = i + 1;
                while j < d
                    invariant
                        self.wf(),
                        m == self@,
                        d == s.len(),
                        i < d,
                        i != skip,
                        i + 1 <= j <= d,
                        forall|p: int, q: int|
                            0 <= p < i && p < q < d && p != skip && q != skip ==> m.adj(s@[p], s@[q]),
                        forall|q: int| i < q < j && q != skip ==> m.adj(s@[i as int], s@[q]),
                    decreases d - j,
                {
                    if j != skip {
                        if !self.has_edge(s[i], s[j]) {
                            return false;
                        }
                    }
                    j += 1;
                }
            }
            i += 1;
        }
        true
    }

    /// Is `v` almost simplicial: is there some neighbor whose removal leaves
    /// a clique? A simplicial vertex is also almost simplicial.
    pub fn is_almost_simplicial(&self, v: usize) -> (r: bool)
        requires
            self.wf(),
        ensures
            r == (self@.is_clique(self@.nbrs(v)) || exists|skip: int|
                0 <= skip < self@.nbrs(v).len() && #[trigger] self@.is_clique_without(self@.nbrs(v), skip)),
    {
        let nbrs = self.alive_neighbors(v);
        if self.is_simplicial(v) {
            return true;
        }
        let mut skip: usize = 0;
        while skip < nbrs.len()
            invariant
                self.wf(),
                nbrs@ == self@.nbrs(v),
                skip <= nbrs.len(),
                forall|k: int| 0 <= k < skip ==> !#[trigger] self@.is_clique_without(nbrs@, k),
            decreases nbrs.len() - skip,
        {
            if self.clique_without(&nbrs, skip) {
                return true;
            }
            skip += 1;
        }
        false
    }

    /// Number of alive vertices, other than `v`, that are alive neighbors of
    /// `u` and adjacent to `v`.
    pub fn common_neighbors(&self, u: usize, v: usize) -> (r: usize)
        requires
            self.wf(),
        ensures
            r == count_if(self@.nbrs(u), |x: usize| x != v && self@.adj(x, v)),
    {
        let nbrs = self.alive_neighbors(u);
        let ghost m = self@;
        let ghost p = |x: usize| x != v && m.adj(x, v);
        proof {
            lemma_idx_filter(m.nbr_pred(u), m.nodes.len());
        }
        let mut count: usize = 0;
        let mut k: usize = 0;
        while k < nbrs.len()
            invariant
                m == self@,
                nbrs@ == m.nbrs(u),
                nbrs.len() <= m.nodes.len(),
                m.wf(),
                p == (|x: usize| x != v && m.adj(x, v)),
                k <= nbrs.len(),
                count == count_if(nbrs@.take(k as int), p),
            decreases nbrs.len() - k,
        {
            let x = nbrs[k];
            proof {
                assert(nbrs@.take(k + 1) == nbrs@.take(k as int).push(x));
                lemma_count_if_push(nbrs@.take(k as int), x, p);
                lemma_count_if_le(nbrs@.take(k as int), p);
            }
            if x != v && self.has_edge(x, v) {
                count += 1;
            }
            k += 1;
        }
        proof {
            assert(nbrs@.take(nbrs.len() as int) =~= nbrs@);
        }
        count
    }

    /// Eliminate `v`: join every pair of `v`'s alive neighbors, then mark
    /// `v` deleted. Returns the degree of `v` at elimination time.
    pub fn elim(&mut self, v: usize) -> (r: usize)
        requires
            old(self).wf(),
            v < old(self)@.nodes.len(),
            old(self)@.fill_room() < index_limit(),
        ensures
            final(self).wf(),
            r == old(self)@.nbrs(v).len(),
            final(self)@.nodes == old(self)@.nodes,
            final(self)@.alive == old(self)@.alive.update(v as int, false),
            forall|x: usize, y: usize|
                #[trigger] final(self)@.adj(x, y) <==> old(self)@.adj(x, y) || (x != y && old(self)@.nbrs(
                    v,
                ).contains(x) && old(self)@.nbrs(v).contains(y)),
            final(self)@.fill_room() == old(self)@.fill_room(),
            final(self)@.edges.len() >= old(self)@.edges.len(),
    {
        let nbrs = self.alive_neighbors(v);
        let ghost m0 = self@;
        let ghost s = nbrs@;
        let d = nbrs.len();
        proof {
            lemma_idx_filter(m0.nbr_pred(v), m0.nodes.len());
        }
        let mut i: usize = 0;
        while i < d
            invariant
                self.wf(),
                s == nbrs@,
                s == m0.nbrs(v),
                strictly_increasing(s),
                forall|k: int| 0 <= k < s.len() ==> #[trigger] s[k] < m0.nodes.len(),
                d == s.len(),
                i <= d,
                self@.nodes == m0.nodes,
                self@.alive == m0.alive,
                self@.fill_room() == m0.fill_room(),
                m0.fill_room() < index_limit(),
                self@.edges.len() >= m0.edges.len(),
                forall|x: usize, y: usize|
                    #[trigger] self@.adj(x, y) <==> m0.adj(x, y) || pairs_done(s, i as int, (i + 1) as int, x, y),
            decreases d - i,
        {
            let mut j: usize = i + 1;
            while j < d
                invariant
                    self.wf(),
                    s == nbrs@,
                    strictly_increasing(s),
                    forall|k: int| 0 <= k < s.len() ==> #[trigger] s[k] < m0.nodes.len(),
                    d == s.len(),
                    i < d,
                    i + 1 <= j <= d,
                    self@.nodes == m0.nodes,
                    self@.alive == m0.alive,
                    self@.fill_room() == m0.fill_room(),
                    m0.fill_room() < index_limit(),
                    self@.edges.len() >= m0.edges.len(),
                    forall|x: usize, y: usize|
                        #[trigger] self@.adj(x, y) <==> m0.adj(x, y) || pairs_done(s, i as int, j as int, x, y),
                decreases d - j,
            {
                let ghost before = self@;
                assert(s[i as int] < s[j as int]);
                self.ensure_edge(nbrs[i], nbrs[j]);
                proof {
                    assert forall|x: usize, y: usize|
                        #[trigger] self@.adj(x, y) <==> m0.adj(x, y) || pairs_done(s, i as int, j + 1, x, y) by {
                        lemma_pairs_done_step(s, i as int, j as int, x, y);
                    }
                }
                j += 1;
            }
            proof {
                assert forall|x: usize, y: usize|
                    #[trigger] self@.adj(x, y) <==> m0.adj(x, y) || pairs_done(s, i + 1, i + 2, x, y) by {
                    lemma_pairs_done_row(s, i as int, x, y);
                }
            }
            i += 1;
        }
        let ghost mid = self@;
        fbs_set(&mut self.alive, v, false);
        proof {
            assert(self@.edges == mid.edges);
            lemma_pair_count_same(mid, self@);
            assert forall|x: usize, y: usize|
                #[trigger] self@.adj(x, y) <==> m0.adj(x, y) || (x != y && s.contains(x) && s.contains(y)) by {
                assert(self@.adj(x, y) == mid.adj(x, y));
                lemma_pairs_done_all(s, x, y);
            }
        }
        d
    }

    /// Contract the edge `{keep, drop}` into `keep`: every alive neighbor of
    /// `drop` other than `keep` becomes a neighbor of `keep`, then `drop` is
    /// marked deleted.
    pub fn contract(&mut self, keep: usize, drop: usize)
        requires
            old(self).wf(),
            keep < old(self)@.nodes.len(),
            drop < old(self)@.nodes.len(),
            old(self)@.fill_room() < index_limit(),
        ensures
            final(self).wf(),
            final(self)@.nodes == old(self)@.nodes,
            final(self)@.alive == old(self)@.alive.update(drop as int, false),
            forall|x: usize, y: usize|
                #[trigger] final(self)@.adj(x, y) <==> old(self)@.adj(x, y) || (x == keep && y != keep
                    && old(self)@.nbrs(drop).contains(y)) || (y == keep && x != keep && old(self)@.nbrs(
                    drop,
                ).contains(x)),
            final(self)@.fill_room() == old(self)@.fill_room(),
    {
        let nbrs = self.alive_neighbors(drop);
        let ghost m0 = self@;
        let ghost s = nbrs@;
        proof {
            lemma_idx_filter(m0.nbr_pred(drop), m0.nodes.len());
        }
        let mut k: usize = 0;
        while k < nbrs.len()
            invariant
                self.wf(),
                s == nbrs@,
                s == m0.nbrs(drop),
                forall|t: int| 0 <= t < s.len() ==> #[trigger] s[t] < m0.nodes.len(),
                keep < m0.nodes.len(),
                k <= s.len(),
                self@.nodes == m0.nodes,
                self@.alive == m0.alive,
                self@.fill_room() == m0.fill_room(),
                m0.fill_room() < index_limit(),
                forall|x: usize, y: usize|
                    #[trigger] self@.adj(x, y) <==> m0.adj(x, y) || (x == keep && y != keep && s.take(
                        k as int,
                    ).contains(y)) || (y == keep && x != keep && s.take(k as int).contains(x)),
            decreases s.len() - k,
        {
            let x = nbrs[k];
            if x != keep {
                self.ensure_edge(keep, x);
            }
            proof {
                assert(s.take(k + 1) =~= s.take(k as int).push(x));
                assert forall|y: usize| #[trigger] s.take(k + 1).contains(y) <==> s.take(k as int).contains(y) || y == x by {
                    if s.take(k + 1).contains(y) {
                        let t = choose|t: int| 0 <= t < k + 1 && #[trigger] s.take(k + 1)[t] == y;
                        if t < k {
                            assert(s.take(k as int)[t] == y);
                        }
                    }
                    if s.take(k as int).contains(y) {
                        let t = choose|t: int| 0 <= t < k && #[trigger] s.take(k as int)[t] == y;
                        assert(s.take(k + 1)[t] == y);
                    }
                    if y == x {
                        assert(s.take(k + 1)[k as int] == y);
                    }
                }
            }
            k += 1;
        }
        proof {
            assert(s.take(s.len() as int) =~= s);
        }
        let ghost mid = self@;
        fbs_set(&mut self.alive, drop, false);
        proof {
            assert(self@.edges == mid.edges);
            lemma_pair_count_same(mid, self@);
            assert forall|x: usize, y: usize| #[trigger] self@.adj(x, y) == mid.adj(x, y) by {}
        }
    }

    /// Is there at least one edge between `a` and `b`?
    pub fn has_edge(&self, a: usize, b: usize) -> (r: bool)
        requires
            self.wf(),
        ensures
            r == self@.adj(a, b),
    {
        let n = pg_node_count(&self.inner);
        if a >= n || b >= n {
            proof {
                if self@.adj(a, b) {
                    let i = choose|i: int| 0 <= i < self@.edges.len() && connects(#[trigger] self@.edges[i], a, b);
                    assert(self@.edges[i].0 < n && self@.edges[i].1 < n);
                }
            }
            return false;
        }
        pg_contains_edge(&self.inner, a, b)
    }
}

/// Adjacency after appending an edge.
pub proof fn lemma_adj_push(m: GraphModel, m2: GraphModel, e: (usize, usize, EColor))
    requires
        m2.edges == m.edges.push(e),
    ensures
        forall|x: usize, y: usize| #[trigger] m2.adj(x, y) <==> m.adj(x, y) || connects(e, x, y),
{
    assert forall|x: usize, y: usize| #[trigger] m2.adj(x, y) <==> m.adj(x, y) || connects(e, x, y) by {
        if m2.adj(x, y) {
            let i = choose|i: int| 0 <= i < m2.edges.len() && connects(#[trigger] m2.edges[i], x, y);
            if i < m.edges.len() {
                assert(m.edges[i] == m2.edges[i]);
            }
        }
        if m.adj(x, y) {
            let i = choose|i: int| 0 <= i < m.edges.len() && connects(#[trigger] m.edges[i], x, y);
            assert(m2.edges[i] == m.edges[i]);
        }
        if connects(e, x, y) {
            assert(m2.edges[m.edges.len() as int] == e);
        }
    }
}

/// Adjacency is unchanged when one edge changes color.
pub proof fn lemma_adj_recolor(m: GraphModel, m2: GraphModel, r: int, c: EColor)
    requires
        0 <= r < m.edges.len(),
        m2.edges == m.edges.update(r, (m.edges[r].0, m.edges[r].1, c)),
    ensures
        forall|x: usize, y: usize| #[trigger] m2.adj(x, y) == m.adj(x, y),
{
    assert forall|x: usize, y: usize| #[trigger] m2.adj(x, y) == m.adj(x, y) by {
        if m2.adj(x, y) {
            let i = choose|i: int| 0 <= i < m2.edges.len() && connects(#[trigger] m2.edges[i], x, y);
            assert(connects(m.edges[i], x, y));
        }
        if m.adj(x, y) {
            let i = choose|i: int| 0 <= i < m.edges.len() && connects(#[trigger] m.edges[i], x, y);
            assert(connects(m2.edges[i], x, y));
        }
    }
}

/// Same adjacency on the same vertices: same pair count.
pub proof fn lemma_pair_count_same(m: GraphModel, m2: GraphModel)
    requires
        m.nodes.len() == m2.nodes.len(),
        forall|x: usize, y: usize| #[trigger] m2.adj(x, y) == m.adj(x, y),
    ensures
        m2.pair_count() == m.pair_count(),
{
    let n = m.nodes.len();
    assert forall|b: nat| b < n implies #[trigger] m.row_adj(b) == m2.row_adj(b) by {
        lemma_count_below_ext(
            |a: nat| a < b && m.adj(a as usize, b as usize),
            |a: nat| a < b && m2.adj(a as usize, b as usize),
            b,
        );
    }
    lemma_sum_below_ext(|b: nat| m.row_adj(b), |b: nat| m2.row_adj(b), n);
}

/// Joining one more pair adds one to the pair count.
pub proof fn lemma_pair_count_flip(m: GraphModel, m2: GraphModel, a: usize, b: usize)
    requires
        m.nodes.len() == m2.nodes.len(),
        m.nodes.len() < index_limit(),
        a < b < m.nodes.len(),
        !m.adj(a, b),
        m2.adj(a, b),
        forall|x: usize, y: usize|
            !((x == a && y == b) || (x == b && y == a)) ==> #[trigger] m2.adj(x, y) == m.adj(x, y),
    ensures
        m2.pair_count() == m.pair_count() + 1,
{
    let n = m.nodes.len();
    assert forall|bb: nat| bb < n && bb != b implies #[trigger] m.row_adj(bb) == m2.row_adj(bb) by {
        assert forall|x: nat| x < bb implies #[trigger] m2.adj(x as usize, bb as usize) == m.adj(x as usize, bb as usize) by {
            assert(!((x as usize == a && bb as usize == b) || (x as usize == b && bb as usize == a)));
        }
        lemma_count_below_ext(
            |x: nat| x < bb && m.adj(x as usize, bb as usize),
            |x: nat| x < bb && m2.adj(x as usize, bb as usize),
            bb,
        );
    }
    lemma_count_below_flip(
        |x: nat| x < b && m.adj(x as usize, b as usize),
        |x: nat| x < b && m2.adj(x as usize, b as usize),
        b as nat,
        a as nat,
    );
    lemma_sum_below_bump(|bb: nat| m.row_adj(bb), |bb: nat| m2.row_adj(bb), n, b as nat);
}

/// The pair count is at most `n * n`, and below it when a pair is not joined.
pub proof fn lemma_pair_count_bound(m: GraphModel)
    requires
        m.nodes.len() < index_limit(),
    ensures
        m.pair_count() <= m.nodes.len() * m.nodes.len(),
        forall|a: usize, b: usize|
            a < b < m.nodes.len() && !#[trigger] m.adj(a, b) ==> m.pair_count() + 1 <= m.nodes.len() * m.nodes.len(),
{
    let n = m.nodes.len();
    assert forall|bb: nat| bb < n implies #[trigger] m.row_adj(bb) <= n by {
        lemma_count_below_le(|x: nat| x < bb && m.adj(x as usize, bb as usize), bb);
    }
    lemma_sum_below_le(|bb: nat| m.row_adj(bb), n, n);
    assert forall|a: usize, b: usize|
        a < b < m.nodes.len() && !#[trigger] m.adj(a, b) implies m.pair_count() + 1 <= n * n by {
        let p = |x: nat| x < b && m.adj(x as usize, b as usize);
        let q = |x: nat| (x < b && m.adj(x as usize, b as usize)) || x == a;
        lemma_count_below_flip(p, q, b as nat, a as nat);
        lemma_count_below_le(q, b as nat);
        let f = |bb: nat| m.row_adj(bb);
        let g = |bb: nat| if bb == b as nat { m.row_adj(bb) + 1 } else { m.row_adj(bb) };
        lemma_sum_below_bump(f, g, n, b as nat);
        assert forall|bb: nat| bb < n implies #[trigger] g(bb) <= n by {
            lemma_count_below_le(|x: nat| x < bb && m.adj(x as usize, bb as usize), bb);
        }
        lemma_sum_below_le(g, n, n);
    }
}

/// `{x, y}` is `{s[p], s[q]}` for some positions `p < q` before `(i, j)` in
/// row-major order.
pub open spec fn pairs_done(s: Seq<usize>, i: int, j: int, x: usize, y: usize) -> bool {
    exists|p: int, q: int|
        0 <= p < q < s.len() && (p < i || (p == i && q < j)) && #[trigger] pair_is(s, p, q, x, y)
}

pub open spec fn pair_is(s: Seq<usize>, p: int, q: int, x: usize, y: usize) -> bool {
    (s[p] == x && s[q] == y) || (s[p] == y && s[q] == x)
}

pub proof fn lemma_pairs_done_step(s: Seq<usize>, i: int, j: int, x: usize, y: usize)
    requires
        0 <= i < j < s.len(),
    ensures
        pairs_done(s, i, j + 1, x, y) <==> pairs_done(s, i, j, x, y) || pair_is(s, i, j, x, y),
{
    if pairs_done(s, i, j + 1, x, y) {
        let (p, q) = choose|p: int, q: int|
            0 <= p < q < s.len() && (p < i || (p == i && q < j + 1)) && #[trigger] pair_is(s, p, q, x, y);
        if !(p == i && q == j) {
            assert(pairs_done(s, i, j, x, y));
        }
    }
    if pairs_done(s, i, j, x, y) {
        let (p, q) = choose|p: int, q: int|
            0 <= p < q < s.len() && (p < i || (p == i && q < j)) && #[trigger] pair_is(s, p, q, x, y);
        assert(pair_is(s, p, q, x, y));
    }
    if pair_is(s, i, j, x, y) {
        assert(pair_is(s, i, j, x, y));
    }
}

pub proof fn lemma_pairs_done_row(s: Seq<usize>, i: int, x: usize, y: usize)
    requires
        0 <= i < s.len(),
    ensures
        pairs_done(s, i, s.len() as int, x, y) <==> pairs_done(s, i + 1, i + 2, x, y),
{
    if pairs_done(s, i, s.len() as int, x, y) {
        let (p, q) = choose|p: int, q: int|
            0 <= p < q < s.len() && (p < i || (p == i && q < s.len())) && #[trigger] pair_is(s, p, q, x, y);
        assert(pair_is(s, p, q, x, y));
    }
    if pairs_done(s, i + 1, i + 2, x, y) {
        let (p, q) = choose|p: int, q: int|
            0 <= p < q < s.len() && (p < i + 1 || (p == i + 1 && q < i + 2)) && #[trigger] pair_is(s, p, q, x, y);
        assert(pair_is(s, p, q, x, y));
    }
}

pub proof fn lemma_pairs_done_all(s: Seq<usize>, x: usize, y: usize)
    requires
        strictly_increasing(s),
    ensures
        pairs_done(s, s.len() as int, (s.len() + 1) as int, x, y) <==> (x != y && s.contains(x) && s.contains(y)),
{
    if pairs_done(s, s.len() as int, (s.len() + 1) as int, x, y) {
        let (p, q) = choose|p: int, q: int|
            0 <= p < q < s.len() && (p < s.len() || (p == s.len() && q < s.len() + 1)) && #[trigger] pair_is(
                s,
                p,
                q,
                x,
                y,
            );
        assert(s[p] < s[q]);
    }
    if x != y && s.contains(x) && s.contains(y) {
        let px = choose|t: int| 0 <= t < s.len() && s[t] == x;
        let py = choose|t: int| 0 <= t < s.len() && s[t] == y;
        if px < py {
            assert(pair_is(s, px, py, x, y));
        } else {
            assert(pair_is(s, py, px, x, y));
        }
    }
}

/// One more than the largest endpoint of `edges` (0 when empty).
pub open spec fn max_endpoint(edges: Seq<(usize, usize)>) -> nat
    decreases edges.len(),
{
    if edges.len() == 0 {
        0
    } else {
        let prev = max_endpoint(edges.drop_last());
        let e = edges.last();
        let top = if e.0 > e.1 { e.0 + 1 } else { e.1 + 1 };
        if prev > top { prev } else { top as nat }
    }
}

/// No edge touches a vertex outside the graph.
pub proof fn lemma_mult_zero_outside(m: GraphModel, a: usize, b: usize)
    requires
        m.wf(),
        a >= m.nodes.len() || b >= m.nodes.len(),
    ensures
        m.mult(a, b) == 0,
{
    lemma_count_if_none(m.edges, crate::petgraph_ext::linking(a, b));
}

pub proof fn lemma_idx_filter_empty(k: nat)
    ensures
        idx_filter(|u: usize| false, k) == Seq::<usize>::empty(),
    decreases k,
{
    if k > 0 {
        lemma_idx_filter_empty((k - 1) as nat);
    }
}

/// `cmult` after appending an edge.
pub proof fn lemma_cmult_push(m: GraphModel, m2: GraphModel, e: (usize, usize, EColor))
    requires
        m2.edges == m.edges.push(e),
    ensures
        forall|x: usize, y: usize, c: EColor|
            #[trigger] m2.cmult(x, y, c) == m.cmult(x, y, c) + if connects(e, x, y) && e.2 == c { 1nat } else { 0nat },
{
    assert forall|x: usize, y: usize, c: EColor|
        #[trigger] m2.cmult(x, y, c) == m.cmult(x, y, c) + if connects(e, x, y) && e.2 == c { 1nat } else { 0nat } by {
        lemma_count_if_push(m.edges, e, joins(x, y, c));
    }
}

/// `cmult` after the edge at `k` is removed by moving the last edge into
/// its place.
pub proof fn lemma_cmult_swap_remove(m: GraphModel, m2: GraphModel, k: int)
    requires
        0 <= k < m.edges.len(),
        m2.edges == m.edges.update(k, m.edges.last()).drop_last(),
    ensures
        forall|x: usize, y: usize, c: EColor|
            #[trigger] m2.cmult(x, y, c) + (if connects(m.edges[k], x, y) && m.edges[k].2 == c { 1nat } else { 0nat })
                == m.cmult(x, y, c),
{
    assert forall|x: usize, y: usize, c: EColor|
        #[trigger] m2.cmult(x, y, c) + (if connects(m.edges[k], x, y) && m.edges[k].2 == c { 1nat } else { 0nat })
            == m.cmult(x, y, c) by {
        lemma_count_if_swap_remove(m.edges, k, joins(x, y, c));
    }
}

/// The edges joining `a` and `b` are the `NC` ones and the `H` ones.
pub proof fn lemma_mult_split(s: Seq<(usize, usize, EColor)>, a: usize, b: usize)
    ensures
        multiplicity(s, a, b) == count_if(s, joins(a, b, EColor::NC)) + count_if(s, joins(a, b, EColor::H)),
    decreases s.len(),
{
    if s.len() > 0 {
        lemma_mult_split(s.drop_last(), a, b);
    }
}

/// `cmult` does not depend on the order of the pair.
pub proof fn lemma_cmult_sym(m: GraphModel, a: usize, b: usize, c: EColor)
    ensures
        m.cmult(a, b, c) == m.cmult(b, a, c),
{
    lemma_count_sym(m.edges, a, b, c);
}

proof fn lemma_count_sym(s: Seq<(usize, usize, EColor)>, a: usize, b: usize, c: EColor)
    ensures
        count_if(s, joins(a, b, c)) == count_if(s, joins(b, a, c)),
    decreases s.len(),
{
    if s.len() > 0 {
        lemma_count_sym(s.drop_last(), a, b, c);
    }
}

/// The alive edges, each with its color, in index order.
pub open spec fn alive_colored(m: GraphModel) -> Seq<(usize, usize, EColor)> {
    m.alive_edge_ids().map_values(|i: usize| m.edges[i as int])
}

proof fn lemma_alive_count_upto(m: GraphModel, q: spec_fn((usize, usize, EColor)) -> bool, k: nat)
    requires
        k <= m.edges.len(),
        m.edges.len() <= usize::MAX,
        forall|i: int| 0 <= i < m.edges.len() && q(#[trigger] m.edges[i]) ==> m.is_alive(m.edges[i].0) && m.is_alive(m.edges[i].1),
    ensures
        count_if(
            idx_filter(
                |i: usize|
                    (i as int) < m.edges.len() && m.is_alive(m.edges[i as int].0) && m.is_alive(m.edges[i as int].1),
                k,
            ).map_values(|i: usize| m.edges[i as int]),
            q,
        ) == count_if(m.edges.take(k as int), q),
    decreases k,
{
    let p = |i: usize| (i as int) < m.edges.len() && m.is_alive(m.edges[i as int].0) && m.is_alive(m.edges[i as int].1);
    if k > 0 {
        lemma_alive_count_upto(m, q, (k - 1) as nat);
        let prev = idx_filter(p, (k - 1) as nat);
        let e = m.edges[k - 1];
        assert(m.edges.take(k as int).drop_last() =~= m.edges.take(k - 1));
        assert(((k - 1) as usize) as int == k - 1);
        assert(m.edges.take(k as int).last() == e);
        if p((k - 1) as usize) {
            assert(prev.push((k - 1) as usize).map_values(|i: usize| m.edges[i as int]) =~= prev.map_values(
                |i: usize| m.edges[i as int],
            ).push(e));
            lemma_count_if_push(prev.map_values(|i: usize| m.edges[i as int]), e, q);
        } else {
            assert(!q(e));
        }
    } else {
        assert(idx_filter(p, 0).map_values(|i: usize| m.edges[i as int]) =~= Seq::<(usize, usize, EColor)>::empty());
    }
}

/// Counting the alive edges (with their colors) by a property that only
/// alive edges have gives the count over all edges.
pub proof fn lemma_alive_count(m: GraphModel, q: spec_fn((usize, usize, EColor)) -> bool)
    requires
        m.edges.len() <= usize::MAX,
        forall|i: int| 0 <= i < m.edges.len() && q(#[trigger] m.edges[i]) ==> m.is_alive(m.edges[i].0) && m.is_alive(m.edges[i].1),
    ensures
        count_if(alive_colored(m), q) == count_if(m.edges, q),
{
    lemma_alive_count_upto(m, q, m.edges.len());
    assert(m.edges.take(m.edges.len() as int) =~= m.edges);
}

/// A graph without edges joins no pair.
pub proof fn lemma_pair_count_edgeless(m: GraphModel)
    requires
        m.edges.len() == 0,
    ensures
        m.pair_count() == 0,
{
    let n = m.nodes.len();
    assert forall|b: nat| b < n implies #[trigger] m.row_adj(b) <= 0 by {
        lemma_count_below_none(|a: nat| a < b && m.adj(a as usize, b as usize), b);
    }
    crate::seqs::lemma_sum_below_le(|b: nat| m.row_adj(b), n, 0);
}

proof fn lemma_count_below_none(p: spec_fn(nat) -> bool, k: nat)
    requires
        forall|i: nat| i < k ==> !#[trigger] p(i),
    ensures
        count_below(p, k) == 0,
    decreases k,
{
    if k > 0 {
        lemma_count_below_none(p, (k - 1) as nat);
    }
}

/// Counts that are dominated key by key are dominated in total: if, for
/// every pair and color, fewer entries of `s1` with `p1` map under `f1` to
/// an edge of that pair and color than entries of `s2` with `p2` map under
/// `f2`, then fewer entries of `s1` satisfy `p1` than of `s2` satisfy `p2`.
pub proof fn lemma_key_dominated(
    s1: Seq<(usize, usize, EColor)>,
    p1: spec_fn((usize, usize, EColor)) -> bool,
    f1: spec_fn((usize, usize, EColor)) -> (usize, usize, EColor),
    s2: Seq<(usize, usize, EColor)>,
    p2: spec_fn((usize, usize, EColor)) -> bool,
    f2: spec_fn((usize, usize, EColor)) -> (usize, usize, EColor),
)
    requires
        forall|x: usize, y: usize, c: EColor|
            count_if(s1, and_pred(p1, after(f1, joins(x, y, c)))) <= #[trigger] count_if(
                s2,
                and_pred(p2, after(f2, joins(x, y, c))),
            ),
    ensures
        count_if(s1, p1) <= count_if(s2, p2),
    decreases s1.len(),
{
    if s1.len() > 0 {
        let e = s1.last();
        let t1 = s1.drop_last();
        if !p1(e) {
            assert forall|x: usize, y: usize, c: EColor|
                count_if(t1, and_pred(p1, after(f1, joins(x, y, c)))) <= #[trigger] count_if(
                    s2,
                    and_pred(p2, after(f2, joins(x, y, c))),
                ) by {
                assert(count_if(s1, and_pred(p1, after(f1, joins(x, y, c)))) == count_if(t1, and_pred(p1, after(f1, joins(x, y, c)))));
            }
            lemma_key_dominated(t1, p1, f1, s2, p2, f2);
        } else {
            let k = f1(e);
            let q = and_pred(p2, after(f2, joins(k.0, k.1, k.2)));
            assert(and_pred(p1, after(f1, joins(k.0, k.1, k.2)))(e));
            assert(count_if(s2, q) >= 1);
            lemma_count_if_pos(s2, q);
            let j = choose|j: int| 0 <= j < s2.len() && q(#[trigger] s2[j]);
            let t2 = s2.update(j, s2.last()).drop_last();
            assert forall|x: usize, y: usize, c: EColor|
                count_if(t1, and_pred(p1, after(f1, joins(x, y, c)))) <= #[trigger] count_if(
                    t2,
                    and_pred(p2, after(f2, joins(x, y, c))),
                ) by {
                lemma_count_if_swap_remove(s2, j, and_pred(p2, after(f2, joins(x, y, c))));
                assert(joins(x, y, c)(f1(e)) == joins(x, y, c)(f2(s2[j])));
                assert(count_if(s1, and_pred(p1, after(f1, joins(x, y, c)))) == count_if(t1, and_pred(p1, after(f1, joins(x, y, c))))
                    + if joins(x, y, c)(f1(e)) { 1nat } else { 0nat });
            }
            lemma_count_if_swap_remove(s2, j, p2);
            lemma_key_dominated(t1, p1, f1, t2, p2, f2);
        }
    }
}

} // verus!
