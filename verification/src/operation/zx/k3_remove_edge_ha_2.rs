//! K3 edge removal at a Hadamard-degree-2 vertex.
//!
//! The rule targets an alive Z spider `v` whose H-edge neighbourhood is
//! exactly two vertices `a < b` (its other neighbours hang on normal
//! edges), with `v`, `a`, `b` a triangle of alive H edges of Z spiders.
//! With `v = Z(s)`, the rewrite unfuses `v`
//! (`N1 == u(Z(0)) == w(Z(s)) == v(Z(0))`, see
//! [`unfuse_to_sep_h_edge`](crate::operation::unfuse::unfuse_to_sep_h_edge)),
//! removes one edge between `a` and `b`, raises the phases of `a` and `b`
//! by one step, and replaces the `w`-`v` edge by a fresh `X(7)` spider
//! joined to both: `u == w == x == v`.

use vstd::prelude::*;

use crate::graph::{joins, lemma_cmult_push, lemma_cmult_swap_remove, lemma_cmult_sym, EColor, Graph, GraphModel, VColor};
use crate::operation::unfuse::{unfuse_room, unfuse_to_sep_h_edge_in_place, unfused};
use crate::operation::utils::{
    acmult, alive_h, alive_h_pred, color_count, colored, colored_nbrs, colored_pred, get_h_neighbour, get_normal_neighbour,
    h_connected, ident_edge, is_n1, lemma_alive_h_key, lemma_cmult_outside, nc_connected, same_pair,
};
use crate::operation::zx::k3_remove_edge::bump;
use crate::petgraph_ext::{connects, index_limit};
use crate::seqs::{after, and_pred, count_if, idx_filter, lemma_count_if_push, lemma_count_if_swap_remove, lemma_idx_filter};

verus! {

/// `v` is a valid Hadamard-degree-2 site: an alive Z spider whose alive H
/// neighbours are exactly two Z spiders `a < b`, the three pairwise joined
/// by alive H edges.
pub open spec fn valid_had2(m: GraphModel, v: usize) -> bool {
    let hn = colored_nbrs(m, v, EColor::H);
    &&& m.is_alive(v)
    &&& m.nodes[v as int] is Z
    &&& hn.len() == 2
    &&& m.nodes[hn[0] as int] is Z
    &&& m.nodes[hn[1] as int] is Z
    &&& acmult(m, v, hn[0], EColor::H) > 0
    &&& acmult(m, v, hn[1], EColor::H) > 0
    &&& acmult(m, hn[0], hn[1], EColor::H) > 0
}

/// The pair `{x, y}` carries both an alive normal edge and an alive H
/// edge.
pub open spec fn mixed(m: GraphModel, x: usize, y: usize) -> bool {
    acmult(m, x, y, EColor::NC) > 0 && acmult(m, x, y, EColor::H) > 0
}

/// At a valid site, `v` shares no mixed pair with its H neighbours (the
/// rewrite would otherwise lose one of them).
pub open spec fn had2_safe(m: GraphModel, v: usize) -> bool {
    valid_had2(m, v) ==> !mixed(m, v, colored_nbrs(m, v, EColor::H)[0]) && !mixed(m, v, colored_nbrs(m, v, EColor::H)[1])
}

/// Room for the three fresh vertices and the edges of the rewrite.
pub open spec fn had2_room(m: GraphModel, v: usize) -> bool {
    &&& unfuse_room(m, v)
    &&& m.nodes.len() + 4 < index_limit()
    &&& (m.nodes.len() + 3) * (m.nodes.len() + 3) <= usize::MAX
    &&& m.edges.len() + 5 < index_limit()
}

/// The colored multiplicity of `{x, y}` after the rewrite at `v` with H
/// neighbours `a`, `b`, the removed `a`-`b` edge having color `c0`: the
/// unfused graph (fresh `u = n`, `w = n + 1`) without its `w`-`v` edge and
/// one `a`-`b` edge of color `c0`, plus one normal edge from the fresh
/// `x = n + 2` to `v` and to `w`.
pub open spec fn had2_rewritten(m: GraphModel, v: usize, a: usize, b: usize, c0: EColor, x: usize, y: usize, c: EColor) -> nat {
    let w = (m.nodes.len() + 1) as usize;
    let xx = (m.nodes.len() + 2) as usize;
    if same_pair(x, y, v, xx) || same_pair(x, y, w, xx) {
        if c == EColor::NC { 1 } else { 0 }
    } else if same_pair(x, y, w, v) {
        0
    } else if same_pair(x, y, a, b) && c == c0 {
        (m.cmult(x, y, c) - 1) as nat
    } else {
        unfused(m, v, x, y, c)
    }
}

/// Is `v` a valid Hadamard-degree-2 site?
fn valid_k3_vertex_had2(g: &Graph, v: usize) -> (r: bool)
    requires
        g.wf(),
    ensures
        r == valid_had2(g@, v),
{
    if !g.is_alive(v) {
        return false;
    }
    proof {
        g.lemma_wf();
    }
    if !matches!(g.label(v), VColor::Z(_)) {
        return false;
    }
    let nbrs = get_h_neighbour(g, v);
    if nbrs.len() != 2 {
        return false;
    }
    let a = nbrs[0];
    let b = nbrs[1];
    proof {
        lemma_idx_filter(colored_pred(g@, v, EColor::H), g@.nodes.len());
        assert(colored_pred(g@, v, EColor::H)(a) && colored_pred(g@, v, EColor::H)(b));
    }
    if !matches!(g.label(a), VColor::Z(_)) || !matches!(g.label(b), VColor::Z(_)) {
        return false;
    }
    h_connected(g, v, a) && h_connected(g, v, b) && h_connected(g, a, b)
}

/// The H neighbours of `v` are unchanged by unfusing `v` when `v` shares
/// no mixed pair with them; its normal neighbours become just `w`.
proof fn lemma_unfused_nbrs(m0: GraphModel, m1: GraphModel, v: usize)
    requires
        m0.wf(),
        valid_had2(m0, v),
        had2_safe(m0, v),
        m1.nodes.len() == m0.nodes.len() + 2,
        m1.alive == m0.alive.push(true).push(true),
        forall|x: usize, y: usize, c: EColor| #[trigger] m1.cmult(x, y, c) == unfused(m0, v, x, y, c),
        m0.nodes.len() + 2 <= usize::MAX,
    ensures
        colored_nbrs(m1, v, EColor::H) == colored_nbrs(m0, v, EColor::H),
        colored_nbrs(m1, v, EColor::NC) == seq![(m0.nodes.len() + 1) as usize],
{
    let n = m0.nodes.len();
    let u = n as usize;
    let w = (n + 1) as usize;
    let hn = colored_nbrs(m0, v, EColor::H);
    let p0 = colored_pred(m0, v, EColor::H);
    let p1 = colored_pred(m1, v, EColor::H);
    lemma_idx_filter(p0, n);
    assert forall|k: usize| k < n implies #[trigger] p1(k) == p0(k) by {
        assert(m1.is_alive(k) == m0.is_alive(k));
        if is_n1(m0, v, k) && p0(k) {
            assert(hn.contains(k));
            assert(k == hn[0] || k == hn[1]);
        }
    }
    assert forall|k: usize| n <= k < n + 2 implies !#[trigger] p1(k) by {
        lemma_cmult_outside(m0, v, k, EColor::H);
        lemma_cmult_outside(m0, v, k, EColor::NC);
    }
    crate::seqs::lemma_idx_filter_tail(p1, n, n + 2);
    crate::seqs::lemma_idx_filter_ext(p1, p0, n);
    let q1 = colored_pred(m1, v, EColor::NC);
    assert forall|k: usize| #[trigger] q1(k) <==> k == w by {
        if k < n {
            assert(m1.is_alive(k) == m0.is_alive(k));
        } else {
            lemma_cmult_outside(m0, v, k, EColor::NC);
        }
    }
    lemma_idx_filter(q1, n + 2);
    let f = idx_filter(q1, n + 2);
    assert(f.contains(w));
    assert forall|i: int| 0 <= i < f.len() implies f[i] == w by {
        assert(q1(f[i]));
    }
    if f.len() > 1 {
        assert(f[0] < f[1]);
    }
    assert(f =~= seq![w]);
}

/// Apply the rewrite at `v` in place (see [`had2_rewritten`]); nothing
/// changes at an invalid site.
pub(crate) fn k3_remove_edge_had2_in_place(g: &mut Graph, v: usize)
    requires
        old(g).wf(),
        had2_safe(old(g)@, v),
        had2_room(old(g)@, v),
    ensures
        final(g).wf(),
        !valid_had2(old(g)@, v) ==> final(g)@ == old(g)@,
        valid_had2(old(g)@, v) ==> {
            let a = colored_nbrs(old(g)@, v, EColor::H)[0];
            let b = colored_nbrs(old(g)@, v, EColor::H)[1];
            &&& final(g)@.nodes == old(g)@.nodes.push(VColor::Z(0)).push(old(g)@.nodes[v as int]).update(v as int, VColor::Z(0)).update(
                a as int,
                bump(old(g)@.nodes[a as int]),
            ).update(b as int, bump(old(g)@.nodes[b as int])).push(VColor::X(7))
            &&& final(g)@.nodes.len() == old(g)@.nodes.len() + 3
            &&& final(g)@.alive == old(g)@.alive.push(true).push(true).push(true)
            &&& final(g)@.edges.len() <= old(g)@.edges.len() + 2
            &&& exists|c0: EColor| {
                &&& old(g)@.cmult(a, b, c0) > 0
                &&& forall|x: usize, y: usize, c: EColor| #[trigger] final(g)@.cmult(x, y, c) == had2_rewritten(old(g)@, v, a, b, c0, x, y, c)
                &&& (forall|k: usize| is_n1(old(g)@, v, k) ==> #[trigger] old(g)@.cmult(v, k, EColor::H) == 0) ==> color_count(final(g)@, EColor::H)
                    + (if c0 == EColor::H { 1nat } else { 0nat }) == color_count(old(g)@, EColor::H)
            }
        },
{
    if !valid_k3_vertex_had2(g, v) {
        return;
    }
    let ghost m0 = g@;
    let ghost n = m0.nodes.len();
    let ghost hn = colored_nbrs(m0, v, EColor::H);
    proof {
        g.lemma_wf();
        lemma_idx_filter(colored_pred(m0, v, EColor::H), n);
        assert(colored_pred(m0, v, EColor::H)(hn[0]) && colored_pred(m0, v, EColor::H)(hn[1]));
    }
    unfuse_to_sep_h_edge_in_place(g, v);
    let ghost m1 = g@;
    proof {
        g.lemma_wf();
        lemma_unfused_nbrs(m0, m1, v);
    }
    let h_nbrs = get_h_neighbour(g, v);
    let a = h_nbrs[0];
    let b = h_nbrs[1];
    let normal_nbrs = get_normal_neighbour(g, v);
    let w = normal_nbrs[0];
    proof {
        assert(a == hn[0] && b == hn[1]);
        assert(w == n + 1);
        assert(a < n && b < n && a != b && a != v && b != v);
        assert(m1.cmult(a, b, EColor::H) == m0.cmult(a, b, EColor::H));
        assert(m1.adj(a, b)) by {
            crate::seqs::lemma_count_if_pos(m1.edges, crate::graph::joins(a, b, EColor::H));
            let i = choose|i: int| 0 <= i < m1.edges.len() && crate::graph::joins(a, b, EColor::H)(#[trigger] m1.edges[i]);
            assert(connects(m1.edges[i], a, b));
        }
    }
    g.remove_edge(a, b);
    let ghost m2 = g@;
    let ghost k1 = choose|k: int|
        0 <= k < m1.edges.len() && connects(#[trigger] m1.edges[k], a, b) && m2.edges == m1.edges.update(k, m1.edges.last()).drop_last();
    let ghost c0 = m1.edges[k1].2;
    proof {
        lemma_cmult_swap_remove(m1, m2, k1);
        lemma_count_if_swap_remove(m1.edges, k1, colored(EColor::H));
        assert(m2.cmult(a, b, c0) + 1 == m1.cmult(a, b, c0));
    }
    if let VColor::Z(s) = g.label(a) {
        g.set_color(a, VColor::Z((s % 8 + 1) % 8));
    }
    if let VColor::Z(s) = g.label(b) {
        g.set_color(b, VColor::Z((s % 8 + 1) % 8));
    }
    let ghost m3 = g@;
    proof {
        assert(m3.edges == m2.edges);
        assert(m3.cmult(w, v, EColor::NC) == 1 && m3.cmult(w, v, EColor::H) == 0) by {
            assert(m2.cmult(w, v, EColor::NC) == m1.cmult(w, v, EColor::NC));
            assert(m2.cmult(w, v, EColor::H) == m1.cmult(w, v, EColor::H));
        }
        assert(m3.adj(w, v)) by {
            crate::seqs::lemma_count_if_pos(m3.edges, crate::graph::joins(w, v, EColor::NC));
            let i = choose|i: int| 0 <= i < m3.edges.len() && crate::graph::joins(w, v, EColor::NC)(#[trigger] m3.edges[i]);
            assert(connects(m3.edges[i], w, v));
        }
    }
    g.remove_edge(w, v);
    let ghost m4 = g@;
    let ghost k2 = choose|k: int|
        0 <= k < m3.edges.len() && connects(#[trigger] m3.edges[k], w, v) && m4.edges == m3.edges.update(k, m3.edges.last()).drop_last();
    proof {
        lemma_cmult_swap_remove(m3, m4, k2);
        lemma_count_if_swap_remove(m3.edges, k2, colored(EColor::H));
        assert(m4.cmult(w, v, EColor::H) + (if m3.edges[k2].2 == EColor::H { 1nat } else { 0nat }) == m3.cmult(w, v, EColor::H));
        assert(m3.edges[k2].2 == EColor::NC);
        let l = g@.nodes.len();
        assert((l + 1) * (l + 1) <= (n + 3) * (n + 3)) by (nonlinear_arith)
            requires
                l == n + 2,
        ;
    }
    let x = g.add_vertex_with(VColor::X(7));
    let ghost m5 = g@;
    g.add_edge_c(v, x, EColor::NC);
    let ghost m6 = g@;
    g.add_edge_c(w, x, EColor::NC);
    proof {
        lemma_cmult_push(m5, m6, (v, x, EColor::NC));
        lemma_cmult_push(m6, g@, (w, x, EColor::NC));
        lemma_count_if_push(m5.edges, (v, x, EColor::NC), colored(EColor::H));
        lemma_count_if_push(m6.edges, (w, x, EColor::NC), colored(EColor::H));
        assert(m5.edges == m4.edges);
        assert forall|xx: usize, yy: usize, c: EColor| #[trigger] g@.cmult(xx, yy, c) == had2_rewritten(m0, v, a, b, c0, xx, yy, c) by {
            assert(m5.cmult(xx, yy, c) == m4.cmult(xx, yy, c));
            assert(m3.cmult(xx, yy, c) == m2.cmult(xx, yy, c));
            assert(connects(m1.edges[k1], xx, yy) == same_pair(xx, yy, a, b));
            assert(connects(m3.edges[k2], xx, yy) == same_pair(xx, yy, w, v));
            assert(m2.cmult(xx, yy, c) + (if connects(m1.edges[k1], xx, yy) && c0 == c { 1nat } else { 0nat }) == m1.cmult(xx, yy, c));
            assert(m4.cmult(xx, yy, c) + (if connects(m3.edges[k2], xx, yy) && m3.edges[k2].2 == c { 1nat } else { 0nat }) == m3.cmult(xx, yy, c));
            if same_pair(xx, yy, v, x) || same_pair(xx, yy, w, x) {
                lemma_cmult_outside(m0, xx, yy, c);
                lemma_cmult_outside(m0, v, x, EColor::NC);
                lemma_cmult_outside(m0, w, x, EColor::NC);
                assert(!same_pair(xx, yy, a, b) && !same_pair(xx, yy, w, v));
                assert(m1.cmult(xx, yy, c) == 0);
            }
        }
        assert(g@.nodes =~= m0.nodes.push(VColor::Z(0)).push(m0.nodes[v as int]).update(v as int, VColor::Z(0)).update(
            a as int,
            bump(m0.nodes[a as int]),
        ).update(b as int, bump(m0.nodes[b as int])).push(VColor::X(7))) by {
            match m0.nodes[a as int] {
                VColor::Z(s) => {
                    assert((s % 8 + 1) % 8 == (s + 1) % 8) by (nonlinear_arith);
                },
                _ => {},
            }
            match m0.nodes[b as int] {
                VColor::Z(s) => {
                    assert((s % 8 + 1) % 8 == (s + 1) % 8) by (nonlinear_arith);
                },
                _ => {},
            }
        }
        assert(g@.alive =~= m0.alive.push(true).push(true).push(true));
        assert(m0.cmult(a, b, c0) > 0) by {
            assert(m1.cmult(a, b, c0) == unfused(m0, v, a, b, c0));
        }
    }
}

/// Apply the rewrite at `v` (see [`had2_rewritten`]) to a copy of `g`; an
/// invalid site returns the graph unchanged.
pub fn k3_remove_edge_had2_on_vertex(g: &Graph, v: usize) -> (r: Graph)
    requires
        g.wf(),
        had2_safe(g@, v),
        had2_room(g@, v),
    ensures
        r.wf(),
        r@.edges.len() <= g@.edges.len() + 2,
        !valid_had2(g@, v) ==> r@ == g@,
        valid_had2(g@, v) ==> {
            let a = colored_nbrs(g@, v, EColor::H)[0];
            let b = colored_nbrs(g@, v, EColor::H)[1];
            &&& r@.nodes == g@.nodes.push(VColor::Z(0)).push(g@.nodes[v as int]).update(v as int, VColor::Z(0)).update(
                a as int,
                bump(g@.nodes[a as int]),
            ).update(b as int, bump(g@.nodes[b as int])).push(VColor::X(7))
            &&& r@.alive == g@.alive.push(true).push(true).push(true)
            &&& exists|c0: EColor| g@.cmult(a, b, c0) > 0 && forall|x: usize, y: usize, c: EColor|
                #[trigger] r@.cmult(x, y, c) == had2_rewritten(g@, v, a, b, c0, x, y, c)
        },
{
    let mut out = g.clone();
    k3_remove_edge_had2_in_place(&mut out, v);
    out
}

/// No alive pair carries both a normal and an H edge.
pub open spec fn no_mixed(m: GraphModel) -> bool {
    forall|x: usize, y: usize| !#[trigger] mixed(m, x, y)
}

/// The rewrite keeps a graph free of mixed pairs.
proof fn lemma_had2_keeps_unmixed(m0: GraphModel, m: GraphModel, v: usize, a: usize, b: usize, c0: EColor)
    requires
        m0.wf(),
        no_mixed(m0),
        valid_had2(m0, v),
        a == colored_nbrs(m0, v, EColor::H)[0],
        b == colored_nbrs(m0, v, EColor::H)[1],
        c0 == EColor::H,
        m.alive == m0.alive.push(true).push(true).push(true),
        forall|x: usize, y: usize, c: EColor| #[trigger] m.cmult(x, y, c) == had2_rewritten(m0, v, a, b, c0, x, y, c),
    ensures
        no_mixed(m),
{
    let n = m0.nodes.len();
    let w = (n + 1) as usize;
    let xx = (n + 2) as usize;
    let u = n as usize;
    assert forall|x: usize, y: usize| !#[trigger] mixed(m, x, y) by {
        if mixed(m, x, y) {
            let nc = m.cmult(x, y, EColor::NC);
            let h = m.cmult(x, y, EColor::H);
            assert(nc > 0 && h > 0);
            if same_pair(x, y, v, xx) || same_pair(x, y, w, xx) {
                assert(h == 0);
            } else if same_pair(x, y, w, v) {
                assert(nc == 0);
            } else {
                assert(nc == unfused(m0, v, x, y, EColor::NC));
                if (x == v && is_n1(m0, v, y)) || (y == v && is_n1(m0, v, x)) {
                    assert(nc == 0);
                } else if (x == u && is_n1(m0, v, y)) || (y == u && is_n1(m0, v, x)) {
                    assert(!same_pair(x, y, a, b));
                    assert(h == 0);
                } else if (x == w && (y == u || y == v)) || (y == w && (x == u || x == v)) {
                    assert(!same_pair(x, y, a, b));
                    assert(h == 0);
                } else {
                    assert(nc == m0.cmult(x, y, EColor::NC));
                    assert(unfused(m0, v, x, y, EColor::H) == m0.cmult(x, y, EColor::H));
                    if same_pair(x, y, a, b) {
                        lemma_cmult_sym(m0, a, b, EColor::H);
                        assert(m0.cmult(x, y, EColor::H) > 0);
                        assert(h == (m0.cmult(x, y, EColor::H) - 1) as nat);
                    } else {
                        assert(h == unfused(m0, v, x, y, EColor::H));
                    }
                    assert(h <= m0.cmult(x, y, EColor::H));
                    if x < n && y < n {
                        assert(m.is_alive(x) == m0.is_alive(x) && m.is_alive(y) == m0.is_alive(y));
                        assert(mixed(m0, x, y));
                    } else {
                        lemma_cmult_outside(m0, x, y, EColor::NC);
                    }
                }
            }
        }
    }
}

/// The first alive vertex, ascending, that is a valid Hadamard-degree-2
/// site.
fn has_valid_k3_vertex_had2(g: &Graph) -> (r: Option<usize>)
    requires
        g.wf(),
    ensures
        r is None ==> forall|v: usize| !#[trigger] valid_had2(g@, v),
        r matches Some(v) ==> first_had2(g@, v),
{
    let vs = g.alive_vertices();
    let ghost m = g@;
    proof {
        g.lemma_wf();
        lemma_idx_filter(|i: usize| (i as int) < m.alive.len() && m.alive[i as int], m.alive.len());
    }
    let mut i: usize = 0;
    while i < vs.len()
        invariant
            g.wf(),
            m == g@,
            vs@ == m.alive_list(),
            forall|u: usize| m.is_alive(u) ==> #[trigger] vs@.contains(u),
            crate::seqs::strictly_increasing(vs@),
            i <= vs.len(),
            forall|j: int| 0 <= j < i ==> !valid_had2(m, #[trigger] vs[j]),
        decreases vs.len() - i,
    {
        if valid_k3_vertex_had2(g, vs[i]) {
            proof {
                assert forall|u: usize| u < vs[i as int] implies !#[trigger] valid_had2(m, u) by {
                    if valid_had2(m, u) {
                        assert(vs@.contains(u));
                        let j = choose|j: int| 0 <= j < vs.len() && vs[j] == u;
                        if j >= i {
                            assert(vs[i as int] <= vs[j]);
                        }
                    }
                }
            }
            return Some(vs[i]);
        }
        i += 1;
    }
    proof {
        assert forall|v: usize| !#[trigger] valid_had2(g@, v) by {
            if valid_had2(m, v) {
                assert(vs@.contains(v));
                let j = choose|j: int| 0 <= j < vs.len() && vs[j] == v;
            }
        }
    }
    None
}

/// A valid site one of whose triangle sides also carries a normal edge.
pub open spec fn had2_stuck(m: GraphModel, v: usize) -> bool {
    let a = colored_nbrs(m, v, EColor::H)[0];
    let b = colored_nbrs(m, v, EColor::H)[1];
    valid_had2(m, v) && (mixed(m, v, a) || mixed(m, v, b) || mixed(m, a, b))
}

/// `v` is the first valid site of `m`.
pub open spec fn first_had2(m: GraphModel, v: usize) -> bool {
    valid_had2(m, v) && forall|u: usize| u < v ==> !#[trigger] valid_had2(m, u)
}

/// `r` is the rewrite of `g` at the valid site `v` (as
/// [`k3_remove_edge_had2_in_place`] states it).
pub open spec fn had2_step(g: GraphModel, r: GraphModel, v: usize) -> bool {
    let a = colored_nbrs(g, v, EColor::H)[0];
    let b = colored_nbrs(g, v, EColor::H)[1];
    &&& r.nodes == g.nodes.push(VColor::Z(0)).push(g.nodes[v as int]).update(v as int, VColor::Z(0)).update(
        a as int,
        bump(g.nodes[a as int]),
    ).update(b as int, bump(g.nodes[b as int])).push(VColor::X(7))
    &&& r.alive == g.alive.push(true).push(true).push(true)
    &&& exists|c0: EColor|
        g.cmult(a, b, c0) > 0 && forall|x: usize, y: usize, c: EColor| #[trigger] r.cmult(x, y, c) == had2_rewritten(
            g,
            v,
            a,
            b,
            c0,
            x,
            y,
            c,
        )
}

/// One round of [`k3_remove_had2`]: the rewrite at the first valid site,
/// which has no mixed triangle side.
pub open spec fn had2_round(g: GraphModel, r: GraphModel) -> bool {
    exists|v: usize| #[trigger] first_had2(g, v) && !had2_stuck(g, v) && had2_step(g, r, v)
}

/// `r` is what [`k3_remove_had2`] makes of `g`: rounds at the first valid
/// site until none is left, or until the first valid site has a mixed side.
pub open spec fn had2_run(g: GraphModel, r: GraphModel) -> bool {
    exists|states: Seq<GraphModel>|
        #![trigger states.len()]
        states.len() >= 1 && states[0] == g && (forall|i: int|
            0 <= i < states.len() - 1 ==> #[trigger] had2_round(states[i], states[i + 1])) && states.last() == r && ((
        forall|v: usize| !#[trigger] valid_had2(r, v)) || exists|v: usize| #[trigger] first_had2(r, v) && had2_stuck(r, v))
}

/// Apply the rewrite at the first valid site until none is left. Each
/// rewrite removes one H edge and adds none, which bounds the number of
/// rounds. The loop stops early at a site one of whose triangle sides also
/// carries a normal edge (there the rewrite would lose a side, or might
/// remove a normal copy of the diagonal and never end). A graph with no
/// valid site comes back unchanged; a graph without mixed pairs never
/// stops early and stays without them.
pub fn k3_remove_had2(g: &Graph) -> (r: Graph)
    requires
        g.wf(),
        g@.nodes.len() + 6 * g@.edges.len() + 10 < index_limit(),
        (g@.nodes.len() + 3 * g@.edges.len() + 3) * (g@.nodes.len() + 3 * g@.edges.len() + 3) <= usize::MAX,
    ensures
        r.wf(),
        (forall|v: usize| !#[trigger] valid_had2(r@, v)) || exists|v: usize| #[trigger] had2_stuck(r@, v),
        no_mixed(g@) ==> no_mixed(r@) && forall|v: usize| !#[trigger] valid_had2(r@, v),
        (forall|v: usize| !#[trigger] valid_had2(g@, v)) ==> r@ == g@,
        had2_run(g@, r@),
{
    let ghost m0 = g@;
    let ghost n0 = m0.nodes.len();
    let ghost e0 = m0.edges.len();
    let ghost h0 = color_count(m0, EColor::H);
    proof {
        crate::seqs::lemma_count_if_le(m0.edges, colored(EColor::H));
    }
    let mut tmp = g.clone();
    let ghost mut states: Seq<GraphModel> = seq![m0];
    loop
        invariant
            states.len() >= 1,
            states[0] == m0,
            forall|i: int| 0 <= i < states.len() - 1 ==> #[trigger] had2_round(states[i], states[i + 1]),
            states.last() == tmp@,
            tmp.wf(),
            no_mixed(m0) ==> no_mixed(tmp@),
            h0 <= e0,
            n0 + 6 * e0 + 10 < index_limit(),
            (n0 + 3 * e0 + 3) * (n0 + 3 * e0 + 3) <= usize::MAX,
            tmp@.nodes.len() + 3 * color_count(tmp@, EColor::H) <= n0 + 3 * h0,
            tmp@.edges.len() + 2 * color_count(tmp@, EColor::H) <= e0 + 2 * h0,
            (forall|v: usize| !#[trigger] valid_had2(m0, v)) ==> tmp@ == m0,
        ensures
            states.len() >= 1,
            states[0] == m0,
            forall|i: int| 0 <= i < states.len() - 1 ==> #[trigger] had2_round(states[i], states[i + 1]),
            states.last() == tmp@,
            (forall|v: usize| !#[trigger] valid_had2(tmp@, v)) || exists|v: usize| #[trigger] first_had2(tmp@, v) && had2_stuck(tmp@, v),
            tmp.wf(),
            (forall|v: usize| !#[trigger] valid_had2(tmp@, v)) || exists|v: usize| #[trigger] had2_stuck(tmp@, v),
            no_mixed(m0) ==> no_mixed(tmp@) && forall|v: usize| !#[trigger] valid_had2(tmp@, v),
            (forall|v: usize| !#[trigger] valid_had2(m0, v)) ==> tmp@ == m0,
        decreases color_count(tmp@, EColor::H),
    {
        match has_valid_k3_vertex_had2(&tmp) {
            Some(v) => {
                let ghost before = tmp@;
                let hn = get_h_neighbour(&tmp, v);
                let a = hn[0];
                let b = hn[1];
                proof {
                    tmp.lemma_wf();
                    lemma_idx_filter(colored_pred(before, v, EColor::H), before.nodes.len());
                    assert(colored_pred(before, v, EColor::H)(a) && colored_pred(before, v, EColor::H)(b));
                }
                if nc_connected(&tmp, v, a) || nc_connected(&tmp, v, b) || nc_connected(&tmp, a, b) {
                    proof {
                        assert(had2_stuck(before, v));
                        assert(!no_mixed(before));
                    }
                    break;
                }
                proof {
                    assert(!mixed(before, v, a) && !mixed(before, v, b) && !mixed(before, a, b));
                    lemma_idx_filter(colored_pred(before, v, EColor::NC), before.nodes.len());
                    let l = before.nodes.len();
                    assert((l + 3) * (l + 3) <= (n0 + 3 * e0 + 3) * (n0 + 3 * e0 + 3)) by (nonlinear_arith)
                        requires
                            l <= n0 + 3 * e0,
                    ;
                    assert((l + 2) * (l + 2) <= (l + 3) * (l + 3)) by (nonlinear_arith);
                }
                k3_remove_edge_had2_in_place(&mut tmp, v);
                proof {
                    let c0 = choose|c0: EColor| {
                        &&& before.cmult(a, b, c0) > 0
                        &&& forall|x: usize, y: usize, c: EColor| #[trigger] tmp@.cmult(x, y, c) == had2_rewritten(before, v, a, b, c0, x, y, c)
                        &&& (forall|k: usize| is_n1(before, v, k) ==> #[trigger] before.cmult(v, k, EColor::H) == 0) ==> color_count(tmp@, EColor::H)
                            + (if c0 == EColor::H { 1nat } else { 0nat }) == color_count(before, EColor::H)
                    };
                    assert(c0 == EColor::H) by {
                        if c0 == EColor::NC {
                            assert(mixed(before, a, b));
                        }
                    }
                    assert forall|k: usize| is_n1(before, v, k) implies #[trigger] before.cmult(v, k, EColor::H) == 0 by {
                        if before.cmult(v, k, EColor::H) > 0 {
                            assert(colored_pred(before, v, EColor::H)(k));
                            assert(colored_nbrs(before, v, EColor::H).contains(k));
                            assert(k == a || k == b);
                        }
                    }
                    if no_mixed(m0) {
                        lemma_had2_keeps_unmixed(before, tmp@, v, a, b, c0);
                    }
                    assert(had2_step(before, tmp@, v));
                    assert(!had2_stuck(before, v));
                    assert(had2_round(before, tmp@));
                    let s0 = states;
                    states = states.push(tmp@);
                    assert forall|i: int| 0 <= i < states.len() - 1 implies #[trigger] had2_round(states[i], states[i + 1]) by {
                        if i < s0.len() - 1 {
                            assert(states[i] == s0[i] && states[i + 1] == s0[i + 1]);
                        } else {
                            assert(states[i] == before);
                        }
                    }
                }
            },
            None => {
                break;
            },
        }
    }
    proof {
        assert(had2_run(m0, tmp@));
    }
    tmp
}

/// The rewrite at a valid site, removing an H edge of the diagonal, leaves
/// fewer alive H edges than it found.
pub proof fn lemma_had2_alive_h(m: GraphModel, r: GraphModel, v: usize, c0: EColor)
    requires
        m.wf(),
        valid_had2(m, v),
        c0 == EColor::H,
        r.alive == m.alive.push(true).push(true).push(true),
        forall|x: usize, y: usize, c: EColor| #[trigger] r.cmult(x, y, c) == had2_rewritten(
            m,
            v,
            colored_nbrs(m, v, EColor::H)[0],
            colored_nbrs(m, v, EColor::H)[1],
            c0,
            x,
            y,
            c,
        ),
    ensures
        alive_h(r) < alive_h(m),
{
    let a = colored_nbrs(m, v, EColor::H)[0];
    let b = colored_nbrs(m, v, EColor::H)[1];
    let n = m.nodes.len();
    crate::seqs::lemma_count_if_pos(m.edges, joins(a, b, EColor::H));
    let j = choose|j: int| 0 <= j < m.edges.len() && joins(a, b, EColor::H)(#[trigger] m.edges[j]);
    assert(alive_h_pred(m)(m.edges[j]));
    let t = m.edges.update(j, m.edges.last()).drop_last();
    crate::seqs::lemma_count_if_swap_remove(m.edges, j, alive_h_pred(m));
    assert forall|x: usize, y: usize, c: EColor|
        count_if(r.edges, and_pred(alive_h_pred(r), after(ident_edge(), joins(x, y, c)))) <= #[trigger] count_if(
            t,
            and_pred(alive_h_pred(m), after(ident_edge(), joins(x, y, c))),
        ) by {
        lemma_alive_h_key(r, x, y, c);
        lemma_alive_h_key(m, x, y, c);
        crate::seqs::lemma_count_if_swap_remove(m.edges, j, and_pred(alive_h_pred(m), after(ident_edge(), joins(x, y, c))));
        if c == EColor::H && r.is_alive(x) && r.is_alive(y) {
            assert(r.cmult(x, y, c) == had2_rewritten(m, v, a, b, c0, x, y, c));
            if x >= n || y >= n {
                lemma_cmult_outside(m, x, y, c);
            }
        }
    }
    crate::graph::lemma_key_dominated(r.edges, alive_h_pred(r), ident_edge(), t, alive_h_pred(m), ident_edge());
}

} // verus!
