//! K3 edge removal at a degree-2 vertex of a Hadamard triangle of Z
//! spiders.
//!
//! The rule targets an alive Z spider `v` whose alive neighbourhood is
//! exactly two vertices `a`, `b`, with `v`, `a`, `b` forming a triangle of
//! alive H edges and `a`, `b` Z spiders. It removes one edge between `a`
//! and `b`, raises the phases of `a` and `b` by one step (modulo 8), and
//! joins a fresh `X(7)` spider to `v` by a normal edge.

use vstd::prelude::*;

use crate::graph::{lemma_cmult_push, lemma_cmult_swap_remove, EColor, Graph, GraphModel, VColor};
use crate::operation::utils::{acmult, h_connected, same_pair};
use crate::petgraph_ext::{connects, index_limit};
use crate::seqs::{count_if, lemma_count_if_agree, lemma_count_if_push, lemma_count_if_swap_remove};

verus! {

/// A Z spider with its phase raised one step (modulo 8); other colors as
/// they are.
pub open spec fn bump(c: VColor) -> VColor {
    match c {
        VColor::Z(s) => VColor::Z(((s + 1) % 8) as u8),
        _ => c,
    }
}

/// `v` is a valid degree-2 K3 site: an alive Z spider whose two alive
/// neighbours `a < b` are Z spiders, all three pairwise joined by alive H
/// edges.
pub open spec fn valid_k3_degree2(m: GraphModel, v: usize) -> bool {
    let nb = m.nbrs(v);
    &&& m.is_alive(v)
    &&& m.nodes[v as int] is Z
    &&& nb.len() == 2
    &&& m.nodes[nb[0] as int] is Z
    &&& m.nodes[nb[1] as int] is Z
    &&& acmult(m, v, nb[0], EColor::H) > 0
    &&& acmult(m, v, nb[1], EColor::H) > 0
    &&& acmult(m, nb[0], nb[1], EColor::H) > 0
}

/// The colored multiplicity of `{x, y}` after the rewrite at `v` whose
/// neighbours are `a`, `b`, the removed `a`-`b` edge having color `c0`:
/// one fewer such edge, one normal edge between `v` and the fresh spider
/// (index `n`), everything else as before.
pub open spec fn k3_removed(m: GraphModel, v: usize, a: usize, b: usize, c0: EColor, x: usize, y: usize, c: EColor) -> nat {
    if same_pair(x, y, a, b) && c == c0 {
        (m.cmult(x, y, c) - 1) as nat
    } else if same_pair(x, y, v, m.nodes.len() as usize) && c == EColor::NC {
        1
    } else {
        m.cmult(x, y, c)
    }
}

/// Room for one more vertex.
pub open spec fn vertex_room(m: GraphModel) -> bool {
    &&& m.nodes.len() + 2 < index_limit()
    &&& (m.nodes.len() + 1) * (m.nodes.len() + 1) <= usize::MAX
}

/// The edge joins two distinct Z spiders.
pub open spec fn zz(nodes: Seq<VColor>) -> spec_fn((usize, usize, EColor)) -> bool {
    |e: (usize, usize, EColor)| e.0 != e.1 && nodes[e.0 as int] is Z && nodes[e.1 as int] is Z
}

/// Number of edges joining two distinct Z spiders.
pub open spec fn zz_count(m: GraphModel) -> nat {
    count_if(m.edges, zz(m.nodes))
}

/// Is `v` a valid degree-2 K3 site?
fn valid_k3_vertex_degree2(g: &Graph, v: usize) -> (r: bool)
    requires
        g.wf(),
    ensures
        r == valid_k3_degree2(g@, v),
{
    if !g.is_alive(v) {
        return false;
    }
    proof {
        g.lemma_wf();
    }
    if !matches!(g.label(v), VColor::Z(_)) {
        return false;
    }
    let nbrs = g.alive_neighbors(v);
    if nbrs.len() != 2 {
        return false;
    }
    let a = nbrs[0];
    let b = nbrs[1];
    proof {
        crate::seqs::lemma_idx_filter(g@.nbr_pred(v), g@.nodes.len());
        assert(g@.nbr_pred(v)(a) && g@.nbr_pred(v)(b));
    }
    if !matches!(g.label(a), VColor::Z(_)) || !matches!(g.label(b), VColor::Z(_)) {
        return false;
    }
    h_connected(g, v, a) && h_connected(g, v, b) && h_connected(g, a, b)
}

/// Apply the rewrite at `v` (see [`k3_removed`]): the neighbours `a`, `b`
/// lose one edge between them (the copy petgraph finds first) and each gain
/// a phase step, and a fresh `X(7)` spider hangs off `v` by a normal edge.
/// An invalid site leaves the graph unchanged.
pub fn k3_remove_edge_degree2_on_vertex(g: &Graph, v: usize) -> (r: Graph)
    requires
        g.wf(),
        vertex_room(g@),
    ensures
        r.wf(),
        !valid_k3_degree2(g@, v) ==> r@ == g@,
        valid_k3_degree2(g@, v) ==> {
            let a = g@.nbrs(v)[0];
            let b = g@.nbrs(v)[1];
            &&& r@.nodes == g@.nodes.update(a as int, bump(g@.nodes[a as int])).update(b as int, bump(g@.nodes[b as int])).push(VColor::X(7))
            &&& r@.alive == g@.alive.push(true)
            &&& r@.nodes.len() == g@.nodes.len() + 1
            &&& r@.edges.len() == g@.edges.len()
            &&& exists|c0: EColor| g@.cmult(a, b, c0) > 0 && forall|x: usize, y: usize, c: EColor|
                #[trigger] r@.cmult(x, y, c) == k3_removed(g@, v, a, b, c0, x, y, c)
            &&& zz_count(r@) + 1 == zz_count(g@)
        },
{
    if !valid_k3_vertex_degree2(g, v) {
        return g.clone();
    }
    proof {
        g.lemma_wf();
    }
    let nbrs = g.alive_neighbors(v);
    let a = nbrs[0];
    let b = nbrs[1];
    let ghost m = g@;
    proof {
        crate::seqs::lemma_idx_filter(m.nbr_pred(v), m.nodes.len());
        assert(m.nbr_pred(v)(a) && m.nbr_pred(v)(b));
        assert(a != b);
    }
    let mut out = g.clone();
    proof {
        assert(m.adj(a, b)) by {
            crate::seqs::lemma_count_if_pos(m.edges, crate::graph::joins(a, b, EColor::H));
            let i = choose|i: int| 0 <= i < m.edges.len() && crate::graph::joins(a, b, EColor::H)(#[trigger] m.edges[i]);
            assert(connects(m.edges[i], a, b));
        }
    }
    out.remove_edge(a, b);
    let ghost m1 = out@;
    let ghost k = choose|k: int|
        0 <= k < m.edges.len() && connects(#[trigger] m.edges[k], a, b) && m1.edges == m.edges.update(k, m.edges.last()).drop_last();
    let ghost c0 = m.edges[k].2;
    proof {
        lemma_cmult_swap_remove(m, m1, k);
        lemma_count_if_swap_remove(m.edges, k, zz(m.nodes));
        assert(zz(m.nodes)(m.edges[k]));
    }
    if let VColor::Z(s) = out.label(a) {
        out.set_color(a, VColor::Z((s % 8 + 1) % 8));
    }
    if let VColor::Z(s) = out.label(b) {
        out.set_color(b, VColor::Z((s % 8 + 1) % 8));
    }
    let ghost m2 = out@;
    proof {
        assert(m2.nodes =~= m.nodes.update(a as int, bump(m.nodes[a as int])).update(b as int, bump(m.nodes[b as int]))) by {
            match m.nodes[a as int] {
                VColor::Z(s) => {
                    assert((s % 8 + 1) % 8 == (s + 1) % 8) by (nonlinear_arith);
                },
                _ => {},
            }
            match m.nodes[b as int] {
                VColor::Z(s) => {
                    assert((s % 8 + 1) % 8 == (s + 1) % 8) by (nonlinear_arith);
                },
                _ => {},
            }
        }
        assert forall|i: int| 0 <= i < m1.edges.len() implies zz(m2.nodes)(#[trigger] m1.edges[i]) == zz(m.nodes)(m1.edges[i]) by {}
        lemma_count_if_agree(m1.edges, zz(m2.nodes), zz(m.nodes));
    }
    let x = out.add_vertex_with(VColor::X(7));
    let ghost m3 = out@;
    out.add_edge_c(v, x, EColor::NC);
    proof {
        lemma_cmult_push(m3, out@, (v, x, EColor::NC));
        assert forall|i: int| 0 <= i < m1.edges.len() implies zz(m3.nodes)(#[trigger] m1.edges[i]) == zz(m2.nodes)(m1.edges[i]) by {
            assert(m1.edges[i].0 < m.nodes.len() && m1.edges[i].1 < m.nodes.len());
        }
        lemma_count_if_agree(m1.edges, zz(m3.nodes), zz(m2.nodes));
        lemma_count_if_push(m3.edges, (v, x, EColor::NC), zz(m3.nodes));
        assert(m3.edges == m1.edges);
        assert forall|xx: usize, yy: usize, c: EColor| #[trigger] out@.cmult(xx, yy, c) == k3_removed(m, v, a, b, c0, xx, yy, c) by {
            assert(m3.cmult(xx, yy, c) == m1.cmult(xx, yy, c));
            assert(connects(m.edges[k], xx, yy) == same_pair(xx, yy, a, b));
            assert(m1.cmult(xx, yy, c) + (if connects(m.edges[k], xx, yy) && m.edges[k].2 == c { 1nat } else { 0nat }) == m.cmult(xx, yy, c));
            if same_pair(xx, yy, v, x) {
                crate::operation::utils::lemma_cmult_outside(m, xx, yy, c);
                assert(!same_pair(xx, yy, a, b));
            } else {
                assert(!connects((v, x, EColor::NC), xx, yy));
            }
        }
        assert(m1.cmult(a, b, c0) + 1 == m.cmult(a, b, c0));
        assert(out@.nodes =~= m.nodes.update(a as int, bump(m.nodes[a as int])).update(b as int, bump(m.nodes[b as int])).push(VColor::X(7)));
    }
    out
}

/// The first alive vertex, ascending, that is a valid degree-2 K3 site.
fn has_valid_k3_vertex_degree2(g: &Graph) -> (r: Option<usize>)
    requires
        g.wf(),
    ensures
        r is None ==> forall|v: usize| !#[trigger] valid_k3_degree2(g@, v),
        r matches Some(v) ==> first_k3(g@, v),
{
    let vs = g.alive_vertices();
    let ghost m = g@;
    proof {
        g.lemma_wf();
        crate::seqs::lemma_idx_filter(|i: usize| (i as int) < m.alive.len() && m.alive[i as int], m.alive.len());
    }
    let mut i: usize = 0;
    while i < vs.len()
        invariant
            g.wf(),
            m == g@,
            vs@ == m.alive_list(),
            forall|u: usize| m.is_alive(u) ==> #[trigger] vs@.contains(u),
            crate::seqs::strictly_increasing(vs@),
            i <= vs.len(),
            forall|j: int| 0 <= j < i ==> !valid_k3_degree2(m, #[trigger] vs[j]),
        decreases vs.len() - i,
    {
        if valid_k3_vertex_degree2(g, vs[i]) {
            proof {
                assert forall|u: usize| u < vs[i as int] implies !#[trigger] valid_k3_degree2(m, u) by {
                    if valid_k3_degree2(m, u) {
                        assert(vs@.contains(u));
                        let j = choose|j: int| 0 <= j < vs.len() && vs[j] == u;
                        if j >= i {
                            assert(vs[i as int] <= vs[j]);
                        }
                    }
                }
            }
            return Some(vs[i]);
        }
        i += 1;
    }
    proof {
        assert forall|v: usize| !#[trigger] valid_k3_degree2(g@, v) by {
            if valid_k3_degree2(m, v) {
                assert(vs@.contains(v));
                let j = choose|j: int| 0 <= j < vs.len() && vs[j] == v;
            }
        }
    }
    None
}

/// `v` is the first valid site of `m`.
pub open spec fn first_k3(m: GraphModel, v: usize) -> bool {
    valid_k3_degree2(m, v) && forall|u: usize| u < v ==> !#[trigger] valid_k3_degree2(m, u)
}

/// `r` is the rewrite of `g` at the valid site `v` (as
/// [`k3_remove_edge_degree2_on_vertex`] states it).
pub open spec fn k3_step(g: GraphModel, r: GraphModel, v: usize) -> bool {
    let a = g.nbrs(v)[0];
    let b = g.nbrs(v)[1];
    &&& r.nodes == g.nodes.update(a as int, bump(g.nodes[a as int])).update(b as int, bump(g.nodes[b as int])).push(VColor::X(7))
    &&& r.alive == g.alive.push(true)
    &&& exists|c0: EColor| g.cmult(a, b, c0) > 0 && forall|x: usize, y: usize, c: EColor|
        #[trigger] r.cmult(x, y, c) == k3_removed(g, v, a, b, c0, x, y, c)
}

/// One round of [`k3_remove`]: the rewrite at the first valid site.
pub open spec fn k3_round(g: GraphModel, r: GraphModel) -> bool {
    exists|v: usize| #[trigger] first_k3(g, v) && k3_step(g, r, v)
}

/// `r` is what [`k3_remove`] makes of `g`: rounds at the first valid site
/// until none is left.
pub open spec fn k3_run(g: GraphModel, r: GraphModel) -> bool {
    exists|states: Seq<GraphModel>|
        #![trigger states.len()]
        states.len() >= 1 && states[0] == g && (forall|i: int|
            0 <= i < states.len() - 1 ==> #[trigger] k3_round(states[i], states[i + 1])) && states.last() == r && forall|
            v: usize,
        | !#[trigger] valid_k3_degree2(r, v)
}

/// Apply [`k3_remove_edge_degree2_on_vertex`] at the first valid site
/// until none is left. Each rewrite removes one edge between two distinct
/// Z spiders and adds none, which bounds the number of rounds. A graph
/// with no valid site comes back unchanged.
pub fn k3_remove(g: &Graph) -> (r: Graph)
    requires
        g.wf(),
        g@.nodes.len() + g@.edges.len() + 2 < index_limit(),
        (g@.nodes.len() + g@.edges.len() + 1) * (g@.nodes.len() + g@.edges.len() + 1) <= usize::MAX,
    ensures
        r.wf(),
        forall|v: usize| !#[trigger] valid_k3_degree2(r@, v),
        (forall|v: usize| !#[trigger] valid_k3_degree2(g@, v)) ==> r@ == g@,
        k3_run(g@, r@),
{
    let ghost m0 = g@;
    let ghost top = m0.nodes.len() + m0.edges.len();
    proof {
        crate::seqs::lemma_count_if_le(m0.edges, zz(m0.nodes));
    }
    let mut tmp = g.clone();
    let ghost mut states: Seq<GraphModel> = seq![m0];
    loop
        invariant
            states.len() >= 1,
            states[0] == m0,
            forall|i: int| 0 <= i < states.len() - 1 ==> #[trigger] k3_round(states[i], states[i + 1]),
            states.last() == tmp@,
            tmp.wf(),
            top == m0.nodes.len() + m0.edges.len(),
            top + 2 < index_limit(),
            (top + 1) * (top + 1) <= usize::MAX,
            tmp@.nodes.len() + zz_count(tmp@) <= top,
            (forall|v: usize| !#[trigger] valid_k3_degree2(m0, v)) ==> tmp@ == m0,
        ensures
            states.len() >= 1,
            states[0] == m0,
            forall|i: int| 0 <= i < states.len() - 1 ==> #[trigger] k3_round(states[i], states[i + 1]),
            states.last() == tmp@,
            tmp.wf(),
            forall|v: usize| !#[trigger] valid_k3_degree2(tmp@, v),
            (forall|v: usize| !#[trigger] valid_k3_degree2(m0, v)) ==> tmp@ == m0,
        decreases zz_count(tmp@),
    {
        match has_valid_k3_vertex_degree2(&tmp) {
            Some(v) => {
                proof {
                    let l = tmp@.nodes.len();
                    assert((l + 1) * (l + 1) <= (top + 1) * (top + 1)) by (nonlinear_arith)
                        requires
                            l <= top,
                    ;
                }
                let ghost before = tmp@;
                tmp = k3_remove_edge_degree2_on_vertex(&tmp, v);
                proof {
                    assert(tmp@.nodes.len() == before.nodes.len() + 1);
                    assert(zz_count(tmp@) + 1 == zz_count(before));
                    assert(k3_step(before, tmp@, v));
                    assert(k3_round(before, tmp@));
                    let s0 = states;
                    states = states.push(tmp@);
                    assert forall|i: int| 0 <= i < states.len() - 1 implies #[trigger] k3_round(states[i], states[i + 1]) by {
                        if i < s0.len() - 1 {
                            assert(states[i] == s0[i] && states[i + 1] == s0[i + 1]);
                        } else {
                            assert(states[i] == before);
                        }
                    }
                }
            },
            None => {
                break;
            },
        }
    }
    proof {
        assert(k3_run(m0, tmp@));
    }
    tmp
}

} // verus!
