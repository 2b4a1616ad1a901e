//! Spider unfusing for a Z spider with a mixed (normal + Hadamard)
//! boundary.
//!
//! `N1 == v(Z(p)) -- N2` becomes `N1 == u(Z(0)) == w(Z(p)) == v(Z(0)) -- N2`
//! (`==` normal edge, `--` H edge): a fresh `u = Z(0)` takes over the
//! normal-edge neighbourhood `N1` of `v` by single normal edges, a fresh
//! `w = Z(p)` bridges `u` and `v`, every edge between `v` and `N1` is
//! deleted and `v`'s phase moves onto `w`. Everything else is untouched.

use vstd::prelude::*;

use crate::graph::{lemma_cmult_push, lemma_cmult_sym, EColor, Graph, GraphModel, VColor};
use crate::operation::utils::{color_count, colored, lemma_remove_keeps_color, get_normal_neighbour, is_n1, lemma_cmult_outside, remove_all_between, same_pair, colored_nbrs, colored_pred};
use crate::petgraph_ext::index_limit;
use crate::seqs::lemma_idx_filter;

verus! {

/// The colored multiplicity of `{x, y}` after unfusing `v` in `m` (with
/// `u`, `w` the two fresh vertices `n`, `n + 1`): none between `v` and
/// `N1`, one normal edge between `u` and each member of `N1`, one normal
/// edge `w`-`u` and one `w`-`v`, every other pair as before.
pub open spec fn unfused(m: GraphModel, v: usize, x: usize, y: usize, c: EColor) -> nat {
    let u = m.nodes.len();
    let w = m.nodes.len() + 1;
    let nc: nat = if c == EColor::NC { 1 } else { 0 };
    if (x == v && is_n1(m, v, y)) || (y == v && is_n1(m, v, x)) {
        0
    } else if (x == u && is_n1(m, v, y)) || (y == u && is_n1(m, v, x)) {
        nc
    } else if (x == w && (y == u || y == v)) || (y == w && (x == u || x == v)) {
        nc
    } else {
        m.cmult(x, y, c)
    }
}

/// `v` can be unfused: an alive Z spider.
pub open spec fn unfusable(m: GraphModel, v: usize) -> bool {
    m.is_alive(v) && m.nodes[v as int] is Z
}

/// Room for the two fresh vertices and their edges below the index limit.
pub open spec fn unfuse_room(m: GraphModel, v: usize) -> bool {
    &&& m.nodes.len() + 3 < index_limit()
    &&& (m.nodes.len() + 2) * (m.nodes.len() + 2) <= usize::MAX
    &&& m.edges.len() + colored_nbrs(m, v, EColor::NC).len() + 3 < index_limit()
}

/// Unfuse the alive Z spider `v` in place (see [`unfused`]).
#[verifier::spinoff_prover]
#[verifier::rlimit(30)]
pub(crate) fn unfuse_to_sep_h_edge_in_place(g: &mut Graph, v: usize)
    requires
        old(g).wf(),
        v < old(g)@.nodes.len(),
        unfusable(old(g)@, v),
        unfuse_room(old(g)@, v),
    ensures
        final(g).wf(),
        final(g)@.nodes == old(g)@.nodes.push(VColor::Z(0)).push(old(g)@.nodes[v as int]).update(v as int, VColor::Z(0)),
        final(g)@.alive == old(g)@.alive.push(true).push(true),
        forall|x: usize, y: usize, c: EColor| #[trigger] final(g)@.cmult(x, y, c) == unfused(old(g)@, v, x, y, c),
        (forall|k: usize| is_n1(old(g)@, v, k) ==> #[trigger] old(g)@.cmult(v, k, EColor::H) == 0) ==> color_count(final(g)@, EColor::H)
            == color_count(old(g)@, EColor::H),
        final(g)@.edges.len() <= old(g)@.edges.len() + 2,
{
    let ghost m0 = g@;
    let p = match g.label(v) {
        VColor::Z(p) => p,
        _ => {
            return;
        },
    };
    let n1 = get_normal_neighbour(g, v);
    proof {
        g.lemma_wf();
        lemma_idx_filter(colored_pred(m0, v, EColor::NC), m0.nodes.len());
        let n = m0.nodes.len();
        assert((n + 1) * (n + 1) <= (n + 2) * (n + 2)) by (nonlinear_arith);
    }
    let u = g.add_vertex_with(VColor::Z(0));
    let w = g.add_vertex_with(VColor::Z(p));
    let ghost m1 = g@;
    proof {
        assert forall|x: usize, y: usize, c: EColor| #[trigger] m1.cmult(x, y, c) == m0.cmult(x, y, c) by {}
    }
    let mut i: usize = 0;
    while i < n1.len()
        invariant
            g.wf(),
            m0.wf(),
            v < m0.nodes.len(),
            u == m0.nodes.len(),
            w == m0.nodes.len() + 1,
            g@.nodes == m1.nodes,
            g@.alive == m1.alive,
            m1.nodes.len() == m0.nodes.len() + 2,
            n1@ == colored_nbrs(m0, v, EColor::NC),
            crate::seqs::strictly_increasing(n1@),
            forall|j: int| 0 <= j < n1.len() ==> #[trigger] n1[j] < m0.nodes.len() && is_n1(m0, v, n1[j]),
            unfuse_room(m0, v),
            i <= n1.len(),
            g@.edges.len() == m0.edges.len() + i,
            color_count(g@, EColor::H) == color_count(m0, EColor::H),
            forall|x: usize, y: usize, c: EColor| #[trigger] g@.cmult(x, y, c) == m0.cmult(x, y, c) + if c == EColor::NC
                && exists|j: int| 0 <= j < i && same_pair(x, y, u, #[trigger] n1[j]) {
                1nat
            } else {
                0nat
            },
        decreases n1.len() - i,
    {
        let ghost before = g@;
        let k = n1[i];
        g.add_edge_c(u, k, EColor::NC);
        i += 1;
        proof {
            lemma_cmult_push(before, g@, (u, k, EColor::NC));
            crate::seqs::lemma_count_if_push(before.edges, (u, k, EColor::NC), colored(EColor::H));
            assert forall|x: usize, y: usize, c: EColor| #[trigger] g@.cmult(x, y, c) == m0.cmult(x, y, c) + if c == EColor::NC
                && exists|j: int| 0 <= j < i && same_pair(x, y, u, #[trigger] n1[j]) {
                1nat
            } else {
                0nat
            } by {
                if same_pair(x, y, u, k) {
                    lemma_cmult_outside(m0, x, y, c);
                    assert(same_pair(x, y, u, n1[i - 1]));
                    assert(!exists|j: int| 0 <= j < i - 1 && same_pair(x, y, u, #[trigger] n1[j])) by {
                        if exists|j: int| 0 <= j < i - 1 && same_pair(x, y, u, #[trigger] n1[j]) {
                            let j = choose|j: int| 0 <= j < i - 1 && same_pair(x, y, u, #[trigger] n1[j]);
                            assert(n1[j] < n1[i - 1]);
                        }
                    }
                } else {
                    if exists|j: int| 0 <= j < i && same_pair(x, y, u, #[trigger] n1[j]) {
                        let j = choose|j: int| 0 <= j < i && same_pair(x, y, u, #[trigger] n1[j]);
                        assert(j < i - 1);
                    }
                }
            }
        }
    }
    let ghost before_wu = g@;
    g.add_edge_c(w, u, EColor::NC);
    let ghost before_wv = g@;
    g.add_edge_c(w, v, EColor::NC);
    let ghost m2 = g@;
    proof {
        lemma_cmult_push(before_wu, before_wv, (w, u, EColor::NC));
        lemma_cmult_push(before_wv, m2, (w, v, EColor::NC));
        crate::seqs::lemma_count_if_push(before_wu.edges, (w, u, EColor::NC), colored(EColor::H));
        crate::seqs::lemma_count_if_push(before_wv.edges, (w, v, EColor::NC), colored(EColor::H));
        assert forall|x: usize, y: usize, c: EColor| #[trigger] m2.cmult(x, y, c) == m0.cmult(x, y, c) + (if c == EColor::NC
            && exists|j: int| 0 <= j < n1.len() && same_pair(x, y, u, #[trigger] n1[j]) {
            1nat
        } else {
            0nat
        }) + (if c == EColor::NC && same_pair(x, y, w, u) { 1nat } else { 0nat }) + (if c == EColor::NC && same_pair(x, y, w, v) {
            1nat
        } else {
            0nat
        }) by {
            assert(before_wv.cmult(x, y, c) == before_wu.cmult(x, y, c) + (if c == EColor::NC && same_pair(x, y, w, u) { 1nat } else { 0nat }));
        }
    }
    proof {
        assert forall|j: int| 0 <= j < n1.len() implies m2.cmult(v, #[trigger] n1[j], EColor::H) == m0.cmult(v, n1[j], EColor::H)
            && m2.cmult(v, n1[j], EColor::NC) == m0.cmult(v, n1[j], EColor::NC) by {
            assert(!same_pair(v, n1[j], w, u) && !same_pair(v, n1[j], w, v));
            assert(!exists|jj: int| 0 <= jj < n1.len() && same_pair(v, n1[j], u, #[trigger] n1[jj])) by {
                if exists|jj: int| 0 <= jj < n1.len() && same_pair(v, n1[j], u, #[trigger] n1[jj]) {
                    let jj = choose|jj: int| 0 <= jj < n1.len() && same_pair(v, n1[j], u, #[trigger] n1[jj]);
                    assert(n1[jj] < m0.nodes.len());
                }
            }
        }
    }
    let mut t: usize = 0;
    while t < n1.len()
        invariant
            g.wf(),
            m0.wf(),
            v < m0.nodes.len(),
            u == m0.nodes.len(),
            w == m0.nodes.len() + 1,
            g@.nodes == m1.nodes,
            g@.alive == m1.alive,
            n1@ == colored_nbrs(m0, v, EColor::NC),
            crate::seqs::strictly_increasing(n1@),
            forall|j: int| 0 <= j < n1.len() ==> #[trigger] n1[j] < m0.nodes.len() && is_n1(m0, v, n1[j]),
            t <= n1.len(),
            forall|j: int| 0 <= j < n1.len() ==> m2.cmult(v, #[trigger] n1[j], EColor::H) == m0.cmult(v, n1[j], EColor::H)
                && m2.cmult(v, n1[j], EColor::NC) == m0.cmult(v, n1[j], EColor::NC),
            g@.edges.len() + t <= m2.edges.len(),
            m2.edges.len() == m0.edges.len() + n1.len() + 2,
            (forall|k: usize| is_n1(m0, v, k) ==> #[trigger] m0.cmult(v, k, EColor::H) == 0) ==> color_count(g@, EColor::H)
                == color_count(m2, EColor::H),
            forall|x: usize, y: usize, c: EColor| #[trigger] g@.cmult(x, y, c) == if exists|j: int| 0 <= j < t && same_pair(x, y, v, #[trigger] n1[j]) {
                0
            } else {
                m2.cmult(x, y, c)
            },
        decreases n1.len() - t,
    {
        let k = n1[t];
        let ghost before = g@;
        proof {
            assert(!exists|j: int| 0 <= j < t && same_pair(v, k, v, #[trigger] n1[j])) by {
                if exists|j: int| 0 <= j < t && same_pair(v, k, v, #[trigger] n1[j]) {
                    let j = choose|j: int| 0 <= j < t && same_pair(v, k, v, #[trigger] n1[j]);
                    assert(n1[j] < n1[t as int]);
                }
            }
            assert(before.cmult(v, k, EColor::NC) == m0.cmult(v, k, EColor::NC));
            assert(is_n1(m0, v, k));
            crate::graph::lemma_mult_split(before.edges, v, k);
        }
        remove_all_between(g, v, k);
        t += 1;
        proof {
            if forall|kk: usize| is_n1(m0, v, kk) ==> #[trigger] m0.cmult(v, kk, EColor::H) == 0 {
                assert(m0.cmult(v, k, EColor::H) == 0);
                assert(!exists|j: int| 0 <= j < t - 1 && same_pair(v, k, v, #[trigger] n1[j])) by {
                    if exists|j: int| 0 <= j < t - 1 && same_pair(v, k, v, #[trigger] n1[j]) {
                        let j = choose|j: int| 0 <= j < t - 1 && same_pair(v, k, v, #[trigger] n1[j]);
                        assert(n1[j] < n1[t - 1]);
                    }
                }
                assert(before.cmult(v, k, EColor::H) == m2.cmult(v, k, EColor::H));
                assert(m2.cmult(v, n1[t - 1], EColor::H) == 0);
                lemma_remove_keeps_color(before, g@, v, k, EColor::H);
            }
            assert forall|x: usize, y: usize, c: EColor| #[trigger] g@.cmult(x, y, c) == if exists|j: int| 0 <= j < t && same_pair(x, y, v, #[trigger] n1[j]) {
                0
            } else {
                m2.cmult(x, y, c)
            } by {
                if same_pair(x, y, v, k) {
                    assert(same_pair(x, y, v, n1[t - 1]));
                    lemma_cmult_sym(g@, v, k, c);
                } else if exists|j: int| 0 <= j < t && same_pair(x, y, v, #[trigger] n1[j]) {
                    let j = choose|j: int| 0 <= j < t && same_pair(x, y, v, #[trigger] n1[j]);
                    assert(j < t - 1);
                }
            }
        }
    }
    let ghost m3 = g@;
    g.set_color(v, VColor::Z(0));
    proof {
        assert(color_count(g@, EColor::H) == color_count(m3, EColor::H));
        assert forall|x: usize, y: usize, c: EColor| #[trigger] g@.cmult(x, y, c) == unfused(m0, v, x, y, c) by {
            let vp = exists|j: int| 0 <= j < t && same_pair(x, y, v, #[trigger] n1[j]);
            let up = exists|j: int| 0 <= j < n1.len() && same_pair(x, y, u, #[trigger] n1[j]);
            assert(m3.cmult(x, y, c) == if vp { 0 } else { m2.cmult(x, y, c) });
            assert(g@.cmult(x, y, c) == m3.cmult(x, y, c));
            if (x == v && is_n1(m0, v, y)) || (y == v && is_n1(m0, v, x)) {
                let k = if x == v { y } else { x };
                assert(n1@.contains(k));
                let j = choose|j: int| 0 <= j < n1.len() && n1[j] == k;
                assert(same_pair(x, y, v, n1[j]));
                assert(vp);
                assert(g@.cmult(x, y, c) == 0);
            } else {
                assert(!vp) by {
                    if vp {
                        let j = choose|j: int| 0 <= j < t && same_pair(x, y, v, #[trigger] n1[j]);
                        assert(is_n1(m0, v, n1[j]));
                    }
                }
                assert(g@.cmult(x, y, c) == m2.cmult(x, y, c));
                if (x == u && is_n1(m0, v, y)) || (y == u && is_n1(m0, v, x)) {
                    let k = if x == u { y } else { x };
                    assert(n1@.contains(k));
                    let j = choose|j: int| 0 <= j < n1.len() && n1[j] == k;
                    assert(same_pair(x, y, u, n1[j]));
                    assert(up);
                    lemma_cmult_outside(m0, x, y, c);
                    assert(!same_pair(x, y, w, u) && !same_pair(x, y, w, v));
                    assert(g@.cmult(x, y, c) == unfused(m0, v, x, y, c));
                } else {
                    assert(!up) by {
                        if up {
                            let j = choose|j: int| 0 <= j < n1.len() && same_pair(x, y, u, #[trigger] n1[j]);
                            assert(is_n1(m0, v, n1[j]));
                        }
                    }
                    if (x == w && (y == u || y == v)) || (y == w && (x == u || x == v)) {
                        lemma_cmult_outside(m0, x, y, c);
                        assert(same_pair(x, y, w, u) != same_pair(x, y, w, v));
                        assert(g@.cmult(x, y, c) == unfused(m0, v, x, y, c));
                    } else {
                        assert(!same_pair(x, y, w, u) && !same_pair(x, y, w, v));
                        assert(g@.cmult(x, y, c) == m0.cmult(x, y, c));
                        assert(g@.cmult(x, y, c) == unfused(m0, v, x, y, c));
                    }
                }
            }
        }
        assert(g@.nodes =~= m0.nodes.push(VColor::Z(0)).push(m0.nodes[v as int]).update(v as int, VColor::Z(0)));
    }
}

/// Unfuse the alive Z spider `v = Z(p)` (see [`unfused`]) into a new graph:
/// `N1 == u(Z(0)) == w(Z(p)) == v(Z(0)) -- N2`.
pub fn unfuse_to_sep_h_edge(g: &Graph, v: usize) -> (r: Graph)
    requires
        g.wf(),
        v < g@.nodes.len(),
        unfusable(g@, v),
        unfuse_room(g@, v),
    ensures
        r.wf(),
        r@.nodes == g@.nodes.push(VColor::Z(0)).push(g@.nodes[v as int]).update(v as int, VColor::Z(0)),
        r@.alive == g@.alive.push(true).push(true),
        forall|x: usize, y: usize, c: EColor| #[trigger] r@.cmult(x, y, c) == unfused(g@, v, x, y, c),
{
    let mut out = g.clone();
    unfuse_to_sep_h_edge_in_place(&mut out, v);
    out
}

} // verus!
