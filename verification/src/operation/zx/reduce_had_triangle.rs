//! Hadamard-triangle reduction: delete the diagonal of an all-Z triangle of
//! H edges.
//!
//! The rule targets a triangle `v1 -- v2 -- v3 -- v1` of Z spiders whose
//! sides each carry an odd number of alive H edges, `(v2, v3)` the first
//! such pair of `v1`'s H neighbours in ascending order. It
//!
//! 1. normalizes the H-edge parity of the whole graph;
//! 2. splits `v1 = Z(s)`: a fresh `w = Z(s)` takes over every alive edge
//!    between `v1` and its other neighbours (with its color), those edges
//!    are deleted, `v1` and `w` are joined by a normal edge and `v1`
//!    becomes `Z(0)`;
//! 3. applies the Hadamard-degree-2 rewrite at `v1`, which deletes one
//!    diagonal edge and raises the phases of `v2` and `v3`.

use vstd::prelude::*;

use crate::graph::{alive_colored, joins, lemma_cmult_push, lemma_cmult_sym, EColor, Graph, GraphModel, VColor};
use crate::operation::utils::{
    acmult, alive_h, alive_h_pred, colored, colored_nbrs, colored_pred, get_h_neighbour, ident_edge,
    lemma_alive_h_key, lemma_cmult_outside, remove_all_between, rename, same_pair,
};
use crate::operation::zx::fuse::{fully_fused, fuse_run, fuse_total, parity_normal, valid_fuse};
use crate::operation::zx::k3_remove_edge::bump;
use crate::operation::zx::k3_remove_edge_ha_2::{had2_rewritten, had2_room, had2_safe, k3_remove_edge_had2_on_vertex, valid_had2};
use crate::operation::zx::normalize_h_parity::{normalize_h_parity_total, normalized, odd_h_connected};
use crate::petgraph_ext::index_limit;
use crate::seqs::{
    after, and_not_pred, and_pred, count_if, lemma_count_if_agree, lemma_count_if_mono, lemma_count_if_none, lemma_count_if_pos,
    lemma_count_if_split, lemma_idx_filter,
};

verus! {

/// `n` is an H neighbour of `v1` usable for a triangle: a Z spider joined
/// to `v1` by an odd number of alive H edges.
pub open spec fn tri_nbr(m: GraphModel, v1: usize, n: usize) -> bool {
    &&& colored_pred(m, v1, EColor::H)(n)
    &&& m.nodes[n as int] is Z
    &&& acmult(m, v1, n, EColor::H) % 2 == 1
}

/// `v1`, `v2 < v3` form a triangle of Z spiders whose sides each carry an
/// odd number of alive H edges (`v1` itself is not examined).
pub open spec fn h_triangle(m: GraphModel, v1: usize, v2: usize, v3: usize) -> bool {
    &&& v2 < v3
    &&& tri_nbr(m, v1, v2)
    &&& tri_nbr(m, v1, v3)
    &&& acmult(m, v2, v3, EColor::H) % 2 == 1
}

/// `(a, b)` comes no later than `(c, d)` in lexicographic order.
pub open spec fn lex_le(a: usize, b: usize, c: usize, d: usize) -> bool {
    a < c || (a == c && b <= d)
}

/// The first triangle pair `(v2, v3)` at `v1` in ascending order (any pair
/// when there is none).
pub open spec fn first_tri(m: GraphModel, v1: usize) -> (usize, usize) {
    choose|p: (usize, usize)| h_triangle(m, v1, p.0, p.1) && forall|x: usize, y: usize|
        h_triangle(m, v1, x, y) ==> lex_le(p.0, p.1, x, y)
}

/// `v1` is a valid reduction site: an alive Z spider in some triangle.
pub open spec fn valid_reduce(m: GraphModel, v1: usize) -> bool {
    &&& m.is_alive(v1)
    &&& m.nodes[v1 as int] is Z
    &&& exists|x: usize, y: usize| h_triangle(m, v1, x, y)
}

/// The first triangle pair at `v1`, if any.
fn find_h_triangle(g: &Graph, v1: usize) -> (r: Option<(usize, usize)>)
    requires
        g.wf(),
    ensures
        r is None ==> forall|x: usize, y: usize| !h_triangle(g@, v1, x, y),
        r matches Some(p) ==> h_triangle(g@, v1, p.0, p.1) && forall|x: usize, y: usize|
            h_triangle(g@, v1, x, y) ==> lex_le(p.0, p.1, x, y),
{
    let ghost m = g@;
    let hn = get_h_neighbour(g, v1);
    proof {
        g.lemma_wf();
        lemma_idx_filter(colored_pred(m, v1, EColor::H), m.nodes.len());
    }
    let mut nbrs: Vec<usize> = Vec::new();
    let mut i: usize = 0;
    while i < hn.len()
        invariant
            g.wf(),
            m == g@,
            m.wf(),
            hn@ == colored_nbrs(m, v1, EColor::H),
            crate::seqs::strictly_increasing(hn@),
            forall|q: int| 0 <= q < hn.len() ==> colored_pred(m, v1, EColor::H)(#[trigger] hn[q]) && hn[q] < m.nodes.len(),
            forall|u: usize| u < m.nodes.len() && #[trigger] colored_pred(m, v1, EColor::H)(u) ==> hn@.contains(u),
            i <= hn.len(),
            crate::seqs::strictly_increasing(nbrs@),
            forall|q: int| 0 <= q < nbrs.len() ==> tri_nbr(m, v1, #[trigger] nbrs[q]),
            forall|q: int| 0 <= q < nbrs.len() ==> exists|j: int| 0 <= j < i && hn[j] == #[trigger] nbrs[q],
            forall|j: int| 0 <= j < i && tri_nbr(m, v1, #[trigger] hn[j]) ==> nbrs@.contains(hn[j]),
        decreases hn.len() - i,
    {
        let n = hn[i];
        let ghost nb0 = nbrs@;
        if matches!(g.label(n), VColor::Z(_)) && odd_h_connected(g, v1, n) {
            nbrs.push(n);
            proof {
                assert forall|q: int| 0 <= q < nbrs.len() - 1 implies nbrs[q] < n by {
                    let j = choose|j: int| 0 <= j < i && hn[j] == #[trigger] nbrs[q];
                    assert(hn[j] < hn[i as int]);
                }
                assert(nbrs@ == nb0.push(n));
            }
        }
        i += 1;
        proof {
            assert forall|q: int| 0 <= q < nbrs.len() implies exists|j: int| 0 <= j < i && hn[j] == #[trigger] nbrs[q] by {
                if q < nb0.len() {
                    assert(nbrs[q] == nb0[q]);
                    let j = choose|j: int| 0 <= j < i - 1 && hn[j] == #[trigger] nb0[q];
                } else {
                    assert(hn[i - 1] == nbrs[q]);
                }
            }
            assert forall|j: int| 0 <= j < i && tri_nbr(m, v1, #[trigger] hn[j]) implies nbrs@.contains(hn[j]) by {
                if j < i - 1 {
                    assert(nb0.contains(hn[j]));
                    let q = choose|q: int| 0 <= q < nb0.len() && nb0[q] == hn[j];
                    assert(nbrs[q] == nb0[q]);
                } else {
                    assert(nbrs[nbrs.len() - 1] == hn[j]);
                }
            }
        }
    }
    proof {
        assert forall|u: usize| #[trigger] tri_nbr(m, v1, u) implies nbrs@.contains(u) by {
            assert(u < m.nodes.len());
            assert(hn@.contains(u));
            let j = choose|j: int| 0 <= j < hn.len() && hn[j] == u;
            assert(tri_nbr(m, v1, hn[j]));
        }
    }
    let mut a: usize = 0;
    while a < nbrs.len()
        invariant
            g.wf(),
            m == g@,
            crate::seqs::strictly_increasing(nbrs@),
            forall|q: int| 0 <= q < nbrs.len() ==> tri_nbr(m, v1, #[trigger] nbrs[q]),
            forall|u: usize| #[trigger] tri_nbr(m, v1, u) ==> nbrs@.contains(u),
            a <= nbrs.len(),
            forall|x: usize, y: usize| h_triangle(m, v1, x, y) ==> exists|q: int| a <= q < nbrs.len() && #[trigger] nbrs[q] == x,
        decreases nbrs.len() - a,
    {
        let v2 = nbrs[a];
        let mut b: usize = a + 1;
        while b < nbrs.len()
            invariant
                g.wf(),
                m == g@,
                crate::seqs::strictly_increasing(nbrs@),
                forall|q: int| 0 <= q < nbrs.len() ==> tri_nbr(m, v1, #[trigger] nbrs[q]),
                forall|u: usize| #[trigger] tri_nbr(m, v1, u) ==> nbrs@.contains(u),
                a < nbrs.len(),
                v2 == nbrs[a as int],
                a + 1 <= b <= nbrs.len(),
                forall|x: usize, y: usize| h_triangle(m, v1, x, y) ==> exists|q: int| a <= q < nbrs.len() && #[trigger] nbrs[q] == x,
                forall|q: int| a < q < b ==> !h_triangle(m, v1, v2, #[trigger] nbrs[q]),
            decreases nbrs.len() - b,
        {
            let v3 = nbrs[b];
            if odd_h_connected(g, v2, v3) {
                proof {
                    assert(nbrs[a as int] < nbrs[b as int]);
                    assert forall|x: usize, y: usize| h_triangle(m, v1, x, y) implies lex_le(v2, v3, x, y) by {
                        let q = choose|q: int| a <= q < nbrs.len() && #[trigger] nbrs[q] == x;
                        if q > a {
                            assert(nbrs[a as int] < nbrs[q]);
                        } else {
                            assert(nbrs@.contains(y));
                            let qy = choose|qy: int| 0 <= qy < nbrs.len() && nbrs[qy] == y;
                            if qy <= a {
                                if qy < a {
                                    assert(nbrs[qy] < nbrs[a as int]);
                                }
                            } else if qy < b {
                                assert(!h_triangle(m, v1, v2, nbrs[qy]));
                            } else if qy > b {
                                assert(nbrs[b as int] < nbrs[qy]);
                            }
                        }
                    }
                }
                return Some((v2, v3));
            }
            b += 1;
        }
        proof {
            assert forall|x: usize, y: usize| h_triangle(m, v1, x, y) implies exists|q: int| a + 1 <= q < nbrs.len() && #[trigger] nbrs[q] == x by {
                let q = choose|q: int| a <= q < nbrs.len() && #[trigger] nbrs[q] == x;
                if q == a {
                    assert(nbrs@.contains(y));
                    let qy = choose|qy: int| 0 <= qy < nbrs.len() && nbrs[qy] == y;
                    if qy <= a {
                        if qy < a {
                            assert(nbrs[qy] < nbrs[a as int]);
                        }
                    } else {
                        assert(!h_triangle(m, v1, v2, nbrs[qy]));
                    }
                }
            }
        }
        a += 1;
    }
    None
}

/// Is `v1` a valid reduction site?
fn valid_reduce_vertex(g: &Graph, v1: usize) -> (r: bool)
    requires
        g.wf(),
    ensures
        r == valid_reduce(g@, v1),
{
    if !g.is_alive(v1) {
        return false;
    }
    proof {
        g.lemma_wf();
    }
    if !matches!(g.label(v1), VColor::Z(_)) {
        return false;
    }
    find_h_triangle(g, v1).is_some()
}

/// The first alive vertex, ascending, that is a valid reduction site.
fn has_valid_reduce_vertex(g: &Graph) -> (r: Option<usize>)
    requires
        g.wf(),
    ensures
        r is None ==> forall|v: usize| !#[trigger] valid_reduce(g@, v),
        r matches Some(v) ==> first_reduce(g@, v),
{
    let vs = g.alive_vertices();
    let ghost m = g@;
    proof {
        g.lemma_wf();
        lemma_idx_filter(|i: usize| (i as int) < m.alive.len() && m.alive[i as int], m.alive.len());
    }
    let mut i: usize = 0;
    while i < vs.len()
        invariant
            g.wf(),
            m == g@,
            vs@ == m.alive_list(),
            forall|u: usize| m.is_alive(u) ==> #[trigger] vs@.contains(u),
            crate::seqs::strictly_increasing(vs@),
            i <= vs.len(),
            forall|j: int| 0 <= j < i ==> !valid_reduce(m, #[trigger] vs[j]),
        decreases vs.len() - i,
    {
        if valid_reduce_vertex(g, vs[i]) {
            proof {
                assert forall|u: usize| u < vs[i as int] implies !#[trigger] valid_reduce(m, u) by {
                    if valid_reduce(m, u) {
                        assert(vs@.contains(u));
                        let j = choose|j: int| 0 <= j < vs.len() && vs[j] == u;
                        if j >= i {
                            assert(vs[i as int] <= vs[j]);
                        }
                    }
                }
            }
            return Some(vs[i]);
        }
        i += 1;
    }
    proof {
        assert forall|v: usize| !#[trigger] valid_reduce(g@, v) by {
            if valid_reduce(m, v) {
                assert(vs@.contains(v));
                let j = choose|j: int| 0 <= j < vs.len() && vs[j] == v;
            }
        }
    }
    None
}

/// The colored multiplicity of `{x, y}` after splitting `v1` in `m` (the
/// fresh `w` being index `n`): one normal edge `v1`-`w`; `w` takes over,
/// toward each alive `y` other than `v1`, `v2`, `v3`, the edges `v1` had to
/// `y`, which `v1` loses; every other pair as before.
pub open spec fn split_cmult(m: GraphModel, v1: usize, v2: usize, v3: usize, x: usize, y: usize, c: EColor) -> nat {
    let w = m.nodes.len();
    let other = |z: usize| m.is_alive(z) && z != v1 && z != v2 && z != v3;
    if same_pair(x, y, v1, w as usize) {
        if c == EColor::NC { 1 } else { 0 }
    } else if x == w && other(y) {
        m.cmult(v1, y, c)
    } else if y == w && other(x) {
        m.cmult(x, v1, c)
    } else if (x == v1 && other(y)) || (y == v1 && other(x)) {
        0
    } else {
        m.cmult(x, y, c)
    }
}

/// The entry is the pair `(y, c)`.
pub open spec fn is_entry(y: usize, c: EColor) -> spec_fn((usize, EColor)) -> bool {
    |p: (usize, EColor)| p == (y, c)
}

/// The edge joins `v1` and `y` with color `c`, and `y` is none of `v1`,
/// `v2`, `v3`.
pub open spec fn split_moved(v1: usize, v2: usize, v3: usize, y: usize, c: EColor) -> spec_fn((usize, usize, EColor)) -> bool {
    |e: (usize, usize, EColor)| joins(v1, y, c)(e) && y != v1 && y != v2 && y != v3
}

/// Split `v1` (see [`split_cmult`]): a fresh `w = Z(s)` takes over the
/// alive edges between `v1` and its neighbours other than `v2`, `v3`.
fn split_off(g: Graph, v1: usize, v2: usize, v3: usize, s: u8) -> (r: Graph)
    requires
        g.wf(),
        g@.is_alive(v1),
        g@.nodes.len() + 2 < index_limit(),
        (g@.nodes.len() + 1) * (g@.nodes.len() + 1) <= usize::MAX,
        g@.edges.len() + g@.edges.len() + 2 < index_limit(),
    ensures
        r.wf(),
        r@.nodes == g@.nodes.push(VColor::Z(s)).update(v1 as int, VColor::Z(0)),
        r@.alive == g@.alive.push(true),
        r@.edges.len() <= g@.edges.len() + g@.edges.len() + 1,
        forall|x: usize, y: usize, c: EColor| #[trigger] r@.cmult(x, y, c) == split_cmult(g@, v1, v2, v3, x, y, c),
{
    let ghost m = g@;
    let ghost ac = alive_colored(m);
    let es = g.edges();
    proof {
        g.lemma_wf();
        lemma_idx_filter(
            |i: usize| (i as int) < m.edges.len() && m.is_alive(m.edges[i as int].0) && m.is_alive(m.edges[i as int].1),
            m.edges.len(),
        );
        assert forall|j: int| 0 <= j < es.len() implies m.is_alive((#[trigger] es[j]).0) && m.is_alive(es[j].1) by {
            let ids = m.alive_edge_ids();
            assert(es[j] == (m.edges[ids[j] as int].0, m.edges[ids[j] as int].1, ids[j]));
        }
    }
    let mut moved: Vec<(usize, EColor)> = Vec::new();
    let mut k: usize = 0;
    while k < es.len()
        invariant
            g.wf(),
            m == g@,
            m.wf(),
            ac == alive_colored(m),
            es.len() == ac.len(),
            es.len() <= m.edges.len(),
            forall|j: int| 0 <= j < es.len() ==> (#[trigger] es[j]).2 < m.edges.len() && ac[j] == (es[j].0, es[j].1, m.edges[es[j].2 as int].2),
            forall|j: int| 0 <= j < es.len() ==> m.is_alive((#[trigger] es[j]).0) && m.is_alive(es[j].1),
            k <= es.len(),
            moved.len() <= k,
            forall|q: int| 0 <= q < moved.len() ==> (#[trigger] moved[q]).0 != v1 && moved[q].0 != v2 && moved[q].0 != v3 && m.is_alive(moved[q].0),
            forall|y: usize, c: EColor| #[trigger] count_if(moved@, is_entry(y, c)) == count_if(ac.take(k as int), split_moved(v1, v2, v3, y, c)),
        decreases es.len() - k,
    {
        let (a, b, e) = es[k];
        let ghost mv0 = moved@;
        proof {
            assert(ac.take(k + 1).drop_last() =~= ac.take(k as int));
            assert(ac.take(k + 1).last() == ac[k as int]);
        }
        if (a == v1) != (b == v1) {
            let other = if a == v1 { b } else { a };
            if other != v2 && other != v3 {
                let col = g.edge_color(e);
                moved.push((other, col));
                proof {
                    assert(moved@ == mv0.push((other, col)));
                    assert forall|y: usize, c: EColor| #[trigger] count_if(moved@, is_entry(y, c)) == count_if(ac.take(k + 1), split_moved(v1, v2, v3, y, c)) by {
                        crate::seqs::lemma_count_if_push(mv0, (other, col), is_entry(y, c));
                    }
                }
            }
        }
        k += 1;
    }
    proof {
        assert(ac.take(es.len() as int) =~= ac);
    }
    let nb = g.alive_neighbors(v1);
    proof {
        lemma_idx_filter(m.nbr_pred(v1), m.nodes.len());
    }
    let mut n1: Vec<usize> = Vec::new();
    let mut i: usize = 0;
    while i < nb.len()
        invariant
            m == g@,
            nb@ == m.nbrs(v1),
            crate::seqs::strictly_increasing(nb@),
            forall|q: int| 0 <= q < nb.len() ==> m.nbr_pred(v1)(#[trigger] nb[q]) && nb[q] < m.nodes.len(),
            i <= nb.len(),
            crate::seqs::strictly_increasing(n1@),
            forall|q: int| 0 <= q < n1.len() ==> (exists|j: int| 0 <= j < i && nb[j] == #[trigger] n1[q]) && n1[q] != v2 && n1[q] != v3,
            forall|j: int| 0 <= j < i && #[trigger] nb[j] != v2 && nb[j] != v3 ==> n1@.contains(nb[j]),
        decreases nb.len() - i,
    {
        let ghost n10 = n1@;
        if nb[i] != v2 && nb[i] != v3 {
            n1.push(nb[i]);
            proof {
                assert forall|q: int| 0 <= q < n1.len() - 1 implies n1[q] < nb[i as int] by {
                    let j = choose|j: int| 0 <= j < i && nb[j] == #[trigger] n1[q];
                    assert(nb[j] < nb[i as int]);
                }
            }
        }
        i += 1;
        proof {
            assert forall|q: int| 0 <= q < n1.len() implies (exists|j: int| 0 <= j < i && nb[j] == #[trigger] n1[q]) && n1[q] != v2 && n1[q] != v3 by {
                if q < n10.len() {
                    assert(n1[q] == n10[q]);
                    let j = choose|j: int| 0 <= j < i - 1 && nb[j] == #[trigger] n10[q];
                } else {
                    assert(nb[i - 1] == n1[q]);
                }
            }
            assert forall|j: int| 0 <= j < i && #[trigger] nb[j] != v2 && nb[j] != v3 implies n1@.contains(nb[j]) by {
                if j < i - 1 {
                    assert(n10.contains(nb[j]));
                    let q = choose|q: int| 0 <= q < n10.len() && n10[q] == nb[j];
                    assert(n1[q] == n10[q]);
                } else {
                    assert(n1[n1.len() - 1] == nb[j]);
                }
            }
        }
    }
    let mut out = g;
    let w = out.add_vertex_with(VColor::Z(s));
    let ghost m1 = out@;
    let mut t: usize = 0;
    while t < moved.len()
        invariant
            out.wf(),
            m.wf(),
            w == m.nodes.len(),
            out@.nodes == m1.nodes,
            out@.alive == m1.alive,
            m1.nodes == m.nodes.push(VColor::Z(s)),
            m1.alive == m.alive.push(true),
            moved.len() <= m.edges.len(),
            m.edges.len() + m.edges.len() + 2 < index_limit(),
            forall|q: int| 0 <= q < moved.len() ==> (#[trigger] moved[q]).0 != v1 && moved[q].0 != v2 && moved[q].0 != v3 && m.is_alive(moved[q].0),
            t <= moved.len(),
            out@.edges.len() == m.edges.len() + t,
            forall|x: usize, y: usize, c: EColor| #[trigger] out@.cmult(x, y, c) == m.cmult(x, y, c) + if x == w {
                count_if(moved@.take(t as int), is_entry(y, c))
            } else if y == w {
                count_if(moved@.take(t as int), is_entry(x, c))
            } else {
                0
            },
        decreases moved.len() - t,
    {
        let (other, c) = moved[t];
        let ghost before = out@;
        proof {
            assert(m.is_alive(other));
        }
        out.add_edge_c(w, other, c);
        proof {
            lemma_cmult_push(before, out@, (w, other, c));
            assert(moved@.take(t + 1).drop_last() =~= moved@.take(t as int));
            assert(moved@.take(t + 1).last() == moved[t as int]);
            assert forall|x: usize, y: usize, cc: EColor| #[trigger] out@.cmult(x, y, cc) == m.cmult(x, y, cc) + if x == w {
                count_if(moved@.take(t + 1), is_entry(y, cc))
            } else if y == w {
                count_if(moved@.take(t + 1), is_entry(x, cc))
            } else {
                0
            } by {
                crate::operation::utils::lemma_cmult_outside(m, w, w, cc);
            }
        }
        t += 1;
    }
    let ghost m2 = out@;
    proof {
        assert(moved@.take(moved.len() as int) =~= moved@);
    }
    let mut r: usize = 0;
    while r < n1.len()
        invariant
            out.wf(),
            out@.nodes == m1.nodes,
            out@.alive == m1.alive,
            r <= n1.len(),
            out@.edges.len() <= m2.edges.len(),
            forall|q: int| 0 <= q < n1.len() ==> #[trigger] n1[q] != v2 && n1[q] != v3,
            crate::seqs::strictly_increasing(n1@),
            forall|x: usize, y: usize, c: EColor| #[trigger] out@.cmult(x, y, c) == if exists|j: int| 0 <= j < r && same_pair(x, y, v1, #[trigger] n1[j]) {
                0
            } else {
                m2.cmult(x, y, c)
            },
        decreases n1.len() - r,
    {
        let n = n1[r];
        remove_all_between(&mut out, v1, n);
        r += 1;
        proof {
            assert forall|x: usize, y: usize, c: EColor| #[trigger] out@.cmult(x, y, c) == if exists|j: int| 0 <= j < r && same_pair(x, y, v1, #[trigger] n1[j]) {
                0
            } else {
                m2.cmult(x, y, c)
            } by {
                if same_pair(x, y, v1, n) {
                    assert(same_pair(x, y, v1, n1[r - 1]));
                    lemma_cmult_sym(out@, v1, n, c);
                } else if exists|j: int| 0 <= j < r && same_pair(x, y, v1, #[trigger] n1[j]) {
                    let j = choose|j: int| 0 <= j < r && same_pair(x, y, v1, #[trigger] n1[j]);
                    assert(j < r - 1);
                }
            }
        }
    }
    let ghost m3 = out@;
    proof {
        assert(m.is_alive(v1) && v1 < m.nodes.len());
        assert(m3.edges.len() + 1 < index_limit());
    }
    out.add_edge_c(v1, w, EColor::NC);
    let ghost m4 = out@;
    out.set_color(v1, VColor::Z(0));
    proof {
        lemma_cmult_push(m3, m4, (v1, w, EColor::NC));
        assert forall|x: usize, y: usize, c: EColor| #[trigger] out@.cmult(x, y, c) == split_cmult(m, v1, v2, v3, x, y, c) by {
            assert(out@.cmult(x, y, c) == m4.cmult(x, y, c));
            let other = |z: usize| m.is_alive(z) && z != v1 && z != v2 && z != v3;
            let rem = exists|j: int| 0 <= j < r && same_pair(x, y, v1, #[trigger] n1[j]);
            if same_pair(x, y, v1, w) {
                assert(!rem) by {
                    if rem {
                        let j = choose|j: int| 0 <= j < r && same_pair(x, y, v1, #[trigger] n1[j]);
                        assert(n1[j] < m.nodes.len());
                    }
                }
                crate::operation::utils::lemma_cmult_outside(m, x, y, c);
                crate::seqs::lemma_count_if_none(moved@, is_entry(v1, c));
            } else if x == w && other(y) {
                assert(!rem);
                crate::operation::utils::lemma_cmult_outside(m, x, y, c);
                crate::operation::utils::lemma_acmult_alive_count(m, v1, y, c);
                crate::seqs::lemma_count_if_agree(ac, split_moved(v1, v2, v3, y, c), joins(v1, y, c));
            } else if y == w && other(x) {
                assert(!rem);
                crate::operation::utils::lemma_cmult_outside(m, x, y, c);
                crate::operation::utils::lemma_acmult_alive_count(m, v1, x, c);
                crate::seqs::lemma_count_if_agree(ac, split_moved(v1, v2, v3, x, c), joins(v1, x, c));
                lemma_cmult_sym(m, x, v1, c);
            } else if (x == v1 && other(y)) || (y == v1 && other(x)) {
                let z = if x == v1 { y } else { x };
                if m.adj(v1, z) {
                    assert(m.nbr_pred(v1)(z));
                    assert(nb@.contains(z));
                    let j = choose|j: int| 0 <= j < nb.len() && nb[j] == z;
                    assert(n1@.contains(z));
                    let q = choose|q: int| 0 <= q < n1.len() && n1[q] == z;
                    assert(same_pair(x, y, v1, n1[q]));
                } else {
                    if !rem {
                        assert(m.cmult(x, y, c) == 0) by {
                            crate::seqs::lemma_count_if_pos(m.edges, joins(x, y, c));
                            if m.cmult(x, y, c) > 0 {
                                let e = choose|e: int| 0 <= e < m.edges.len() && joins(x, y, c)(#[trigger] m.edges[e]);
                                assert(crate::petgraph_ext::connects(m.edges[e], v1, z));
                            }
                        }
                    }
                }
            } else {
                if rem {
                    let j = choose|j: int| 0 <= j < r && same_pair(x, y, v1, #[trigger] n1[j]);
                    assert(n1[j] != v2 && n1[j] != v3);
                    assert(nb@.contains(n1[j]));
                }
                if x == w {
                    crate::seqs::lemma_count_if_none(moved@, is_entry(y, c));
                } else if y == w {
                    crate::seqs::lemma_count_if_none(moved@, is_entry(x, c));
                }
            }
        }
    }
    out
}

/// Room below the index limit for the four fresh vertices and the edges of
/// the reduction (the split may double the edge count).
pub open spec fn reduce_room(m: GraphModel) -> bool {
    &&& m.nodes.len() + m.edges.len() + m.edges.len() + 6 < index_limit()
    &&& (m.nodes.len() + 4) * (m.nodes.len() + 4) <= usize::MAX
}

/// At a valid site, `v1` carries no alive normal edge to either corner of
/// its first triangle (a mixed pair lies outside graph-like input).
pub open spec fn reduce_safe(m: GraphModel, v1: usize) -> bool {
    valid_reduce(m, v1) ==> acmult(m, v1, first_tri(m, v1).0, EColor::NC) == 0 && acmult(
        m,
        v1,
        first_tri(m, v1).1,
        EColor::NC,
    ) == 0
}

/// The colored multiplicity of `{x, y}` once `m` is parity-normalized and
/// `v1` is split off onto the fresh `w = n` (see [`split_cmult`]).
pub open spec fn reduce_split(m: GraphModel, v1: usize, v2: usize, v3: usize, x: usize, y: usize, c: EColor) -> nat {
    let w = m.nodes.len();
    let other = |z: usize| m.is_alive(z) && z != v1 && z != v2 && z != v3;
    if same_pair(x, y, v1, w as usize) {
        if c == EColor::NC { 1 } else { 0 }
    } else if x == w && other(y) {
        normalized(m, v1, y, c)
    } else if y == w && other(x) {
        normalized(m, x, v1, c)
    } else if (x == v1 && other(y)) || (y == v1 && other(x)) {
        0
    } else {
        normalized(m, x, y, c)
    }
}

/// `ms` is the graph `m` after parity normalization and the split of
/// `v1 = Z(s)` against its triangle corners `v2`, `v3`.
pub open spec fn split_model(m: GraphModel, v1: usize, v2: usize, v3: usize, s: u8, ms: GraphModel) -> bool {
    &&& ms.nodes == m.nodes.push(VColor::Z(s)).update(v1 as int, VColor::Z(0))
    &&& ms.alive == m.alive.push(true)
    &&& forall|x: usize, y: usize, c: EColor| #[trigger] ms.cmult(x, y, c) == reduce_split(m, v1, v2, v3, x, y, c)
}

/// The phase of a Z spider (0 for any other label).
pub open spec fn z_phase(c: VColor) -> u8 {
    match c {
        VColor::Z(s) => s,
        _ => 0,
    }
}

/// `r` is the reduction of `m` at the valid site `v1` with first triangle
/// `(v2, v3)`: labels `v1 = Z(0)`, `v2`, `v3` raised by one step, and the
/// fresh `w = Z(s)`, `u = Z(0)`, `w' = Z(0)`, `x = X(7)` appended, all
/// alive; edges those of the split graph `ms` rewritten at `v1`
/// (see [`had2_rewritten`]), one `v2`-`v3` edge of some color `c0` gone.
pub open spec fn reduced(m: GraphModel, v1: usize, r: GraphModel) -> bool {
    let v2 = first_tri(m, v1).0;
    let v3 = first_tri(m, v1).1;
    let s = z_phase(m.nodes[v1 as int]);
    &&& r.nodes == m.nodes.update(v1 as int, VColor::Z(0)).update(v2 as int, bump(m.nodes[v2 as int])).update(
        v3 as int,
        bump(m.nodes[v3 as int]),
    ).push(VColor::Z(s)).push(VColor::Z(0)).push(VColor::Z(0)).push(VColor::X(7))
    &&& r.alive == m.alive.push(true).push(true).push(true).push(true)
    &&& exists|ms: GraphModel, c0: EColor| #![trigger split_model(m, v1, v2, v3, s, ms), ms.cmult(v2, v3, c0)]
        split_model(m, v1, v2, v3, s, ms) && ms.cmult(v2, v3, c0) > 0 && forall|x: usize, y: usize, c: EColor|
            #[trigger] r.cmult(x, y, c) == had2_rewritten(ms, v1, v2, v3, c0, x, y, c)
}

/// Reduce the Hadamard triangle at `v1` (see the module docs) on a copy of
/// `g`; an invalid site returns the graph unchanged.
pub fn reduce_had_triangle_on_vertex(g: &Graph, v1: usize) -> (r: Graph)
    requires
        g.wf(),
        reduce_room(g@),
        reduce_safe(g@, v1),
    ensures
        r.wf(),
        r@.edges.len() <= g@.edges.len() + g@.edges.len() + 3,
        !valid_reduce(g@, v1) ==> r@ == g@,
        valid_reduce(g@, v1) ==> reduced(g@, v1, r@),
        valid_reduce(g@, v1) && acmult(g@, first_tri(g@, v1).0, first_tri(g@, v1).1, EColor::NC) == 0 ==> alive_h(r@)
            < alive_h(g@),
{
    let ghost m = g@;
    if !g.is_alive(v1) {
        return g.clone();
    }
    proof {
        g.lemma_wf();
    }
    let s = match g.label(v1) {
        VColor::Z(s) => s,
        _ => {
            return g.clone();
        },
    };
    let (v2, v3) = match find_h_triangle(g, v1) {
        Some(p) => p,
        None => {
            return g.clone();
        },
    };
    proof {
        assert(valid_reduce(m, v1));
        let p = first_tri(m, v1);
        assert(h_triangle(m, v1, p.0, p.1) && lex_le(p.0, p.1, v2, v3) && lex_le(v2, v3, p.0, p.1));
        assert(p == (v2, v3));
        assert(v2 < m.nodes.len() && v3 < m.nodes.len() && v2 != v1 && v3 != v1);
        let n = m.nodes.len();
        assert((n + 1) * (n + 1) <= (n + 4) * (n + 4)) by (nonlinear_arith);
    }
    let norm = normalize_h_parity_total(g);
    let ghost mn = norm@;
    let split = split_off(norm, v1, v2, v3, s);
    let ghost ms = split@;
    proof {
        let n = m.nodes.len();
        assert forall|x: usize, y: usize, c: EColor| #[trigger] ms.cmult(x, y, c) == reduce_split(m, v1, v2, v3, x, y, c) by {
            assert(ms.cmult(x, y, c) == split_cmult(mn, v1, v2, v3, x, y, c));
            assert(mn.cmult(x, y, c) == normalized(m, x, y, c));
            assert(mn.cmult(v1, y, c) == normalized(m, v1, y, c));
            assert(mn.cmult(x, v1, c) == normalized(m, x, v1, c));
        }
        assert(split_model(m, v1, v2, v3, s, ms));
        // v1's H neighbourhood in the split graph is exactly {v2, v3}.
        assert forall|u: usize| u < ms.nodes.len() implies (#[trigger] colored_pred(ms, v1, EColor::H)(u) <==> (u == v2 || u == v3)) by {
            assert(ms.cmult(v1, u, EColor::H) == reduce_split(m, v1, v2, v3, v1, u, EColor::H));
            if u == v2 || u == v3 {
                assert(acmult(m, v1, u, EColor::H) % 2 == 1);
            }
        }
        crate::seqs::lemma_idx_filter_pair(colored_pred(ms, v1, EColor::H), ms.nodes.len(), v2, v3);
        assert(colored_nbrs(ms, v1, EColor::H) == seq![v2, v3]);
        assert(ms.cmult(v2, v3, EColor::H) == reduce_split(m, v1, v2, v3, v2, v3, EColor::H));
        assert(ms.cmult(v1, v2, EColor::H) == reduce_split(m, v1, v2, v3, v1, v2, EColor::H));
        assert(ms.cmult(v1, v3, EColor::H) == reduce_split(m, v1, v2, v3, v1, v3, EColor::H));
        assert(ms.cmult(v1, v2, EColor::NC) == reduce_split(m, v1, v2, v3, v1, v2, EColor::NC));
        assert(ms.cmult(v1, v3, EColor::NC) == reduce_split(m, v1, v2, v3, v1, v3, EColor::NC));
        assert(valid_had2(ms, v1));
        assert(had2_safe(ms, v1));
        lemma_idx_filter(colored_pred(ms, v1, EColor::NC), ms.nodes.len());
        assert((n + 3) * (n + 3) <= (n + 4) * (n + 4)) by (nonlinear_arith);
        assert((n + 1 + 3) * (n + 1 + 3) <= usize::MAX);
        assert(had2_room(ms, v1));
    }
    let r = k3_remove_edge_had2_on_vertex(&split, v1);
    proof {
        let rm = r@;
        assert(colored_nbrs(ms, v1, EColor::H)[0] == v2);
        assert(colored_nbrs(ms, v1, EColor::H)[1] == v3);
        assert(z_phase(m.nodes[v1 as int]) == s);
        assert(rm.nodes =~= m.nodes.update(v1 as int, VColor::Z(0)).update(v2 as int, bump(m.nodes[v2 as int])).update(
            v3 as int,
            bump(m.nodes[v3 as int]),
        ).push(VColor::Z(s)).push(VColor::Z(0)).push(VColor::Z(0)).push(VColor::X(7)));
        let c0 = choose|c0: EColor| ms.cmult(v2, v3, c0) > 0 && forall|x: usize, y: usize, c: EColor|
            #[trigger] rm.cmult(x, y, c) == had2_rewritten(ms, v1, v2, v3, c0, x, y, c);
        assert(split_model(m, v1, v2, v3, s, ms) && ms.cmult(v2, v3, c0) > 0);
        assert(reduced(m, v1, rm));
        if acmult(m, v2, v3, EColor::NC) == 0 {
            assert(ms.cmult(v2, v3, EColor::NC) == reduce_split(m, v1, v2, v3, v2, v3, EColor::NC));
            assert(c0 == EColor::H);
            split.lemma_wf();
            lemma_split_alive_h(m, ms, v1, v2, v3, s);
            crate::operation::zx::k3_remove_edge_ha_2::lemma_had2_alive_h(ms, rm, v1, c0);
        }
    }
    r
}


/// The alive H edges of the split graph that fold (`w -> v1`) onto the
/// pair `{v1, y}` number no more than the alive H edges of `{v1, y}`
/// before.
proof fn lemma_split_key(m: GraphModel, ms: GraphModel, v1: usize, v2: usize, v3: usize, s: u8, y: usize)
    requires
        m.wf(),
        split_model(m, v1, v2, v3, s, ms),
        m.is_alive(v1),
        y != v1,
        y != m.nodes.len(),
    ensures
        count_if(ms.edges, and_pred(alive_h_pred(ms), after(rename(m.nodes.len() as usize, v1), joins(v1, y, EColor::H))))
            <= acmult(m, v1, y, EColor::H),
{
    let w = m.nodes.len() as usize;
    let q = and_pred(alive_h_pred(ms), after(rename(w, v1), joins(v1, y, EColor::H)));
    let t = after(ident_edge(), joins(v1, y, EColor::H));
    lemma_count_if_split(ms.edges, q, t);
    lemma_count_if_mono(ms.edges, and_pred(q, t), and_pred(alive_h_pred(ms), t));
    lemma_count_if_mono(ms.edges, and_not_pred(q, t), and_pred(alive_h_pred(ms), after(ident_edge(), joins(w, y, EColor::H))));
    lemma_alive_h_key(ms, v1, y, EColor::H);
    lemma_alive_h_key(ms, w, y, EColor::H);
    assert(ms.cmult(v1, y, EColor::H) == reduce_split(m, v1, v2, v3, v1, y, EColor::H));
    assert(ms.cmult(w, y, EColor::H) == reduce_split(m, v1, v2, v3, w, y, EColor::H));
    lemma_cmult_outside(m, w, y, EColor::H);
}

/// Normalizing and splitting keep no more alive H edges than the graph
/// had.
proof fn lemma_split_alive_h(m: GraphModel, ms: GraphModel, v1: usize, v2: usize, v3: usize, s: u8)
    requires
        m.wf(),
        split_model(m, v1, v2, v3, s, ms),
        m.is_alive(v1),
    ensures
        alive_h(ms) <= alive_h(m),
{
    let w = m.nodes.len() as usize;
    let f = rename(w, v1);
    assert forall|x: usize, y: usize, c: EColor|
        count_if(ms.edges, and_pred(alive_h_pred(ms), after(f, joins(x, y, c)))) <= #[trigger] count_if(
            m.edges,
            and_pred(alive_h_pred(m), after(ident_edge(), joins(x, y, c))),
        ) by {
        let q = and_pred(alive_h_pred(ms), after(f, joins(x, y, c)));
        lemma_alive_h_key(m, x, y, c);
        if c != EColor::H || x == w || y == w {
            assert forall|i: int| 0 <= i < ms.edges.len() implies !q(#[trigger] ms.edges[i]) by {}
            lemma_count_if_none(ms.edges, q);
        } else if x != v1 && y != v1 {
            lemma_count_if_agree(ms.edges, q, and_pred(alive_h_pred(ms), after(ident_edge(), joins(x, y, c))));
            lemma_alive_h_key(ms, x, y, c);
            assert(ms.cmult(x, y, c) == reduce_split(m, v1, v2, v3, x, y, c));
        } else if x == v1 && y == v1 {
            assert(ms.cmult(v1, v1, c) == reduce_split(m, v1, v2, v3, v1, v1, c));
            assert(ms.cmult(v1, w, c) == reduce_split(m, v1, v2, v3, v1, w, c));
            assert(ms.cmult(w, w, c) == reduce_split(m, v1, v2, v3, w, w, c));
            lemma_cmult_outside(m, w, w, c);
            lemma_count_if_pos(ms.edges, joins(v1, v1, c));
            lemma_count_if_pos(ms.edges, joins(v1, w, c));
            lemma_count_if_pos(ms.edges, joins(w, w, c));
            assert forall|i: int| 0 <= i < ms.edges.len() implies !q(#[trigger] ms.edges[i]) by {
                if q(ms.edges[i]) {
                    assert(joins(v1, v1, c)(ms.edges[i]) || joins(v1, w, c)(ms.edges[i]) || joins(w, w, c)(ms.edges[i]));
                }
            }
            lemma_count_if_none(ms.edges, q);
        } else if x == v1 {
            lemma_split_key(m, ms, v1, v2, v3, s, y);
        } else {
            lemma_split_key(m, ms, v1, v2, v3, s, x);
            lemma_count_if_agree(ms.edges, q, and_pred(alive_h_pred(ms), after(f, joins(v1, x, c))));
            lemma_cmult_sym(m, x, v1, c);
        }
    }
    crate::graph::lemma_key_dominated(ms.edges, alive_h_pred(ms), f, m.edges, alive_h_pred(m), ident_edge());
}

/// Room for [`reduce_had_triangle_on_vertex`].
fn reduce_fits(g: &Graph) -> (r: bool)
    requires
        g.wf(),
    ensures
        r == reduce_room(g@),
{
    proof {
        g.lemma_wf();
    }
    let n = g.node_count() as u128;
    let e = g.edge_count() as u128;
    proof {
        assert((n + 4) * (n + 4) <= 0x1_0000_0004u128 * 0x1_0000_0004u128) by (nonlinear_arith)
            requires
                n < 0x1_0000_0000u128,
        ;
    }
    n + e + e + 6 < 0xFFFF_FFFFu128 && (n + 4) * (n + 4) <= usize::MAX as u128
}

/// `(v2, v3)`, a triangle at `v1` that no other comes before, is the first.
proof fn lemma_first_tri(m: GraphModel, v1: usize, v2: usize, v3: usize)
    requires
        h_triangle(m, v1, v2, v3),
        forall|x: usize, y: usize| h_triangle(m, v1, x, y) ==> lex_le(v2, v3, x, y),
    ensures
        first_tri(m, v1) == (v2, v3),
{
    let q = (v2, v3);
    assert(h_triangle(m, v1, q.0, q.1) && forall|x: usize, y: usize| h_triangle(m, v1, x, y) ==> lex_le(q.0, q.1, x, y));
    let p = first_tri(m, v1);
    assert(h_triangle(m, v1, p.0, p.1) && lex_le(p.0, p.1, v2, v3) && lex_le(v2, v3, p.0, p.1));
}

/// Room for a full round (a reduction, then [`fuse_total`]) at `m`.
pub open spec fn round_room(m: GraphModel) -> bool {
    &&& reduce_room(m)
    &&& (m.edges.len() + m.edges.len() + 3) * (m.nodes.len() + 6) + 1 < index_limit()
}

/// Room for a full round.
fn round_fits(g: &Graph) -> (r: bool)
    requires
        g.wf(),
    ensures
        r == round_room(g@),
{
    if !reduce_fits(g) {
        return false;
    }
    proof {
        g.lemma_wf();
    }
    let n = g.node_count() as u128;
    let e = g.edge_count() as u128;
    proof {
        assert((e + e + 3) * (n + 6) < 0x2_0000_0003u128 * 0x1_0000_0006u128) by (nonlinear_arith)
            requires
                e < 0x1_0000_0000u128,
                n < 0x1_0000_0000u128,
        ;
    }
    (e + e + 3) * (n + 6) + 1 < 0xFFFF_FFFFu128
}

/// Parity-normal, fully fused, and without a valid site: the fixpoint
/// leaves such a graph as it is.
pub open spec fn reduce_fixed(m: GraphModel) -> bool {
    &&& parity_normal(m)
    &&& fully_fused(m)
    &&& forall|v: usize| !#[trigger] valid_reduce(m, v)
}

/// Validity of a site reads only labels, liveness and multiplicities.
proof fn lemma_valid_reduce_same(m: GraphModel, m2: GraphModel, v: usize)
    requires
        m.nodes == m2.nodes,
        m.alive == m2.alive,
        forall|x: usize, y: usize, c: EColor| #[trigger] m.cmult(x, y, c) == m2.cmult(x, y, c),
    ensures
        valid_reduce(m, v) == valid_reduce(m2, v),
{
    assert forall|x: usize, y: usize| h_triangle(m, v, x, y) == h_triangle(m2, v, x, y) by {
        assert(m.cmult(v, x, EColor::H) == m2.cmult(v, x, EColor::H));
        assert(m.cmult(v, y, EColor::H) == m2.cmult(v, y, EColor::H));
        assert(m.cmult(x, y, EColor::H) == m2.cmult(x, y, EColor::H));
    }
    if valid_reduce(m, v) {
        let (x, y) = choose|x: usize, y: usize| h_triangle(m, v, x, y);
        assert(h_triangle(m2, v, x, y));
    }
    if valid_reduce(m2, v) {
        let (x, y) = choose|x: usize, y: usize| h_triangle(m2, v, x, y);
        assert(h_triangle(m, v, x, y));
    }
}

/// `v` is the first valid site of `m`.
pub open spec fn first_reduce(m: GraphModel, v: usize) -> bool {
    valid_reduce(m, v) && forall|u: usize| u < v ==> !#[trigger] valid_reduce(m, u)
}

/// One round of [`reduce_had_triangle_total`]: with room for it, reduce the
/// first valid site, then fuse (see [`fuse_run`]).
pub open spec fn reduce_round(m: GraphModel, r: GraphModel) -> bool {
    exists|v: usize, next: GraphModel|
        #![trigger first_reduce(m, v), reduced(m, v, next)]
        first_reduce(m, v) && round_room(m) && reduced(m, v, next) && fuse_run(next, r)
}

/// `r` is what [`reduce_had_triangle_total`] makes of `g`: fuse, then
/// rounds at the first valid site until none is left, or the next round
/// has no room below the index limit.
pub open spec fn reduce_run(g: GraphModel, r: GraphModel) -> bool {
    exists|states: Seq<GraphModel>|
        #![trigger states.len()]
        states.len() >= 1 && fuse_run(g, states[0]) && (forall|i: int|
            0 <= i < states.len() - 1 ==> #[trigger] reduce_round(states[i], states[i + 1])) && states.last() == r && ((
        forall|v: usize| !#[trigger] valid_reduce(r, v)) || !round_room(r))
}

/// Reduce every all-Z Hadamard triangle: [`fuse_total`] first, then, while
/// a valid site remains (the first in ascending order), reduce it and
/// [`fuse_total`] again. Every round deletes an alive H edge for good and
/// adds none, so the loop ends. The result is parity-normal and fully
/// fused, with no more alive H edges than `g`, and no valid site left
/// unless the loop stopped for want of room below the index limit. (No
/// side of a triangle carries a normal edge there: its corners would be a
/// fusable pair.)
/// A graph that already is parity-normal, fully fused and without a valid
/// site comes back with the same vertices, liveness and colored
/// multiplicities.
pub fn reduce_had_triangle_total(g: &Graph) -> (r: Graph)
    requires
        g.wf(),
        g@.edges.len() * (g@.nodes.len() + 2) + 1 < index_limit(),
    ensures
        r.wf(),
        parity_normal(r@),
        fully_fused(r@),
        alive_h(r@) <= alive_h(g@),
        (forall|v: usize| !#[trigger] valid_reduce(r@, v)) || !round_room(r@),
        reduce_fixed(g@) ==> r@.nodes == g@.nodes && r@.alive == g@.alive && forall|x: usize, y: usize, c: EColor|
            #[trigger] r@.cmult(x, y, c) == g@.cmult(x, y, c),
        reduce_run(g@, r@),
{
    let mut tmp = fuse_total(g);
    let ghost mut states: Seq<GraphModel> = seq![tmp@];
    loop
        invariant
            states.len() >= 1,
            fuse_run(g@, states[0]),
            forall|i: int| 0 <= i < states.len() - 1 ==> #[trigger] reduce_round(states[i], states[i + 1]),
            states.last() == tmp@,
            tmp.wf(),
            parity_normal(tmp@),
            fully_fused(tmp@),
            alive_h(tmp@) <= alive_h(g@),
            reduce_fixed(g@) ==> tmp@.nodes == g@.nodes && tmp@.alive == g@.alive && forall|x: usize, y: usize, c: EColor|
                #[trigger] tmp@.cmult(x, y, c) == g@.cmult(x, y, c),
        ensures
            states.len() >= 1,
            fuse_run(g@, states[0]),
            forall|i: int| 0 <= i < states.len() - 1 ==> #[trigger] reduce_round(states[i], states[i + 1]),
            states.last() == tmp@,
            tmp.wf(),
            parity_normal(tmp@),
            fully_fused(tmp@),
            alive_h(tmp@) <= alive_h(g@),
            (forall|v: usize| !#[trigger] valid_reduce(tmp@, v)) || !round_room(tmp@),
            reduce_fixed(g@) ==> tmp@.nodes == g@.nodes && tmp@.alive == g@.alive && forall|x: usize, y: usize, c: EColor|
                #[trigger] tmp@.cmult(x, y, c) == g@.cmult(x, y, c),
        decreases alive_h(tmp@),
    {
        let ghost m = tmp@;
        let v = match has_valid_reduce_vertex(&tmp) {
            Some(v) => v,
            None => {
                break;
            },
        };
        proof {
            if reduce_fixed(g@) {
                lemma_valid_reduce_same(m, g@, v);
            }
        }
        if !round_fits(&tmp) {
            break;
        }
        let (v2, v3) = match find_h_triangle(&tmp, v) {
            Some(p) => p,
            None => {
                proof {
                    let (x, y) = choose|x: usize, y: usize| h_triangle(m, v, x, y);
                    assert(!h_triangle(m, v, x, y));
                }
                break;
            },
        };
        proof {
            lemma_first_tri(m, v, v2, v3);
            // Normal edges inside the triangle would be fusable pairs.
            assert(!valid_fuse(m, v, v2) && !valid_fuse(m, v, v3) && !valid_fuse(m, v2, v3));
        }
        let next = reduce_had_triangle_on_vertex(&tmp, v);
        proof {
            let e = m.edges.len();
            let n = m.nodes.len();
            assert(valid_reduce(m, v));
            assert(reduced(m, v, next@));
            let t = first_tri(m, v);
            tmp.lemma_wf();
            assert(h_triangle(m, v, t.0, t.1));
            assert(v < n && t.0 < n && t.1 < n);
            assert(next@.nodes == m.nodes.update(v as int, VColor::Z(0)).update(t.0 as int, bump(m.nodes[t.0 as int])).update(
                t.1 as int,
                bump(m.nodes[t.1 as int]),
            ).push(VColor::Z(z_phase(m.nodes[v as int]))).push(VColor::Z(0)).push(VColor::Z(0)).push(VColor::X(7)));
            assert(next@.nodes.len() == n + 4);
            assert(next@.edges.len() * (next@.nodes.len() + 2) <= (e + e + 3) * (n + 6)) by (nonlinear_arith)
                requires
                    next@.edges.len() <= e + e + 3,
                    next@.nodes.len() + 2 == n + 6,
            ;
        }
        let ghost before = tmp@;
        tmp = fuse_total(&next);
        proof {
            assert(reduce_round(before, tmp@));
            let s0 = states;
            states = states.push(tmp@);
            assert forall|i: int| 0 <= i < states.len() - 1 implies #[trigger] reduce_round(states[i], states[i + 1]) by {
                if i < s0.len() - 1 {
                    assert(states[i] == s0[i] && states[i + 1] == s0[i + 1]);
                } else {
                    assert(states[i] == before);
                }
            }
        }
    }
    proof {
        assert(reduce_run(g@, tmp@));
    }
    tmp
}
} // verus!
