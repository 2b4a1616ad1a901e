//! Spider fusion: two same-colored spiders joined by a normal edge merge
//! into one, their phases adding modulo 8.
//!
//! The fused spider lives at `v1`; `v2` is logically deleted. Every alive
//! edge at `v2` moves onto `v1` with its color; every edge between `v1` and
//! `v2` and every self-loop at `v2` is canceled. [`fuse_total`] normalizes
//! the H-edge parity before the first fusion and after each one.

use vstd::prelude::*;

use crate::graph::{alive_colored, joins, lemma_cmult_push, lemma_cmult_sym, EColor, Graph, GraphModel, VColor};
use crate::operation::utils::{
    acmult, alive_h, alive_h_pred, alive_pred, alive_total, both, get_normal_neighbour, ident_edge, lemma_alive_h_key,
    lemma_alive_total_kill, nc_connected, remove_all_between, rename, same_pair, touches,
};
use crate::operation::zx::normalize_h_parity::{lemma_normalize_idempotent, normalize_h_parity_total, normalized};
use crate::petgraph_ext::index_limit;
use crate::seqs::{after, and_not_pred, and_pred, count_if, lemma_count_if_agree, lemma_count_if_mono, lemma_count_if_push, lemma_count_if_split};

verus! {

/// Both Z spiders or both X spiders.
pub open spec fn same_kind(a: VColor, b: VColor) -> bool {
    (a is Z && b is Z) || (a is X && b is X)
}

/// The spider that fusing `a` and `b` gives: the same color, the phases
/// added modulo 8.
pub open spec fn merged(a: VColor, b: VColor) -> VColor {
    match (a, b) {
        (VColor::Z(s), VColor::Z(t)) => VColor::Z(((s + t) % 8) as u8),
        (VColor::X(s), VColor::X(t)) => VColor::X(((s + t) % 8) as u8),
        _ => a,
    }
}

/// A valid fuse pair: two distinct alive spiders of the same color joined
/// by at least one alive normal edge.
pub open spec fn valid_fuse(m: GraphModel, v1: usize, v2: usize) -> bool {
    &&& v1 != v2
    &&& m.is_alive(v1)
    &&& m.is_alive(v2)
    &&& same_kind(m.nodes[v1 as int], m.nodes[v2 as int])
    &&& acmult(m, v1, v2, EColor::NC) > 0
}

/// The colored multiplicity of `{x, y}` after fusing `v2` into `v1`: none
/// between `v1` and `v2`; `v1` gains, toward each alive `y` other than the
/// pair, the edges `v2` had to `y`; every other pair as before.
pub open spec fn fused(m: GraphModel, v1: usize, v2: usize, x: usize, y: usize, c: EColor) -> nat {
    if same_pair(x, y, v1, v2) {
        0
    } else if x == v1 && y != v1 && y != v2 && m.is_alive(y) {
        m.cmult(v1, y, c) + m.cmult(v2, y, c)
    } else if y == v1 && x != v1 && x != v2 && m.is_alive(x) {
        m.cmult(x, v1, c) + m.cmult(x, v2, c)
    } else {
        m.cmult(x, y, c)
    }
}

/// The edge joins `v2` and `y` with color `c`, and `y` is neither `v1` nor
/// `v2`.
pub open spec fn moved(v1: usize, v2: usize, y: usize, c: EColor) -> spec_fn((usize, usize, EColor)) -> bool {
    |e: (usize, usize, EColor)| joins(v2, y, c)(e) && y != v1 && y != v2
}

/// The edge touches `v2` at one end only, and its other end is not `v1`.
pub open spec fn moving(v1: usize, v2: usize) -> spec_fn((usize, usize, EColor)) -> bool {
    |e: (usize, usize, EColor)| (e.0 == v2 && e.1 != v2 && e.1 != v1) || (e.1 == v2 && e.0 != v2 && e.0 != v1)
}

/// Is `(v1, v2)` a valid fuse pair?
fn valid_fuse_vertices(g: &Graph, v1: usize, v2: usize) -> (r: bool)
    requires
        g.wf(),
    ensures
        r == valid_fuse(g@, v1, v2),
{
    if v1 == v2 {
        return false;
    }
    if !g.is_alive(v1) || !g.is_alive(v2) {
        return false;
    }
    proof {
        g.lemma_wf();
    }
    let ok = match (g.label(v1), g.label(v2)) {
        (VColor::Z(_), VColor::Z(_)) => true,
        (VColor::X(_), VColor::X(_)) => true,
        _ => false,
    };
    if !ok {
        return false;
    }
    nc_connected(g, v1, v2)
}

/// The first valid fuse pair: ascending `v1`, then ascending `v2`.
fn has_valid_fuse(g: &Graph) -> (r: Option<(usize, usize)>)
    requires
        g.wf(),
    ensures
        r is None ==> forall|x: usize, y: usize| !valid_fuse(g@, x, y),
        r matches Some(p) ==> valid_fuse(g@, p.0, p.1) && forall|x: usize, y: usize|
            valid_fuse(g@, x, y) ==> p.0 < x || (p.0 == x && p.1 <= y),
{
    let vs = g.alive_vertices();
    let ghost m = g@;
    proof {
        g.lemma_wf();
        crate::seqs::lemma_idx_filter(|i: usize| (i as int) < m.alive.len() && m.alive[i as int], m.alive.len());
        assert forall|x: usize, y: usize| valid_fuse(m, x, y) implies exists|j: int| 0 <= j < vs.len() && #[trigger] vs[j] == x by {
            assert(vs@.contains(x));
        }
    }
    let mut i: usize = 0;
    while i < vs.len()
        invariant
            g.wf(),
            m == g@,
            m.wf(),
            vs@ == m.alive_list(),
            crate::seqs::strictly_increasing(vs@),
            forall|j: int| 0 <= j < vs.len() ==> m.is_alive(#[trigger] vs[j]),
            forall|u: usize| m.is_alive(u) ==> #[trigger] vs@.contains(u),
            i <= vs.len(),
            forall|x: usize, y: usize| valid_fuse(m, x, y) ==> exists|j: int| i <= j < vs.len() && #[trigger] vs[j] == x,
        decreases vs.len() - i,
    {
        let v1 = vs[i];
        let nb = get_normal_neighbour(g, v1);
        proof {
            crate::seqs::lemma_idx_filter(crate::operation::utils::colored_pred(m, v1, EColor::NC), m.nodes.len());
        }
        let mut j: usize = 0;
        while j < nb.len()
            invariant
                g.wf(),
                m == g@,
                m.wf(),
                v1 == vs[i as int],
                i < vs.len(),
                crate::seqs::strictly_increasing(vs@),
                forall|x: usize, y: usize| valid_fuse(m, x, y) ==> exists|jj: int| i <= jj < vs.len() && #[trigger] vs[jj] == x,
                nb@ == crate::operation::utils::colored_nbrs(m, v1, EColor::NC),
                crate::seqs::strictly_increasing(nb@),
                forall|q: usize| q < m.nodes.len() && #[trigger] crate::operation::utils::colored_pred(m, v1, EColor::NC)(q) ==> nb@.contains(q),
                j <= nb.len(),
                forall|q: int| 0 <= q < j ==> !valid_fuse(m, v1, #[trigger] nb[q]),
            decreases nb.len() - j,
        {
            let v2 = nb[j];
            if valid_fuse_vertices(g, v1, v2) {
                proof {
                    assert forall|x: usize, y: usize| valid_fuse(m, x, y) implies v1 < x || (v1 == x && v2 <= y) by {
                        let jj = choose|jj: int| i <= jj < vs.len() && #[trigger] vs[jj] == x;
                        if x == v1 {
                            assert(m.is_alive(y) && y < m.nodes.len());
                            assert(crate::operation::utils::colored_pred(m, v1, EColor::NC)(y));
                            assert(nb@.contains(y));
                            let q = choose|q: int| 0 <= q < nb.len() && nb[q] == y;
                            if q < j {
                                assert(!valid_fuse(m, v1, nb[q]));
                            }
                        } else {
                            assert(jj > i);
                        }
                    }
                }
                return Some((v1, v2));
            }
            j += 1;
        }
        proof {
            assert forall|x: usize, y: usize| valid_fuse(m, x, y) implies exists|jj: int| i + 1 <= jj < vs.len() && #[trigger] vs[jj] == x by {
                let jj = choose|jj: int| i <= jj < vs.len() && #[trigger] vs[jj] == x;
                if jj == i {
                    assert(m.is_alive(y) && y < m.nodes.len());
                    assert(crate::operation::utils::colored_pred(m, v1, EColor::NC)(y));
                    assert(nb@.contains(y));
                    let q = choose|q: int| 0 <= q < nb.len() && nb[q] == y;
                    assert(!valid_fuse(m, v1, nb[q]));
                }
            }
        }
        i += 1;
    }
    None
}

/// Fuse the same-colored spiders `v1` and `v2` (see [`fused`]): the
/// spider at `v1` becomes [`merged`], `v2` dies. An invalid pair leaves
/// the graph unchanged.
pub fn fuse_vertices(g: &Graph, v1: usize, v2: usize) -> (r: Graph)
    requires
        g.wf(),
        g@.edges.len() + alive_total(g@) + 1 < index_limit(),
    ensures
        r.wf(),
        !valid_fuse(g@, v1, v2) ==> r@ == g@,
        valid_fuse(g@, v1, v2) ==> {
            &&& r@.nodes == g@.nodes.update(v1 as int, merged(g@.nodes[v1 as int], g@.nodes[v2 as int]))
            &&& r@.alive == g@.alive.update(v2 as int, false)
            &&& forall|x: usize, y: usize, c: EColor| #[trigger] r@.cmult(x, y, c) == fused(g@, v1, v2, x, y, c)
        },
        r@.edges.len() <= g@.edges.len() + alive_total(g@),
        alive_total(r@) <= alive_total(g@),
{
    if !valid_fuse_vertices(g, v1, v2) {
        return g.clone();
    }
    proof {
        g.lemma_wf();
    }
    let mg = match (g.label(v1), g.label(v2)) {
        (VColor::Z(s), VColor::Z(t)) => VColor::Z((s % 8 + t % 8) % 8),
        (VColor::X(s), VColor::X(t)) => VColor::X((s % 8 + t % 8) % 8),
        _ => {
            return g.clone();
        },
    };
    proof {
        assert(mg == merged(g@.nodes[v1 as int], g@.nodes[v2 as int])) by {
            match (g@.nodes[v1 as int], g@.nodes[v2 as int]) {
                (VColor::Z(s), VColor::Z(t)) => {
                    assert((s % 8 + t % 8) % 8 == (s + t) % 8) by (nonlinear_arith);
                },
                (VColor::X(s), VColor::X(t)) => {
                    assert((s % 8 + t % 8) % 8 == (s + t) % 8) by (nonlinear_arith);
                },
                _ => {},
            }
        }
    }
    let ghost m = g@;
    let ghost ac = alive_colored(m);
    let mut out = g.clone();
    let es = g.edges();
    proof {
        crate::seqs::lemma_idx_filter(
            |i: usize| (i as int) < m.edges.len() && m.is_alive(m.edges[i as int].0) && m.is_alive(m.edges[i as int].1),
            m.edges.len(),
        );
        assert forall|j: int| 0 <= j < es.len() implies m.is_alive((#[trigger] ac[j]).0) && m.is_alive(ac[j].1) by {
            assert(ac[j] == m.edges[m.alive_edge_ids()[j] as int]);
        }
        crate::graph::lemma_alive_count(m, and_pred(alive_pred(m), moving(v1, v2)));
        crate::seqs::lemma_count_if_agree(ac, moving(v1, v2), and_pred(alive_pred(m), moving(v1, v2)));
        crate::seqs::lemma_count_if_mono(m.edges, and_pred(alive_pred(m), moving(v1, v2)), alive_pred(m));
    }
    let mut k: usize = 0;
    while k < es.len()
        invariant
            g.wf(),
            out.wf(),
            m == g@,
            m.wf(),
            valid_fuse(m, v1, v2),
            ac == alive_colored(m),
            es.len() == ac.len(),
            es.len() <= m.edges.len(),
            m.edges.len() + alive_total(m) + 1 < index_limit(),
            count_if(ac, moving(v1, v2)) <= alive_total(m),
            forall|j: int| 0 <= j < es.len() ==> (#[trigger] es[j]).2 < m.edges.len() && ac[j] == (es[j].0, es[j].1, m.edges[es[j].2 as int].2),
            forall|j: int| 0 <= j < es.len() ==> m.is_alive((#[trigger] ac[j]).0) && m.is_alive(ac[j].1),
            k <= es.len(),
            out@.nodes == m.nodes,
            out@.alive == m.alive,
            out@.edges.len() == m.edges.len() + count_if(ac.take(k as int), moving(v1, v2)),
            alive_total(out@) == alive_total(m) + count_if(ac.take(k as int), moving(v1, v2)),
            count_if(out@.edges, and_pred(alive_pred(m), touches(v2))) == count_if(m.edges, and_pred(alive_pred(m), touches(v2))),
            count_if(out@.edges, both(alive_pred(m), v1, v2)) == count_if(m.edges, both(alive_pred(m), v1, v2)),
            forall|x: usize, y: usize, c: EColor| #[trigger] out@.cmult(x, y, c) == m.cmult(x, y, c) + if x == v1 {
                count_if(ac.take(k as int), moved(v1, v2, y, c))
            } else if y == v1 {
                count_if(ac.take(k as int), moved(v1, v2, x, c))
            } else {
                0
            },
        decreases es.len() - k,
    {
        let (s, t, e) = es[k];
        let col = g.edge_color(e);
        let ghost before = out@;
        let ghost a = ac[k as int];
        proof {
            assert(a == (s, t, col));
            assert(ac.take(k + 1).drop_last() =~= ac.take(k as int));
            assert(ac.take(k + 1).last() == a);
            crate::seqs::lemma_count_if_prefix(ac, moving(v1, v2), k + 1);
        }
        if s == v2 || t == v2 {
            let other = if s == v2 { t } else { s };
            if other != v2 && other != v1 {
                proof {
                    assert(moving(v1, v2)(a));
                    assert(m.is_alive(other));
                }
                out.add_edge_c(v1, other, col);
                proof {
                    lemma_cmult_push(before, out@, (v1, other, col));
                    lemma_count_if_push(before.edges, (v1, other, col), alive_pred(m));
                    assert(alive_pred(out@) =~= alive_pred(m));
                    assert(alive_pred(before) =~= alive_pred(m));
                    lemma_count_if_push(before.edges, (v1, other, col), and_pred(alive_pred(m), touches(v2)));
                    lemma_count_if_push(before.edges, (v1, other, col), both(alive_pred(m), v1, v2));
                }
            }
        }
        proof {
            assert forall|x: usize, y: usize, c: EColor| #[trigger] out@.cmult(x, y, c) == m.cmult(x, y, c) + if x == v1 {
                count_if(ac.take(k + 1), moved(v1, v2, y, c))
            } else if y == v1 {
                count_if(ac.take(k + 1), moved(v1, v2, x, c))
            } else {
                0
            } by {
                assert(before.cmult(x, y, c) == m.cmult(x, y, c) + if x == v1 {
                    count_if(ac.take(k as int), moved(v1, v2, y, c))
                } else if y == v1 {
                    count_if(ac.take(k as int), moved(v1, v2, x, c))
                } else {
                    0
                });
            }
            if !moving(v1, v2)(a) {
                assert(alive_pred(out@) =~= alive_pred(m));
            }
        }
        k += 1;
    }
    let ghost m1 = out@;
    proof {
        assert(ac.take(es.len() as int) =~= ac);
        assert forall|x: usize, y: usize, c: EColor| x != y && (x == v1 || y == v1) implies #[trigger] m1.cmult(x, y, c) == fused(m, v1, v2, x, y, c) || same_pair(x, y, v1, v2) by {
            let z = if x == v1 { y } else { x };
            if z != v2 {
                crate::operation::utils::lemma_acmult_alive_count(m, v2, z, c);
                crate::seqs::lemma_count_if_agree(ac, moved(v1, v2, z, c), joins(v2, z, c));
                lemma_cmult_sym(m, v2, z, c);
                lemma_cmult_sym(m, v1, z, c);
            }
        }
        // Edges moved: the alive edges at v2 that do not join v1 and are not loops.
        crate::graph::lemma_alive_count(m, and_pred(alive_pred(m), moving(v1, v2)));
    }
    remove_all_between(&mut out, v1, v2);
    let ghost m2 = out@;
    out.remove_vertex(v2);
    let ghost m3 = out@;
    out.set_color(v1, mg);
    proof {
        assert(alive_pred(m2) =~= alive_pred(m));
        assert(count_if(m2.edges, alive_pred(m)) + count_if(m1.edges, both(alive_pred(m), v1, v2)) == count_if(m1.edges, alive_pred(m)));
        assert(count_if(m2.edges, and_pred(alive_pred(m), touches(v2))) + count_if(m1.edges, both(and_pred(alive_pred(m), touches(v2)), v1, v2)) == count_if(m1.edges, and_pred(alive_pred(m), touches(v2))));
        lemma_alive_total_kill(m2, m3, v2);
        assert(out@.edges == m3.edges);
        assert forall|x: usize, y: usize, c: EColor| #[trigger] out@.cmult(x, y, c) == fused(m, v1, v2, x, y, c) by {
            assert(out@.cmult(x, y, c) == m2.cmult(x, y, c));
            if same_pair(x, y, v1, v2) {
                lemma_cmult_sym(m2, v1, v2, c);
            } else {
                assert(m2.cmult(x, y, c) == m1.cmult(x, y, c));
                if x == v1 && y == v1 {
                    crate::seqs::lemma_count_if_none(ac, moved(v1, v2, y, c));
                } else if x == v1 || y == v1 {
                    assert(m1.cmult(x, y, c) == fused(m, v1, v2, x, y, c) || same_pair(x, y, v1, v2));
                } else {
                    assert(m1.cmult(x, y, c) == m.cmult(x, y, c));
                }
            }
        }
        // The alive edges at v2 comprise the moved ones and those of the pair.
        let at2 = and_pred(alive_pred(m), touches(v2));
        crate::seqs::lemma_count_if_split(m.edges, at2, moving(v1, v2));
        crate::seqs::lemma_count_if_agree(m.edges, and_pred(at2, moving(v1, v2)), and_pred(alive_pred(m), moving(v1, v2)));
        crate::seqs::lemma_count_if_mono(m.edges, both(alive_pred(m), v1, v2), crate::seqs::and_not_pred(at2, moving(v1, v2)));
        crate::seqs::lemma_count_if_mono(m1.edges, both(at2, v1, v2), both(alive_pred(m), v1, v2));
        assert(alive_pred(m1) =~= alive_pred(m));
        assert(alive_pred(m3) =~= alive_pred(out@));
        assert(out@.nodes =~= m.nodes.update(v1 as int, merged(m.nodes[v1 as int], m.nodes[v2 as int])));
    }
    out
}

/// No pair of distinct alive vertices or self-loop of an alive vertex is
/// left to normalize: the graph equals its own parity normalization.
pub open spec fn parity_normal(m: GraphModel) -> bool {
    forall|x: usize, y: usize, c: EColor| #[trigger] normalized(m, x, y, c) == m.cmult(x, y, c)
}

/// No valid fuse pair is left.
pub open spec fn fully_fused(m: GraphModel) -> bool {
    forall|x: usize, y: usize| !#[trigger] valid_fuse(m, x, y)
}

/// `b` is the H-parity normalization of `a`: same vertices and liveness,
/// colored multiplicities normalized.
pub open spec fn normalized_to(a: GraphModel, b: GraphModel) -> bool {
    &&& b.nodes == a.nodes
    &&& b.alive == a.alive
    &&& forall|x: usize, y: usize, c: EColor| #[trigger] b.cmult(x, y, c) == normalized(a, x, y, c)
}

/// `(v1, v2)` is the first valid fuse pair of `m` (ascending `v1`, then
/// `v2`).
pub open spec fn first_fuse(m: GraphModel, v1: usize, v2: usize) -> bool {
    valid_fuse(m, v1, v2) && forall|x: usize, y: usize| #[trigger] valid_fuse(m, x, y) ==> v1 < x || (v1 == x && v2 <= y)
}

/// One round of [`fuse_total`]: fuse the first valid pair of `a`, then
/// normalize the H-edge parity, giving `b`.
pub open spec fn fuse_round(a: GraphModel, b: GraphModel) -> bool {
    exists|v1: usize, v2: usize, mid: GraphModel|
        #![trigger first_fuse(a, v1, v2), normalized_to(mid, b)]
        first_fuse(a, v1, v2) && mid.nodes == a.nodes.update(v1 as int, merged(a.nodes[v1 as int], a.nodes[v2 as int]))
            && mid.alive == a.alive.update(v2 as int, false) && (forall|x: usize, y: usize, c: EColor|
            #[trigger] mid.cmult(x, y, c) == fused(a, v1, v2, x, y, c)) && normalized_to(mid, b)
}

/// `r` is what [`fuse_total`] makes of `g`: normalize, then fuse rounds
/// until no valid pair is left (`r` up to the order of its edge list).
pub open spec fn fuse_run(g: GraphModel, r: GraphModel) -> bool {
    exists|states: Seq<GraphModel>|
        #![trigger states.len()]
        states.len() >= 1 && normalized_to(g, states[0]) && (forall|i: int|
            0 <= i < states.len() - 1 ==> #[trigger] fuse_round(states[i], states[i + 1])) && fully_fused(states.last())
            && r.nodes == states.last().nodes && r.alive == states.last().alive && forall|x: usize, y: usize, c: EColor|
            #[trigger] r.cmult(x, y, c) == states.last().cmult(x, y, c)
}

/// Fuse spiders until no valid pair remains (first pair in ascending
/// order each time), normalizing the H-edge parity before the first fusion
/// and after every one. The result is parity-normal and fully fused, on
/// the same vertex indices; a graph that already is both comes back with
/// the same vertices, liveness and colored multiplicities.
pub fn fuse_total(g: &Graph) -> (r: Graph)
    requires
        g.wf(),
        g@.edges.len() * (g@.nodes.len() + 2) + 1 < index_limit(),
    ensures
        r.wf(),
        r@.nodes.len() == g@.nodes.len(),
        parity_normal(r@),
        fully_fused(r@),
        parity_normal(g@) && fully_fused(g@) ==> r@.nodes == g@.nodes && r@.alive == g@.alive && forall|x: usize, y: usize, c: EColor|
            #[trigger] r@.cmult(x, y, c) == g@.cmult(x, y, c),
        alive_h(r@) <= alive_h(g@),
        fuse_run(g@, r@),
{
    let ghost m0 = g@;
    proof {
        g.lemma_wf();
        crate::seqs::lemma_count_if_le(m0.edges, alive_pred(m0));
        crate::seqs::lemma_count_true_le(m0.alive);
    }
    let ghost e0 = m0.edges.len();
    let ghost a0 = alive_total(m0);
    let ghost n0 = m0.alive.len();
    let mut tmp = g.clone();
    tmp = normalize_h_parity_total(&tmp);
    proof {
        lemma_normalize_idempotent(m0, tmp@);
        crate::operation::zx::normalize_h_parity::lemma_normalize_alive_h(m0, tmp@);
        crate::seqs::lemma_count_true_le(tmp@.alive);
        assert(0 <= (n0 - crate::seqs::count_true(tmp@.alive)) * a0) by (nonlinear_arith)
            requires
                n0 - crate::seqs::count_true(tmp@.alive) >= 0,
        ;
        assert(e0 * (n0 + 2) == e0 * n0 + 2 * e0) by (nonlinear_arith);
        assert(n0 * a0 <= n0 * e0) by (nonlinear_arith)
            requires
                a0 <= e0,
        ;
    }
    let mut first = true;
    let ghost mut states: Seq<GraphModel> = seq![tmp@];
    loop
        invariant
            states.len() >= 1,
            normalized_to(m0, states[0]),
            forall|i: int| 0 <= i < states.len() - 1 ==> #[trigger] fuse_round(states[i], states[i + 1]),
            states.last() == tmp@,
            tmp.wf(),
            tmp@.nodes.len() == n0,
            tmp@.alive.len() == n0,
            n0 == m0.nodes.len(),
            a0 <= e0,
            e0 * (n0 + 2) + 1 < index_limit(),
            e0 * (n0 + 2) == e0 * n0 + 2 * e0,
            n0 * a0 <= n0 * e0,
            crate::seqs::count_true(tmp@.alive) <= n0,
            alive_total(tmp@) <= a0,
            tmp@.edges.len() <= e0 + (n0 - crate::seqs::count_true(tmp@.alive)) * a0,
            parity_normal(tmp@),
            alive_h(tmp@) <= alive_h(m0),
            first ==> tmp@.nodes == m0.nodes && tmp@.alive == m0.alive && forall|x: usize, y: usize, c: EColor|
                #[trigger] tmp@.cmult(x, y, c) == normalized(m0, x, y, c),
            !first ==> !(parity_normal(m0) && fully_fused(m0)),
        ensures
            states.len() >= 1,
            normalized_to(m0, states[0]),
            forall|i: int| 0 <= i < states.len() - 1 ==> #[trigger] fuse_round(states[i], states[i + 1]),
            states.last() == tmp@,
            tmp.wf(),
            tmp@.nodes.len() == n0,
            parity_normal(tmp@),
            fully_fused(tmp@),
            alive_h(tmp@) <= alive_h(m0),
            first ==> tmp@.nodes == m0.nodes && tmp@.alive == m0.alive && forall|x: usize, y: usize, c: EColor|
                #[trigger] tmp@.cmult(x, y, c) == normalized(m0, x, y, c),
            !first ==> !(parity_normal(m0) && fully_fused(m0)),
        decreases crate::seqs::count_true(tmp@.alive),
    {
        let ghost before = tmp@;
        match has_valid_fuse(&tmp) {
            Some((v1, v2)) => {
                proof {
                    if first && parity_normal(m0) {
                        assert(valid_fuse(m0, v1, v2)) by {
                            assert(before.cmult(v1, v2, EColor::NC) == m0.cmult(v1, v2, EColor::NC));
                        }
                    }
                    let k = crate::seqs::count_true(before.alive);
                    assert(k >= 1) by {
                        crate::seqs::lemma_count_true_set(before.alive.update(v2 as int, false), v2 as int);
                        assert(before.alive.update(v2 as int, false).update(v2 as int, true) =~= before.alive);
                    }
                    assert((n0 - k) * a0 <= n0 * a0) by (nonlinear_arith)
                        requires
                            k >= 0,
                            n0 - k >= 0,
                    ;
                }
                tmp = fuse_vertices(&tmp, v1, v2);
                let ghost mid = tmp@;
                tmp = normalize_h_parity_total(&tmp);
                first = false;
                proof {
                    lemma_fuse_alive_h(before, mid, v1, v2);
                    crate::operation::zx::normalize_h_parity::lemma_normalize_alive_h(mid, tmp@);
                    lemma_normalize_idempotent(mid, tmp@);
                    crate::seqs::lemma_count_true_set(mid.alive, v2 as int);
                    assert(mid.alive.update(v2 as int, true) =~= before.alive);
                    let k = crate::seqs::count_true(before.alive);
                    assert((n0 - k) * a0 + a0 == (n0 - (k - 1)) * a0) by (nonlinear_arith);
                    assert(first_fuse(before, v1, v2));
                    assert(normalized_to(mid, tmp@));
                    assert(fuse_round(before, tmp@));
                    let s0 = states;
                    states = states.push(tmp@);
                    assert forall|i: int| 0 <= i < states.len() - 1 implies #[trigger] fuse_round(states[i], states[i + 1]) by {
                        if i < s0.len() - 1 {
                            assert(states[i] == s0[i] && states[i + 1] == s0[i + 1]);
                        } else {
                            assert(states[i] == before);
                        }
                    }
                }
            },
            None => {
                break;
            },
        }
    }
    proof {
        if parity_normal(m0) && fully_fused(m0) {
            assert forall|x: usize, y: usize, c: EColor| #[trigger] tmp@.cmult(x, y, c) == m0.cmult(x, y, c) by {
                assert(normalized(m0, x, y, c) == m0.cmult(x, y, c));
            }
        }
        assert(fuse_run(m0, tmp@));
    }
    tmp
}

/// Alive H edges of `m` that `v2 -> v1` renames onto the pair `{v1, y}`:
/// at least those of `{v1, y}` and of `{v2, y}`.
proof fn lemma_fuse_key(m: GraphModel, v1: usize, v2: usize, y: usize)
    requires
        v1 != v2,
        y != v1,
        y != v2,
    ensures
        count_if(m.edges, and_pred(alive_h_pred(m), after(rename(v2, v1), joins(v1, y, EColor::H)))) >= acmult(
            m,
            v1,
            y,
            EColor::H,
        ) + acmult(m, v2, y, EColor::H),
{
    let s = m.edges;
    let q = and_pred(alive_h_pred(m), after(rename(v2, v1), joins(v1, y, EColor::H)));
    let t = after(ident_edge(), joins(v1, y, EColor::H));
    lemma_count_if_split(s, q, t);
    lemma_count_if_agree(s, and_pred(q, t), and_pred(alive_h_pred(m), after(ident_edge(), joins(v1, y, EColor::H))));
    lemma_count_if_mono(s, and_pred(alive_h_pred(m), after(ident_edge(), joins(v2, y, EColor::H))), and_not_pred(q, t));
    lemma_alive_h_key(m, v1, y, EColor::H);
    lemma_alive_h_key(m, v2, y, EColor::H);
}

/// Fusing keeps no more alive H edges than it found.
pub proof fn lemma_fuse_alive_h(m: GraphModel, r: GraphModel, v1: usize, v2: usize)
    requires
        valid_fuse(m, v1, v2),
        r.alive == m.alive.update(v2 as int, false),
        forall|x: usize, y: usize, c: EColor| #[trigger] r.cmult(x, y, c) == fused(m, v1, v2, x, y, c),
    ensures
        alive_h(r) <= alive_h(m),
{
    let f = rename(v2, v1);
    assert forall|x: usize, y: usize, c: EColor|
        count_if(r.edges, and_pred(alive_h_pred(r), after(ident_edge(), joins(x, y, c)))) <= #[trigger] count_if(
            m.edges,
            and_pred(alive_h_pred(m), after(f, joins(x, y, c))),
        ) by {
        lemma_alive_h_key(r, x, y, c);
        if c == EColor::H && r.is_alive(x) && r.is_alive(y) {
            assert(x != v2 && y != v2);
            if x != v1 && y != v1 {
                lemma_count_if_agree(
                    m.edges,
                    and_pred(alive_h_pred(m), after(f, joins(x, y, c))),
                    and_pred(alive_h_pred(m), after(ident_edge(), joins(x, y, c))),
                );
                lemma_alive_h_key(m, x, y, c);
            } else if x == v1 && y == v1 {
                lemma_count_if_mono(
                    m.edges,
                    and_pred(alive_h_pred(m), after(ident_edge(), joins(x, y, c))),
                    and_pred(alive_h_pred(m), after(f, joins(x, y, c))),
                );
                lemma_alive_h_key(m, x, y, c);
            } else if x == v1 {
                lemma_fuse_key(m, v1, v2, y);
            } else {
                lemma_fuse_key(m, v1, v2, x);
                lemma_count_if_agree(
                    m.edges,
                    and_pred(alive_h_pred(m), after(f, joins(x, y, c))),
                    and_pred(alive_h_pred(m), after(f, joins(v1, x, c))),
                );
                lemma_cmult_sym(m, x, v1, c);
                lemma_cmult_sym(m, x, v2, c);
            }
        } else {
            assert(count_if(r.edges, and_pred(alive_h_pred(r), after(ident_edge(), joins(x, y, c)))) == 0);
        }
    }
    crate::graph::lemma_key_dominated(r.edges, alive_h_pred(r), ident_edge(), m.edges, alive_h_pred(m), f);
}

} // verus!
