//! Hadamard-edge parity normalization: parallel H edges cancel in pairs
//! (`H * H = I`).
//!
//! [`normalize_h_parity`] collapses the H edges of one pair to their parity
//! (an odd number to one copy, an even number to none);
//! [`normalize_h_parity_total`] does so for every H-connected pair of
//! distinct alive vertices, and removes every self-loop of an alive vertex.
//! Normal copies on a mixed pair are kept.

use vstd::prelude::*;

use crate::graph::{joins, EColor, Graph, GraphModel};
use crate::operation::utils::{
    acmult, alive_h, alive_h_pred, alive_pred, alive_total, both, count_joining, h_connected, ident_edge, lemma_alive_h_key,
    remove_all_between, same_pair,
};
use crate::seqs::{after, and_pred, count_if};
use crate::petgraph_ext::index_limit;

verus! {

/// The colored multiplicity of `{x, y}` once the pair `{a, b}` is
/// normalized: with `a == b` its self-loops are gone; otherwise the pair
/// keeps its alive normal edges and the parity of its alive H edges (a dead
/// end leaves nothing); every other pair is untouched.
pub open spec fn pair_normalized(m: GraphModel, a: usize, b: usize, x: usize, y: usize, c: EColor) -> nat {
    if same_pair(x, y, a, b) {
        if a == b {
            0
        } else if c == EColor::H {
            acmult(m, a, b, EColor::H) % 2
        } else {
            acmult(m, a, b, EColor::NC)
        }
    } else {
        m.cmult(x, y, c)
    }
}

/// The colored multiplicity of `{x, y}` after the whole graph is
/// normalized: no self-loop at an alive vertex, the parity of the H edges
/// of every pair of distinct alive vertices joined by an H edge (their
/// normal edges kept), everything else untouched.
pub open spec fn normalized(m: GraphModel, x: usize, y: usize, c: EColor) -> nat {
    if x == y && m.is_alive(x) {
        0
    } else if x != y && m.is_alive(x) && m.is_alive(y) && m.cmult(x, y, EColor::H) > 0 && c == EColor::H {
        m.cmult(x, y, EColor::H) % 2
    } else {
        m.cmult(x, y, c)
    }
}

/// Are `a` and `b` joined by an odd number of alive H edges? An even count
/// is equivalent to no edge at all.
pub fn odd_h_connected(g: &Graph, a: usize, b: usize) -> (r: bool)
    requires
        g.wf(),
    ensures
        r == (acmult(g@, a, b, EColor::H) % 2 == 1),
{
    count_joining(g, a, b, EColor::H) % 2 == 1
}

/// Normalize the pair `{a, b}` in place (see [`pair_normalized`]).
pub(crate) fn normalize_pair(g: &mut Graph, a: usize, b: usize)
    requires
        old(g).wf(),
    ensures
        final(g).wf(),
        final(g)@.nodes == old(g)@.nodes,
        final(g)@.alive == old(g)@.alive,
        final(g)@.edges.len() <= old(g)@.edges.len(),
        alive_total(final(g)@) <= alive_total(old(g)@),
        forall|x: usize, y: usize, c: EColor|
            #[trigger] final(g)@.cmult(x, y, c) == pair_normalized(old(g)@, a, b, x, y, c),
{
    let ghost m0 = g@;
    if a == b {
        remove_all_between(g, a, a);
        proof {
            assert(alive_pred(g@) =~= alive_pred(m0));
            assert(count_if(g@.edges, alive_pred(m0)) + count_if(m0.edges, both(alive_pred(m0), a, a)) == count_if(m0.edges, alive_pred(m0)));
            assert forall|x: usize, y: usize, c: EColor|
                #[trigger] g@.cmult(x, y, c) == pair_normalized(m0, a, b, x, y, c) by {
                if same_pair(x, y, a, b) {
                    assert(x == a && y == a);
                }
            }
        }
        return;
    }
    let nc = count_joining(g, a, b, EColor::NC);
    let h = count_joining(g, a, b, EColor::H);
    proof {
        g.lemma_wf();
        crate::graph::lemma_mult_split(m0.edges, a, b);
        if !(m0.is_alive(a) && m0.is_alive(b)) {
            assert(nc == 0 && h == 0);
        }
        assert(nc + h <= m0.mult(a, b));
    }
    remove_all_between(g, a, b);
    let ghost m1 = g@;
    proof {
        assert(alive_pred(m1) =~= alive_pred(m0));
        assert(count_if(m1.edges, alive_pred(m0)) + count_if(m0.edges, both(alive_pred(m0), a, b)) == count_if(m0.edges, alive_pred(m0)));
        if m0.is_alive(a) && m0.is_alive(b) {
            crate::seqs::lemma_count_if_agree(m0.edges, both(alive_pred(m0), a, b), crate::petgraph_ext::linking(a, b));
        }
        assert(nc + h <= count_if(m0.edges, both(alive_pred(m0), a, b)));
    }
    let mut i: usize = 0;
    while i < nc
        invariant
            g.wf(),
            a != b,
            nc == acmult(m0, a, b, EColor::NC),
            h == acmult(m0, a, b, EColor::H),
            nc > 0 ==> m0.is_alive(a) && m0.is_alive(b),
            m0.wf(),
            i <= nc,
            nc + h <= m0.mult(a, b),
            g@.nodes == m0.nodes,
            g@.alive == m0.alive,
            m1.edges.len() + m0.mult(a, b) == m0.edges.len(),
            m0.edges.len() < index_limit(),
            g@.edges.len() == m1.edges.len() + i,
            g@.cmult(a, b, EColor::NC) == i,
            g@.cmult(a, b, EColor::H) == 0,
            alive_total(m1) + nc + h <= alive_total(m0),
            alive_total(g@) == alive_total(m1) + i,
            forall|x: usize, y: usize, c: EColor| !same_pair(x, y, a, b) ==> #[trigger] g@.cmult(x, y, c) == m0.cmult(x, y, c),
        decreases nc - i,
    {
        let ghost before = g@;
        g.add_edge_c(a, b, EColor::NC);
        proof {
            crate::graph::lemma_cmult_push(before, g@, (a, b, EColor::NC));
            assert(alive_pred(g@) =~= alive_pred(before));
            crate::seqs::lemma_count_if_push(before.edges, (a, b, EColor::NC), alive_pred(before));
        }
        i += 1;
    }
    if h % 2 == 1 {
        let ghost before = g@;
        proof {
            assert(m0.is_alive(a) && m0.is_alive(b));
        }
        g.add_edge_c(a, b, EColor::H);
        proof {
            crate::graph::lemma_cmult_push(before, g@, (a, b, EColor::H));
            assert(alive_pred(g@) =~= alive_pred(before));
            crate::seqs::lemma_count_if_push(before.edges, (a, b, EColor::H), alive_pred(before));
        }
    }
    proof {
        assert forall|x: usize, y: usize, c: EColor|
            #[trigger] g@.cmult(x, y, c) == pair_normalized(m0, a, b, x, y, c) by {
            if same_pair(x, y, a, b) {
                crate::graph::lemma_cmult_sym(g@, a, b, c);
                crate::graph::lemma_cmult_sym(m0, a, b, c);
                match c {
                    EColor::NC => {},
                    EColor::H => {},
                }
            }
        }
    }
}

/// Normalize the H-edge parity between `a` and `b` (see
/// [`pair_normalized`]): an odd number of alive H copies collapses to one,
/// an even number to none, normal copies are kept; with `a == b` every
/// self-loop at `a` is removed; every other pair is untouched.
pub fn normalize_h_parity(g: &Graph, a: usize, b: usize) -> (r: Graph)
    requires
        g.wf(),
    ensures
        r.wf(),
        r@.nodes == g@.nodes,
        r@.alive == g@.alive,
        forall|x: usize, y: usize, c: EColor| #[trigger] r@.cmult(x, y, c) == pair_normalized(g@, a, b, x, y, c),
{
    let mut out = g.clone();
    normalize_pair(&mut out, a, b);
    out
}

/// The pairs `(a, b)`, `a < b`, of alive vertices joined by an alive H
/// edge, in ascending order.
fn h_pairs(g: &Graph) -> (r: Vec<(usize, usize)>)
    requires
        g.wf(),
    ensures
        forall|i: int, j: int| 0 <= i < j < r.len() ==> (#[trigger] r[i]).0 < (#[trigger] r[j]).0 || (r[i].0 == r[j].0 && r[i].1 < r[j].1),
        forall|i: int| 0 <= i < r.len() ==> (#[trigger] r[i]).0 < r[i].1 < g@.nodes.len() && acmult(g@, r[i].0, r[i].1, EColor::H) > 0,
        forall|a: usize, b: usize|
            a < b < g@.nodes.len() && acmult(g@, a, b, EColor::H) > 0 ==> exists|i: int| 0 <= i < r.len() && #[trigger] r[i] == (a, b),
{
    let n = g.node_count();
    let mut r: Vec<(usize, usize)> = Vec::new();
    let mut a: usize = 0;
    while a < n
        invariant
            g.wf(),
            n == g@.nodes.len(),
            a <= n,
            forall|i: int, j: int| 0 <= i < j < r.len() ==> (#[trigger] r[i]).0 < (#[trigger] r[j]).0 || (r[i].0 == r[j].0 && r[i].1 < r[j].1),
            forall|i: int| 0 <= i < r.len() ==> (#[trigger] r[i]).0 < r[i].1 < n && r[i].0 < a && acmult(g@, r[i].0, r[i].1, EColor::H) > 0,
            forall|x: usize, y: usize|
                x < y < n && x < a && acmult(g@, x, y, EColor::H) > 0 ==> exists|i: int| 0 <= i < r.len() && #[trigger] r[i] == (x, y),
        decreases n - a,
    {
        let mut b: usize = a + 1;
        while b < n
            invariant
                g.wf(),
                n == g@.nodes.len(),
                a < n,
                a + 1 <= b <= n,
                forall|i: int, j: int| 0 <= i < j < r.len() ==> (#[trigger] r[i]).0 < (#[trigger] r[j]).0 || (r[i].0 == r[j].0 && r[i].1 < r[j].1),
                forall|i: int| 0 <= i < r.len() ==> (#[trigger] r[i]).0 < r[i].1 < n && acmult(g@, r[i].0, r[i].1, EColor::H) > 0,
                forall|i: int| 0 <= i < r.len() ==> (#[trigger] r[i]).0 < a || (r[i].0 == a && r[i].1 < b),
                forall|x: usize, y: usize|
                    x < y < n && (x < a || (x == a && y < b)) && acmult(g@, x, y, EColor::H) > 0 ==> exists|i: int| 0 <= i < r.len() && #[trigger] r[i] == (x, y),
            decreases n - b,
        {
            let ghost r0 = r@;
            if h_connected(g, a, b) {
                r.push((a, b));
                proof {
                    assert(r[r.len() - 1] == (a, b));
                }
            }
            b += 1;
            proof {
                assert forall|x: usize, y: usize|
                    x < y < n && (x < a || (x == a && y < b)) && acmult(g@, x, y, EColor::H) > 0 implies exists|i: int| 0 <= i < r.len() && #[trigger] r[i] == (x, y) by {
                    if x == a && y == b - 1 {
                        assert(r[r.len() - 1] == (x, y));
                    } else {
                        let i = choose|i: int| 0 <= i < r0.len() && #[trigger] r0[i] == (x, y);
                        assert(r[i] == r0[i]);
                    }
                }
            }
        }
        a += 1;
    }
    r
}

/// Normalize the whole graph (see [`normalized`]): every self-loop of an
/// alive vertex is removed, and every pair of distinct alive vertices
/// joined by an alive H edge keeps the parity of its H edges and all its
/// normal edges. Idempotent (see [`lemma_normalize_idempotent`]).
pub fn normalize_h_parity_total(g: &Graph) -> (r: Graph)
    requires
        g.wf(),
    ensures
        r.wf(),
        r@.nodes == g@.nodes,
        r@.alive == g@.alive,
        r@.edges.len() <= g@.edges.len(),
        alive_total(r@) <= alive_total(g@),
        forall|x: usize, y: usize, c: EColor| #[trigger] r@.cmult(x, y, c) == normalized(g@, x, y, c),
{
    let mut out = g.clone();
    let ghost m0 = g@;
    let vs = g.alive_vertices();
    proof {
        g.lemma_wf();
        crate::seqs::lemma_idx_filter(|i: usize| (i as int) < m0.alive.len() && m0.alive[i as int], m0.alive.len());
        assert forall|u: usize| m0.is_alive(u) implies #[trigger] vs@.contains(u) by {}
    }
    let mut k: usize = 0;
    while k < vs.len()
        invariant
            out.wf(),
            m0.wf(),
            vs@ == m0.alive_list(),
            forall|j: int| 0 <= j < vs.len() ==> m0.is_alive(#[trigger] vs[j]),
            forall|u: usize| m0.is_alive(u) ==> #[trigger] vs@.contains(u),
            k <= vs.len(),
            out@.nodes == m0.nodes,
            out@.alive == m0.alive,
            out@.edges.len() <= m0.edges.len(),
            alive_total(out@) <= alive_total(m0),
            forall|x: usize, y: usize, c: EColor| #[trigger] out@.cmult(x, y, c) == if x == y && vs@.take(k as int).contains(x) {
                0
            } else {
                m0.cmult(x, y, c)
            },
        decreases vs.len() - k,
    {
        let v = vs[k];
        let ghost before = out@;
        proof {
            assert(vs@.take(k + 1) =~= vs@.take(k as int).push(v));
        }
        remove_all_between(&mut out, v, v);
        k += 1;
        proof {
            assert(alive_pred(out@) =~= alive_pred(before));
            assert(count_if(out@.edges, alive_pred(before)) + count_if(before.edges, both(alive_pred(before), v, v)) == count_if(before.edges, alive_pred(before)));
            assert forall|x: usize, y: usize, c: EColor| #[trigger] out@.cmult(x, y, c) == if x == y && vs@.take(k as int).contains(x) {
                0
            } else {
                m0.cmult(x, y, c)
            } by {
                if x == y && x == v {
                    assert(vs@.take(k as int)[k - 1] == v);
                } else {
                    assert(!same_pair(x, y, v, v));
                    if x == y {
                        let t1 = vs@.take(k as int);
                        let t0 = vs@.take(k - 1);
                        if t1.contains(x) {
                            let j = choose|j: int| 0 <= j < t1.len() && #[trigger] t1[j] == x;
                            assert(t0[j] == x);
                        }
                        if t0.contains(x) {
                            let j = choose|j: int| 0 <= j < t0.len() && #[trigger] t0[j] == x;
                            assert(t1[j] == x);
                        }
                    }
                }
            }
        }
    }
    let ghost m1 = out@;
    proof {
        assert(vs@.take(k as int) =~= vs@);
        assert forall|x: usize, y: usize, c: EColor| #[trigger] m1.cmult(x, y, c) == if x == y && m0.is_alive(x) {
            0
        } else {
            m0.cmult(x, y, c)
        } by {
            if x == y && vs@.contains(x) {
                let j = choose|j: int| 0 <= j < vs.len() && vs[j] == x;
                assert(m0.is_alive(vs[j]));
            }
        }
    }
    let ps = h_pairs(g);
    let mut t: usize = 0;
    while t < ps.len()
        invariant
            out.wf(),
            t <= ps.len(),
            out@.nodes == m0.nodes,
            out@.alive == m0.alive,
            out@.edges.len() <= m0.edges.len(),
            alive_total(out@) <= alive_total(m0),
            forall|i: int, j: int| 0 <= i < j < ps.len() ==> (#[trigger] ps[i]).0 < (#[trigger] ps[j]).0 || (ps[i].0 == ps[j].0 && ps[i].1 < ps[j].1),
            forall|i: int| 0 <= i < ps.len() ==> (#[trigger] ps[i]).0 < ps[i].1 < m0.nodes.len() && acmult(m0, ps[i].0, ps[i].1, EColor::H) > 0,
            forall|x: usize, y: usize, c: EColor| #[trigger] m1.cmult(x, y, c) == if x == y && m0.is_alive(x) {
                0
            } else {
                m0.cmult(x, y, c)
            },
            forall|x: usize, y: usize, c: EColor| #[trigger] out@.cmult(x, y, c) == if done_pair(ps@, t as int, x, y) {
                normalized(m0, x, y, c)
            } else {
                m1.cmult(x, y, c)
            },
        decreases ps.len() - t,
    {
        let (a, b) = ps[t];
        let ghost before = out@;
        normalize_pair(&mut out, a, b);
        t += 1;
        proof {
            assert(m0.is_alive(a) && m0.is_alive(b) && a != b);
            assert(!done_pair(ps@, t - 1, a, b)) by {
                if done_pair(ps@, t - 1, a, b) {
                    let j = choose|j: int| 0 <= j < t - 1 && same_pair(a, b, ps[j].0, ps[j].1);
                    assert(ps[j].0 < ps[t - 1].0 || (ps[j].0 == ps[t - 1].0 && ps[j].1 < ps[t - 1].1));
                }
            }
            assert forall|x: usize, y: usize, c: EColor| #[trigger] out@.cmult(x, y, c) == if done_pair(ps@, t as int, x, y) {
                normalized(m0, x, y, c)
            } else {
                m1.cmult(x, y, c)
            } by {
                if same_pair(x, y, a, b) {
                    assert(done_pair(ps@, t as int, x, y)) by {
                        assert(same_pair(x, y, ps[t - 1].0, ps[t - 1].1));
                    }
                    assert(!done_pair(ps@, t - 1, x, y)) by {
                        if done_pair(ps@, t - 1, x, y) {
                            let j = choose|j: int| 0 <= j < t - 1 && same_pair(x, y, ps[j].0, ps[j].1);
                            assert(same_pair(a, b, ps[j].0, ps[j].1));
                        }
                    }
                    crate::graph::lemma_cmult_sym(m0, a, b, c);
                    crate::graph::lemma_cmult_sym(m0, a, b, EColor::H);
                    crate::graph::lemma_cmult_sym(m0, a, b, EColor::NC);
                    crate::graph::lemma_cmult_sym(m1, a, b, EColor::H);
                    crate::graph::lemma_cmult_sym(m1, a, b, EColor::NC);
                    assert(before.cmult(a, b, EColor::H) == m1.cmult(a, b, EColor::H));
                    assert(before.cmult(a, b, EColor::NC) == m1.cmult(a, b, EColor::NC));
                    match c {
                        EColor::NC => {},
                        EColor::H => {},
                    }
                } else {
                    if done_pair(ps@, t as int, x, y) {
                        let j = choose|j: int| 0 <= j < t && same_pair(x, y, ps[j].0, ps[j].1);
                        assert(j < t - 1);
                        assert(done_pair(ps@, t - 1, x, y));
                    } else {
                        assert(!done_pair(ps@, t - 1, x, y));
                    }
                }
            }
        }
    }
    proof {
        assert forall|x: usize, y: usize, c: EColor| #[trigger] out@.cmult(x, y, c) == normalized(m0, x, y, c) by {
            if !done_pair(ps@, t as int, x, y) {
                if x != y && m0.is_alive(x) && m0.is_alive(y) && m0.cmult(x, y, EColor::H) > 0 {
                    crate::graph::lemma_cmult_sym(m0, x, y, EColor::H);
                    if x < y {
                        assert(acmult(m0, x, y, EColor::H) > 0);
                        let i = choose|i: int| 0 <= i < ps.len() && #[trigger] ps[i] == (x, y);
                        assert(same_pair(x, y, ps[i].0, ps[i].1));
                    } else {
                        assert(acmult(m0, y, x, EColor::H) > 0);
                        let i = choose|i: int| 0 <= i < ps.len() && #[trigger] ps[i] == (y, x);
                        assert(same_pair(x, y, ps[i].0, ps[i].1));
                    }
                }
            }
        }
    }
    out
}

/// `{x, y}` is one of the first `t` pairs of `ps`.
pub open spec fn done_pair(ps: Seq<(usize, usize)>, t: int, x: usize, y: usize) -> bool {
    exists|j: int| 0 <= j < t && same_pair(x, y, #[trigger] ps[j].0, ps[j].1)
}

/// Normalizing twice gives what normalizing once gives: a normalized graph
/// is left unchanged, color by color and pair by pair.
pub proof fn lemma_normalize_idempotent(m: GraphModel, m2: GraphModel)
    requires
        m2.alive == m.alive,
        forall|x: usize, y: usize, c: EColor| #[trigger] m2.cmult(x, y, c) == normalized(m, x, y, c),
    ensures
        forall|x: usize, y: usize, c: EColor| #[trigger] normalized(m2, x, y, c) == m2.cmult(x, y, c),
{
    assert forall|x: usize, y: usize, c: EColor| #[trigger] normalized(m2, x, y, c) == m2.cmult(x, y, c) by {
        assert(m2.cmult(x, y, EColor::H) == normalized(m, x, y, EColor::H));
    }
}

/// Parity normalization keeps no more alive H edges than it found.
pub proof fn lemma_normalize_alive_h(m: GraphModel, r: GraphModel)
    requires
        r.alive == m.alive,
        forall|x: usize, y: usize, c: EColor| #[trigger] r.cmult(x, y, c) == normalized(m, x, y, c),
    ensures
        alive_h(r) <= alive_h(m),
{
    assert forall|x: usize, y: usize, c: EColor|
        count_if(r.edges, and_pred(alive_h_pred(r), after(ident_edge(), joins(x, y, c)))) <= #[trigger] count_if(
            m.edges,
            and_pred(alive_h_pred(m), after(ident_edge(), joins(x, y, c))),
        ) by {
        lemma_alive_h_key(r, x, y, c);
        lemma_alive_h_key(m, x, y, c);
        assert(r.cmult(x, y, EColor::H) == normalized(m, x, y, EColor::H));
    }
    crate::graph::lemma_key_dominated(r.edges, alive_h_pred(r), ident_edge(), m.edges, alive_h_pred(m), ident_edge());
}

} // verus!
