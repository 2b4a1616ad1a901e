//! Lower bound on treewidth: minor-min-width.
//!
//! Treewidth does not grow under taking minors, so repeatedly contracting
//! the edge between a minimum-degree vertex and its lowest-degree neighbour
//! (dropping isolated vertices) and recording the largest such minimum
//! degree yields a lower bound.

use vstd::prelude::*;

use crate::algorithm::minfill::{is_alive_permutation, lemma_kill_count};
use crate::graph::{Graph, GraphModel};
use crate::petgraph_ext::index_limit;

verus! {

/// Number of alive neighbours.
pub open spec fn deg(m: GraphModel, v: usize) -> nat {
    m.nbrs(v).len()
}

/// `v` is the first alive vertex of least degree.
pub open spec fn is_min_degree_pick(m: GraphModel, v: usize) -> bool {
    &&& m.is_alive(v)
    &&& forall|u: usize| #[trigger] m.is_alive(u) ==> deg(m, v) <= deg(m, u)
    &&& forall|u: usize| u < v && #[trigger] m.is_alive(u) ==> deg(m, v) < deg(m, u)
}

/// `u` is the neighbour of `v` of least degree, ties to the lowest index.
pub open spec fn is_partner(m: GraphModel, v: usize, u: usize) -> bool {
    &&& m.nbrs(v).contains(u)
    &&& forall|w: usize|
        #[trigger] m.nbrs(v).contains(w) ==> deg(m, u) < deg(m, w) || (deg(m, u) == deg(m, w) && u <= w)
}

/// One step from `m` to `m2` on the pick `v`: an isolated `v` is dropped;
/// otherwise `v` is contracted into its partner `u` (which gains `v`'s
/// neighbours).
pub open spec fn mmw_step(m: GraphModel, m2: GraphModel, v: usize) -> bool {
    &&& is_min_degree_pick(m, v)
    &&& m2.nodes == m.nodes
    &&& m2.alive == m.alive.update(v as int, false)
    &&& if m.nbrs(v).len() == 0 {
        m2.edges == m.edges
    } else {
        exists|u: usize|
            #[trigger] is_partner(m, v, u) && forall|x: usize, y: usize|
                #[trigger] m2.adj(x, y) <==> m.adj(x, y) || (x == u && y != u && m.nbrs(v).contains(y)) || (y == u
                    && x != u && m.nbrs(v).contains(x))
    }
}

/// The largest degree at the pick over the first `k` steps.
pub open spec fn mmw_width(states: Seq<GraphModel>, picks: Seq<usize>, k: int) -> nat
    decreases k,
{
    if k <= 0 {
        0
    } else {
        let prev = mmw_width(states, picks, k - 1);
        let d = deg(states[k - 1], picks[k - 1]);
        if d > prev {
            d
        } else {
            prev
        }
    }
}

/// Minor-min-width: the largest minimum degree met while contracting the
/// alive part of `g` down to nothing (0 for a graph with no alive vertex).
pub fn minor_min_width(g: &Graph) -> (lb: usize)
    requires
        g.wf(),
        g@.fill_room() < index_limit(),
    ensures
        exists|states: Seq<GraphModel>, picks: Seq<usize>|
            #![trigger states[0], picks.len()]
            states[0] == g@ && states.len() == picks.len() + 1 && (forall|k: int|
                0 <= k < picks.len() ==> #[trigger] mmw_step(states[k], states[k + 1], picks[k]))
                && states.last().alive_count() == 0 && lb == mmw_width(states, picks, picks.len() as int)
                && is_alive_permutation(g@, picks),
{
    let mut work = g.clone();
    let mut lb: usize = 0;
    let ghost mut states: Seq<GraphModel> = seq![g@];
    let ghost mut picks: Seq<usize> = Seq::empty();
    proof {
        g.lemma_wf();
    }
    while work.alive_count() > 0
        invariant
            work.wf(),
            work@.fill_room() == g@.fill_room(),
            g@.fill_room() < index_limit(),
            work@.nodes == g@.nodes,
            states.len() == picks.len() + 1,
            states[0] == g@,
            states.last() == work@,
            forall|k: int| 0 <= k < picks.len() ==> #[trigger] mmw_step(states[k], states[k + 1], picks[k]),
            lb == mmw_width(states, picks, picks.len() as int),
            picks.len() + work@.alive_count() == g@.alive_count(),
            picks.no_duplicates(),
            forall|k: int| 0 <= k < picks.len() ==> g@.is_alive(#[trigger] picks[k]) && !work@.is_alive(picks[k]),
            forall|u: usize| #[trigger] work@.is_alive(u) ==> g@.is_alive(u),
        decreases work@.alive_count(),
    {
        let (v, deg_v) = pick_min_degree(&work).unwrap();
        let ghost before = work@;
        proof {
            work.lemma_wf();
        }
        if deg_v > lb {
            lb = deg_v;
        }
        let nbrs = work.alive_neighbors(v);
        if nbrs.len() == 0 {
            work.mark_dead(v);
            proof {
                crate::graph::lemma_pair_count_same(before, work@);
            }
        } else {
            let u = min_degree_neighbor(&work, &nbrs, v);
            proof {
                crate::seqs::lemma_idx_filter(before.nbr_pred(v), before.nodes.len());
            }
            work.contract(u, v);
        }
        proof {
            lemma_kill_count(before, work@, v);
            assert forall|u: usize| #[trigger] work@.is_alive(u) implies g@.is_alive(u) by {
                assert(before.is_alive(u));
            }
            assert(mmw_step(before, work@, v));
            assert(picks.push(v).no_duplicates()) by {
                assert forall|i: int, j: int| 0 <= i < j < picks.len() + 1 implies picks.push(v)[i] != picks.push(v)[j] by {
                    if j == picks.len() {
                        assert(!before.is_alive(picks[i]));
                    }
                }
            }
            let s2 = states.push(work@);
            let p2 = picks.push(v);
            assert forall|k: int| 0 <= k < p2.len() implies #[trigger] mmw_step(s2[k], s2[k + 1], p2[k]) by {
                if k < picks.len() {
                    assert(s2[k] == states[k]);
                    assert(s2[k + 1] == states[k + 1]);
                }
            }
            lemma_mmw_width_prefix(states, s2, picks, p2, picks.len() as int);
            states = s2;
            picks = p2;
        }
    }
    proof {
        assert(states[0] == g@ && picks.len() == picks.len());
    }
    lb
}

pub proof fn lemma_mmw_width_prefix(s1: Seq<GraphModel>, s2: Seq<GraphModel>, o1: Seq<usize>, o2: Seq<usize>, k: int)
    requires
        0 <= k,
        k <= s1.len(),
        k <= s2.len(),
        k <= o1.len(),
        k <= o2.len(),
        forall|i: int| 0 <= i < k ==> s1[i] == s2[i] && o1[i] == o2[i],
    ensures
        mmw_width(s1, o1, k) == mmw_width(s2, o2, k),
    decreases k,
{
    if k > 0 {
        lemma_mmw_width_prefix(s1, s2, o1, o2, k - 1);
    }
}

/// The neighbour of `v` of least degree (ties to the lowest index).
fn min_degree_neighbor(g: &Graph, nbrs: &Vec<usize>, v: usize) -> (u: usize)
    requires
        g.wf(),
        nbrs@ == g@.nbrs(v),
        nbrs.len() > 0,
    ensures
        is_partner(g@, v, u),
        u < g@.nodes.len(),
{
    let ghost m = g@;
    proof {
        g.lemma_wf();
        crate::seqs::lemma_idx_filter(m.nbr_pred(v), m.nodes.len());
    }
    let mut best = nbrs[0];
    let mut bd = g.degree(best);
    let mut i: usize = 1;
    while i < nbrs.len()
        invariant
            g.wf(),
            m == g@,
            m.wf(),
            nbrs@ == m.nbrs(v),
            crate::seqs::strictly_increasing(nbrs@),
            forall|q: int| 0 <= q < nbrs.len() ==> #[trigger] nbrs[q] < m.nodes.len(),
            1 <= i <= nbrs.len(),
            nbrs@.contains(best),
            exists|q: int| 0 <= q < i && nbrs[q] == best,
            bd == deg(m, best),
            forall|q: int|
                0 <= q < i ==> bd < deg(m, #[trigger] nbrs[q]) || (bd == deg(m, nbrs[q]) && best <= nbrs[q]),
        decreases nbrs.len() - i,
    {
        let w = nbrs[i];
        let d = g.degree(w);
        if d < bd {
            best = w;
            bd = d;
        } else {
            proof {
                let qb = choose|q: int| 0 <= q < i && nbrs[q] == best;
                assert(nbrs[qb] < nbrs[i as int]);
            }
        }
        i += 1;
    }
    proof {
        assert forall|w: usize| #[trigger] m.nbrs(v).contains(w) implies deg(m, best) < deg(m, w) || (deg(m, best) == deg(
            m,
            w,
        ) && best <= w) by {
            let q = choose|q: int| 0 <= q < nbrs.len() && nbrs@[q] == w;
        }
        let qb = choose|q: int| 0 <= q < nbrs.len() && nbrs@[q] == best;
    }
    best
}

/// The first alive vertex of least degree, with its degree.
fn pick_min_degree(g: &Graph) -> (r: Option<(usize, usize)>)
    requires
        g.wf(),
    ensures
        r is None <==> g@.alive_count() == 0,
        r matches Some(b) ==> is_min_degree_pick(g@, b.0) && b.1 == deg(g@, b.0),
{
    let ghost m = g@;
    let vs = g.alive_vertices();
    proof {
        g.lemma_wf();
        crate::seqs::lemma_idx_filter(|i: usize| (i as int) < m.alive.len() && m.alive[i as int], m.alive.len());
        crate::bitset::lemma_ones_of_count(m.alive);
    }
    let mut best: Option<(usize, usize)> = None;
    let mut i: usize = 0;
    while i < vs.len()
        invariant
            g.wf(),
            m == g@,
            m.wf(),
            vs@ == m.alive_list(),
            crate::seqs::strictly_increasing(vs@),
            forall|q: int| 0 <= q < vs.len() ==> m.is_alive(#[trigger] vs[q]),
            i <= vs.len(),
            best is None <==> i == 0,
            best matches Some(b) ==> {
                &&& m.is_alive(b.0)
                &&& b.1 == deg(m, b.0)
                &&& exists|q: int| 0 <= q < i && vs[q] == b.0
                &&& forall|q: int| 0 <= q < i ==> b.1 <= deg(m, #[trigger] vs[q])
                &&& forall|q: int| 0 <= q < i && vs[q] < b.0 ==> b.1 < deg(m, #[trigger] vs[q])
            },
        decreases vs.len() - i,
    {
        let v = vs[i];
        let d = g.degree(v);
        match best {
            Some((bv, bd)) => {
                if d < bd {
                    best = Some((v, d));
                    proof {
                        assert forall|q: int| 0 <= q < i + 1 && vs[q] < v implies d < deg(m, #[trigger] vs[q]) by {
                            assert(q < i);
                        }
                    }
                } else {
                    proof {
                        let qb = choose|q: int| 0 <= q < i && vs[q] == bv;
                        assert(vs[qb] < v);
                    }
                }
            },
            None => {
                best = Some((v, d));
            },
        }
        i += 1;
    }
    match best {
        None => None,
        Some((v, d)) => {
            proof {
                let p = |i: usize| (i as int) < m.alive.len() && m.alive[i as int];
                assert forall|u: usize| #[trigger] m.is_alive(u) implies deg(m, v) <= deg(m, u) && (u < v ==> deg(m, v) < deg(m, u)) by {
                    crate::seqs::lemma_idx_filter_contains(p, m.alive.len(), u);
                    let q = choose|q: int| 0 <= q < vs.len() && vs@[q] == u;
                }
            }
            Some((v, d))
        },
    }
}

} // verus!
