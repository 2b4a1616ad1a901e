//! Upper bound on treewidth: the min-fill heuristic.
//!
//! Repeatedly eliminate the alive vertex whose elimination adds the fewest
//! fill-in edges (ties to the lowest index), recording the largest degree
//! at elimination. One deterministic pass.

use vstd::prelude::*;

use crate::graph::{Graph, GraphModel};
use crate::petgraph_ext::index_limit;

verus! {

/// Number of fill-in edges that eliminating `v` would add.
pub open spec fn fill(m: GraphModel, v: usize) -> nat {
    m.missing_pairs(m.nbrs(v)).len()
}

/// `v` is the first alive vertex of least fill-in.
pub open spec fn is_min_fill_pick(m: GraphModel, v: usize) -> bool {
    &&& m.is_alive(v)
    &&& forall|u: usize| #[trigger] m.is_alive(u) ==> fill(m, v) <= fill(m, u)
    &&& forall|u: usize| u < v && #[trigger] m.is_alive(u) ==> fill(m, v) < fill(m, u)
}

/// `m2` is `m` with `v` eliminated: `v` dies and its alive neighbours become
/// pairwise adjacent.
pub open spec fn elim_step(m: GraphModel, m2: GraphModel, v: usize) -> bool {
    &&& m2.nodes == m.nodes
    &&& m2.alive == m.alive.update(v as int, false)
    &&& forall|x: usize, y: usize|
        #[trigger] m2.adj(x, y) <==> m.adj(x, y) || (x != y && m.nbrs(v).contains(x) && m.nbrs(v).contains(y))
}

/// The largest degree at elimination over the first `k` steps.
pub open spec fn run_width(states: Seq<GraphModel>, order: Seq<usize>, k: int) -> nat
    decreases k,
{
    if k <= 0 {
        0
    } else {
        let prev = run_width(states, order, k - 1);
        let d = states[k - 1].nbrs(order[k - 1]).len();
        if d > prev {
            d
        } else {
            prev
        }
    }
}

/// `states` and `order` are a complete min-fill run with width `ub`.
pub open spec fn min_fill_run(states: Seq<GraphModel>, order: Seq<usize>, ub: nat) -> bool {
    &&& states.len() == order.len() + 1
    &&& forall|k: int| 0 <= k < order.len() ==> #[trigger] is_min_fill_pick(states[k], order[k])
    &&& forall|k: int| 0 <= k < order.len() ==> #[trigger] elim_step(states[k], states[k + 1], order[k])
    &&& states.last().alive_count() == 0
    &&& ub == run_width(states, order, order.len() as int)
}

/// `order` lists every alive vertex of `m` exactly once.
pub open spec fn is_alive_permutation(m: GraphModel, order: Seq<usize>) -> bool {
    &&& order.len() == m.alive_count()
    &&& order.no_duplicates()
    &&& forall|k: int| 0 <= k < order.len() ==> m.is_alive(#[trigger] order[k])
}

/// Killing an alive vertex lowers the alive count by one.
pub proof fn lemma_kill_count(m: GraphModel, m2: GraphModel, v: usize)
    requires
        m.is_alive(v),
        m2.alive == m.alive.update(v as int, false),
    ensures
        m2.alive_count() + 1 == m.alive_count(),
{
    crate::seqs::lemma_count_true_set(m2.alive, v as int);
    assert(m2.alive.update(v as int, true) =~= m.alive);
}

/// Run min-fill once: the largest degree at elimination, and the
/// elimination order (first eliminated first).
pub fn min_fill(g: &Graph) -> (r: (usize, Vec<usize>))
    requires
        g.wf(),
        g@.fill_room() < index_limit(),
    ensures
        exists|states: Seq<GraphModel>| #[trigger] states[0] == g@ && min_fill_run(states, r.1@, r.0 as nat),
        is_alive_permutation(g@, r.1@),
{
    let mut work = g.clone();
    let mut order: Vec<usize> = Vec::new();
    let mut ub: usize = 0;
    let ghost mut states: Seq<GraphModel> = seq![g@];
    proof {
        g.lemma_wf();
    }
    while work.alive_count() > 0
        invariant
            work.wf(),
            work@.fill_room() == g@.fill_room(),
            g@.fill_room() < index_limit(),
            work@.nodes == g@.nodes,
            states.len() == order.len() + 1,
            states[0] == g@,
            states.last() == work@,
            forall|k: int| 0 <= k < order.len() ==> #[trigger] is_min_fill_pick(states[k], order[k]),
            forall|k: int| 0 <= k < order.len() ==> #[trigger] elim_step(states[k], states[k + 1], order[k]),
            ub == run_width(states, order@, order.len() as int),
            order.len() + work@.alive_count() == g@.alive_count(),
            order@.no_duplicates(),
            forall|k: int| 0 <= k < order.len() ==> g@.is_alive(#[trigger] order[k]) && !work@.is_alive(order[k]),
            forall|u: usize| #[trigger] work@.is_alive(u) ==> g@.is_alive(u),
        decreases work@.alive_count(),
    {
        let v = pick_min_fill(&work).unwrap();
        let ghost before = work@;
        proof {
            work.lemma_wf();
        }
        let d = work.elim(v);
        proof {
            lemma_kill_count(before, work@, v);
            assert forall|u: usize| #[trigger] work@.is_alive(u) implies g@.is_alive(u) by {
                assert(before.is_alive(u));
            }
            assert(order@.push(v).no_duplicates()) by {
                assert forall|i: int, j: int| 0 <= i < j < order.len() + 1 implies order@.push(v)[i] != order@.push(v)[j] by {
                    if j == order.len() {
                        assert(!before.is_alive(order[i]));
                    }
                }
            }
            let s2 = states.push(work@);
            assert forall|k: int| 0 <= k < order.len() + 1 implies #[trigger] is_min_fill_pick(s2[k], order@.push(v)[k]) by {
                if k < order.len() {
                    assert(s2[k] == states[k]);
                }
            }
            assert forall|k: int| 0 <= k < order.len() + 1 implies #[trigger] elim_step(s2[k], s2[k + 1], order@.push(v)[k]) by {
                if k < order.len() {
                    assert(s2[k] == states[k]);
                    assert(s2[k + 1] == states[k + 1]);
                }
            }
            assert(run_width(s2, order@.push(v), order.len() + 1) == if d > ub { d as nat } else { ub as nat }) by {
                lemma_run_width_prefix(states, s2, order@, order@.push(v), order.len() as int);
            }
            states = s2;
        }
        if d > ub {
            ub = d;
        }
        order.push(v);
    }
    (ub, order)
}

/// `run_width` depends only on the first `k` steps.
pub proof fn lemma_run_width_prefix(s1: Seq<GraphModel>, s2: Seq<GraphModel>, o1: Seq<usize>, o2: Seq<usize>, k: int)
    requires
        0 <= k,
        k <= s1.len(),
        k <= s2.len(),
        k <= o1.len(),
        k <= o2.len(),
        forall|i: int| 0 <= i < k ==> s1[i] == s2[i] && o1[i] == o2[i],
    ensures
        run_width(s1, o1, k) == run_width(s2, o2, k),
    decreases k,
{
    if k > 0 {
        lemma_run_width_prefix(s1, s2, o1, o2, k - 1);
    }
}

/// The first alive vertex of least fill-in, if any vertex is alive.
fn pick_min_fill(g: &Graph) -> (r: Option<usize>)
    requires
        g.wf(),
    ensures
        r is None <==> g@.alive_count() == 0,
        r matches Some(v) ==> is_min_fill_pick(g@, v),
{
    let ghost m = g@;
    let vs = g.alive_vertices();
    proof {
        g.lemma_wf();
        crate::seqs::lemma_idx_filter(|i: usize| (i as int) < m.alive.len() && m.alive[i as int], m.alive.len());
        crate::bitset::lemma_ones_of_count(m.alive);
    }
    let mut best: Option<(usize, usize)> = None;
    let mut i: usize = 0;
    while i < vs.len()
        invariant
            g.wf(),
            m == g@,
            m.wf(),
            vs@ == m.alive_list(),
            crate::seqs::strictly_increasing(vs@),
            forall|q: int| 0 <= q < vs.len() ==> m.is_alive(#[trigger] vs[q]),
            i <= vs.len(),
            best is None <==> i == 0,
            best matches Some(b) ==> {
                &&& m.is_alive(b.0)
                &&& b.1 == fill(m, b.0)
                &&& exists|q: int| 0 <= q < i && vs[q] == b.0
                &&& forall|q: int| 0 <= q < i ==> b.1 <= fill(m, #[trigger] vs[q])
                &&& forall|q: int| 0 <= q < i && vs[q] < b.0 ==> b.1 < fill(m, #[trigger] vs[q])
            },
        decreases vs.len() - i,
    {
        let v = vs[i];
        let f = g.fill_in_count(v);
        match best {
            Some((bv, bf)) => {
                if f < bf {
                    best = Some((v, f));
                    proof {
                        assert forall|q: int| 0 <= q < i + 1 && vs[q] < v implies f < fill(m, #[trigger] vs[q]) by {
                            assert(q < i);
                        }
                    }
                } else {
                    proof {
                        let qb = choose|q: int| 0 <= q < i && vs[q] == bv;
                        assert(vs[qb] < v);
                    }
                }
            },
            None => {
                best = Some((v, f));
            },
        }
        i += 1;
    }
    match best {
        None => None,
        Some((v, _)) => {
            proof {
                let p = |i: usize| (i as int) < m.alive.len() && m.alive[i as int];
                assert forall|u: usize| #[trigger] m.is_alive(u) implies fill(m, v) <= fill(m, u) && (u < v ==> fill(m, v) < fill(m, u)) by {
                    crate::seqs::lemma_idx_filter_contains(p, m.alive.len(), u);
                    let q = choose|q: int| 0 <= q < vs.len() && vs@[q] == u;
                }
            }
            Some(v)
        },
    }
}

} // verus!
