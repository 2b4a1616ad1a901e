//! The line graph: edges become vertices, shared endpoints become edges.
//!
//! The line graph `G*` has one vertex per alive edge of `G`, numbered in
//! `G`'s alive-edge order. Two vertices of `G*` are joined by one normal
//! edge iff their edges of `G` share an endpoint; colors are ignored (every
//! vertex and edge of `G*` is `NC`), parallel edges of `G` are joined once,
//! and a self-loop of `G` never yields a self-loop of `G*`.

use vstd::prelude::*;

use crate::graph::{
    alive_colored, lemma_adj_push, lemma_pair_count_bound, lemma_pair_count_edgeless, lemma_pair_count_flip,
    lemma_pairs_done_all, lemma_pairs_done_row, lemma_pairs_done_step, pairs_done, EColor, Graph, GraphModel, VColor,
};
use crate::petgraph_ext::{connects, index_limit};
use crate::seqs::{idx_filter, lemma_idx_filter, lemma_idx_filter_contains, strictly_increasing};

verus! {

/// The edge has `v` as an endpoint.
pub open spec fn has_end(e: (usize, usize, EColor), v: usize) -> bool {
    e.0 == v || e.1 == v
}

/// The two edges share an endpoint.
pub open spec fn share_end(e: (usize, usize, EColor), f: (usize, usize, EColor)) -> bool {
    has_end(f, e.0) || has_end(f, e.1)
}

/// The two edges share an endpoint below `v`.
pub open spec fn share_end_below(e: (usize, usize, EColor), f: (usize, usize, EColor), v: usize) -> bool {
    (e.0 < v && has_end(f, e.0)) || (e.1 < v && has_end(f, e.1))
}

/// The indices of the alive edges that have `v` as an endpoint.
pub open spec fn at_end(ac: Seq<(usize, usize, EColor)>, v: usize) -> spec_fn(usize) -> bool {
    |i: usize| (i as int) < ac.len() && has_end(ac[i as int], v)
}

/// `g` has room for its line graph below the index limit.
pub open spec fn line_graph_room(m: GraphModel) -> bool {
    m.alive_edge_ids().len() * m.alive_edge_ids().len() + 1 < index_limit()
}

/// The line graph of `g` (see the module docs): vertex `i` stands for the
/// `i`-th alive edge; `i` and `j` are joined, by exactly one normal edge,
/// iff `i != j` and their edges share an endpoint.
pub fn line_graph(g: &Graph) -> (r: Graph)
    requires
        g.wf(),
        line_graph_room(g@),
    ensures
        r.wf(),
        r@.nodes == Seq::new(g@.alive_edge_ids().len(), |i: int| VColor::NC),
        r@.alive == Seq::new(g@.alive_edge_ids().len(), |i: int| true),
        forall|i: int| 0 <= i < r@.edges.len() ==> (#[trigger] r@.edges[i]).2 == EColor::NC && r@.edges[i].0 != r@.edges[i].1,
        forall|i: int, j: int| 0 <= i < j < r@.edges.len() ==> !connects(#[trigger] r@.edges[i], (#[trigger] r@.edges[j]).0, r@.edges[j].1),
        forall|x: usize, y: usize|
            #[trigger] r@.adj(x, y) <==> x != y && (x as int) < alive_colored(g@).len() && (y as int) < alive_colored(g@).len()
                && share_end(alive_colored(g@)[x as int], alive_colored(g@)[y as int]),
{
    let es = g.edges();
    let ghost m = g@;
    let ghost ac = alive_colored(m);
    let n = g.node_count();
    let k = es.len();
    proof {
        g.lemma_wf();
        lemma_idx_filter(
            |i: usize| (i as int) < m.edges.len() && m.is_alive(m.edges[i as int].0) && m.is_alive(m.edges[i as int].1),
            m.edges.len(),
        );
        assert forall|j: int| 0 <= j < es.len() implies (#[trigger] es[j]).0 == ac[j].0 && es[j].1 == ac[j].1 && ac[j].0 < n && ac[j].1 < n by {
            assert(ac[j] == m.edges[m.alive_edge_ids()[j] as int]);
        }
        assert(k * k <= usize::MAX);
        assert(k + 2 < index_limit()) by (nonlinear_arith)
            requires
                k * k + 1 < 0xFFFF_FFFFnat,
        ;
    }
    let mut out = Graph::new();
    let mut t: usize = 0;
    while t < k
        invariant
            out.wf(),
            t <= k,
            k * k + 1 < index_limit(),
            k + 2 < index_limit(),
            out@.nodes == Seq::new(t as nat, |i: int| VColor::NC),
            out@.alive == Seq::new(t as nat, |i: int| true),
            out@.edges.len() == 0,
        decreases k - t,
    {
        proof {
            assert((t + 1) * (t + 1) <= k * k) by (nonlinear_arith)
                requires
                    t + 1 <= k,
            ;
        }
        out.add_vertex();
        t += 1;
        proof {
            assert(out@.nodes =~= Seq::new(t as nat, |i: int| VColor::NC));
            assert(out@.alive =~= Seq::new(t as nat, |i: int| true));
        }
    }
    proof {
        lemma_pair_count_edgeless(out@);
    }
    let mut v: usize = 0;
    while v < n
        invariant
            out.wf(),
            k == ac.len(),
            k == es.len(),
            n == m.nodes.len(),
            k * k + 1 < index_limit(),
            k + 2 < index_limit(),
            forall|j: int| 0 <= j < es.len() ==> (#[trigger] es[j]).0 == ac[j].0 && es[j].1 == ac[j].1 && ac[j].0 < n && ac[j].1 < n,
            out@.nodes == Seq::new(k as nat, |i: int| VColor::NC),
            out@.alive == Seq::new(k as nat, |i: int| true),
            out@.edges.len() == out@.pair_count(),
            v <= n,
            forall|i: int| 0 <= i < out@.edges.len() ==> (#[trigger] out@.edges[i]).2 == EColor::NC && out@.edges[i].0 != out@.edges[i].1,
            forall|i: int, j: int| 0 <= i < j < out@.edges.len() ==> !connects(#[trigger] out@.edges[i], (#[trigger] out@.edges[j]).0, out@.edges[j].1),
            forall|x: usize, y: usize|
                #[trigger] out@.adj(x, y) <==> x != y && x < k && y < k && share_end_below(ac[x as int], ac[y as int], v),
        decreases n - v,
    {
        let mut group: Vec<usize> = Vec::new();
        let mut i: usize = 0;
        while i < k
            invariant
                k == es.len(),
                k == ac.len(),
                forall|j: int| 0 <= j < es.len() ==> (#[trigger] es[j]).0 == ac[j].0 && es[j].1 == ac[j].1,
                i <= k,
                group@ == idx_filter(at_end(ac, v), i as nat),
            decreases k - i,
        {
            if es[i].0 == v || es[i].1 == v {
                group.push(i);
            }
            i += 1;
        }
        let ghost s = group@;
        proof {
            lemma_idx_filter(at_end(ac, v), k as nat);
        }
        let mut p: usize = 0;
        while p < group.len()
            invariant
                out.wf(),
                k == ac.len(),
                k * k + 1 < index_limit(),
                k + 2 < index_limit(),
            k + 2 < index_limit(),
                s == group@,
                s == idx_filter(at_end(ac, v), k as nat),
                strictly_increasing(s),
                forall|q: int| 0 <= q < s.len() ==> #[trigger] s[q] < k,
                out@.nodes == Seq::new(k as nat, |i: int| VColor::NC),
                out@.alive == Seq::new(k as nat, |i: int| true),
                out@.edges.len() == out@.pair_count(),
                p <= group.len(),
                forall|i: int| 0 <= i < out@.edges.len() ==> (#[trigger] out@.edges[i]).2 == EColor::NC && out@.edges[i].0 != out@.edges[i].1,
                forall|i: int, j: int| 0 <= i < j < out@.edges.len() ==> !connects(#[trigger] out@.edges[i], (#[trigger] out@.edges[j]).0, out@.edges[j].1),
                forall|x: usize, y: usize|
                    #[trigger] out@.adj(x, y) <==> (x != y && x < k && y < k && share_end_below(ac[x as int], ac[y as int], v)) || pairs_done(s, p as int, (p + 1) as int, x, y),
            decreases group.len() - p,
        {
            let mut q: usize = p + 1;
            while q < group.len()
                invariant
                    out.wf(),
                    k == ac.len(),
                    k * k + 1 < index_limit(),
                    k + 2 < index_limit(),
                k + 2 < index_limit(),
            k + 2 < index_limit(),
                    s == group@,
                    strictly_increasing(s),
                    forall|qq: int| 0 <= qq < s.len() ==> #[trigger] s[qq] < k,
                    out@.nodes == Seq::new(k as nat, |i: int| VColor::NC),
                    out@.alive == Seq::new(k as nat, |i: int| true),
                    out@.edges.len() == out@.pair_count(),
                    p < group.len(),
                    p + 1 <= q <= group.len(),
                    forall|i: int| 0 <= i < out@.edges.len() ==> (#[trigger] out@.edges[i]).2 == EColor::NC && out@.edges[i].0 != out@.edges[i].1,
                    forall|i: int, j: int| 0 <= i < j < out@.edges.len() ==> !connects(#[trigger] out@.edges[i], (#[trigger] out@.edges[j]).0, out@.edges[j].1),
                    forall|x: usize, y: usize|
                        #[trigger] out@.adj(x, y) <==> (x != y && x < k && y < k && share_end_below(ac[x as int], ac[y as int], v)) || pairs_done(s, p as int, q as int, x, y),
                decreases group.len() - q,
            {
                let a = group[p];
                let b = group[q];
                proof {
                    assert(s[p as int] < s[q as int]);
                }
                let ghost before = out@;
                if !out.has_edge(a, b) {
                    proof {
                        lemma_pair_count_bound(before);
                    }
                    out.add_edge_c(a, b, EColor::NC);
                    proof {
                        lemma_adj_push(before, out@, (a, b, EColor::NC));
                        lemma_pair_count_flip(before, out@, a, b);
                        assert forall|i: int, j: int| 0 <= i < j < out@.edges.len() implies !connects(#[trigger] out@.edges[i], (#[trigger] out@.edges[j]).0, out@.edges[j].1) by {
                            if j == out@.edges.len() - 1 {
                                assert(out@.edges[i] == before.edges[i]);
                                assert(!connects(before.edges[i], a, b));
                            } else {
                                assert(out@.edges[i] == before.edges[i] && out@.edges[j] == before.edges[j]);
                            }
                        }
                        assert forall|i: int| 0 <= i < out@.edges.len() implies (#[trigger] out@.edges[i]).2 == EColor::NC && out@.edges[i].0 != out@.edges[i].1 by {
                            if i < before.edges.len() {
                                assert(out@.edges[i] == before.edges[i]);
                            }
                        }
                    }
                }
                proof {
                    assert forall|x: usize, y: usize|
                        #[trigger] out@.adj(x, y) <==> (x != y && x < k && y < k && share_end_below(ac[x as int], ac[y as int], v)) || pairs_done(s, p as int, q + 1, x, y) by {
                        lemma_pairs_done_step(s, p as int, q as int, x, y);
                        assert(before.adj(x, y) == out@.adj(x, y) || connects((a, b, EColor::NC), x, y));
                    }
                }
                q += 1;
            }
            proof {
                assert forall|x: usize, y: usize|
                    #[trigger] out@.adj(x, y) <==> (x != y && x < k && y < k && share_end_below(ac[x as int], ac[y as int], v)) || pairs_done(s, p + 1, p + 2, x, y) by {
                    lemma_pairs_done_row(s, p as int, x, y);
                }
            }
            p += 1;
        }
        proof {
            assert forall|x: usize, y: usize|
                #[trigger] out@.adj(x, y) <==> x != y && x < k && y < k && share_end_below(ac[x as int], ac[y as int], (v + 1) as usize) by {
                lemma_pairs_done_all(s, x, y);
                lemma_idx_filter_contains(at_end(ac, v), k as nat, x);
                lemma_idx_filter_contains(at_end(ac, v), k as nat, y);
                if p == 0 {
                    assert(s.len() == 0);
                    assert(!pairs_done(s, 0, 1, x, y));
                }
            }
        }
        v += 1;
    }
    proof {
        assert forall|x: usize, y: usize|
            #[trigger] out@.adj(x, y) <==> x != y && (x as int) < ac.len() && (y as int) < ac.len() && share_end(ac[x as int], ac[y as int]) by {
            if (x as int) < ac.len() {
                assert(ac[x as int].0 < n && ac[x as int].1 < n);
            }
        }
    }
    out
}

} // verus!
