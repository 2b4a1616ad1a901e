//! The QuickBB branch-and-bound search for treewidth.
//!
//! Gogate & Dechter's complete anytime algorithm: depth-first search over
//! partial elimination orderings, pruned by `max(g(s), h(s)) >= ub` where
//! `g(s)` is the width of the ordering so far, `h(s)` the minor-min-width
//! bound of the remaining graph and `ub` the best width found (initially
//! min-fill's). Enhancements: simplicial and almost-simplicial reduction,
//! edge addition between pairs with more than `ub` common neighbours,
//! branching only on non-neighbours (in the original graph) of the last
//! ordered vertex, state dominance (a graph already met with no larger
//! width is pruned) and fill-in dominance among candidates.

use vstd::prelude::*;

use crate::algorithm::minfill::{is_alive_permutation, lemma_kill_count, min_fill, min_fill_run};
use crate::algorithm::elimination::{covers, game_width, lemma_covers_elim, lemma_covers_grow, lemma_covers_start, lemma_min_fill_game};
use crate::algorithm::mmw::minor_min_width;
use crate::graph::{Graph, GraphModel};
use crate::petgraph_ext::index_limit;
use crate::seqs::{idx_filter, lemma_idx_filter, lemma_idx_filter_contains};

verus! {

/// A state's graph: its alive vertices and the adjacent pairs among them.
pub type GraphKey = (Vec<usize>, Vec<(usize, usize)>);

/// Lexicographic order on pairs.
pub open spec fn pair_lt(x: (usize, usize), y: (usize, usize)) -> bool {
    x.0 < y.0 || (x.0 == y.0 && x.1 < y.1)
}

/// The key of a graph: its alive vertices ascending, and exactly the
/// adjacent pairs `a < b` of alive vertices, in lexicographic order.
pub open spec fn is_key_of(m: GraphModel, key: (Seq<usize>, Seq<(usize, usize)>)) -> bool {
    &&& key.0 == m.alive_list()
    &&& forall|i: int, j: int| 0 <= i < j < key.1.len() ==> pair_lt(#[trigger] key.1[i], #[trigger] key.1[j])
    &&& forall|a: usize, b: usize|
        #[trigger] key.1.contains((a, b)) <==> (a < b && m.is_alive(a) && m.is_alive(b) && m.adj(a, b))
}

/// The key of a state's graph.
fn graph_key(g: &Graph) -> (r: GraphKey)
    requires
        g.wf(),
    ensures
        is_key_of(g@, (r.0@, r.1@)),
{
    let ghost m = g@;
    let alive = g.alive_vertices();
    proof {
        g.lemma_wf();
        lemma_idx_filter(|i: usize| (i as int) < m.alive.len() && m.alive[i as int], m.alive.len());
    }
    let mut edges: Vec<(usize, usize)> = Vec::new();
    let mut i: usize = 0;
    while i < alive.len()
        invariant
            g.wf(),
            m == g@,
            m.wf(),
            alive@ == m.alive_list(),
            crate::seqs::strictly_increasing(alive@),
            forall|q: int| 0 <= q < alive.len() ==> m.is_alive(#[trigger] alive[q]),
            i <= alive.len(),
            forall|x: int, y: int| 0 <= x < y < edges.len() ==> pair_lt(#[trigger] edges[x], #[trigger] edges[y]),
            forall|x: int|
                0 <= x < edges.len() ==> (#[trigger] edges[x]).0 < edges[x].1 && alive@.contains(edges[x].0)
                    && alive@.contains(edges[x].1) && (i < alive.len() ==> edges[x].0 < alive[i as int]),
            forall|p: int, q: int|
                0 <= p < q < alive.len() && p < i && m.adj(alive[p], alive[q]) ==> #[trigger] edges@.contains(
                    (alive[p], alive[q]),
                ),
            forall|x: int| 0 <= x < edges.len() ==> m.adj((#[trigger] edges[x]).0, edges[x].1),
        decreases alive.len() - i,
    {
        let mut j: usize = i + 1;
        while j < alive.len()
            invariant
                g.wf(),
                m == g@,
                m.wf(),
                alive@ == m.alive_list(),
                crate::seqs::strictly_increasing(alive@),
                i < alive.len(),
                i + 1 <= j <= alive.len(),
                forall|x: int, y: int| 0 <= x < y < edges.len() ==> pair_lt(#[trigger] edges[x], #[trigger] edges[y]),
                forall|x: int|
                    0 <= x < edges.len() ==> (#[trigger] edges[x]).0 < edges[x].1 && alive@.contains(edges[x].0)
                        && alive@.contains(edges[x].1) && (edges[x].0 < alive[i as int] || (edges[x].0 == alive[i as int]
                        && (j < alive.len() ==> edges[x].1 < alive[j as int]))),
                forall|p: int, q: int|
                    0 <= p < q < alive.len() && (p < i || (p == i && q < j)) && m.adj(alive[p], alive[q])
                        ==> #[trigger] edges@.contains((alive[p], alive[q])),
                forall|x: int| 0 <= x < edges.len() ==> m.adj((#[trigger] edges[x]).0, edges[x].1),
            decreases alive.len() - j,
        {
            if g.has_edge(alive[i], alive[j]) {
                let ghost before = edges@;
                proof {
                    assert forall|x: int| 0 <= x < before.len() implies pair_lt(before[x], (alive[i as int], alive[j as int])) by {
                        assert(before[x] == edges[x]);
                    }
                }
                edges.push((alive[i], alive[j]));
                proof {
                    assert forall|p: int, q: int|
                        0 <= p < q < alive.len() && (p < i || (p == i && q < j + 1)) && m.adj(alive[p], alive[q]) implies #[trigger] edges@.contains(
                        (alive[p], alive[q]),
                    ) by {
                        if p == i && q == j {
                            assert(edges@[before.len() as int] == (alive[p], alive[q]));
                        } else {
                            assert(before.contains((alive[p], alive[q])));
                            let x = choose|x: int| 0 <= x < before.len() && before[x] == (alive[p], alive[q]);
                            assert(edges@[x] == before[x]);
                        }
                    }
                    assert(alive@.contains(alive[i as int]));
                    assert(alive@.contains(alive[j as int]));
                    assert(alive[i as int] < alive[j as int]);
                    assert forall|x: int| 0 <= x < edges.len() implies (#[trigger] edges[x]).0 < edges[x].1 && alive@.contains(
                        edges[x].0,
                    ) && alive@.contains(edges[x].1) && (edges[x].0 < alive[i as int] || (edges[x].0 == alive[i as int] && (j
                        + 1 < alive.len() ==> edges[x].1 < alive[j + 1]))) by {
                        if x < before.len() {
                            assert(edges[x] == before[x]);
                        }
                        if j + 1 < alive.len() {
                            assert(alive[j as int] < alive[j + 1]);
                        }
                    }
                }
            }
            j += 1;
        }
        proof {
            if i + 1 < alive.len() {
                assert(alive[i as int] < alive[i + 1]);
            }
        }
        i += 1;
    }
    proof {
        let p = |i: usize| (i as int) < m.alive.len() && m.alive[i as int];
        assert forall|a: usize, b: usize| #[trigger] edges@.contains((a, b)) <==> (a < b && m.is_alive(a) && m.is_alive(b)
            && m.adj(a, b)) by {
            if edges@.contains((a, b)) {
                let x = choose|x: int| 0 <= x < edges.len() && edges@[x] == (a, b);
                assert(edges[x] == (a, b));
                let pa = choose|q: int| 0 <= q < alive.len() && alive@[q] == a;
                let pb = choose|q: int| 0 <= q < alive.len() && alive@[q] == b;
            }
            if a < b && m.is_alive(a) && m.is_alive(b) && m.adj(a, b) {
                lemma_idx_filter_contains(p, m.alive.len(), a);
                lemma_idx_filter_contains(p, m.alive.len(), b);
                let pa = choose|q: int| 0 <= q < alive.len() && alive@[q] == a;
                let pb = choose|q: int| 0 <= q < alive.len() && alive@[q] == b;
                if pb < pa {
                    assert(alive[pb] < alive[pa]);
                }
                assert(pa != pb);
                assert(edges@.contains((alive[pa], alive[pb])));
            }
        }
    }
    (alive, edges)
}

/// Is every element of `a` also in `b`?
pub fn is_subset(a: &Vec<(usize, usize)>, b: &Vec<(usize, usize)>) -> (r: bool)
    ensures
        r == forall|x: int| 0 <= x < a.len() ==> b@.contains(#[trigger] a[x]),
{
    let mut i: usize = 0;
    while i < a.len()
        invariant
            i <= a.len(),
            forall|x: int| 0 <= x < i ==> b@.contains(#[trigger] a[x]),
        decreases a.len() - i,
    {
        let mut found = false;
        let mut j: usize = 0;
        while j < b.len() && !found
            invariant
                j <= b.len(),
                i < a.len(),
                found ==> b@.contains(a[i as int]),
                !found ==> forall|y: int| 0 <= y < j ==> b[y] != a[i as int],
            decreases b.len() - j, if found { 0nat } else { 1nat },
        {
            if b[j].0 == a[i].0 && b[j].1 == a[i].1 {
                found = true;
            } else {
                j += 1;
            }
        }
        if !found {
            proof {
                assert(!b@.contains(a[i as int]));
            }
            return false;
        }
        i += 1;
    }
    true
}

fn pairs_eq(a: &Vec<(usize, usize)>, b: &Vec<(usize, usize)>) -> (r: bool)
    ensures
        r == (a@ == b@),
{
    if a.len() != b.len() {
        return false;
    }
    let mut i: usize = 0;
    while i < a.len()
        invariant
            a.len() == b.len(),
            i <= a.len(),
            forall|x: int| 0 <= x < i ==> a[x] == b[x],
        decreases a.len() - i,
    {
        if a[i].0 != b[i].0 || a[i].1 != b[i].1 {
            return false;
        }
        i += 1;
    }
    proof {
        assert(a@ =~= b@);
    }
    true
}

fn usizes_eq(a: &Vec<usize>, b: &Vec<usize>) -> (r: bool)
    ensures
        r == (a@ == b@),
{
    if a.len() != b.len() {
        return false;
    }
    let mut i: usize = 0;
    while i < a.len()
        invariant
            a.len() == b.len(),
            i <= a.len(),
            forall|x: int| 0 <= x < i ==> a[x] == b[x],
        decreases a.len() - i,
    {
        if a[i] != b[i] {
            return false;
        }
        i += 1;
    }
    proof {
        assert(a@ =~= b@);
    }
    true
}

/// Candidate `i` is dominated: another candidate's fill-in set is a strict
/// subset of its own (by size), or equal to it with a lower index.
pub open spec fn dominated(fills: Seq<Seq<(usize, usize)>>, i: int) -> bool {
    exists|j: int|
        0 <= j < fills.len() && j != i && ((#[trigger] fills[j].len() < fills[i].len() && forall|x: int|
            0 <= x < fills[j].len() ==> fills[i].contains(#[trigger] fills[j][x])) || (fills[j] == fills[i] && j < i))
}

/// The candidates whose fill-in is not dominated (Theorem 6.4), in order.
fn prune_dominated(g: &Graph, candidates: Vec<usize>) -> (r: Vec<usize>)
    requires
        g.wf(),
    ensures
        candidates.len() < 2 ==> r@ == candidates@,
        candidates.len() >= 2 ==> ({
            let fills = Seq::new(candidates.len() as nat, |i: int| g@.missing_pairs(g@.nbrs(candidates[i])));
            let kept = idx_filter(|i: usize| (i as int) < candidates.len() && !dominated(fills, i as int), candidates.len() as nat);
            r@ == kept.map_values(|i: usize| candidates[i as int])
        }),
{
    if candidates.len() < 2 {
        return candidates;
    }
    let n = candidates.len();
    let mut fills: Vec<Vec<(usize, usize)>> = Vec::new();
    let mut t: usize = 0;
    while t < n
        invariant
            g.wf(),
            n == candidates.len(),
            t <= n,
            fills.len() == t,
            forall|i: int| 0 <= i < t ==> (#[trigger] fills[i])@ == g@.missing_pairs(g@.nbrs(candidates[i])),
        decreases n - t,
    {
        fills.push(g.fill_in_edges(candidates[t]));
        t += 1;
    }
    let ghost fs = Seq::new(n as nat, |i: int| g@.missing_pairs(g@.nbrs(candidates[i])));
    let ghost p = |i: usize| (i as int) < candidates.len() && !dominated(fs, i as int);
    let mut keep: Vec<usize> = Vec::new();
    let mut i: usize = 0;
    while i < n
        invariant
            n == candidates.len(),
            n >= 2,
            fills.len() == n,
            forall|x: int| 0 <= x < n ==> (#[trigger] fills[x])@ == fs[x],
            fs.len() == n,
            p == (|i: usize| (i as int) < candidates.len() && !dominated(fs, i as int)),
            i <= n,
            keep@ == idx_filter(p, i as nat).map_values(|x: usize| candidates[x as int]),
        decreases n - i,
    {
        let mut is_dom = false;
        let mut j: usize = 0;
        while j < n && !is_dom
            invariant
                n == candidates.len(),
                fills.len() == n,
                forall|x: int| 0 <= x < n ==> (#[trigger] fills[x])@ == fs[x],
                fs.len() == n,
                i < n,
                j <= n,
                is_dom ==> dominated(fs, i as int),
                !is_dom ==> forall|y: int|
                    0 <= y < j && y != i ==> !((#[trigger] fs[y].len() < fs[i as int].len() && forall|x: int|
                        0 <= x < fs[y].len() ==> fs[i as int].contains(#[trigger] fs[y][x])) || (fs[y] == fs[i as int] && y < i)),
            decreases n - j, if is_dom { 0nat } else { 1nat },
        {
            if i != j {
                if fills[j].len() < fills[i].len() {
                    if is_subset(&fills[j], &fills[i]) {
                        is_dom = true;
                    }
                } else if fills[j].len() == fills[i].len() && j < i && pairs_eq(&fills[j], &fills[i]) {
                    is_dom = true;
                }
            }
            if !is_dom {
                j += 1;
            }
        }
        let ghost before = keep@;
        if !is_dom {
            keep.push(candidates[i]);
        }
        proof {
            assert(is_dom == dominated(fs, i as int));
            assert(keep@ =~= idx_filter(p, (i + 1) as nat).map_values(|x: usize| candidates[x as int]));
        }
        i += 1;
    }
    keep
}

/// The successors of a state: the alive vertices that are not neighbours
/// (in `original`) of the last ordered vertex, or all alive vertices when
/// there is no last vertex or no such vertex.
fn branch_candidates(g: &Graph, original: &Graph, last: Option<usize>) -> (r: Vec<usize>)
    requires
        g.wf(),
        original.wf(),
    ensures
        ({
            let all = g@.alive_list();
            match last {
                None => r@ == all,
                Some(vs) => {
                    let nn = all.filter(|v: usize| !original@.adj(vs, v));
                    r@ == if nn.len() == 0 { all } else { nn }
                },
            }
        }),
{
    let all = g.alive_vertices();
    match last {
        None => all,
        Some(vs) => {
            let ghost f = |v: usize| !original@.adj(vs, v);
            let mut nn: Vec<usize> = Vec::new();
            let mut i: usize = 0;
            while i < all.len()
                invariant
                    original.wf(),
                    f == (|v: usize| !original@.adj(vs, v)),
                    i <= all.len(),
                    nn@ == all@.take(i as int).filter(f),
                decreases all.len() - i,
            {
                proof {
                    reveal(Seq::filter);
                    assert(all@.take(i + 1).drop_last() =~= all@.take(i as int));
                }
                if !original.has_edge(vs, all[i]) {
                    nn.push(all[i]);
                }
                i += 1;
            }
            proof {
                assert(all@.take(all.len() as int) =~= all@);
            }
            if nn.len() == 0 {
                all
            } else {
                nn
            }
        },
    }
}

/// The lowest alive simplicial vertex, if any.
fn find_simplicial(g: &Graph) -> (r: Option<usize>)
    requires
        g.wf(),
    ensures
        r is None ==> forall|v: usize| #[trigger] g@.is_alive(v) ==> !g@.is_clique(g@.nbrs(v)),
        r matches Some(v) ==> g@.is_alive(v) && g@.is_clique(g@.nbrs(v)) && forall|u: usize|
            u < v && #[trigger] g@.is_alive(u) ==> !g@.is_clique(g@.nbrs(u)),
{
    let ghost m = g@;
    let vs = g.alive_vertices();
    proof {
        g.lemma_wf();
        lemma_idx_filter(|i: usize| (i as int) < m.alive.len() && m.alive[i as int], m.alive.len());
    }
    let mut i: usize = 0;
    while i < vs.len()
        invariant
            g.wf(),
            m == g@,
            m.wf(),
            vs@ == m.alive_list(),
            crate::seqs::strictly_increasing(vs@),
            forall|q: int| 0 <= q < vs.len() ==> m.is_alive(#[trigger] vs[q]),
            i <= vs.len(),
            forall|q: int| 0 <= q < i ==> !m.is_clique(m.nbrs(#[trigger] vs[q])),
        decreases vs.len() - i,
    {
        if g.is_simplicial(vs[i]) {
            proof {
                let p = |i: usize| (i as int) < m.alive.len() && m.alive[i as int];
                assert forall|u: usize| u < vs[i as int] && #[trigger] m.is_alive(u) implies !m.is_clique(m.nbrs(u)) by {
                    lemma_idx_filter_contains(p, m.alive.len(), u);
                    let q = choose|q: int| 0 <= q < vs.len() && vs@[q] == u;
                    if q >= i {
                        assert(vs[i as int] <= vs[q]);
                    }
                }
            }
            return Some(vs[i]);
        }
        i += 1;
    }
    proof {
        let p = |i: usize| (i as int) < m.alive.len() && m.alive[i as int];
        assert forall|v: usize| #[trigger] m.is_alive(v) implies !m.is_clique(m.nbrs(v)) by {
            lemma_idx_filter_contains(p, m.alive.len(), v);
            let q = choose|q: int| 0 <= q < vs.len() && vs@[q] == v;
        }
    }
    None
}

/// `v` is almost simplicial: its neighbours form a clique, or do once one
/// of them is left out.
pub open spec fn almost_simplicial(m: GraphModel, v: usize) -> bool {
    m.is_clique(m.nbrs(v)) || exists|skip: int|
        0 <= skip < m.nbrs(v).len() && #[trigger] m.is_clique_without(m.nbrs(v), skip)
}

/// The lowest alive almost-simplicial vertex of degree at most `lb`, if any.
fn find_almost_simplicial(g: &Graph, lb: usize) -> (r: Option<usize>)
    requires
        g.wf(),
    ensures
        r is None ==> forall|v: usize|
            #[trigger] g@.is_alive(v) ==> !(g@.nbrs(v).len() <= lb && almost_simplicial(g@, v)),
        r matches Some(v) ==> g@.is_alive(v) && g@.nbrs(v).len() <= lb && almost_simplicial(g@, v),
{
    let ghost m = g@;
    let vs = g.alive_vertices();
    proof {
        g.lemma_wf();
        lemma_idx_filter(|i: usize| (i as int) < m.alive.len() && m.alive[i as int], m.alive.len());
    }
    let mut i: usize = 0;
    while i < vs.len()
        invariant
            g.wf(),
            m == g@,
            m.wf(),
            vs@ == m.alive_list(),
            forall|q: int| 0 <= q < vs.len() ==> m.is_alive(#[trigger] vs[q]),
            i <= vs.len(),
            forall|q: int| 0 <= q < i ==> !(m.nbrs(#[trigger] vs[q]).len() <= lb && almost_simplicial(m, vs[q])),
        decreases vs.len() - i,
    {
        if g.degree(vs[i]) <= lb && g.is_almost_simplicial(vs[i]) {
            return Some(vs[i]);
        }
        i += 1;
    }
    proof {
        let p = |i: usize| (i as int) < m.alive.len() && m.alive[i as int];
        assert forall|v: usize| #[trigger] m.is_alive(v) implies !(m.nbrs(v).len() <= lb && almost_simplicial(m, v)) by {
            lemma_idx_filter_contains(p, m.alive.len(), v);
            let q = choose|q: int| 0 <= q < vs.len() && vs@[q] == v;
        }
    }
    None
}

/// A search state: `m` is `orig` with the vertices of `path` (distinct,
/// alive in `orig`) eliminated; vertices and fill room are those of `orig`.
pub open spec fn state_ok(orig: GraphModel, m: GraphModel, path: Seq<usize>) -> bool {
    &&& m.wf()
    &&& m.nodes == orig.nodes
    &&& m.fill_room() == orig.fill_room()
    &&& path.no_duplicates()
    &&& forall|k: int| 0 <= k < path.len() ==> orig.is_alive(#[trigger] path[k]) && !m.is_alive(path[k])
    &&& forall|u: usize| #[trigger] m.is_alive(u) ==> orig.is_alive(u)
    &&& path.len() + m.alive_count() == orig.alive_count()
}

/// Eliminating an alive vertex `v` and appending it to the path keeps a
/// search state.
proof fn lemma_state_step(orig: GraphModel, m: GraphModel, m2: GraphModel, path: Seq<usize>, v: usize)
    requires
        state_ok(orig, m, path),
        m.is_alive(v),
        m2.wf(),
        m2.nodes == m.nodes,
        m2.fill_room() == m.fill_room(),
        m2.alive == m.alive.update(v as int, false),
    ensures
        state_ok(orig, m2, path.push(v)),
{
    lemma_kill_count(m, m2, v);
    let p2 = path.push(v);
    assert forall|i: int, j: int| 0 <= i < j < p2.len() implies p2[i] != p2[j] by {
        if j == path.len() {
            assert(!m.is_alive(path[i]));
        }
    }
    assert forall|u: usize| #[trigger] m2.is_alive(u) implies orig.is_alive(u) by {
        assert(m.is_alive(u));
    }
}

/// With no simplicial alive vertex, the alive count is not one.
proof fn lemma_not_one(m: GraphModel)
    requires
        m.wf(),
        forall|v: usize| #[trigger] m.is_alive(v) ==> !m.is_clique(m.nbrs(v)),
    ensures
        m.alive_count() != 1,
{
    if m.alive_count() == 1 {
        crate::bitset::lemma_ones_of_count(m.alive);
        lemma_idx_filter(|i: usize| (i as int) < m.alive.len() && m.alive[i as int], m.alive.len());
        let v = m.alive_list()[0];
        assert(m.is_alive(v));
        assert forall|u: usize| u < m.nodes.len() implies !#[trigger] m.nbr_pred(v)(u) by {
            if m.nbr_pred(v)(u) {
                assert(m.is_alive(u));
                lemma_idx_filter_contains(|i: usize| (i as int) < m.alive.len() && m.alive[i as int], m.alive.len(), u);
                let q = choose|q: int| 0 <= q < m.alive_list().len() && m.alive_list()[q] == u;
                assert(q == 0);
            }
        }
        crate::seqs::lemma_idx_filter_ext(m.nbr_pred(v), |u: usize| false, m.nodes.len());
        crate::graph::lemma_idx_filter_empty(m.nodes.len());
        assert(m.nbrs(v).len() == 0);
        assert(m.is_clique(m.nbrs(v)));
    }
}

/// The common neighbours of `a` and `b` other than themselves, counted
/// from `a`'s side.
pub open spec fn common_count(m: GraphModel, a: usize, b: usize) -> nat {
    crate::seqs::count_if(m.nbrs(a), shares_with(m, b))
}

/// `x` is a neighbour of `b` other than `b`.
pub open spec fn shares_with(m: GraphModel, b: usize) -> spec_fn(usize) -> bool {
    |x: usize| x != b && m.adj(x, b)
}

proof fn lemma_common_count(m: GraphModel, a: usize, b: usize, p: spec_fn(usize) -> bool)
    requires
        forall|x: usize| #[trigger] p(x) == (x != b && m.adj(x, b)),
    ensures
        common_count(m, a, b) == crate::seqs::count_if(m.nbrs(a), p),
{
    assert(p =~= shares_with(m, b));
}

/// `a < b` are alive, not adjacent, and share more than `ub` common
/// neighbours: the edge rule would join them.
pub open spec fn fill_pair(m: GraphModel, ub: usize, a: usize, b: usize) -> bool {
    &&& a < b
    &&& m.is_alive(a)
    &&& m.is_alive(b)
    &&& !m.adj(a, b)
    &&& common_count(m, a, b) > ub
}

/// No pair is left for the edge rule.
pub open spec fn fill_fixed(m: GraphModel, ub: usize) -> bool {
    forall|a: usize, b: usize| !#[trigger] fill_pair(m, ub, a, b)
}

/// Connect every pair of non-adjacent alive vertices sharing more than
/// `ub` common neighbours, repeatedly until none remains (Theorem 5.4).
/// Returns whether an edge was added. The result is a fixpoint of the
/// rule; an edge is added exactly when the input is not one, and only
/// edges are added.
fn add_edges(g: &mut Graph, ub: usize) -> (added: bool)
    requires
        old(g).wf(),
        old(g)@.fill_room() < index_limit(),
        ub < usize::MAX,
    ensures
        final(g).wf(),
        final(g)@.nodes == old(g)@.nodes,
        final(g)@.alive == old(g)@.alive,
        final(g)@.fill_room() == old(g)@.fill_room(),
        !added ==> final(g)@ == old(g)@,
        added ==> final(g)@.pair_count() > old(g)@.pair_count(),
        added == !fill_fixed(old(g)@, ub),
        fill_fixed(final(g)@, ub),
        forall|x: usize, y: usize| #[trigger] old(g)@.adj(x, y) ==> final(g)@.adj(x, y),
{
    let ghost m0 = g@;
    let mut added = false;
    proof {
        g.lemma_wf();
        crate::graph::lemma_pair_count_bound(g@);
    }
    loop
        invariant
            g.wf(),
            g@.wf(),
            g@.nodes == m0.nodes,
            g@.alive == m0.alive,
            g@.fill_room() == m0.fill_room(),
            m0.fill_room() < index_limit(),
            ub < usize::MAX,
            !added ==> g@ == m0,
            added ==> g@.pair_count() > m0.pair_count(),
            added ==> !fill_fixed(m0, ub),
            g@.pair_count() <= g@.nodes.len() * g@.nodes.len(),
            forall|x: usize, y: usize| #[trigger] m0.adj(x, y) ==> g@.adj(x, y),
        ensures
            g.wf(),
            g@.nodes == m0.nodes,
            g@.alive == m0.alive,
            g@.fill_room() == m0.fill_room(),
            !added ==> g@ == m0,
            added ==> g@.pair_count() > m0.pair_count(),
            added ==> !fill_fixed(m0, ub),
            fill_fixed(g@, ub),
            forall|x: usize, y: usize| #[trigger] m0.adj(x, y) ==> g@.adj(x, y),
        decreases g@.nodes.len() * g@.nodes.len() - g@.pair_count(),
    {
        let ghost pc0 = g@.pair_count();
        let ghost g0 = g@;
        let mut changed = false;
        assert(pc0 >= m0.pair_count());
        let vs = g.alive_vertices();
        proof {
            lemma_idx_filter(|i: usize| (i as int) < g@.alive.len() && g@.alive[i as int], g@.alive.len());
        }
        let mut i: usize = 0;
        while i < vs.len()
            invariant
                g.wf(),
                g@.wf(),
                g@.nodes == m0.nodes,
                g@.alive == m0.alive,
                g@.fill_room() == m0.fill_room(),
                m0.fill_room() < index_limit(),
                ub < usize::MAX,
                crate::seqs::strictly_increasing(vs@),
                vs@ == m0.alive_list(),
                forall|q: int| 0 <= q < vs.len() ==> #[trigger] vs[q] < g@.nodes.len(),
                !changed ==> g@ == g0,
                changed ==> g@.pair_count() > pc0 && added,
                g0.pair_count() == pc0,
                !added ==> g@ == m0,
                added ==> g@.pair_count() > m0.pair_count(),
                added ==> !fill_fixed(m0, ub),
                pc0 >= m0.pair_count(),
                g@.pair_count() <= g@.nodes.len() * g@.nodes.len(),
                forall|x: usize, y: usize| #[trigger] m0.adj(x, y) ==> g@.adj(x, y),
                !changed ==> forall|p: int, q: int| 0 <= p < i && p < q < vs.len() ==> !#[trigger] fill_pair(g0, ub, vs[p], vs[q]),
                i <= vs.len(),
            decreases vs.len() - i,
        {
            let mut j: usize = i + 1;
            while j < vs.len()
                invariant
                    g.wf(),
                    g@.wf(),
                    g@.nodes == m0.nodes,
                    g@.alive == m0.alive,
                    g@.fill_room() == m0.fill_room(),
                    m0.fill_room() < index_limit(),
                    ub < usize::MAX,
                    crate::seqs::strictly_increasing(vs@),
                    vs@ == m0.alive_list(),
                vs@ == m0.alive_list(),
                    forall|q: int| 0 <= q < vs.len() ==> #[trigger] vs[q] < g@.nodes.len(),
                    !changed ==> g@ == g0,
                    changed ==> g@.pair_count() > pc0 && added,
                    g0.pair_count() == pc0,
                    !added ==> g@ == m0,
                    added ==> g@.pair_count() > m0.pair_count(),
                    added ==> !fill_fixed(m0, ub),
                    pc0 >= m0.pair_count(),
                    g@.pair_count() <= g@.nodes.len() * g@.nodes.len(),
                    forall|x: usize, y: usize| #[trigger] m0.adj(x, y) ==> g@.adj(x, y),
                    !changed ==> forall|p: int, q: int| 0 <= p < i && p < q < vs.len() ==> !#[trigger] fill_pair(g0, ub, vs[p], vs[q]),
                    !changed ==> forall|q: int| i < q < j ==> !#[trigger] fill_pair(g0, ub, vs[i as int], vs[q]),
                    i < vs.len(),
                    i + 1 <= j <= vs.len(),
                decreases vs.len() - j,
            {
                let a = vs[i];
                let b = vs[j];
                let ghost gj = g@;
                proof {
                    assert(vs@.contains(a) && vs@.contains(b));
                    lemma_idx_filter_contains(|i: usize| (i as int) < m0.alive.len() && m0.alive[i as int], m0.alive.len(), a);
                    lemma_idx_filter_contains(|i: usize| (i as int) < m0.alive.len() && m0.alive[i as int], m0.alive.len(), b);
                    assert(a < b);
                }
                let e = g.has_edge(a, b);
                let mut c: usize = 0;
                if !e {
                    c = g.common_neighbors(a, b);
                    proof {
                        let f1 = |x: usize| x != b && gj.adj(x, b);
                        let f2 = |x: usize| x != b && g@.adj(x, b);
                        assert(c == crate::seqs::count_if(g@.nbrs(a), f2));
                        lemma_common_count(gj, a, b, f1);
                        assert(c == common_count(gj, a, b));
                    }
                }
                proof {
                    if !changed && (e || c < ub + 1) {
                        assert(!fill_pair(g0, ub, a, b));
                    }
                }
                if !e {
                    if c >= ub + 1 {
                        let ghost before = g@;
                        proof {
                            if !added {
                                assert(gj == m0);
                                assert(m0.is_alive(a));
                                assert(m0.is_alive(b));
                                assert(!m0.adj(a, b));
                                assert(common_count(m0, a, b) > ub);
                                assert(fill_pair(m0, ub, a, b));
                            }
                        }
                        g.ensure_edge(a, b);
                        proof {
                            assert forall|x: usize, y: usize| #[trigger] m0.adj(x, y) implies g@.adj(x, y) by {
                                assert(before.adj(x, y));
                            }
                            g.lemma_wf();
                            crate::graph::lemma_pair_count_flip(before, g@, a, b);
                            crate::graph::lemma_pair_count_bound(g@);
                        }
                        added = true;
                        changed = true;
                    }
                }
                j += 1;
            }
            i += 1;
        }
        if !changed {
            proof {
                assert forall|a: usize, b: usize| !#[trigger] fill_pair(g@, ub, a, b) by {
                    if fill_pair(g@, ub, a, b) {
                        lemma_idx_filter_contains(|i: usize| (i as int) < g0.alive.len() && g0.alive[i as int], g0.alive.len(), a);
                        lemma_idx_filter_contains(|i: usize| (i as int) < g0.alive.len() && g0.alive[i as int], g0.alive.len(), b);
                        let p = choose|p: int| 0 <= p < vs.len() && vs@[p] == a;
                        let q = choose|q: int| 0 <= q < vs.len() && vs@[q] == b;
                        if q <= p {
                            assert(vs@[q] <= vs@[p]);
                        }
                        assert(!fill_pair(g0, ub, vs[p], vs[q]));
                    }
                }
            }
            break;
        }
    }
    added
}

/// Eliminate simplicial vertices, and almost-simplicial vertices whose
/// degree is at most a fresh minor-min-width bound, until none remain
/// (§5.1); each eliminated vertex is appended to `path` and `g_val` keeps
/// the largest degree at elimination.
fn reduce(g: &mut Graph, g_val: &mut usize, path: &mut Vec<usize>, Ghost(orig): Ghost<GraphModel>)
    requires
        state_ok(orig, old(g)@, old(path)@),
        old(g).wf(),
        orig.wf(),
        orig.fill_room() < index_limit(),
        *old(g_val) <= orig.nodes.len(),
        covers(orig, old(g)@, old(path)@),
        game_width(orig, old(path)@) <= *old(g_val),
    ensures
        final(g).wf(),
        state_ok(orig, final(g)@, final(path)@),
        covers(orig, final(g)@, final(path)@),
        game_width(orig, final(path)@) <= *final(g_val),
        *final(g_val) <= orig.nodes.len(),
        *final(g_val) >= *old(g_val),
        final(g)@.alive_count() <= old(g)@.alive_count(),
        final(g)@.alive_count() == old(g)@.alive_count() ==> final(g)@ == old(g)@ && final(path)@ == old(path)@
            && *final(g_val) == *old(g_val),
        final(path)@.subrange(0, old(path)@.len() as int) == old(path)@,
        forall|v: usize| #[trigger] final(g)@.is_alive(v) ==> !final(g)@.is_clique(final(g)@.nbrs(v)),
{
    let mut lb: Option<usize> = None;
    loop
        invariant
            g.wf(),
            state_ok(orig, g@, path@),
            orig.wf(),
            covers(orig, g@, path@),
            game_width(orig, path@) <= *g_val,
            orig.fill_room() < index_limit(),
            *g_val <= orig.nodes.len(),
            *g_val >= *old(g_val),
            g@.alive_count() <= old(g)@.alive_count(),
            g@.alive_count() == old(g)@.alive_count() ==> g@ == old(g)@ && path@ == old(path)@ && *g_val == *old(g_val),
            path@.subrange(0, old(path)@.len() as int) == old(path)@,
            path@.len() >= old(path)@.len(),
        ensures
            g.wf(),
            state_ok(orig, g@, path@),
            covers(orig, g@, path@),
            game_width(orig, path@) <= *g_val,
            *g_val <= orig.nodes.len(),
            *g_val >= *old(g_val),
            g@.alive_count() <= old(g)@.alive_count(),
            g@.alive_count() == old(g)@.alive_count() ==> g@ == old(g)@ && path@ == old(path)@ && *g_val == *old(g_val),
            path@.subrange(0, old(path)@.len() as int) == old(path)@,
            forall|v: usize| #[trigger] g@.is_alive(v) ==> !g@.is_clique(g@.nbrs(v)),
        decreases g@.alive_count(),
    {
        let ghost before = g@;
        let ghost pbefore = path@;
        let pick = match find_simplicial(g) {
            Some(v) => Some(v),
            None => {
                let l = match lb {
                    Some(l) => l,
                    None => {
                        let l = minor_min_width(g);
                        lb = Some(l);
                        l
                    },
                };
                match find_almost_simplicial(g, l) {
                    Some(v) => Some(v),
                    None => {
                        break;
                    },
                }
            },
        };
        let v = pick.unwrap();
        proof {
            g.lemma_wf();
            crate::seqs::lemma_idx_filter(before.nbr_pred(v), before.nodes.len());
        }
        let d = g.elim(v);
        proof {
            g.lemma_wf();
            lemma_state_step(orig, before, g@, path@, v);
            lemma_kill_count(before, g@, v);
            lemma_covers_elim(orig, before, g@, path@, v);
        }
        if d > *g_val {
            *g_val = d;
        }
        path.push(v);
        lb = None;
        proof {
            assert(path@.subrange(0, old(path)@.len() as int) =~= pbefore.subrange(0, old(path)@.len() as int));
        }
    }
}

/// Reduce and add edges alternately until neither changes the graph.
fn reduce_and_add_edges(g: &mut Graph, g_val: &mut usize, path: &mut Vec<usize>, ub: usize, Ghost(orig): Ghost<GraphModel>)
    requires
        state_ok(orig, old(g)@, old(path)@),
        old(g).wf(),
        orig.wf(),
        orig.fill_room() < index_limit(),
        *old(g_val) <= orig.nodes.len(),
        ub < usize::MAX,
        covers(orig, old(g)@, old(path)@),
        game_width(orig, old(path)@) <= *old(g_val),
    ensures
        final(g).wf(),
        state_ok(orig, final(g)@, final(path)@),
        covers(orig, final(g)@, final(path)@),
        game_width(orig, final(path)@) <= *final(g_val),
        *final(g_val) <= orig.nodes.len(),
        final(g)@.alive_count() <= old(g)@.alive_count(),
        final(path)@.subrange(0, old(path)@.len() as int) == old(path)@,
        final(path)@.len() >= old(path)@.len(),
        forall|v: usize| #[trigger] final(g)@.is_alive(v) ==> !final(g)@.is_clique(final(g)@.nbrs(v)),
{
    proof {
        g.lemma_wf();
        crate::graph::lemma_pair_count_bound(g@);
    }
    loop
        invariant
            g.wf(),
            state_ok(orig, g@, path@),
            orig.wf(),
            covers(orig, g@, path@),
            game_width(orig, path@) <= *g_val,
            orig.fill_room() < index_limit(),
            *g_val <= orig.nodes.len(),
            ub < usize::MAX,
            g@.alive_count() <= old(g)@.alive_count(),
            path@.subrange(0, old(path)@.len() as int) == old(path)@,
            path@.len() >= old(path)@.len(),
            g@.pair_count() <= g@.nodes.len() * g@.nodes.len(),
        ensures
            g.wf(),
            state_ok(orig, g@, path@),
            covers(orig, g@, path@),
            game_width(orig, path@) <= *g_val,
            *g_val <= orig.nodes.len(),
            g@.alive_count() <= old(g)@.alive_count(),
            path@.subrange(0, old(path)@.len() as int) == old(path)@,
            path@.len() >= old(path)@.len(),
            forall|v: usize| #[trigger] g@.is_alive(v) ==> !g@.is_clique(g@.nbrs(v)),
        decreases g@.alive_count(), g@.nodes.len() * g@.nodes.len() - g@.pair_count(),
    {
        let ghost p0 = path@;
        reduce(g, g_val, path, Ghost(orig));
        proof {
            assert(path@.subrange(0, old(path)@.len() as int) =~= p0.subrange(0, old(path)@.len() as int)) by {
                assert(path@.subrange(0, p0.len() as int) == p0);
            }
            crate::graph::lemma_pair_count_bound(g@);
        }
        let ghost mid = g@;
        if !add_edges(g, ub) {
            break;
        }
        proof {
            g.lemma_wf();
            assert(g@.alive_count() == mid.alive_count());
            assert forall|u: usize| #[trigger] g@.is_alive(u) implies orig.is_alive(u) by {
                assert(mid.is_alive(u));
            }
            assert forall|k: int| 0 <= k < path@.len() implies orig.is_alive(#[trigger] path@[k]) && !g@.is_alive(path@[k]) by {
                assert(!mid.is_alive(path@[k]));
            }
            assert(state_ok(orig, g@, path@));
            lemma_covers_grow(orig, mid, g@, path@);
            crate::graph::lemma_pair_count_bound(g@);
        }
    }
}

/// Entry `i` of `seen` has key `key`.
pub open spec fn seen_at(seen: Seq<(GraphKey, usize)>, i: int, key: &GraphKey) -> bool {
    seen[i].0.0@ == key.0@ && seen[i].0.1@ == key.1@
}

/// The index of the first entry of `seen` with key `key`, if any.
fn find_seen(seen: &Vec<(GraphKey, usize)>, key: &GraphKey) -> (r: Option<usize>)
    ensures
        r matches Some(j) ==> j < seen.len() && seen_at(seen@, j as int, key),
        r matches Some(j) ==> forall|i: int| 0 <= i < j ==> !#[trigger] seen_at(seen@, i, key),
        r is None ==> forall|i: int| 0 <= i < seen.len() ==> !#[trigger] seen_at(seen@, i, key),
{
    let mut j: usize = 0;
    while j < seen.len()
        invariant
            j <= seen.len(),
            forall|i: int| 0 <= i < j ==> !#[trigger] seen_at(seen@, i, key),
        decreases seen.len() - j,
    {
        if usizes_eq(&seen[j].0.0, &key.0) && pairs_eq(&seen[j].0.1, &key.1) {
            return Some(j);
        }
        j += 1;
    }
    None
}

/// Result of the QuickBB treewidth search.
#[derive(Clone, Debug, PartialEq, Eq)]
pub struct BbResult {
    /// The width found (the treewidth, when the search completes).
    pub treewidth: usize,
    /// An elimination ordering of that width; `order[0]` goes first.
    pub order: Vec<usize>,
    /// Whether the search proved optimality (the complete search always
    /// does).
    pub optimal: bool,
}

/// The key views of entry `i` of `seen`.
pub open spec fn key_at(seen: Seq<(GraphKey, usize)>, i: int) -> (Seq<usize>, Seq<(usize, usize)>) {
    (seen[i].0.0@, seen[i].0.1@)
}

/// `new` keeps every entry of `old` under the same key, with a value no
/// larger, and may append entries.
pub open spec fn seen_grows(old: Seq<(GraphKey, usize)>, new: Seq<(GraphKey, usize)>) -> bool {
    &&& new.len() >= old.len()
    &&& forall|i: int| 0 <= i < old.len() ==> #[trigger] key_at(new, i) == key_at(old, i) && new[i].1 <= old[i].1
}

/// Some entry of `seen` holds the key of `m` with a value at most `v`.
pub open spec fn seen_within(seen: Seq<(GraphKey, usize)>, m: GraphModel, v: usize) -> bool {
    exists|j: int| 0 <= j < seen.len() && #[trigger] is_key_of(m, key_at(seen, j)) && seen[j].1 <= v
}

proof fn lemma_seen_grows_trans(a: Seq<(GraphKey, usize)>, b: Seq<(GraphKey, usize)>, c: Seq<(GraphKey, usize)>)
    requires
        seen_grows(a, b),
        seen_grows(b, c),
    ensures
        seen_grows(a, c),
{
    assert forall|i: int| 0 <= i < a.len() implies #[trigger] key_at(c, i) == key_at(a, i) && c[i].1 <= a[i].1 by {
        assert(key_at(c, i) == key_at(b, i));
        assert(key_at(b, i) == key_at(a, i));
    }
}

/// The branch-and-bound search from state `g` (with partial ordering
/// `path` of width `g_val`), improving the incumbent `best`.
fn bb_helper(
    g0: Graph,
    original: &Graph,
    g_val: usize,
    path: &mut Vec<usize>,
    best: &mut (usize, Vec<usize>),
    seen: &mut Vec<(GraphKey, usize)>,
)
    requires
        original.wf(),
        g0.wf(),
        state_ok(original@, g0@, old(path)@),
        original@.fill_room() < index_limit(),
        g_val <= original@.nodes.len(),
        old(best).0 <= original@.nodes.len(),
        is_alive_permutation(original@, old(best).1@),
        covers(original@, g0@, old(path)@),
        game_width(original@, old(path)@) <= g_val,
        game_width(original@, old(best).1@) <= old(best).0,
    ensures
        final(path)@ == old(path)@,
        final(best).0 <= old(best).0,
        final(best).0 == old(best).0 ==> final(best).1@ == old(best).1@,
        final(best).0 < old(best).0 ==> final(best).1@.len() >= old(path)@.len()
            && final(best).1@.subrange(0, old(path)@.len() as int) == old(path)@,
        is_alive_permutation(original@, final(best).1@),
        game_width(original@, final(best).1@) <= final(best).0,
        seen_grows(old(seen)@, final(seen)@),
        seen_within(final(seen)@, g0@, g_val),
    decreases g0@.alive_count(),
{
    let ghost entry = g0@.alive_count();
    let ghost m_in = g0@;
    let key = graph_key(&g0);
    let ghost j0: int;
    match find_seen(seen, &key) {
        Some(j) => {
            if seen[j].1 <= g_val {
                proof {
                    assert(key_at(seen@, j as int) == (key.0@, key.1@));
                    assert(is_key_of(m_in, key_at(seen@, j as int)));
                }
                return;
            }
            seen.set(j, (key, g_val));
            proof {
                j0 = j as int;
                assert forall|i: int| 0 <= i < old(seen)@.len() implies #[trigger] key_at(seen@, i) == key_at(old(seen)@, i)
                    && seen@[i].1 <= old(seen)@[i].1 by {
                    if i != j {
                        assert(seen@[i] == old(seen)@[i]);
                    }
                }
            }
        },
        None => {
            seen.push((key, g_val));
            proof {
                j0 = old(seen)@.len() as int;
                assert forall|i: int| 0 <= i < old(seen)@.len() implies #[trigger] key_at(seen@, i) == key_at(old(seen)@, i)
                    && seen@[i].1 <= old(seen)@[i].1 by {
                    assert(seen@[i] == old(seen)@[i]);
                }
            }
        },
    }
    proof {
        assert(seen_grows(old(seen)@, seen@));
        assert(0 <= j0 < seen@.len() && is_key_of(m_in, key_at(seen@, j0)) && seen@[j0].1 <= g_val);
    }
    let len0 = path.len();
    let mut g = g0;
    let mut gv = g_val;
    proof {
        original.lemma_wf();
    }
    reduce_and_add_edges(&mut g, &mut gv, path, best.0, Ghost(original@));
    let ghost pr = path@;
    proof {
        g.lemma_wf();
        lemma_not_one(g@);
    }
    if g.alive_count() < 2 {
        if gv < best.0 {
            best.0 = gv;
            let cp = path.clone();
            proof {
                assert(cp@ =~= path@);
            }
            best.1 = cp;
        }
        path.truncate(len0);
        proof {
            assert(path@ =~= old(path)@);
        }
        return;
    }
    let last = if path.len() > 0 {
        Some(path[path.len() - 1])
    } else {
        None
    };
    let cands0 = branch_candidates(&g, original, last);
    proof {
        let all = g@.alive_list();
        lemma_idx_filter(|i: usize| (i as int) < g@.alive.len() && g@.alive[i as int], g@.alive.len());
        match last {
            Some(vs) => {
                crate::seqs::lemma_filter_subset(all, |v: usize| !original@.adj(vs, v));
            },
            None => {},
        }
        assert forall|q: int| 0 <= q < cands0.len() implies g@.is_alive(#[trigger] cands0[q]) by {
            match last {
                Some(vs) => {
                    let nn = all.filter(|v: usize| !original@.adj(vs, v));
                    if nn.len() != 0 {
                        assert(all.contains(nn[q]));
                    }
                },
                None => {},
            }
        }
    }
    let cands = prune_dominated(&g, cands0);
    proof {
        if cands0.len() >= 2 {
            let fills = Seq::new(cands0.len() as nat, |i: int| g@.missing_pairs(g@.nbrs(cands0[i])));
            let p = |i: usize| (i as int) < cands0.len() && !dominated(fills, i as int);
            lemma_idx_filter(p, cands0.len() as nat);
        }
        assert forall|q: int| 0 <= q < cands.len() implies g@.is_alive(#[trigger] cands[q]) by {
            if cands0.len() >= 2 {
                let fills = Seq::new(cands0.len() as nat, |i: int| g@.missing_pairs(g@.nbrs(cands0[i])));
                let p = |i: usize| (i as int) < cands0.len() && !dominated(fills, i as int);
                let kept = idx_filter(p, cands0.len() as nat);
                assert(cands[q] == cands0[kept[q] as int]);
            }
        }
    }
    let mut t: usize = 0;
    while t < cands.len()
        invariant
            original.wf(),
            original@.wf(),
            g.wf(),
            state_ok(original@, g@, path@),
            original@.fill_room() < index_limit(),
            gv <= original@.nodes.len(),
            best.0 <= original@.nodes.len(),
            best.0 <= old(best).0,
            is_alive_permutation(original@, best.1@),
            game_width(original@, best.1@) <= best.0,
            path@ == pr,
            covers(original@, g@, pr),
            game_width(original@, pr) <= gv,
            forall|q: int| 0 <= q < cands.len() ==> g@.is_alive(#[trigger] cands[q]),
            g@.alive_count() <= entry,
            entry == g0@.alive_count(),
            len0 == old(path)@.len(),
            path@.len() >= len0,
            path@.subrange(0, len0 as int) == old(path)@,
            t <= cands.len(),
            seen_grows(old(seen)@, seen@),
            0 <= j0 < seen@.len(),
            is_key_of(m_in, key_at(seen@, j0)),
            seen@[j0].1 <= g_val,
            best.0 == old(best).0 ==> best.1@ == old(best).1@,
            best.0 < old(best).0 ==> best.1@.len() >= len0 && best.1@.subrange(0, len0 as int) == old(path)@,
        decreases cands.len() - t,
    {
        let v = cands[t];
        t += 1;
        let d = g.degree(v);
        proof {
            g.lemma_wf();
            lemma_idx_filter(g@.nbr_pred(v), g@.nodes.len());
        }
        let g_child = if d > gv {
            d
        } else {
            gv
        };
        let mut gc = g.clone();
        gc.elim(v);
        proof {
            gc.lemma_wf();
            lemma_state_step(original@, g@, gc@, path@, v);
            lemma_kill_count(g@, gc@, v);
            lemma_covers_elim(original@, g@, gc@, path@, v);
        }
        let h = minor_min_width(&gc);
        let f = if h > g_child {
            h
        } else {
            g_child
        };
        if f < best.0 {
            assert(gc@.alive_count() < entry);
            let ghost pb = path@;
            let ghost sb = seen@;
            let ghost bb0 = best.0;
            let ghost bb1 = best.1@;
            path.push(v);
            let ghost pv = path@;
            bb_helper(gc, original, g_child, path, best, seen);
            path.pop();
            proof {
                assert(path@ =~= pb);
                lemma_seen_grows_trans(old(seen)@, sb, seen@);
                assert(key_at(seen@, j0) == key_at(sb, j0));
                if best.0 < bb0 {
                    assert(best.1@.subrange(0, pv.len() as int) == pv);
                    assert(best.1@.subrange(0, len0 as int) =~= pv.subrange(0, len0 as int));
                    assert(pv.subrange(0, len0 as int) =~= pb.subrange(0, len0 as int));
                }
            }
        }
    }
    path.truncate(len0);
    proof {
        assert(path@ =~= old(path)@);
    }
}

/// The treewidth of `g` and an elimination ordering of that width, by the
/// QuickBB search (short-cut when the min-fill and minor-min-width bounds
/// meet). The ordering eliminates every alive vertex once, its width in
/// the elimination game on `g` is at most the returned width, and that
/// width is at most the min-fill bound.
pub fn bb(g: &Graph) -> (r: BbResult)
    requires
        g.wf(),
        g@.fill_room() < index_limit(),
    ensures
        r.optimal,
        is_alive_permutation(g@, r.order@),
        g@.alive_count() < 2 ==> r.treewidth == 0,
        exists|states: Seq<GraphModel>, order: Seq<usize>, ub: nat|
            #![trigger min_fill_run(states, order, ub)]
            states[0] == g@ && min_fill_run(states, order, ub) && r.treewidth <= ub,
        game_width(g@, r.order@) <= r.treewidth,
{
    proof {
        g.lemma_wf();
    }
    let (ub, ub_order) = min_fill(g);
    proof {
        let states = choose|states: Seq<GraphModel>| #[trigger] states[0] == g@ && min_fill_run(states, ub_order@, ub as nat);
        lemma_min_fill_game(g@, states, ub_order@, ub as nat);
    }
    if g.alive_count() < 2 {
        let order = g.alive_vertices();
        proof {
            crate::bitset::lemma_ones_of_count(g@.alive);
            lemma_idx_filter(|i: usize| (i as int) < g@.alive.len() && g@.alive[i as int], g@.alive.len());
            assert forall|i: int, j: int| 0 <= i < j < order.len() implies order@[i] != order@[j] by {
                assert(order@[i] < order@[j]);
            }
            lemma_single_width(g@, order@);
        }
        return BbResult { treewidth: 0, order, optimal: true };
    }
    let lb = minor_min_width(g);
    if lb == ub {
        return BbResult { treewidth: ub, order: ub_order, optimal: true };
    }
    proof {
        let states = choose|states: Seq<GraphModel>| #[trigger] states[0] == g@ && min_fill_run(states, ub_order@, ub as nat);
        lemma_run_width_bound(states, ub_order@, ub_order.len() as int);
        lemma_covers_start(g@);
    }
    let mut best: (usize, Vec<usize>) = (ub, ub_order);
    let mut path: Vec<usize> = Vec::new();
    let mut seen: Vec<(GraphKey, usize)> = Vec::new();
    let work = g.clone();
    proof {
        assert(state_ok(g@, work@, path@)) by {
            assert(path@.no_duplicates());
        }
    }
    bb_helper(work, g, 0, &mut path, &mut best, &mut seen);
    BbResult { treewidth: best.0, order: best.1, optimal: true }
}

/// Eliminating the only vertices of a graph with at most one alive vertex
/// costs nothing.
proof fn lemma_single_width(m: GraphModel, order: Seq<usize>)
    requires
        m.wf(),
        order == m.alive_list(),
        order.len() <= 1,
        forall|u: usize| m.is_alive(u) ==> order.contains(u),
    ensures
        game_width(m, order) == 0,
{
    if order.len() == 1 {
        let v = order[0];
        let e = Seq::<usize>::empty();
        assert(order.drop_last() =~= e);
        let al = crate::algorithm::elimination::game_alive(m, e);
        let adj = crate::algorithm::elimination::game_adj(m, e);
        assert forall|u: usize| u < al.len() implies #[trigger] crate::algorithm::elimination::game_nbr_pred(adj, al, v)(u) == (
        |x: usize| false)(u) by {
            if crate::algorithm::elimination::game_nbr_pred(adj, al, v)(u) {
                assert(m.is_alive(u));
                assert(order.contains(u));
            }
        }
        crate::seqs::lemma_idx_filter_ext(crate::algorithm::elimination::game_nbr_pred(adj, al, v), |x: usize| false, al.len());
        crate::graph::lemma_idx_filter_empty(al.len());
        assert(crate::algorithm::elimination::game_deg(adj, al, v) == 0);
        assert(game_width(m, order.drop_last()) == 0);
        assert(order.last() == v);
        assert(game_width(m, order) == 0);
    }
}

/// The width of a min-fill run is at most the number of vertices.
proof fn lemma_run_width_bound(states: Seq<GraphModel>, order: Seq<usize>, k: int)
    requires
        0 <= k <= order.len(),
        states.len() == order.len() + 1,
        forall|i: int| 0 <= i < order.len() ==> #[trigger] crate::algorithm::minfill::elim_step(states[i], states[i + 1], order[i]),
        states[0].wf(),
    ensures
        run_width_le(states, order, k),
    decreases k,
{
    if k > 0 {
        lemma_run_width_bound(states, order, k - 1);
        lemma_nodes_stable(states, order, k - 1);
        lemma_idx_filter(states[k - 1].nbr_pred(order[k - 1]), states[k - 1].nodes.len());
    }
}

pub open spec fn run_width_le(states: Seq<GraphModel>, order: Seq<usize>, k: int) -> bool {
    crate::algorithm::minfill::run_width(states, order, k) <= states[0].nodes.len()
}

proof fn lemma_nodes_stable(states: Seq<GraphModel>, order: Seq<usize>, k: int)
    requires
        0 <= k <= order.len(),
        states.len() == order.len() + 1,
        forall|i: int| 0 <= i < order.len() ==> #[trigger] crate::algorithm::minfill::elim_step(states[i], states[i + 1], order[i]),
    ensures
        states[k].nodes == states[0].nodes,
    decreases k,
{
    if k > 0 {
        lemma_nodes_stable(states, order, k - 1);
        let i = k - 1;
        assert(crate::algorithm::minfill::elim_step(states[i], states[i + 1], order[i]));
    }
}

/// The treewidth found by [`bb`].
pub fn bb_tw(g: &Graph) -> (r: usize)
    requires
        g.wf(),
        g@.fill_room() < index_limit(),
    ensures
        g@.alive_count() < 2 ==> r == 0,
        exists|states: Seq<GraphModel>, order: Seq<usize>, ub: nat|
            #![trigger min_fill_run(states, order, ub)]
            states[0] == g@ && min_fill_run(states, order, ub) && r <= ub,
        exists|order: Seq<usize>| #[trigger] is_alive_permutation(g@, order) && game_width(g@, order) <= r,
{
    let res = bb(g);
    proof {
        assert(is_alive_permutation(g@, res.order@) && game_width(g@, res.order@) <= res.treewidth);
    }
    res.treewidth
}

} // verus!
