//! Tamaki's PID-BT algorithm for exact treewidth.
//!
//! Positive-instance driven dynamic programming (Tamaki, ESA 2017): it
//! decides `tw(G) <= k` by generating only the feasible I-blocks, O-blocks
//! and potential maximal cliques, built up by binary recurrences. Graphs are
//! held as adjacency bitsets; connected graphs are first split across safe
//! separators (clique separators and almost-clique minimal separators).

use vstd::prelude::*;

use crate::bitset::{
    fbs_bits, fbs_clone, fbs_contains, fbs_count_ones, fbs_difference_with, fbs_eq, fbs_insert,
    fbs_intersect_with, fbs_is_clear, fbs_is_disjoint, fbs_is_subset, fbs_is_superset, fbs_minimum,
    fbs_ones, fbs_set, fbs_union_with, fbs_with_capacity, ones_of,
};
use crate::graph::Graph;
use crate::petgraph_ext::index_limit;
use crate::seqs::{count_true, lemma_idx_filter, lemma_idx_filter_contains};

verus! {

/// Some member of `s` is adjacent (in `adj`) to `j`.
pub open spec fn touches(adj: Seq<Seq<bool>>, s: Seq<bool>, j: int) -> bool {
    exists|i: int| 0 <= i < s.len() && s[i] && #[trigger] adj[i][j]
}

/// The open neighbourhood of `s`: vertices outside `s` adjacent to some
/// member of `s`.
pub open spec fn nbhd(adj: Seq<Seq<bool>>, s: Seq<bool>) -> Seq<bool> {
    Seq::new(s.len(), |j: int| !s[j] && touches(adj, s, j))
}

/// `a` and `b` share no member.
pub open spec fn disjoint(a: Seq<bool>, b: Seq<bool>) -> bool {
    forall|i: int| 0 <= i < a.len() && i < b.len() ==> !(a[i] && b[i])
}

/// `s` has a member.
pub open spec fn nonempty(s: Seq<bool>) -> bool {
    exists|i: int| 0 <= i < s.len() && s[i]
}

/// `comps` are the connected components of `G - removed`: non-empty,
/// pairwise disjoint parts covering the vertices outside `removed`, each
/// connected in `G - removed` and closed under its edges (so no edge joins
/// two parts).
pub open spec fn is_split(adj: Seq<Seq<bool>>, removed: Seq<bool>, comps: Seq<Seq<bool>>) -> bool {
    let n = removed.len();
    &&& forall|c: int| 0 <= c < comps.len() ==> (#[trigger] comps[c]).len() == n && nonempty(comps[c])
    &&& forall|c: int, v: int| 0 <= c < comps.len() && 0 <= v < n && #[trigger] comps[c][v] ==> !removed[v]
    &&& forall|c: int, d: int| 0 <= c < d < comps.len() ==> disjoint(#[trigger] comps[c], #[trigger] comps[d])
    &&& forall|v: int| 0 <= v < n && !removed[v] ==> #[trigger] in_some(comps, v)
    &&& forall|c: int| 0 <= c < comps.len() ==> #[trigger] part_ok(adj, removed, comps[c])
}

/// `c` is closed under the edges of `G - removed` and connected: some
/// listing of its members reaches each one from an earlier one by an edge.
pub open spec fn part_ok(adj: Seq<Seq<bool>>, removed: Seq<bool>, c: Seq<bool>) -> bool {
    &&& forall|u: int, v: int|
        0 <= u < c.len() && 0 <= v < c.len() && c[u] && !removed[v] && #[trigger] adj[u][v] ==> #[trigger] c[v]
    &&& exists|ord: Seq<int>, par: Seq<int>| #[trigger] linked_by(adj, c, ord, par)
}

/// `ord` lists exactly the members of `c`, each after the first joined by
/// an edge from the earlier member `ord[par[k]]`.
pub open spec fn linked_by(adj: Seq<Seq<bool>>, c: Seq<bool>, ord: Seq<int>, par: Seq<int>) -> bool {
    &&& ord.len() >= 1
    &&& par.len() == ord.len()
    &&& forall|k: int| 0 <= k < ord.len() ==> 0 <= #[trigger] ord[k] < c.len() && c[ord[k]]
    &&& forall|v: int| 0 <= v < c.len() && c[v] ==> #[trigger] ord.contains(v)
    &&& forall|k: int| 1 <= k < ord.len() ==> 0 <= #[trigger] par[k] < k && adj[ord[par[k]]][ord[k]]
}

/// Some part of `comps` holds `v`.
pub open spec fn in_some(comps: Seq<Seq<bool>>, v: int) -> bool {
    exists|c: int| 0 <= c < comps.len() && #[trigger] comps[c][v]
}

/// An undirected graph on `0..n` as adjacency bitsets.
pub struct BGraph {
    n: usize,
    adj: Vec<fixedbitset::FixedBitSet>,
}

impl BGraph {
    /// The adjacency rows.
    pub closed spec fn rows(&self) -> Seq<Seq<bool>> {
        self.adj@.map_values(|b: fixedbitset::FixedBitSet| fbs_bits(b))
    }

    pub closed spec fn size(&self) -> nat {
        self.n as nat
    }

    /// One row of `n` bits per vertex, symmetric, no vertex adjacent to itself; `n`
    /// small enough for `n * n` to fit a `usize`.
    pub closed spec fn wf(&self) -> bool {
        &&& self.adj.len() == self.n
        &&& forall|v: int| 0 <= v < self.n ==> (#[trigger] fbs_bits(self.adj[v])).len() == self.n
        &&& forall|v: int| 0 <= v < self.n ==> !(#[trigger] fbs_bits(self.adj[v]))[v]
        &&& forall|u: int, v: int|
            0 <= u < self.n && 0 <= v < self.n ==> #[trigger] fbs_bits(self.adj[u])[v] == #[trigger] fbs_bits(self.adj[v])[u]
        &&& self.n < index_limit()
        &&& self.n * self.n <= usize::MAX
    }

    /// Build from a [`Graph`], relabelling the alive vertices densely to
    /// `0..n` in ascending order; `u` and `v` are adjacent when the graph
    /// has an alive edge between them (self-loops dropped).
    fn from_crate(g: &Graph) -> (r: BGraph)
        requires
            g.wf(),
        ensures
            r.wf(),
            r.size() == g@.alive_list().len(),
            forall|i: int, j: int|
                0 <= i < r.size() && 0 <= j < r.size() ==> #[trigger] r.rows()[i][j] == g@.is_nbr(
                    g@.alive_list()[i],
                    g@.alive_list()[j],
                ),
    {
        let ghost m = g@;
        proof {
            g.lemma_wf();
            lemma_idx_filter(|i: usize| (i as int) < m.alive.len() && m.alive[i as int], m.alive.len());
        }
        let alive = g.alive_vertices();
        let nn = g.node_count();
        let n = alive.len();
        let mut map: Vec<usize> = Vec::new();
        let mut i: usize = 0;
        while i < nn
            invariant
                i <= nn,
                map.len() == i,
            decreases nn - i,
        {
            map.push(usize::MAX);
            i += 1;
        }
        let mut k: usize = 0;
        while k < n
            invariant
                m == g@,
                m.wf(),
                alive@ == m.alive_list(),
                n == alive.len(),
                nn == m.nodes.len(),
                map.len() == nn,
                k <= n,
                crate::seqs::strictly_increasing(alive@),
                forall|t: int| 0 <= t < n ==> #[trigger] alive[t] < nn,
                forall|t: int| 0 <= t < k ==> #[trigger] map[alive[t] as int] == t,
            decreases n - k,
        {
            map.set(alive[k], k);
            proof {
                assert forall|t: int| 0 <= t < k + 1 implies #[trigger] map[alive[t] as int] == t by {
                    if t < k {
                        assert(alive[t] < alive[k as int]);
                    }
                }
            }
            k += 1;
        }
        proof {
            assert(n <= nn) by {
                crate::bitset::lemma_ones_of_count(m.alive);
                crate::seqs::lemma_count_true_le(m.alive);
            }
            assert(n * n <= nn * nn) by (nonlinear_arith)
                requires
                    n <= nn,
            ;
        }
        let mut adj: Vec<fixedbitset::FixedBitSet> = Vec::new();
        let mut v: usize = 0;
        while v < n
            invariant
                m == g@,
                g.wf(),
                m.wf(),
                alive@ == m.alive_list(),
                n == alive.len(),
                n <= nn,
                nn == m.nodes.len(),
                map.len() == nn,
                crate::seqs::strictly_increasing(alive@),
                forall|t: int| 0 <= t < n ==> #[trigger] alive[t] < nn,
                forall|t: int| 0 <= t < n ==> #[trigger] map[alive[t] as int] == t,
                v <= n,
                adj.len() == v,
                forall|a: int| 0 <= a < v ==> (#[trigger] fbs_bits(adj[a])).len() == n,
                forall|a: int, b: int|
                    0 <= a < v && 0 <= b < n ==> #[trigger] fbs_bits(adj[a])[b] == m.is_nbr(alive[a], alive[b]),
            decreases n - v,
        {
            let nbs = g.alive_neighbors(alive[v]);
            let mut row = fbs_with_capacity(n);
            let mut t: usize = 0;
            proof {
                lemma_idx_filter(m.nbr_pred(alive[v as int]), m.nodes.len());
            }
            while t < nbs.len()
                invariant
                    m == g@,
                    g.wf(),
                    m.wf(),
                    nbs@ == m.nbrs(alive[v as int]),
                    crate::seqs::strictly_increasing(nbs@),
                    forall|q: int| 0 <= q < nbs.len() ==> #[trigger] nbs[q] < nn,
                    forall|q: int| 0 <= q < nbs.len() ==> m.is_nbr(alive[v as int], #[trigger] nbs[q]),
                    alive@ == m.alive_list(),
                    n == alive.len(),
                    map.len() == nn,
                    v < n,
                    forall|q: int| 0 <= q < n ==> #[trigger] alive[q] < nn,
                    forall|q: int| 0 <= q < n ==> #[trigger] map[alive[q] as int] == q,
                    t <= nbs.len(),
                    fbs_bits(row).len() == n,
                    forall|b: int|
                        0 <= b < n ==> #[trigger] fbs_bits(row)[b] == (exists|q: int|
                            0 <= q < t && nbs[q] == alive[b]),
                decreases nbs.len() - t,
            {
                let u = nbs[t];
                proof {
                    assert(m.is_alive(u));
                    crate::seqs::lemma_idx_filter_contains(
                        |i: usize| (i as int) < m.alive.len() && m.alive[i as int],
                        m.alive.len(),
                        u,
                    );
                    assert(alive@.contains(u));
                }
                let ghost pos = choose|q: int| 0 <= q < alive.len() && alive@[q] == u;
                assert(map[u as int] == pos);
                let j = map[u];
                fbs_insert(&mut row, j);
                proof {
                    assert forall|b: int| 0 <= b < n implies #[trigger] fbs_bits(row)[b] == (exists|q: int|
                        0 <= q < t + 1 && nbs[q] == alive[b]) by {
                        if b == j {
                            assert(nbs[t as int] == alive[b]);
                        } else {
                            if nbs[t as int] == alive[b] {
                                assert(alive[b] == alive[j as int]);
                                if b < j {
                                    assert(alive[b] < alive[j as int]);
                                } else {
                                    assert(alive[j as int] < alive[b]);
                                }
                            }
                        }
                    }
                }
                t += 1;
            }
            proof {
                assert forall|b: int| 0 <= b < n implies #[trigger] fbs_bits(row)[b] == m.is_nbr(alive[v as int], alive[b]) by {
                    if m.is_nbr(alive[v as int], alive[b]) {
                        crate::seqs::lemma_idx_filter_contains(m.nbr_pred(alive[v as int]), m.nodes.len(), alive[b]);
                        assert(nbs@.contains(alive[b]));
                    }
                }
            }
            adj.push(row);
            v += 1;
        }
        proof {
            assert forall|a: int, b: int| 0 <= a < n && 0 <= b < n implies #[trigger] fbs_bits(adj[a])[b] == #[trigger] fbs_bits(adj[b])[a] by {
                lemma_is_nbr_sym(m, alive[a], alive[b]);
            }
        }
        BGraph { n, adj }
    }

    /// Open neighbourhood of a vertex set: vertices outside `s` adjacent to
    /// some member of `s`.
    fn neighborhood(&self, s: &fixedbitset::FixedBitSet) -> (r: fixedbitset::FixedBitSet)
        requires
            self.wf(),
            fbs_bits(*s).len() == self.size(),
        ensures
            fbs_bits(r) == nbhd(self.rows(), fbs_bits(*s)),
    {
        let ghost sb = fbs_bits(*s);
        let ghost rows = self.rows();
        let ones = fbs_ones(s);
        proof {
            lemma_idx_filter(|i: usize| (i as int) < sb.len() && sb[i as int], sb.len());
        }
        let mut r = fbs_with_capacity(self.n);
        let mut t: usize = 0;
        while t < ones.len()
            invariant
                self.wf(),
                rows == self.rows(),
                ones@ == ones_of(sb),
                sb.len() == self.n,
                forall|q: int| 0 <= q < ones.len() ==> #[trigger] ones[q] < self.n,
                t <= ones.len(),
                fbs_bits(r).len() == self.n,
                forall|j: int|
                    0 <= j < self.n ==> #[trigger] fbs_bits(r)[j] == exists|q: int|
                        0 <= q < t && #[trigger] rows[ones[q] as int][j],
            decreases ones.len() - t,
        {
            let ghost before = fbs_bits(r);
            fbs_union_with(&mut r, &self.adj[ones[t]]);
            proof {
                assert forall|j: int| 0 <= j < self.n implies #[trigger] fbs_bits(r)[j] == exists|q: int|
                    0 <= q < t + 1 && #[trigger] rows[ones[q] as int][j] by {
                    assert(rows[ones[t as int] as int] == fbs_bits(self.adj[ones[t as int] as int]));
                    if before[j] {
                        let q = choose|q: int| 0 <= q < t && #[trigger] rows[ones[q] as int][j];
                    }
                    if exists|q: int| 0 <= q < t + 1 && #[trigger] rows[ones[q] as int][j] {
                        let q = choose|q: int| 0 <= q < t + 1 && #[trigger] rows[ones[q] as int][j];
                        if q < t {
                            assert(before[j]);
                        }
                    }
                }
            }
            t += 1;
        }
        fbs_difference_with(&mut r, s);
        proof {
            assert forall|j: int| 0 <= j < self.n implies #[trigger] fbs_bits(r)[j] == nbhd(rows, sb)[j] by {
                let p = |i: usize| (i as int) < sb.len() && sb[i as int];
                if touches(rows, sb, j) {
                    let i = choose|i: int| 0 <= i < sb.len() && sb[i] && #[trigger] rows[i][j];
                    lemma_idx_filter_contains(p, sb.len(), i as usize);
                    let q = choose|q: int| 0 <= q < ones.len() && ones@[q] == i as usize;
                    assert(rows[ones[q] as int][j]);
                }
                if exists|q: int| 0 <= q < ones.len() && #[trigger] rows[ones[q] as int][j] {
                    let q = choose|q: int| 0 <= q < ones.len() && #[trigger] rows[ones[q] as int][j];
                    lemma_idx_filter_contains(p, sb.len(), ones[q]);
                    assert(sb[ones[q] as int]);
                    assert(touches(rows, sb, j));
                }
            }
            assert(fbs_bits(r) =~= nbhd(rows, sb));
        }
        r
    }

    /// Closed neighbourhood `N[v] = {v} ∪ N(v)`.
    fn closed_neighborhood(&self, v: usize) -> (r: fixedbitset::FixedBitSet)
        requires
            self.wf(),
            v < self.size(),
        ensures
            fbs_bits(r) == self.rows()[v as int].update(v as int, true),
    {
        let mut r = fbs_clone(&self.adj[v]);
        fbs_insert(&mut r, v);
        r
    }

    /// The parts of `G - removed` found by depth-first search from each
    /// unvisited vertex in ascending order.
    fn components(&self, removed: &fixedbitset::FixedBitSet) -> (r: Vec<fixedbitset::FixedBitSet>)
        requires
            self.wf(),
            fbs_bits(*removed).len() == self.size(),
        ensures
            is_split(self.rows(), fbs_bits(*removed), r@.map_values(|b: fixedbitset::FixedBitSet| fbs_bits(b))),
    {
        let n = self.n;
        let ghost rm = fbs_bits(*removed);
        let ghost rows = self.rows();
        proof {
            assert forall|u: int, w: int| 0 <= u < n && 0 <= w < n implies #[trigger] rows[u][w] == rows[w][u] by {
                assert(rows[u] == fbs_bits(self.adj[u]));
                assert(rows[w] == fbs_bits(self.adj[w]));
            }
        }
        let mut visited = fbs_with_capacity(n);
        let mut result: Vec<fixedbitset::FixedBitSet> = Vec::new();
        let mut start: usize = 0;
        while start < n
            invariant
                self.wf(),
                n == self.n,
                rm == fbs_bits(*removed),
                rows == self.rows(),
                rm.len() == n,
                rows.len() == n,
                forall|u: int| 0 <= u < n ==> (#[trigger] rows[u]).len() == n,
                forall|u: int, w: int| 0 <= u < n && 0 <= w < n ==> #[trigger] rows[u][w] == rows[w][u],
                start <= n,
                fbs_bits(visited).len() == n,
                forall|v: int| 0 <= v < n ==> (#[trigger] fbs_bits(visited)[v] <==> in_some(result@.map_values(|b: fixedbitset::FixedBitSet| fbs_bits(b)), v)),
                forall|v: int| 0 <= v < start ==> rm[v] || #[trigger] fbs_bits(visited)[v],
                split_parts(rm, result@.map_values(|b: fixedbitset::FixedBitSet| fbs_bits(b))),
                forall|c: int| 0 <= c < result.len() ==> #[trigger] part_ok(rows, rm, sets_of(result@)[c]),
            decreases n - start,
        {
            let ghost res = result@.map_values(|b: fixedbitset::FixedBitSet| fbs_bits(b));
            proof {
                assert(res =~= sets_of(result@));
            }
            if fbs_contains(removed, start) || fbs_contains(&visited, start) {
                start += 1;
                continue;
            }
            let mut comp = fbs_with_capacity(n);
            let mut stack: Vec<usize> = Vec::new();
            stack.push(start);
            proof {
                crate::seqs::lemma_count_true_set(fbs_bits(visited), start as int);
            }
            fbs_insert(&mut visited, start);
            fbs_insert(&mut comp, start);
            let ghost mut ord: Seq<int> = seq![start as int];
            let ghost mut par: Seq<int> = seq![0int];
            proof {
                assert forall|v: int| 0 <= v < n && #[trigger] fbs_bits(comp)[v] implies ord.contains(v) by {
                    assert(ord[0] == v);
                }
                assert(stack@[0] == start);
                assert(stack@.contains(start));
            }
            loop
                invariant
                    self.wf(),
                    n == self.n,
                    rm == fbs_bits(*removed),
                    rows == self.rows(),
                    rm.len() == n,
                    rows.len() == n,
                    forall|u: int| 0 <= u < n ==> (#[trigger] rows[u]).len() == n,
                    forall|u: int, w: int| 0 <= u < n && 0 <= w < n ==> #[trigger] rows[u][w] == rows[w][u],
                    start < n,
                    res == result@.map_values(|b: fixedbitset::FixedBitSet| fbs_bits(b)),
                    split_parts(rm, res),
                    forall|c: int| 0 <= c < res.len() ==> #[trigger] part_ok(rows, rm, res[c]),
                    fbs_bits(visited).len() == n,
                    fbs_bits(comp).len() == n,
                    fbs_bits(comp)[start as int],
                    forall|v: int| 0 <= v < n ==> (#[trigger] fbs_bits(visited)[v] <==> (in_some(res, v) || fbs_bits(comp)[v])),
                    forall|v: int| 0 <= v < n && #[trigger] fbs_bits(comp)[v] ==> !rm[v] && !in_some(res, v),
                    forall|v: int| 0 <= v < start ==> rm[v] || #[trigger] fbs_bits(visited)[v],
                    forall|q: int| 0 <= q < stack.len() ==> #[trigger] stack[q] < n && fbs_bits(comp)[stack[q] as int],
                    ord.len() >= 1,
                    par.len() == ord.len(),
                    forall|k: int| 0 <= k < ord.len() ==> 0 <= #[trigger] ord[k] < n && fbs_bits(comp)[ord[k]],
                    forall|v: int| 0 <= v < n && #[trigger] fbs_bits(comp)[v] ==> ord.contains(v),
                    forall|k: int| 1 <= k < ord.len() ==> 0 <= #[trigger] par[k] < k && rows[ord[par[k]]][ord[k]],
                    forall|k: int| 0 <= k < ord.len() ==> stack@.contains(#[trigger] ord[k] as usize) || done_at(
                        rows,
                        rm,
                        fbs_bits(visited),
                        ord[k],
                    ),
                ensures
                    self.wf(),
                    n == self.n,
                    rm == fbs_bits(*removed),
                    rows == self.rows(),
                    rm.len() == n,
                    rows.len() == n,
                    forall|u: int| 0 <= u < n ==> (#[trigger] rows[u]).len() == n,
                    forall|u: int, w: int| 0 <= u < n && 0 <= w < n ==> #[trigger] rows[u][w] == rows[w][u],
                    start < n,
                    res == result@.map_values(|b: fixedbitset::FixedBitSet| fbs_bits(b)),
                    split_parts(rm, res),
                    forall|c: int| 0 <= c < res.len() ==> #[trigger] part_ok(rows, rm, res[c]),
                    fbs_bits(visited).len() == n,
                    fbs_bits(comp).len() == n,
                    fbs_bits(comp)[start as int],
                    forall|v: int| 0 <= v < n ==> (#[trigger] fbs_bits(visited)[v] <==> (in_some(res, v) || fbs_bits(comp)[v])),
                    forall|v: int| 0 <= v < n && #[trigger] fbs_bits(comp)[v] ==> !rm[v] && !in_some(res, v),
                    forall|v: int| 0 <= v < start ==> rm[v] || #[trigger] fbs_bits(visited)[v],
                    forall|q: int| 0 <= q < stack.len() ==> #[trigger] stack[q] < n && fbs_bits(comp)[stack[q] as int],
                    ord.len() >= 1,
                    par.len() == ord.len(),
                    forall|k: int| 0 <= k < ord.len() ==> 0 <= #[trigger] ord[k] < n && fbs_bits(comp)[ord[k]],
                    forall|v: int| 0 <= v < n && #[trigger] fbs_bits(comp)[v] ==> ord.contains(v),
                    forall|k: int| 1 <= k < ord.len() ==> 0 <= #[trigger] par[k] < k && rows[ord[par[k]]][ord[k]],
                    forall|k: int| 0 <= k < ord.len() ==> stack@.contains(#[trigger] ord[k] as usize) || done_at(
                        rows,
                        rm,
                        fbs_bits(visited),
                        ord[k],
                    ),
                    stack.len() == 0,
                decreases n - count_true(fbs_bits(visited)), stack.len(),
            {
                proof {
                    crate::seqs::lemma_count_true_le(fbs_bits(visited));
                }
                let ghost st0 = stack@;
                let u = match stack.pop() {
                    None => {
                        break;
                    },
                    Some(u) => u,
                };
                proof {
                    assert(stack@ == st0.drop_last());
                    assert(u == st0.last());
                    assert forall|k: int| 0 <= k < ord.len() && ord[k] != u implies stack@.contains(#[trigger] ord[k] as usize)
                        || done_at(rows, rm, fbs_bits(visited), ord[k]) by {
                        if st0.contains(ord[k] as usize) {
                            let q = choose|q: int| 0 <= q < st0.len() && st0[q] == ord[k] as usize;
                            assert(q != st0.len() - 1);
                            assert(stack@[q] == st0[q]);
                        }
                    }
                    assert(fbs_bits(comp)[u as int]) by {
                        assert(st0[st0.len() - 1] == u);
                    }
                }
                let ones = fbs_ones(&self.adj[u]);
                proof {
                    let row = fbs_bits(self.adj[u as int]);
                    assert(row == rows[u as int]);
                    lemma_idx_filter(|i: usize| (i as int) < row.len() && row[i as int], row.len());
                }
                let ghost c0 = count_true(fbs_bits(visited));
                let ghost s0 = stack.len();
                let mut t: usize = 0;
                while t < ones.len()
                    invariant
                        self.wf(),
                        n == self.n,
                        rm == fbs_bits(*removed),
                        rows == self.rows(),
                        rm.len() == n,
                        rows.len() == n,
                        forall|u: int| 0 <= u < n ==> (#[trigger] rows[u]).len() == n,
                        forall|u: int, w: int| 0 <= u < n && 0 <= w < n ==> #[trigger] rows[u][w] == rows[w][u],
                        start < n,
                        u < n,
                        fbs_bits(comp)[u as int],
                        ones@ == ones_of(rows[u as int]),
                        res == result@.map_values(|b: fixedbitset::FixedBitSet| fbs_bits(b)),
                        split_parts(rm, res),
                        forall|c: int| 0 <= c < res.len() ==> #[trigger] part_ok(rows, rm, res[c]),
                        fbs_bits(visited).len() == n,
                        fbs_bits(comp).len() == n,
                        fbs_bits(comp)[start as int],
                        forall|v: int| 0 <= v < n ==> (#[trigger] fbs_bits(visited)[v] <==> (in_some(res, v) || fbs_bits(comp)[v])),
                        forall|v: int| 0 <= v < n && #[trigger] fbs_bits(comp)[v] ==> !rm[v] && !in_some(res, v),
                        forall|v: int| 0 <= v < start ==> rm[v] || #[trigger] fbs_bits(visited)[v],
                        forall|q: int| 0 <= q < stack.len() ==> #[trigger] stack[q] < n && fbs_bits(comp)[stack[q] as int],
                        forall|q: int| 0 <= q < ones.len() ==> #[trigger] ones[q] < n,
                        t <= ones.len(),
                        count_true(fbs_bits(visited)) >= c0,
                        count_true(fbs_bits(visited)) == c0 ==> stack.len() == s0,
                        count_true(fbs_bits(visited)) <= n,
                        ord.len() >= 1,
                        par.len() == ord.len(),
                        forall|k: int| 0 <= k < ord.len() ==> 0 <= #[trigger] ord[k] < n && fbs_bits(comp)[ord[k]],
                        forall|v: int| 0 <= v < n && #[trigger] fbs_bits(comp)[v] ==> ord.contains(v),
                        forall|k: int| 1 <= k < ord.len() ==> 0 <= #[trigger] par[k] < k && rows[ord[par[k]]][ord[k]],
                        forall|k: int| 0 <= k < ord.len() && ord[k] != u ==> stack@.contains(#[trigger] ord[k] as usize)
                            || done_at(rows, rm, fbs_bits(visited), ord[k]),
                        forall|q: int| 0 <= q < t ==> rm[#[trigger] ones[q] as int] || fbs_bits(visited)[ones[q] as int],
                    decreases ones.len() - t,
                {
                    let v = ones[t];
                    if !fbs_contains(removed, v) && !fbs_contains(&visited, v) {
                        proof {
                            crate::seqs::lemma_count_true_set(fbs_bits(visited), v as int);
                        }
                        let ghost vis0 = fbs_bits(visited);
                        let ghost stk0 = stack@;
                        fbs_insert(&mut visited, v);
                        fbs_insert(&mut comp, v);
                        stack.push(v);
                        proof {
                            crate::seqs::lemma_count_true_le(fbs_bits(visited));
                            let ku = choose|k: int| 0 <= k < ord.len() && ord[k] == u as int;
                            lemma_idx_filter(|i: usize| (i as int) < rows[u as int].len() && rows[u as int][i as int], rows[u as int].len());
                            assert(rows[u as int][v as int]);
                            let ord0 = ord;
                            ord = ord.push(v as int);
                            par = par.push(ku);
                            assert forall|k: int| 1 <= k < ord.len() implies 0 <= #[trigger] par[k] < k && rows[ord[par[k]]][ord[k]] by {
                                if k < ord0.len() {
                                    assert(ord[par[k]] == ord0[par[k]]);
                                }
                            }
                            assert forall|k: int| 0 <= k < ord.len() && ord[k] != u implies stack@.contains(#[trigger] ord[k] as usize)
                                || done_at(rows, rm, fbs_bits(visited), ord[k]) by {
                                if k == ord0.len() {
                                    assert(stack@[stack.len() - 1] == v);
                                } else {
                                    assert(ord[k] == ord0[k]);
                                    if stk0.contains(ord[k] as usize) {
                                        let q = choose|q: int| 0 <= q < stk0.len() && stk0[q] == ord[k] as usize;
                                        assert(stack@[q] == stk0[q]);
                                    } else {
                                        lemma_done_mono(rows, rm, vis0, fbs_bits(visited), ord[k]);
                                    }
                                }
                            }
                            assert forall|w: int| 0 <= w < n && #[trigger] fbs_bits(comp)[w] implies ord.contains(w) by {
                                if w == v {
                                    assert(ord[ord.len() - 1] == w);
                                } else {
                                    let k = choose|k: int| 0 <= k < ord0.len() && ord0[k] == w;
                                    assert(ord[k] == w);
                                }
                            }
                            assert forall|q: int| 0 <= q < t + 1 implies rm[#[trigger] ones[q] as int] || fbs_bits(visited)[ones[q] as int] by {
                                if q < t {
                                    assert(rm[ones[q] as int] || vis0[ones[q] as int]);
                                }
                            }
                        }
                    }
                    t += 1;
                }
                proof {
                    let row = rows[u as int];
                    lemma_idx_filter(|i: usize| (i as int) < row.len() && row[i as int], row.len());
                    assert(done_at(rows, rm, fbs_bits(visited), u as int)) by {
                        assert forall|w: int| 0 <= w < rm.len() && #[trigger] rows[u as int][w] && !rm[w] implies fbs_bits(visited)[w] by {
                            let wu = w as usize;
                            lemma_idx_filter_contains(|i: usize| (i as int) < row.len() && row[i as int], row.len(), wu);
                            let q = choose|q: int| 0 <= q < ones.len() && ones@[q] == wu;
                            assert(rm[ones[q] as int] || fbs_bits(visited)[ones[q] as int]);
                        }
                    }
                }
            }
            proof {
                let cb = fbs_bits(comp);
                let res2 = res.push(cb);
                assert forall|v: int| 0 <= v < n implies (#[trigger] fbs_bits(visited)[v] <==> in_some(res2, v)) by {
                    if in_some(res, v) {
                        let c = choose|c: int| 0 <= c < res.len() && #[trigger] res[c][v];
                        assert(res2[c][v]);
                    }
                    if cb[v] {
                        assert(res2[res.len() as int][v]);
                    }
                    if in_some(res2, v) {
                        let c = choose|c: int| 0 <= c < res2.len() && #[trigger] res2[c][v];
                        if c < res.len() {
                            assert(res[c][v]);
                        }
                    }
                }
                assert forall|c: int| 0 <= c < res.len() implies disjoint(#[trigger] res[c], cb) by {
                    assert forall|i: int| 0 <= i < res[c].len() && i < cb.len() implies !(res[c][i] && cb[i]) by {
                        if cb[i] {
                            assert(!in_some(res, i));
                        }
                    }
                }
                lemma_split_push(rm, res, cb, start as int);
                // the new part is closed and connected
                assert forall|x: int, y: int|
                    0 <= x < cb.len() && 0 <= y < cb.len() && cb[x] && !rm[y] && #[trigger] rows[x][y] implies #[trigger] cb[y] by {
                    let k = choose|k: int| 0 <= k < ord.len() && ord[k] == x;
                    assert(stack@.len() == 0);
                    assert(!stack@.contains(ord[k] as usize));
                    assert(done_at(rows, rm, fbs_bits(visited), ord[k]));
                    assert(fbs_bits(visited)[y]);
                    if !cb[y] {
                        assert(in_some(res, y));
                        let c = choose|c: int| 0 <= c < res.len() && #[trigger] res[c][y];
                        assert(part_ok(rows, rm, res[c]));
                        assert(rows[y][x]);
                        assert(res[c][x]);
                        assert(in_some(res, x));
                    }
                }
                assert(linked_by(rows, cb, ord, par));
                assert(part_ok(rows, rm, cb));
                assert forall|c: int| 0 <= c < res2.len() implies #[trigger] part_ok(rows, rm, res2[c]) by {
                    if c < res.len() {
                        assert(res2[c] == res[c]);
                    }
                }
            }
            result.push(comp);
            proof {
                assert(result@.map_values(|b: fixedbitset::FixedBitSet| fbs_bits(b)) =~= res.push(fbs_bits(comp)));
                assert(sets_of(result@) =~= res.push(fbs_bits(comp)));
            }
            start += 1;
        }
        proof {
            let res = result@.map_values(|b: fixedbitset::FixedBitSet| fbs_bits(b));
            assert(res =~= sets_of(result@));
            assert forall|v: int| 0 <= v < n && !rm[v] implies #[trigger] in_some(res, v) by {
                assert(fbs_bits(visited)[v]);
            }
        }
        result
    }
}

/// Every edge of `G - removed` from `u` reaches a visited vertex.
pub open spec fn done_at(rows: Seq<Seq<bool>>, removed: Seq<bool>, vis: Seq<bool>, u: int) -> bool {
    forall|w: int| 0 <= w < removed.len() && #[trigger] rows[u][w] && !removed[w] ==> vis[w]
}

proof fn lemma_done_mono(rows: Seq<Seq<bool>>, removed: Seq<bool>, a: Seq<bool>, b: Seq<bool>, u: int)
    requires
        done_at(rows, removed, a, u),
        a.len() == b.len(),
        forall|w: int| 0 <= w < a.len() && a[w] ==> b[w],
        removed.len() == a.len(),
    ensures
        done_at(rows, removed, b, u),
{
}

/// The parts are non-empty, outside `removed`, and pairwise disjoint.
pub open spec fn split_parts(removed: Seq<bool>, comps: Seq<Seq<bool>>) -> bool {
    let n = removed.len();
    &&& forall|c: int| 0 <= c < comps.len() ==> (#[trigger] comps[c]).len() == n && nonempty(comps[c])
    &&& forall|c: int, v: int| 0 <= c < comps.len() && 0 <= v < n && #[trigger] comps[c][v] ==> !removed[v]
    &&& forall|c: int, d: int| 0 <= c < d < comps.len() ==> disjoint(#[trigger] comps[c], #[trigger] comps[d])
}

proof fn lemma_split_push(removed: Seq<bool>, comps: Seq<Seq<bool>>, c: Seq<bool>, w: int)
    requires
        split_parts(removed, comps),
        c.len() == removed.len(),
        0 <= w < c.len(),
        c[w],
        forall|v: int| 0 <= v < c.len() && c[v] ==> !removed[v],
        forall|d: int| 0 <= d < comps.len() ==> disjoint(#[trigger] comps[d], c),
    ensures
        split_parts(removed, comps.push(c)),
{
    let c2 = comps.push(c);
    assert(nonempty(c));
    assert forall|a: int, b: int| 0 <= a < b < c2.len() implies disjoint(#[trigger] c2[a], #[trigger] c2[b]) by {
        if b == comps.len() {
            assert(disjoint(comps[a], c));
        } else {
            assert(disjoint(comps[a], comps[b]));
        }
    }
    assert forall|d: int| 0 <= d < c2.len() implies (#[trigger] c2[d]).len() == removed.len() && nonempty(c2[d]) by {
        if d < comps.len() {
            assert(c2[d] == comps[d]);
        }
    }
    assert forall|d: int, v: int| 0 <= d < c2.len() && 0 <= v < removed.len() && #[trigger] c2[d][v] implies !removed[v] by {
        if d < comps.len() {
            assert(c2[d] == comps[d]);
        }
    }
}

proof fn lemma_is_nbr_sym(m: crate::graph::GraphModel, a: usize, b: usize)
    requires
        m.is_alive(a),
        m.is_alive(b),
    ensures
        m.is_nbr(a, b) == m.is_nbr(b, a),
{
    if m.adj(a, b) {
        let i = choose|i: int| 0 <= i < m.edges.len() && crate::petgraph_ext::connects(#[trigger] m.edges[i], a, b);
        assert(crate::petgraph_ext::connects(m.edges[i], b, a));
    }
    if m.adj(b, a) {
        let i = choose|i: int| 0 <= i < m.edges.len() && crate::petgraph_ext::connects(#[trigger] m.edges[i], b, a);
        assert(crate::petgraph_ext::connects(m.edges[i], a, b));
    }
}

/// The bits of each set.
pub open spec fn sets_of(v: Seq<fixedbitset::FixedBitSet>) -> Seq<Seq<bool>> {
    v.map_values(|b: fixedbitset::FixedBitSet| fbs_bits(b))
}

/// `c` is a full component of `s`: its neighbourhood is exactly `s`.
pub open spec fn is_full(adj: Seq<Seq<bool>>, s: Seq<bool>) -> spec_fn(Seq<bool>) -> bool {
    |c: Seq<bool>| nbhd(adj, c) == s
}

/// `m` is the lowest member of `c`.
pub open spec fn lowest(c: Seq<bool>, m: int) -> bool {
    0 <= m < c.len() && c[m] && forall|i: int| 0 <= i < m ==> !c[i]
}

/// Every pair of non-adjacent members of `s` lies in one of the sets `nbrs`.
pub open spec fn cliquish(adj: Seq<Seq<bool>>, s: Seq<bool>, nbrs: Seq<Seq<bool>>) -> bool {
    forall|u: int, v: int|
        0 <= u < v < s.len() && s[u] && s[v] && !adj[u][v] ==> exists|c: int|
            0 <= c < nbrs.len() && #[trigger] nbrs[c][u] && nbrs[c][v]
}

/// Bouchitté–Todinca's test of a potential maximal clique, relative to a
/// split `comps` of `G - s`: no full component, and `s` cliquish through
/// the components' neighbourhoods.
pub open spec fn pmc_test(adj: Seq<Seq<bool>>, s: Seq<bool>, comps: Seq<Seq<bool>>) -> bool {
    &&& forall|c: int| 0 <= c < comps.len() ==> nbhd(adj, #[trigger] comps[c]) != s
    &&& cliquish(adj, s, comps.map_values(|c: Seq<bool>| nbhd(adj, c)))
}

impl BGraph {
    /// Full components of `s`: the parts `C` of `G - s` with `N(C) = s`.
    fn full_components(&self, s: &fixedbitset::FixedBitSet) -> (r: Vec<fixedbitset::FixedBitSet>)
        requires
            self.wf(),
            fbs_bits(*s).len() == self.size(),
        ensures
            exists|comps: Seq<Seq<bool>>|
                #[trigger] is_split(self.rows(), fbs_bits(*s), comps) && sets_of(r@) == comps.filter(
                    is_full(self.rows(), fbs_bits(*s)),
                ),
    {
        let comps = self.components(s);
        let ghost cs = sets_of(comps@);
        let ghost f = is_full(self.rows(), fbs_bits(*s));
        let mut r: Vec<fixedbitset::FixedBitSet> = Vec::new();
        let mut i: usize = 0;
        while i < comps.len()
            invariant
                self.wf(),
                fbs_bits(*s).len() == self.size(),
                cs == sets_of(comps@),
                f == is_full(self.rows(), fbs_bits(*s)),
                is_split(self.rows(), fbs_bits(*s), cs),
                i <= comps.len(),
                sets_of(r@) == cs.take(i as int).filter(f),
            decreases comps.len() - i,
        {
            assert(fbs_bits(comps[i as int]) == cs[i as int]);
            let nc = self.neighborhood(&comps[i]);
            proof {
                reveal(Seq::filter);
                assert(cs.take(i + 1).drop_last() =~= cs.take(i as int));
                assert(cs.take(i + 1).last() == cs[i as int]);
                assert(f(cs[i as int]) == (fbs_bits(nc) == fbs_bits(*s)));
            }
            if fbs_eq(&nc, s) {
                let ghost before = sets_of(r@);
                r.push(fbs_clone(&comps[i]));
                proof {
                    assert(sets_of(r@) =~= before.push(cs[i as int]));
                }
            }
            i += 1;
        }
        proof {
            assert(cs.take(comps.len() as int) =~= cs);
        }
        r
    }

    /// The full component of `s` with the smallest lowest vertex, if any.
    fn outbound_full_component(&self, s: &fixedbitset::FixedBitSet) -> (r: Option<fixedbitset::FixedBitSet>)
        requires
            self.wf(),
            fbs_bits(*s).len() == self.size(),
        ensures
            exists|comps: Seq<Seq<bool>>|
                #[trigger] is_split(self.rows(), fbs_bits(*s), comps) && ({
                    let f = comps.filter(is_full(self.rows(), fbs_bits(*s)));
                    &&& r is None <==> f.len() == 0
                    &&& r matches Some(c) ==> f.contains(fbs_bits(c)) && exists|m: int|
                        lowest(fbs_bits(c), m) && forall|d: int, i: int|
                            0 <= d < f.len() && 0 <= i < m ==> !#[trigger] f[d][i]
                }),
    {
        let fc = self.full_components(s);
        let ghost comps = choose|comps: Seq<Seq<bool>>|
            #[trigger] is_split(self.rows(), fbs_bits(*s), comps) && sets_of(fc@) == comps.filter(
                is_full(self.rows(), fbs_bits(*s)),
            );
        let ghost f = comps.filter(is_full(self.rows(), fbs_bits(*s)));
        proof {
            lemma_filter_members(comps, is_full(self.rows(), fbs_bits(*s)));
        }
        let mut best: Option<usize> = None;
        let mut best_m: usize = 0;
        let mut i: usize = 0;
        while i < fc.len()
            invariant
                self.wf(),
                f == sets_of(fc@),
                forall|d: int| 0 <= d < f.len() ==> (#[trigger] f[d]).len() == self.size() && nonempty(f[d]),
                i <= fc.len(),
                best is None <==> i == 0,
                best matches Some(b) ==> b < i && lowest(f[b as int], best_m as int) && forall|d: int, j: int|
                    0 <= d < i && 0 <= j < best_m ==> !#[trigger] f[d][j],
            decreases fc.len() - i,
        {
            assert(f[i as int] == fbs_bits(fc[i as int]));
            let mi = fbs_minimum(&fc[i]);
            let m = match mi {
                Some(m) => m,
                None => {
                    proof {
                        let w = choose|w: int| 0 <= w < f[i as int].len() && f[i as int][w];
                    }
                    0
                },
            };
            match best {
                None => {
                    best = Some(i);
                    best_m = m;
                },
                Some(b) => {
                    if m < best_m {
                        best = Some(i);
                        best_m = m;
                    }
                },
            }
            i += 1;
        }
        match best {
            None => None,
            Some(b) => {
                let c = fbs_clone(&fc[b]);
                proof {
                    assert(f.contains(fbs_bits(c))) by {
                        assert(f[b as int] == fbs_bits(c));
                    }
                }
                Some(c)
            },
        }
    }
}

/// The members of a filter are members of the sequence.
proof fn lemma_filter_members(s: Seq<Seq<bool>>, p: spec_fn(Seq<bool>) -> bool)
    ensures
        forall|i: int| 0 <= i < s.filter(p).len() ==> s.contains(#[trigger] s.filter(p)[i]) && p(s.filter(p)[i]),
    decreases s.len(),
{
    reveal(Seq::filter);
    if s.len() > 0 {
        lemma_filter_members(s.drop_last(), p);
        assert forall|i: int| 0 <= i < s.filter(p).len() implies s.contains(#[trigger] s.filter(p)[i]) && p(s.filter(p)[i]) by {
            let sub = s.drop_last().filter(p);
            if i < sub.len() {
                assert(s.filter(p)[i] == sub[i]);
                assert(s.drop_last().contains(sub[i]));
                let j = choose|j: int| 0 <= j < s.drop_last().len() && s.drop_last()[j] == sub[i];
                assert(s[j] == sub[i]);
            } else {
                assert(s[s.len() - 1] == s.filter(p)[i]);
            }
        }
    }
}

/// Every two distinct members of `s` are adjacent.
pub open spec fn is_clique_set(adj: Seq<Seq<bool>>, s: Seq<bool>) -> bool {
    forall|u: int, v: int| 0 <= u < v < s.len() && s[u] && s[v] ==> #[trigger] adj[u][v]
}

/// Removing the member `w` of `s` leaves a clique.
pub open spec fn clique_without(adj: Seq<Seq<bool>>, s: Seq<bool>, w: int) -> bool {
    forall|u: int, v: int| 0 <= u < v < s.len() && s[u] && s[v] && u != w && v != w ==> #[trigger] adj[u][v]
}

/// `s` has at most two members, or removing one of them leaves a clique.
pub open spec fn is_almost_clique_set(adj: Seq<Seq<bool>>, s: Seq<bool>) -> bool {
    count_true(s) <= 2 || exists|w: int| 0 <= w < s.len() && s[w] && #[trigger] clique_without(adj, s, w)
}

impl BGraph {
    /// Is `s` a potential maximal clique: no full component, and cliquish
    /// (tested on the parts of `G - s` found by [`BGraph::components`]).
    fn is_pmc(&self, s: &fixedbitset::FixedBitSet) -> (r: bool)
        requires
            self.wf(),
            fbs_bits(*s).len() == self.size(),
        ensures
            exists|comps: Seq<Seq<bool>>|
                #[trigger] is_split(self.rows(), fbs_bits(*s), comps) && r == pmc_test(self.rows(), fbs_bits(*s), comps),
    {
        let ghost rows = self.rows();
        let ghost sb = fbs_bits(*s);
        let comps = self.components(s);
        let ghost cs = sets_of(comps@);
        let mut nbrs: Vec<fixedbitset::FixedBitSet> = Vec::new();
        let mut i: usize = 0;
        while i < comps.len()
            invariant
                self.wf(),
                rows == self.rows(),
                sb == fbs_bits(*s),
                sb.len() == self.size(),
                cs == sets_of(comps@),
                is_split(rows, sb, cs),
                i <= comps.len(),
                nbrs.len() == i,
                forall|c: int| 0 <= c < i ==> nbhd(rows, #[trigger] cs[c]) != sb,
                forall|c: int| 0 <= c < i ==> #[trigger] fbs_bits(nbrs[c]) == nbhd(rows, cs[c]),
            decreases comps.len() - i,
        {
            assert(cs[i as int] == fbs_bits(comps[i as int]));
            let nc = self.neighborhood(&comps[i]);
            if fbs_eq(&nc, s) {
                assert(!pmc_test(rows, sb, cs));
                return false;
            }
            nbrs.push(nc);
            i += 1;
        }
        let ghost ns = cs.map_values(|c: Seq<bool>| nbhd(rows, c));
        assert(sets_of(nbrs@) =~= ns);
        let vs = fbs_ones(s);
        proof {
            lemma_idx_filter(|i: usize| (i as int) < sb.len() && sb[i as int], sb.len());
        }
        let mut a: usize = 0;
        while a < vs.len()
            invariant
                self.wf(),
                rows == self.rows(),
                sb == fbs_bits(*s),
                sb.len() == self.size(),
                vs@ == ones_of(sb),
                crate::seqs::strictly_increasing(vs@),
                forall|q: int| 0 <= q < vs.len() ==> #[trigger] vs[q] < sb.len(),
                ns == sets_of(nbrs@),
                cs == sets_of(comps@),
                is_split(rows, sb, cs),
                ns == cs.map_values(|c: Seq<bool>| nbhd(rows, c)),
                forall|c: int| 0 <= c < nbrs.len() ==> (#[trigger] fbs_bits(nbrs[c])).len() == sb.len(),
                a <= vs.len(),
                forall|x: int, y: int|
                    0 <= x < a && x < y < vs.len() && !rows[vs[x] as int][vs[y] as int] ==> exists|c: int|
                        0 <= c < ns.len() && #[trigger] ns[c][vs[x] as int] && ns[c][vs[y] as int],
            decreases vs.len() - a,
        {
            let mut b: usize = a + 1;
            while b < vs.len()
                invariant
                    self.wf(),
                    rows == self.rows(),
                    sb == fbs_bits(*s),
                    sb.len() == self.size(),
                    vs@ == ones_of(sb),
                    crate::seqs::strictly_increasing(vs@),
                    forall|q: int| 0 <= q < vs.len() ==> #[trigger] vs[q] < sb.len(),
                    ns == sets_of(nbrs@),
                    cs == sets_of(comps@),
                    is_split(rows, sb, cs),
                    ns == cs.map_values(|c: Seq<bool>| nbhd(rows, c)),
                    forall|c: int| 0 <= c < nbrs.len() ==> (#[trigger] fbs_bits(nbrs[c])).len() == sb.len(),
                    a < vs.len(),
                    a + 1 <= b <= vs.len(),
                    forall|y: int|
                        a < y < b && !rows[vs[a as int] as int][vs[y] as int] ==> exists|c: int|
                            0 <= c < ns.len() && #[trigger] ns[c][vs[a as int] as int] && ns[c][vs[y] as int],
                decreases vs.len() - b,
            {
                let u = vs[a];
                let v = vs[b];
                assert(rows[u as int] == fbs_bits(self.adj[u as int]));
                if !fbs_contains(&self.adj[u], v) {
                    let mut covered = false;
                    let mut c: usize = 0;
                    while c < nbrs.len() && !covered
                        invariant
                            ns == sets_of(nbrs@),
                            forall|c: int| 0 <= c < nbrs.len() ==> (#[trigger] fbs_bits(nbrs[c])).len() == sb.len(),
                            u < sb.len(),
                            v < sb.len(),
                            c <= nbrs.len(),
                            covered ==> exists|c: int| 0 <= c < ns.len() && #[trigger] ns[c][u as int] && ns[c][v as int],
                            !covered ==> forall|d: int| 0 <= d < c ==> !(#[trigger] ns[d][u as int] && ns[d][v as int]),
                        decreases nbrs.len() - c, if covered { 0nat } else { 1nat },
                    {
                        assert(ns[c as int] == fbs_bits(nbrs[c as int]));
                        if fbs_contains(&nbrs[c], u) && fbs_contains(&nbrs[c], v) {
                            covered = true;
                        } else {
                            c += 1;
                        }
                    }
                    if !covered {
                        proof {
                            lemma_idx_filter(|i: usize| (i as int) < sb.len() && sb[i as int], sb.len());
                            assert(sb[u as int] && sb[v as int]);
                            assert(vs[a as int] < vs[b as int]);
                            assert(u < v);
                            assert(!rows[u as int][v as int]);
                            assert(ns.len() == nbrs.len());
                            assert(!(exists|c: int| 0 <= c < ns.len() && #[trigger] ns[c][u as int] && ns[c][v as int]));
                            assert(!cliquish(rows, sb, ns));
                            assert(!pmc_test(rows, sb, cs));
                        }
                        return false;
                    }
                }
                b += 1;
            }
            a += 1;
        }
        proof {
            assert forall|u: int, v: int|
                0 <= u < v < sb.len() && sb[u] && sb[v] && !rows[u][v] implies exists|c: int|
                    0 <= c < ns.len() && #[trigger] ns[c][u] && ns[c][v] by {
                let p = |i: usize| (i as int) < sb.len() && sb[i as int];
                lemma_idx_filter_contains(p, sb.len(), u as usize);
                lemma_idx_filter_contains(p, sb.len(), v as usize);
                let x = choose|x: int| 0 <= x < vs.len() && vs@[x] == u as usize;
                let y = choose|y: int| 0 <= y < vs.len() && vs@[y] == v as usize;
                if y < x {
                    assert(vs[y] < vs[x]);
                }
                assert(x != y);
            }
            assert(pmc_test(rows, sb, cs));
        }
        true
    }

    /// Minimum degree (0 for the empty graph).
    fn min_degree(&self) -> (r: usize)
        requires
            self.wf(),
        ensures
            self.size() == 0 ==> r == 0,
            self.size() > 0 ==> (exists|v: int| 0 <= v < self.size() && r == count_true(#[trigger] self.rows()[v]))
                && forall|v: int| 0 <= v < self.size() ==> r <= count_true(#[trigger] self.rows()[v]),
    {
        if self.n == 0 {
            return 0;
        }
        let mut best = fbs_count_ones(&self.adj[0]);
        let ghost mut arg: int = 0;
        let mut v: usize = 1;
        while v < self.n
            invariant
                self.wf(),
                1 <= v <= self.n,
                0 <= arg < self.n,
                best == count_true(self.rows()[arg]),
                forall|u: int| 0 <= u < v ==> best <= count_true(#[trigger] self.rows()[u]),
            decreases self.n - v,
        {
            let d = fbs_count_ones(&self.adj[v]);
            if d < best {
                best = d;
                proof {
                    arg = v as int;
                }
            }
            v += 1;
        }
        best
    }

    /// Is `s` a clique?
    fn is_clique(&self, s: &fixedbitset::FixedBitSet) -> (r: bool)
        requires
            self.wf(),
            fbs_bits(*s).len() == self.size(),
        ensures
            r == is_clique_set(self.rows(), fbs_bits(*s)),
    {
        let ghost sb = fbs_bits(*s);
        let ghost rows = self.rows();
        let vs = fbs_ones(s);
        proof {
            lemma_idx_filter(|i: usize| (i as int) < sb.len() && sb[i as int], sb.len());
        }
        let r = self.clique_skipping(&vs, vs.len());
        proof {
            lemma_clique_positions(rows, sb, vs@, vs.len() as int);
        }
        r
    }

    /// Are the entries of `vs` other than position `skip` pairwise adjacent?
    fn clique_skipping(&self, vs: &Vec<usize>, skip: usize) -> (r: bool)
        requires
            self.wf(),
            forall|q: int| 0 <= q < vs.len() ==> #[trigger] vs[q] < self.size(),
        ensures
            r == forall|x: int, y: int|
                0 <= x < y < vs.len() && x != skip && y != skip ==> #[trigger] self.rows()[vs[x] as int][vs[y] as int],
    {
        let ghost rows = self.rows();
        let mut a: usize = 0;
        while a < vs.len()
            invariant
                self.wf(),
                rows == self.rows(),
                forall|q: int| 0 <= q < vs.len() ==> #[trigger] vs[q] < self.size(),
                a <= vs.len(),
                forall|x: int, y: int|
                    0 <= x < a && x < y < vs.len() && x != skip && y != skip ==> #[trigger] rows[vs[x] as int][vs[y] as int],
            decreases vs.len() - a,
        {
            if a != skip {
                let mut b: usize = a + 1;
                while b < vs.len()
                    invariant
                        self.wf(),
                        rows == self.rows(),
                        forall|q: int| 0 <= q < vs.len() ==> #[trigger] vs[q] < self.size(),
                        a < vs.len(),
                        a != skip,
                        a + 1 <= b <= vs.len(),
                        forall|x: int, y: int|
                            0 <= x < a && x < y < vs.len() && x != skip && y != skip ==> #[trigger] rows[vs[x] as int][vs[y] as int],
                        forall|y: int| a < y < b && y != skip ==> #[trigger] rows[vs[a as int] as int][vs[y] as int],
                    decreases vs.len() - b,
                {
                    if b != skip {
                        assert(rows[vs[a as int] as int] == fbs_bits(self.adj[vs[a as int] as int]));
                        if !fbs_contains(&self.adj[vs[a]], vs[b]) {
                            return false;
                        }
                    }
                    b += 1;
                }
            }
            a += 1;
        }
        true
    }

    /// Is `s` an almost clique (at most two members, or one deletion makes
    /// it a clique)?
    fn is_almost_clique(&self, s: &fixedbitset::FixedBitSet) -> (r: bool)
        requires
            self.wf(),
            fbs_bits(*s).len() == self.size(),
        ensures
            r == is_almost_clique_set(self.rows(), fbs_bits(*s)),
    {
        let ghost sb = fbs_bits(*s);
        let ghost rows = self.rows();
        let vs = fbs_ones(s);
        proof {
            lemma_idx_filter(|i: usize| (i as int) < sb.len() && sb[i as int], sb.len());
            crate::bitset::lemma_ones_of_count(sb);
        }
        if vs.len() <= 2 {
            return true;
        }
        let mut skip: usize = 0;
        while skip < vs.len()
            invariant
                self.wf(),
                rows == self.rows(),
                sb == fbs_bits(*s),
                sb.len() == self.size(),
                vs@ == ones_of(sb),
                vs.len() > 2,
                vs.len() == count_true(sb),
                crate::seqs::strictly_increasing(vs@),
                forall|q: int| 0 <= q < vs.len() ==> #[trigger] vs[q] < sb.len(),
                skip <= vs.len(),
                forall|w: int| 0 <= w < skip ==> !clique_without(rows, sb, #[trigger] vs[w] as int),
            decreases vs.len() - skip,
        {
            let ok = self.clique_skipping(&vs, skip);
            proof {
                lemma_clique_positions_skip(rows, sb, vs@, skip as int);
            }
            if ok {
                proof {
                    lemma_idx_filter_contains(|i: usize| (i as int) < sb.len() && sb[i as int], sb.len(), vs[skip as int]);
                    assert(clique_without(rows, sb, vs[skip as int] as int));
                }
                return true;
            }
            skip += 1;
        }
        proof {
            if is_almost_clique_set(rows, sb) {
                let w = choose|w: int| 0 <= w < sb.len() && sb[w] && #[trigger] clique_without(rows, sb, w);
                lemma_idx_filter_contains(|i: usize| (i as int) < sb.len() && sb[i as int], sb.len(), w as usize);
                let q = choose|q: int| 0 <= q < vs.len() && vs@[q] == w as usize;
                assert(!clique_without(rows, sb, vs[q] as int));
            }
        }
        false
    }
}

/// Pairwise adjacency of the listed members is adjacency of the set.
proof fn lemma_clique_positions(rows: Seq<Seq<bool>>, sb: Seq<bool>, vs: Seq<usize>, skip: int)
    requires
        vs == ones_of(sb),
        sb.len() <= usize::MAX,
        skip == vs.len(),
    ensures
        (forall|x: int, y: int| 0 <= x < y < vs.len() && x != skip && y != skip ==> #[trigger] rows[vs[x] as int][vs[y] as int])
            == is_clique_set(rows, sb),
{
    let p = |i: usize| (i as int) < sb.len() && sb[i as int];
    lemma_idx_filter(p, sb.len());
    if forall|x: int, y: int| 0 <= x < y < vs.len() && x != skip && y != skip ==> #[trigger] rows[vs[x] as int][vs[y] as int] {
        assert forall|u: int, v: int| 0 <= u < v < sb.len() && sb[u] && sb[v] implies #[trigger] rows[u][v] by {
            lemma_idx_filter_contains(p, sb.len(), u as usize);
            lemma_idx_filter_contains(p, sb.len(), v as usize);
            let x = choose|x: int| 0 <= x < vs.len() && vs[x] == u as usize;
            let y = choose|y: int| 0 <= y < vs.len() && vs[y] == v as usize;
            if y < x {
                assert(vs[y] < vs[x]);
            }
            assert(x != y);
            assert(rows[vs[x] as int][vs[y] as int]);
        }
    }
}

/// The same with one listed member skipped.
proof fn lemma_clique_positions_skip(rows: Seq<Seq<bool>>, sb: Seq<bool>, vs: Seq<usize>, skip: int)
    requires
        vs == ones_of(sb),
        sb.len() <= usize::MAX,
        0 <= skip < vs.len(),
    ensures
        (forall|x: int, y: int| 0 <= x < y < vs.len() && x != skip && y != skip ==> #[trigger] rows[vs[x] as int][vs[y] as int])
            == clique_without(rows, sb, vs[skip] as int),
{
    let p = |i: usize| (i as int) < sb.len() && sb[i as int];
    lemma_idx_filter(p, sb.len());
    if forall|x: int, y: int| 0 <= x < y < vs.len() && x != skip && y != skip ==> #[trigger] rows[vs[x] as int][vs[y] as int] {
        assert forall|u: int, v: int|
            0 <= u < v < sb.len() && sb[u] && sb[v] && u != vs[skip] as int && v != vs[skip] as int implies #[trigger] rows[u][v] by {
            lemma_idx_filter_contains(p, sb.len(), u as usize);
            lemma_idx_filter_contains(p, sb.len(), v as usize);
            let x = choose|x: int| 0 <= x < vs.len() && vs[x] == u as usize;
            let y = choose|y: int| 0 <= y < vs.len() && vs[y] == v as usize;
            if y < x {
                assert(vs[y] < vs[x]);
            }
            assert(x != y);
            assert(rows[vs[x] as int][vs[y] as int]);
        }
    }
    if clique_without(rows, sb, vs[skip] as int) {
        assert forall|x: int, y: int| 0 <= x < y < vs.len() && x != skip && y != skip implies #[trigger] rows[vs[x] as int][vs[y] as int] by {
            assert(p(vs[x]));
            assert(p(vs[y]));
            assert(vs[x] < vs[y]);
            assert(vs[x] != vs[skip]);
            assert(vs[y] != vs[skip]);
        }
    }
}

impl BGraph {
    /// The subgraph induced on `verts`, its members relabelled densely in
    /// ascending order.
    fn induced_on(&self, verts: &fixedbitset::FixedBitSet) -> (r: BGraph)
        requires
            self.wf(),
            fbs_bits(*verts).len() == self.size(),
        ensures
            r.wf(),
            r.size() == ones_of(fbs_bits(*verts)).len(),
            r.size() == count_true(fbs_bits(*verts)),
            forall|i: int, j: int|
                0 <= i < r.size() && 0 <= j < r.size() ==> #[trigger] r.rows()[i][j] == self.rows()[ones_of(
                    fbs_bits(*verts),
                )[i] as int][ones_of(fbs_bits(*verts))[j] as int],
    {
        let ghost vb = fbs_bits(*verts);
        let ghost rows = self.rows();
        let idx = fbs_ones(verts);
        proof {
            lemma_idx_filter(|i: usize| (i as int) < vb.len() && vb[i as int], vb.len());
            crate::bitset::lemma_ones_of_count(vb);
        }
        let n = self.n;
        let m = idx.len();
        let mut map: Vec<usize> = Vec::new();
        let mut i: usize = 0;
        while i < n
            invariant
                i <= n,
                map.len() == i,
            decreases n - i,
        {
            map.push(usize::MAX);
            i += 1;
        }
        let mut k: usize = 0;
        while k < m
            invariant
                map.len() == n,
                m == idx.len(),
                k <= m,
                crate::seqs::strictly_increasing(idx@),
                forall|t: int| 0 <= t < m ==> #[trigger] idx[t] < n,
                forall|t: int| 0 <= t < k ==> #[trigger] map[idx[t] as int] == t,
            decreases m - k,
        {
            map.set(idx[k], k);
            proof {
                assert forall|t: int| 0 <= t < k + 1 implies #[trigger] map[idx[t] as int] == t by {
                    if t < k {
                        assert(idx[t] < idx[k as int]);
                    }
                }
            }
            k += 1;
        }
        proof {
            crate::seqs::lemma_count_true_le(vb);
            assert(m * m <= n * n) by (nonlinear_arith)
                requires
                    m <= n,
            ;
        }
        let mut adj: Vec<fixedbitset::FixedBitSet> = Vec::new();
        let mut a: usize = 0;
        while a < m
            invariant
                self.wf(),
                rows == self.rows(),
                vb == fbs_bits(*verts),
                vb.len() == n,
                n == self.n,
                idx@ == ones_of(vb),
                m == idx.len(),
                m <= n,
                map.len() == n,
                crate::seqs::strictly_increasing(idx@),
                forall|t: int| 0 <= t < m ==> #[trigger] idx[t] < n,
                forall|t: int| 0 <= t < m ==> #[trigger] map[idx[t] as int] == t,
                a <= m,
                adj.len() == a,
                forall|x: int| 0 <= x < a ==> (#[trigger] fbs_bits(adj[x])).len() == m,
                forall|x: int, y: int|
                    0 <= x < a && 0 <= y < m ==> #[trigger] fbs_bits(adj[x])[y] == rows[idx[x] as int][idx[y] as int],
            decreases m - a,
        {
            let old = idx[a];
            let nbs = fbs_ones(&self.adj[old]);
            let ghost row = rows[old as int];
            proof {
                assert(row == fbs_bits(self.adj[old as int]));
                lemma_idx_filter(|i: usize| (i as int) < row.len() && row[i as int], row.len());
            }
            let mut rowb = fbs_with_capacity(m);
            let mut t: usize = 0;
            while t < nbs.len()
                invariant
                    self.wf(),
                    rows == self.rows(),
                    vb == fbs_bits(*verts),
                    vb.len() == n,
                    n == self.n,
                    row == rows[old as int],
                    row.len() == n,
                    nbs@ == ones_of(row),
                    crate::seqs::strictly_increasing(nbs@),
                    forall|q: int| 0 <= q < nbs.len() ==> #[trigger] nbs[q] < n,
                    idx@ == ones_of(vb),
                    m == idx.len(),
                    map.len() == n,
                    crate::seqs::strictly_increasing(idx@),
                    forall|q: int| 0 <= q < m ==> #[trigger] idx[q] < n,
                    forall|q: int| 0 <= q < m ==> #[trigger] map[idx[q] as int] == q,
                    t <= nbs.len(),
                    fbs_bits(rowb).len() == m,
                    forall|y: int| 0 <= y < m ==> #[trigger] fbs_bits(rowb)[y] == exists|q: int| 0 <= q < t && nbs[q] == idx[y],
                decreases nbs.len() - t,
            {
                let nb = nbs[t];
                if fbs_contains(verts, nb) {
                    proof {
                        lemma_idx_filter_contains(|i: usize| (i as int) < vb.len() && vb[i as int], vb.len(), nb);
                    }
                    let ghost pos = choose|q: int| 0 <= q < idx.len() && idx@[q] == nb;
                    assert(map[nb as int] == pos);
                    let j = map[nb];
                    fbs_insert(&mut rowb, j);
                    proof {
                        assert forall|y: int| 0 <= y < m implies #[trigger] fbs_bits(rowb)[y] == exists|q: int|
                            0 <= q < t + 1 && nbs[q] == idx[y] by {
                            if y == j {
                                assert(nbs[t as int] == idx[y]);
                            } else if nbs[t as int] == idx[y] {
                                if y < j {
                                    assert(idx[y] < idx[j as int]);
                                } else {
                                    assert(idx[j as int] < idx[y]);
                                }
                            }
                        }
                    }
                } else {
                    proof {
                        assert forall|y: int| 0 <= y < m implies #[trigger] fbs_bits(rowb)[y] == exists|q: int|
                            0 <= q < t + 1 && nbs[q] == idx[y] by {
                            if nbs[t as int] == idx[y] {
                                lemma_idx_filter(|i: usize| (i as int) < vb.len() && vb[i as int], vb.len());
                                assert(vb[idx[y] as int]);
                            }
                        }
                    }
                }
                t += 1;
            }
            proof {
                assert forall|y: int| 0 <= y < m implies #[trigger] fbs_bits(rowb)[y] == rows[old as int][idx[y] as int] by {
                    let p = |i: usize| (i as int) < row.len() && row[i as int];
                    if row[idx[y] as int] {
                        lemma_idx_filter_contains(p, row.len(), idx[y]);
                        let q = choose|q: int| 0 <= q < nbs.len() && nbs@[q] == idx[y];
                    }
                    if exists|q: int| 0 <= q < nbs.len() && nbs[q] == idx[y] {
                        let q = choose|q: int| 0 <= q < nbs.len() && nbs[q] == idx[y];
                        lemma_idx_filter_contains(p, row.len(), nbs[q]);
                    }
                }
            }
            adj.push(rowb);
            a += 1;
        }
        proof {
            assert forall|x: int, y: int| 0 <= x < m && 0 <= y < m implies #[trigger] fbs_bits(adj[x])[y] == #[trigger] fbs_bits(adj[y])[x] by {
                assert(rows[idx[x] as int] == fbs_bits(self.adj[idx[x] as int]));
                assert(rows[idx[y] as int] == fbs_bits(self.adj[idx[y] as int]));
            }
        }
        BGraph { n: m, adj }
    }

    /// Induced subgraph on `verts`, relabelled densely.
    fn induced_subgraph(&self, verts: &fixedbitset::FixedBitSet) -> (r: BGraph)
        requires
            self.wf(),
            fbs_bits(*verts).len() == self.size(),
        ensures
            r.wf(),
            r.size() == count_true(fbs_bits(*verts)),
            forall|i: int, j: int|
                0 <= i < r.size() && 0 <= j < r.size() ==> #[trigger] r.rows()[i][j] == self.rows()[ones_of(
                    fbs_bits(*verts),
                )[i] as int][ones_of(fbs_bits(*verts))[j] as int],
    {
        self.induced_on(verts)
    }

    /// Induced subgraph on `c ∪ s` with `s` completed into a clique.
    fn induced_with_clique(&self, c: &fixedbitset::FixedBitSet, s: &fixedbitset::FixedBitSet) -> (r: BGraph)
        requires
            self.wf(),
            fbs_bits(*c).len() == self.size(),
            fbs_bits(*s).len() == self.size(),
        ensures
            r.wf(),
            r.size() == count_true(Seq::new(self.size(), |i: int| fbs_bits(*c)[i] || fbs_bits(*s)[i])),
            ({
                let vs = ones_of(Seq::new(self.size(), |i: int| fbs_bits(*c)[i] || fbs_bits(*s)[i]));
                forall|i: int, j: int|
                    0 <= i < r.size() && 0 <= j < r.size() ==> #[trigger] r.rows()[i][j] == (self.rows()[vs[i] as int][vs[j] as int]
                        || (i != j && fbs_bits(*s)[vs[i] as int] && fbs_bits(*s)[vs[j] as int]))
            }),
    {
        let mut verts = fbs_clone(c);
        fbs_union_with(&mut verts, s);
        let ghost vb = fbs_bits(verts);
        let mut g = self.induced_on(&verts);
        let idx = fbs_ones(&verts);
        proof {
            lemma_idx_filter(|i: usize| (i as int) < vb.len() && vb[i as int], vb.len());
            crate::bitset::lemma_ones_of_count(vb);
        }
        let ghost base = g.rows();
        let m = idx.len();
        let mut a: usize = 0;
        while a < m
            invariant
                g.wf(),
                g.size() == m,
                m == idx.len(),
                idx@ == ones_of(vb),
                crate::seqs::strictly_increasing(idx@),
                forall|q: int| 0 <= q < m ==> #[trigger] idx[q] < self.size(),
                fbs_bits(*s).len() == self.size(),
                vb.len() == self.size(),
                a <= m,
                forall|i: int, j: int|
                    0 <= i < m && 0 <= j < m ==> #[trigger] g.rows()[i][j] == (base[i][j] || (i != j && (i < a || j < a)
                        && fbs_bits(*s)[idx[i] as int] && fbs_bits(*s)[idx[j] as int])),
            decreases m - a,
        {
            if fbs_contains(s, idx[a]) {
                let mut b: usize = 0;
                while b < m
                    invariant
                        g.wf(),
                        g.size() == m,
                        m == idx.len(),
                        forall|q: int| 0 <= q < m ==> #[trigger] idx[q] < self.size(),
                        fbs_bits(*s).len() == self.size(),
                        a < m,
                        fbs_bits(*s)[idx[a as int] as int],
                        b <= m,
                        forall|i: int, j: int|
                            0 <= i < m && 0 <= j < m ==> #[trigger] g.rows()[i][j] == (base[i][j] || (i != j && (i < a
                                || j < a || (i == a && j < b) || (j == a && i < b)) && fbs_bits(*s)[idx[i] as int]
                                && fbs_bits(*s)[idx[j] as int])),
                    decreases m - b,
                {
                    if b != a && fbs_contains(s, idx[b]) {
                        g.add_sym_edge(a, b);
                    }
                    b += 1;
                }
            }
            a += 1;
        }
        g
    }

    /// Make `a` and `b` adjacent (both directions).
    fn add_sym_edge(&mut self, a: usize, b: usize)
        requires
            old(self).wf(),
            a < old(self).size(),
            b < old(self).size(),
            a != b,
        ensures
            final(self).wf(),
            final(self).size() == old(self).size(),
            forall|i: int, j: int|
                0 <= i < old(self).size() && 0 <= j < old(self).size() ==> #[trigger] final(self).rows()[i][j] == (old(
                    self,
                ).rows()[i][j] || (i == a && j == b) || (i == b && j == a)),
    {
        let ghost r0 = self.rows();
        let mut ra = fbs_clone(&self.adj[a]);
        fbs_insert(&mut ra, b);
        self.adj.set(a, ra);
        let mut rb = fbs_clone(&self.adj[b]);
        fbs_insert(&mut rb, a);
        self.adj.set(b, rb);
        proof {
            assert forall|i: int, j: int| 0 <= i < self.n && 0 <= j < self.n implies #[trigger] self.rows()[i][j] == (r0[i][j]
                || (i == a && j == b) || (i == b && j == a)) by {
                assert(self.rows()[i] == fbs_bits(self.adj[i]));
            }
            assert forall|i: int, j: int| 0 <= i < self.n && 0 <= j < self.n implies #[trigger] fbs_bits(self.adj[i])[j]
                == #[trigger] fbs_bits(self.adj[j])[i] by {
                assert(self.rows()[i] == fbs_bits(self.adj[i]));
                assert(self.rows()[j] == fbs_bits(self.adj[j]));
                assert(r0[i] == fbs_bits(old(self).adj[i]));
                assert(r0[j] == fbs_bits(old(self).adj[j]));
                assert(self.rows()[i][j] == (r0[i][j] || (i == a && j == b) || (i == b && j == a)));
                assert(self.rows()[j][i] == (r0[j][i] || (j == a && i == b) || (j == b && i == a)));
            }
        }
    }
}

/// Number of `k` in `(i, j)` with `l[i]` and `l[k]` adjacent.
pub open spec fn row_pairs(adj: Seq<Seq<bool>>, l: Seq<usize>, i: int, j: int) -> nat
    decreases j - i,
{
    if j <= i + 1 {
        0
    } else {
        row_pairs(adj, l, i, j - 1) + if adj[l[i] as int][l[j - 1] as int] {
            1nat
        } else {
            0nat
        }
    }
}

/// Number of adjacent pairs `(l[i], l[k])`, `i < k`, with `i < a`.
pub open spec fn pairs_upto(adj: Seq<Seq<bool>>, l: Seq<usize>, a: int) -> nat
    decreases a,
{
    if a <= 0 {
        0
    } else {
        pairs_upto(adj, l, a - 1) + row_pairs(adj, l, a - 1, l.len() as int)
    }
}

/// `x (x - 1) / 2`.
pub open spec fn tri(x: int) -> int {
    x * (x - 1) / 2
}

proof fn lemma_row_pairs_le(adj: Seq<Seq<bool>>, l: Seq<usize>, i: int, j: int)
    requires
        i < j,
    ensures
        row_pairs(adj, l, i, j) <= j - i - 1,
    decreases j - i,
{
    if j > i + 1 {
        lemma_row_pairs_le(adj, l, i, j - 1);
    }
}

proof fn lemma_tri_step(x: int)
    requires
        x >= 1,
    ensures
        tri(x) - tri(x - 1) == x - 1,
        tri(x) >= 0,
{
    assert(x * (x - 1) == (x - 1) * (x - 2) + 2 * (x - 1)) by (nonlinear_arith);
    assert((x - 1) * (x - 2) >= 0) by (nonlinear_arith)
        requires
            x >= 1,
    ;
    assert(((x - 1) * (x - 2) + 2 * (x - 1)) / 2 == (x - 1) * (x - 2) / 2 + (x - 1)) by (nonlinear_arith)
        requires
            x >= 1,
    ;
}

proof fn lemma_pairs_upto_le(adj: Seq<Seq<bool>>, l: Seq<usize>, a: int)
    requires
        0 <= a <= l.len(),
    ensures
        pairs_upto(adj, l, a) <= tri(l.len() as int) - tri(l.len() - a),
    decreases a,
{
    let d = l.len() as int;
    if a > 0 {
        lemma_pairs_upto_le(adj, l, a - 1);
        lemma_row_pairs_le(adj, l, a - 1, d);
        lemma_tri_step(d - a + 1);
    }
}

/// Neighbours of `v` among the alive vertices of a working graph.
fn neighbors_of(adj: &Vec<fixedbitset::FixedBitSet>, alive: &fixedbitset::FixedBitSet, v: usize) -> (r: fixedbitset::FixedBitSet)
    requires
        v < adj.len(),
        fbs_bits(adj[v as int]).len() == fbs_bits(*alive).len(),
    ensures
        fbs_bits(r) == Seq::new(fbs_bits(*alive).len(), |i: int| fbs_bits(adj[v as int])[i] && fbs_bits(*alive)[i]),
{
    let mut r = fbs_clone(&adj[v]);
    fbs_intersect_with(&mut r, alive);
    r
}

/// Fill-in of eliminating `v` in a working graph: the non-adjacent pairs
/// among its alive neighbours.
fn fill_in_count(adj: &Vec<fixedbitset::FixedBitSet>, alive: &fixedbitset::FixedBitSet, v: usize) -> (r: usize)
    requires
        v < adj.len(),
        forall|u: int| 0 <= u < adj.len() ==> (#[trigger] fbs_bits(adj[u])).len() == fbs_bits(*alive).len(),
        fbs_bits(*alive).len() == adj.len(),
        adj.len() * adj.len() <= usize::MAX,
    ensures
        ({
            let l = ones_of(Seq::new(fbs_bits(*alive).len(), |i: int| fbs_bits(adj[v as int])[i] && fbs_bits(*alive)[i]));
            let rows = adj@.map_values(|b: fixedbitset::FixedBitSet| fbs_bits(b));
            r == if l.len() < 2 {
                0
            } else {
                tri(l.len() as int) - pairs_upto(rows, l, l.len() as int)
            }
        }),
{
    let ghost rows = adj@.map_values(|b: fixedbitset::FixedBitSet| fbs_bits(b));
    let nv = neighbors_of(adj, alive, v);
    let ghost nb = fbs_bits(nv);
    let list = fbs_ones(&nv);
    proof {
        lemma_idx_filter(|i: usize| (i as int) < nb.len() && nb[i as int], nb.len());
        crate::bitset::lemma_ones_of_count(nb);
        crate::seqs::lemma_count_true_le(nb);
    }
    let d = list.len();
    if d < 2 {
        return 0;
    }
    let mut existing: usize = 0;
    let mut i: usize = 0;
    proof {
        lemma_pairs_upto_le(rows, list@, d as int);
        lemma_tri_step(d as int);
        assert(tri(d as int) <= d * d) by (nonlinear_arith)
            requires
                d >= 1,
        ;
        assert(d * d <= adj.len() * adj.len()) by (nonlinear_arith)
            requires
                d <= adj.len(),
        ;
    }
    while i < d
        invariant
            rows == adj@.map_values(|b: fixedbitset::FixedBitSet| fbs_bits(b)),
            forall|u: int| 0 <= u < adj.len() ==> (#[trigger] fbs_bits(adj[u])).len() == fbs_bits(*alive).len(),
            fbs_bits(*alive).len() == adj.len(),
            d == list.len(),
            forall|q: int| 0 <= q < d ==> #[trigger] list[q] < adj.len(),
            i <= d,
            existing == pairs_upto(rows, list@, i as int),
            pairs_upto(rows, list@, d as int) <= tri(d as int),
            tri(d as int) <= usize::MAX,
            d * d <= usize::MAX,
        decreases d - i,
    {
        let mut j: usize = i + 1;
        proof {
            lemma_pairs_upto_mono(rows, list@, i + 1, d as int);
        }
        while j < d
            invariant
                rows == adj@.map_values(|b: fixedbitset::FixedBitSet| fbs_bits(b)),
                forall|u: int| 0 <= u < adj.len() ==> (#[trigger] fbs_bits(adj[u])).len() == fbs_bits(*alive).len(),
                fbs_bits(*alive).len() == adj.len(),
                d == list.len(),
                forall|q: int| 0 <= q < d ==> #[trigger] list[q] < adj.len(),
                i < d,
                i + 1 <= j <= d,
                existing == pairs_upto(rows, list@, i as int) + row_pairs(rows, list@, i as int, j as int),
                pairs_upto(rows, list@, i + 1) <= tri(d as int),
                tri(d as int) <= usize::MAX,
            decreases d - j,
        {
            proof {
                lemma_row_pairs_mono(rows, list@, i as int, j + 1, d as int);
                assert(rows[list[i as int] as int] == fbs_bits(adj[list[i as int] as int]));
            }
            if fbs_contains(&adj[list[i]], list[j]) {
                existing += 1;
            }
            j += 1;
        }
        i += 1;
    }
    assert(d * (d - 1) <= d * d) by (nonlinear_arith)
        requires
            d >= 2,
    ;
    d * (d - 1) / 2 - existing
}

proof fn lemma_row_pairs_mono(adj: Seq<Seq<bool>>, l: Seq<usize>, i: int, j: int, k: int)
    requires
        j <= k,
    ensures
        row_pairs(adj, l, i, j) <= row_pairs(adj, l, i, k),
    decreases k - j,
{
    if j < k {
        lemma_row_pairs_mono(adj, l, i, j, k - 1);
    }
}

proof fn lemma_pairs_upto_mono(adj: Seq<Seq<bool>>, l: Seq<usize>, a: int, b: int)
    requires
        a <= b,
    ensures
        pairs_upto(adj, l, a) <= pairs_upto(adj, l, b),
    decreases b - a,
{
    if a < b {
        lemma_pairs_upto_mono(adj, l, a, b - 1);
    }
}

/// Joining every pair of members of the strictly increasing listing `l` of
/// the set `c` gives `fill_rows`.
proof fn lemma_fill_rows(rows: Seq<Seq<bool>>, c: Seq<bool>, l: Seq<usize>, n: int)
    requires
        0 <= n <= usize::MAX,
        rows.len() == n,
        c.len() == n,
        forall|x: int| 0 <= x < n ==> (#[trigger] rows[x]).len() == n,
        crate::seqs::strictly_increasing(l),
        forall|q: int| 0 <= q < l.len() ==> #[trigger] l[q] < n && c[l[q] as int],
        forall|u: usize| (u as int) < n && c[u as int] ==> l.contains(u),
    ensures
        forall|x: int, y: int|
            0 <= x < n && 0 <= y < n ==> (#[trigger] fill_rows(rows, c)[x][y] == (rows[x][y] || pair_done(
                l,
                l.len() as int,
                (l.len() + 1) as int,
                x,
                y,
            ))),
{
    assert forall|x: int, y: int| 0 <= x < n && 0 <= y < n implies (#[trigger] fill_rows(rows, c)[x][y] == (rows[x][y]
        || pair_done(l, l.len() as int, (l.len() + 1) as int, x, y))) by {
        if c[x] && c[y] && x != y {
            let xu = x as usize;
            let yu = y as usize;
            assert(xu as int == x && yu as int == y);
            assert(l.contains(xu));
            assert(l.contains(yu));
            let p = choose|p: int| 0 <= p < l.len() && l[p] == x as usize;
            let q = choose|q: int| 0 <= q < l.len() && l[q] == y as usize;
            if p < q {
                assert(pair_done(l, l.len() as int, (l.len() + 1) as int, x, y));
            } else {
                assert(p != q);
                assert(pair_done(l, l.len() as int, (l.len() + 1) as int, x, y));
            }
        }
        if pair_done(l, l.len() as int, (l.len() + 1) as int, x, y) {
            let (p, q) = choose|p: int, q: int|
                #![trigger l[p], l[q]]
                0 <= p < q < l.len() && (p < l.len() || (p == l.len() && q < l.len() + 1)) && ((x == l[p] && y == l[q]) || (x
                    == l[q] && y == l[p]));
            assert(l[p] < l[q]);
        }
    }
}

/// Every row of a working graph has `n` bits.
pub open spec fn rows_wf(adj: Seq<fixedbitset::FixedBitSet>, n: nat) -> bool {
    adj.len() == n && forall|u: int| 0 <= u < n ==> (#[trigger] fbs_bits(adj[u])).len() == n
}

/// Set bit `b` of row `a`.
fn set_adj(adj: &mut Vec<fixedbitset::FixedBitSet>, a: usize, b: usize)
    requires
        rows_wf(old(adj)@, old(adj).len() as nat),
        a < old(adj).len(),
        b < old(adj).len(),
    ensures
        rows_wf(final(adj)@, old(adj).len() as nat),
        forall|u: int| 0 <= u < old(adj).len() && u != a ==> #[trigger] final(adj)[u] == old(adj)[u],
        fbs_bits(final(adj)[a as int]) == fbs_bits(old(adj)[a as int]).update(b as int, true),
{
    let mut row = fbs_clone(&adj[a]);
    fbs_insert(&mut row, b);
    adj.set(a, row);
}

/// The alive neighbours of `v` in a working graph.
pub open spec fn nbr_bits(rows: Seq<Seq<bool>>, alive: Seq<bool>, v: int) -> Seq<bool> {
    Seq::new(alive.len(), |i: int| rows[v][i] && alive[i])
}

/// The fill-in of eliminating `v`: the non-adjacent pairs among its alive
/// neighbours.
pub open spec fn fill_of(rows: Seq<Seq<bool>>, alive: Seq<bool>, v: int) -> int {
    let l = ones_of(nbr_bits(rows, alive, v));
    if l.len() < 2 {
        0
    } else {
        tri(l.len() as int) - pairs_upto(rows, l, l.len() as int)
    }
}

/// The scan of vertices `0..u` for the first alive vertex of least fill-in,
/// with its fill-in.
pub open spec fn mf_pick(rows: Seq<Seq<bool>>, alive: Seq<bool>, u: int) -> Option<(int, int)>
    decreases u,
{
    if u <= 0 {
        None
    } else {
        let prev = mf_pick(rows, alive, u - 1);
        if alive[u - 1] {
            let f = fill_of(rows, alive, u - 1);
            match prev {
                None => Some((u - 1, f)),
                Some((_, bf)) => if f < bf {
                    Some((u - 1, f))
                } else {
                    prev
                },
            }
        } else {
            prev
        }
    }
}

/// The working graph after turning the set `c` into a clique.
pub open spec fn fill_rows(rows: Seq<Seq<bool>>, c: Seq<bool>) -> Seq<Seq<bool>> {
    Seq::new(rows.len(), |x: int| Seq::new(rows[x].len(), |y: int| rows[x][y] || (c[x] && c[y] && x != y)))
}

/// One min-fill step on `n` vertices: the working graph and alive set after
/// eliminating the picked vertex, and its alive neighbourhood.
pub open spec fn mf_next(rows: Seq<Seq<bool>>, alive: Seq<bool>, n: int) -> (Seq<Seq<bool>>, Seq<bool>, Seq<bool>) {
    match mf_pick(rows, alive, n) {
        Some((v, _)) => {
            let c = nbr_bits(rows, alive, v);
            (fill_rows(rows, c), alive.update(v, false), c)
        },
        None => (rows, alive, Seq::new(n as nat, |i: int| false)),
    }
}

/// The working graph and alive set after `k` min-fill steps.
pub open spec fn mf_state(rows: Seq<Seq<bool>>, alive: Seq<bool>, n: int, k: int) -> (Seq<Seq<bool>>, Seq<bool>)
    decreases k,
{
    if k <= 0 {
        (rows, alive)
    } else {
        let st = mf_state(rows, alive, n, k - 1);
        let nx = mf_next(st.0, st.1, n);
        (nx.0, nx.1)
    }
}

/// The candidate set of step `k` of the min-fill run from `rows` with every
/// vertex alive.
pub open spec fn mf_cand(rows: Seq<Seq<bool>>, n: int, k: int) -> Seq<bool> {
    let st = mf_state(rows, Seq::new(n as nat, |i: int| true), n, k);
    mf_next(st.0, st.1, n).2
}

/// The candidate sets of the whole min-fill run on `n` vertices.
pub open spec fn mf_cands(rows: Seq<Seq<bool>>, n: int) -> Seq<Seq<bool>> {
    Seq::new(n as nat, |c: int| mf_cand(rows, n, c))
}

/// Pair `(p, q)` of `l` (with `p < q`) is handled before position `(a, b)`,
/// and `{u, w}` is that pair.
pub open spec fn pair_done(l: Seq<usize>, a: int, b: int, u: int, w: int) -> bool {
    exists|p: int, q: int|
        #![trigger l[p], l[q]]
        0 <= p < q < l.len() && (p < a || (p == a && q < b)) && ((u == l[p] && w == l[q]) || (u == l[q] && w == l[p]))
}

impl BGraph {
    /// Candidate separators from a min-fill elimination: the alive
    /// neighbourhood of each eliminated vertex in the filled graph, in
    /// elimination order (the first vertex of least fill-in goes first).
    fn min_fill_neighborhoods(&self) -> (r: Vec<fixedbitset::FixedBitSet>)
        requires
            self.wf(),
        ensures
            r.len() == self.size(),
            forall|c: int| 0 <= c < r.len() ==> (#[trigger] fbs_bits(r[c])).len() == self.size(),
            forall|c: int| 0 <= c < r.len() ==> #[trigger] fbs_bits(r[c]) == mf_cand(self.rows(), self.size() as int, c),
    {
        let n = self.n;
        let ghost rows0 = self.rows();
        let ghost all = Seq::new(n as nat, |i: int| true);
        let mut adj: Vec<fixedbitset::FixedBitSet> = Vec::new();
        let mut i: usize = 0;
        while i < n
            invariant
                self.wf(),
                n == self.n,
                rows0 == self.rows(),
                i <= n,
                adj.len() == i,
                forall|u: int| 0 <= u < i ==> (#[trigger] fbs_bits(adj[u])).len() == n,
                forall|u: int| 0 <= u < i ==> #[trigger] fbs_bits(adj[u]) == rows0[u],
            decreases n - i,
        {
            adj.push(fbs_clone(&self.adj[i]));
            i += 1;
        }
        proof {
            assert(sets_of(adj@) =~= rows0);
        }
        let mut alive = fbs_with_capacity(n);
        let mut v: usize = 0;
        while v < n
            invariant
                v <= n,
                fbs_bits(alive) == Seq::new(n as nat, |i: int| i < v),
            decreases n - v,
        {
            fbs_insert(&mut alive, v);
            v += 1;
            proof {
                assert(fbs_bits(alive) =~= Seq::new(n as nat, |i: int| i < v));
            }
        }
        proof {
            assert(fbs_bits(alive) =~= all);
            assert(count_true(fbs_bits(alive)) == n) by {
                lemma_count_all(n as nat);
            }
        }
        let mut cands: Vec<fixedbitset::FixedBitSet> = Vec::new();
        loop
            invariant
                n == self.n,
                n * n <= usize::MAX,
                rows0 == self.rows(),
                all == Seq::new(n as nat, |i: int| true),
                rows_wf(adj@, n as nat),
                fbs_bits(alive).len() == n,
                forall|c: int| 0 <= c < cands.len() ==> (#[trigger] fbs_bits(cands[c])).len() == n,
                cands.len() + count_true(fbs_bits(alive)) == n,
                mf_state(rows0, all, n as int, cands.len() as int) == (sets_of(adj@), fbs_bits(alive)),
                forall|c: int| 0 <= c < cands.len() ==> #[trigger] fbs_bits(cands[c]) == mf_cand(rows0, n as int, c),
            ensures
                cands.len() == n,
                forall|c: int| 0 <= c < cands.len() ==> (#[trigger] fbs_bits(cands[c])).len() == n,
                forall|c: int| 0 <= c < cands.len() ==> #[trigger] fbs_bits(cands[c]) == mf_cand(rows0, n as int, c),
            decreases count_true(fbs_bits(alive)),
        {
            let ghost rows = sets_of(adj@);
            let ghost al = fbs_bits(alive);
            let ghost k = cands.len() as int;
            let mut best: Option<(usize, usize)> = None;
            let mut u: usize = 0;
            while u < n
                invariant
                    n == self.n,
                    n * n <= usize::MAX,
                    rows_wf(adj@, n as nat),
                    rows == sets_of(adj@),
                    al == fbs_bits(alive),
                    fbs_bits(alive).len() == n,
                    u <= n,
                    best matches Some(b) ==> b.0 < n && fbs_bits(alive)[b.0 as int],
                    best is None ==> forall|w: int| 0 <= w < u ==> !fbs_bits(alive)[w],
                    match best {
                        None => mf_pick(rows, al, u as int) is None,
                        Some((bv, bf)) => mf_pick(rows, al, u as int) == Some((bv as int, bf as int)),
                    },
                decreases n - u,
            {
                if fbs_contains(&alive, u) {
                    let fill = fill_in_count(&adj, &alive, u);
                    proof {
                        assert(nbr_bits(rows, al, u as int) =~= Seq::new(
                            fbs_bits(alive).len(),
                            |i: int| fbs_bits(adj[u as int])[i] && fbs_bits(alive)[i],
                        ));
                        assert(fill == fill_of(rows, al, u as int));
                    }
                    match best {
                        None => {
                            best = Some((u, fill));
                        },
                        Some((_, bf)) => {
                            if fill < bf {
                                best = Some((u, fill));
                            }
                        },
                    }
                }
                u += 1;
            }
            let v = match best {
                None => {
                    proof {
                        assert(fbs_bits(alive) =~= Seq::new(n as nat, |i: int| false));
                        lemma_count_none(n as nat);
                    }
                    break;
                },
                Some((v, _)) => v,
            };
            let nv = neighbors_of(&adj, &alive, v);
            let ghost cb = fbs_bits(nv);
            proof {
                assert(cb =~= nbr_bits(rows, al, v as int));
            }
            let nv_list = fbs_ones(&nv);
            proof {
                lemma_idx_filter(|i: usize| (i as int) < cb.len() && cb[i as int], cb.len());
            }
            let ghost l = nv_list@;
            cands.push(fbs_clone(&nv));
            let mut a: usize = 0;
            while a < nv_list.len()
                invariant
                    rows_wf(adj@, n as nat),
                    l == nv_list@,
                    rows.len() == n,
                    forall|x: int| 0 <= x < n ==> (#[trigger] rows[x]).len() == n,
                    forall|q: int| 0 <= q < nv_list.len() ==> #[trigger] nv_list[q] < n,
                    a <= nv_list.len(),
                    forall|x: int, y: int|
                        0 <= x < n && 0 <= y < n ==> #[trigger] fbs_bits(adj[x])[y] == (rows[x][y] || pair_done(
                            l,
                            a as int,
                            (a + 1) as int,
                            x,
                            y,
                        )),
                decreases nv_list.len() - a,
            {
                let mut b: usize = a + 1;
                proof {
                    assert forall|x: int, y: int| 0 <= x < n && 0 <= y < n implies #[trigger] fbs_bits(adj[x])[y] == (
                    rows[x][y] || pair_done(l, a as int, b as int, x, y)) by {
                        if pair_done(l, a as int, (a + 1) as int, x, y) {
                            let (p, q) = choose|p: int, q: int|
                                #![trigger l[p], l[q]]
                                0 <= p < q < l.len() && (p < a || (p == a && q < a + 1)) && ((x == l[p] && y == l[q]) || (x
                                    == l[q] && y == l[p]));
                            assert(pair_done(l, a as int, b as int, x, y));
                        }
                        if pair_done(l, a as int, b as int, x, y) {
                            let (p, q) = choose|p: int, q: int|
                                #![trigger l[p], l[q]]
                                0 <= p < q < l.len() && (p < a || (p == a && q < b)) && ((x == l[p] && y == l[q]) || (x
                                    == l[q] && y == l[p]));
                            assert(pair_done(l, a as int, (a + 1) as int, x, y));
                        }
                    }
                }
                while b < nv_list.len()
                    invariant
                        rows_wf(adj@, n as nat),
                        l == nv_list@,
                        rows.len() == n,
                        forall|x: int| 0 <= x < n ==> (#[trigger] rows[x]).len() == n,
                        forall|q: int| 0 <= q < nv_list.len() ==> #[trigger] nv_list[q] < n,
                        a < nv_list.len(),
                        a + 1 <= b <= nv_list.len(),
                        forall|x: int, y: int|
                            0 <= x < n && 0 <= y < n ==> #[trigger] fbs_bits(adj[x])[y] == (rows[x][y] || pair_done(
                                l,
                                a as int,
                                b as int,
                                x,
                                y,
                            )),
                    decreases nv_list.len() - b,
                {
                    let x = nv_list[a];
                    let y = nv_list[b];
                    let ghost a0 = adj@;
                    set_adj(&mut adj, x, y);
                    let ghost a1 = adj@;
                    set_adj(&mut adj, y, x);
                    proof {
                        assert forall|xx: int, yy: int| 0 <= xx < n && 0 <= yy < n implies #[trigger] fbs_bits(adj[xx])[yy] == (
                        rows[xx][yy] || pair_done(l, a as int, b + 1, xx, yy)) by {
                            let is_new = (xx == x && yy == y) || (xx == y && yy == x);
                            if is_new {
                                assert(l[a as int] == x && l[b as int] == y);
                                assert(pair_done(l, a as int, b + 1, xx, yy));
                            } else {
                                assert(fbs_bits(adj[xx])[yy] == fbs_bits(a0[xx])[yy]) by {
                                    if xx == y {
                                    } else if xx == x {
                                        assert(a1[xx] == adj[xx]);
                                    } else {
                                        assert(a1[xx] == a0[xx]);
                                    }
                                }
                                if pair_done(l, a as int, b + 1, xx, yy) {
                                    let (p, q) = choose|p: int, q: int|
                                        #![trigger l[p], l[q]]
                                        0 <= p < q < l.len() && (p < a || (p == a && q < b + 1)) && ((xx == l[p] && yy
                                            == l[q]) || (xx == l[q] && yy == l[p]));
                                    assert(pair_done(l, a as int, b as int, xx, yy));
                                }
                                if pair_done(l, a as int, b as int, xx, yy) {
                                    let (p, q) = choose|p: int, q: int|
                                        #![trigger l[p], l[q]]
                                        0 <= p < q < l.len() && (p < a || (p == a && q < b)) && ((xx == l[p] && yy
                                            == l[q]) || (xx == l[q] && yy == l[p]));
                                    assert(pair_done(l, a as int, b + 1, xx, yy));
                                }
                            }
                        }
                    }
                    b += 1;
                }
                a += 1;
            }
            proof {
                assert forall|q: int| 0 <= q < l.len() implies #[trigger] l[q] < n && cb[l[q] as int] by {}
                lemma_fill_rows(rows, cb, l, n as int);
                assert(sets_of(adj@) =~= fill_rows(rows, cb)) by {
                    assert forall|x: int| 0 <= x < n implies #[trigger] sets_of(adj@)[x] =~= fill_rows(rows, cb)[x] by {
                        assert forall|y: int| 0 <= y < n implies sets_of(adj@)[x][y] == fill_rows(rows, cb)[x][y] by {
                            assert(fbs_bits(adj[x])[y] == (rows[x][y] || pair_done(l, l.len() as int, (l.len() + 1) as int, x, y)));
                        }
                    }
                }
                crate::seqs::lemma_count_true_set(fbs_bits(alive).update(v as int, false), v as int);
                assert(fbs_bits(alive).update(v as int, false).update(v as int, true) =~= fbs_bits(alive));
            }
            fbs_set(&mut alive, v, false);
            proof {
                assert(mf_next(rows, al, n as int) == (fill_rows(rows, cb), al.update(v as int, false), cb));
                assert(mf_state(rows0, all, n as int, k + 1) == (sets_of(adj@), fbs_bits(alive)));
                assert(fbs_bits(cands[k]) == mf_cand(rows0, n as int, k));
            }
        }
        cands
    }

    /// Is `s` a minimal separator (at least two full components)?
    fn is_minimal_separator(&self, s: &fixedbitset::FixedBitSet) -> (r: bool)
        requires
            self.wf(),
            fbs_bits(*s).len() == self.size(),
        ensures
            exists|comps: Seq<Seq<bool>>|
                #[trigger] is_split(self.rows(), fbs_bits(*s), comps) && r == (comps.filter(
                    is_full(self.rows(), fbs_bits(*s)),
                ).len() >= 2),
    {
        let fc = self.full_components(s);
        fc.len() >= 2
    }

    /// A safe separator, with the parts of `G - S`: a clique separator or an
    /// almost-clique minimal separator among the vertex neighbourhoods and
    /// the min-fill candidates ([`mf_cands`]) (the first that qualifies, duplicates
    /// skipped).
    fn safe_separator(&self) -> (r: Option<(fixedbitset::FixedBitSet, Vec<fixedbitset::FixedBitSet>)>)
        requires
            self.wf(),
        ensures
            r matches Some((s, comps)) ==> {
                &&& fbs_bits(s).len() == self.size()
                &&& is_split(self.rows(), fbs_bits(s), sets_of(comps@))
                &&& comps.len() >= 2
                &&& count_true(fbs_bits(s)) < self.size()
                &&& is_clique_set(self.rows(), fbs_bits(s)) || is_almost_clique_set(self.rows(), fbs_bits(s))
            },
            exists|mf: Seq<Seq<bool>>|
                #![trigger self.rows() + mf]
                mf == mf_cands(self.rows(), self.size() as int) && mf.len() == self.size() && (forall|c: int|
                    0 <= c < mf.len() ==> (#[trigger] mf[c]).len() == self.size())
                    && (r is None ==> forall|q: int| 0 <= q < (self.rows() + mf).len() ==> #[trigger] sep_fails(
                    self.rows(),
                    (self.rows() + mf)[q],
                )) && (r matches Some((s, comps)) ==> exists|q: int|
                    0 <= q < (self.rows() + mf).len() && (self.rows() + mf)[q] == fbs_bits(s) && forall|p: int|
                        0 <= p < q ==> #[trigger] sep_fails(self.rows(), (self.rows() + mf)[p])),
    {
        let ghost rows = self.rows();
        let mut cands: Vec<fixedbitset::FixedBitSet> = Vec::new();
        let mut v: usize = 0;
        while v < self.n
            invariant
                self.wf(),
                rows == self.rows(),
                v <= self.n,
                forall|c: int| 0 <= c < cands.len() ==> (#[trigger] fbs_bits(cands[c])).len() == self.size(),
                cands.len() == v,
                sets_of(cands@) == rows.take(v as int),
            decreases self.n - v,
        {
            let ghost before = sets_of(cands@);
            let ghost cv = cands@;
            cands.push(fbs_clone(&self.adj[v]));
            proof {
                assert(sets_of(cands@)[v as int] == fbs_bits(cands@[v as int]));
                assert(rows[v as int] == fbs_bits(self.adj@[v as int]));
                assert forall|q: int| 0 <= q < v implies sets_of(cands@)[q] == before[q] by {
                    assert(cands@[q] == cv[q]);
                }
                assert(sets_of(cands@) =~= rows.take(v + 1));
            }
            v += 1;
        }
        let mf = self.min_fill_neighborhoods();
        let ghost mfb = sets_of(mf@);
        proof {
            assert(rows.take(self.n as int) =~= rows);
        }
        let mut t: usize = 0;
        while t < mf.len()
            invariant
                self.wf(),
                rows == self.rows(),
                t <= mf.len(),
                mfb == sets_of(mf@),
                forall|c: int| 0 <= c < mf.len() ==> (#[trigger] fbs_bits(mf[c])).len() == self.size(),
                forall|c: int| 0 <= c < cands.len() ==> (#[trigger] fbs_bits(cands[c])).len() == self.size(),
                cands.len() == self.n + t,
                rows.len() == self.n,
                sets_of(cands@) == rows + mfb.take(t as int),
            decreases mf.len() - t,
        {
            let ghost before = sets_of(cands@);
            let ghost cv = cands@;
            let cl = fbs_clone(&mf[t]);
            cands.push(cl);
            proof {
                assert(fbs_bits(cl) == mfb[t as int]);
                assert(cands@[before.len() as int] == cl);
                assert(sets_of(cands@).len() == before.len() + 1);
                assert(sets_of(cands@)[before.len() as int] == fbs_bits(cl));
                assert(mfb.len() == mf.len());
                assert((rows + mfb.take(t + 1)).len() == before.len() + 1);
                assert((rows + mfb.take(t + 1))[before.len() as int] == mfb[t as int]);
                assert forall|q: int| 0 <= q < before.len() implies (rows + mfb.take(t + 1))[q] == before[q] by {
                    if q >= rows.len() {
                        assert(mfb.take(t + 1)[q - rows.len()] == mfb.take(t as int)[q - rows.len()]);
                    }
                }
                assert(sets_of(cands@)[before.len() as int] == fbs_bits(cands@[before.len() as int]));
                assert(mfb[t as int] == fbs_bits(mf@[t as int]));
                assert forall|q: int| 0 <= q < before.len() implies sets_of(cands@)[q] == before[q] by {
                    assert(cands@[q] == cv[q]);
                }
                assert forall|q: int| 0 <= q < before.len() + 1 implies #[trigger] sets_of(cands@)[q] == (rows + mfb.take(t + 1))[q] by {
                    if q < before.len() {
                        assert(sets_of(cands@)[q] == before[q]);
                        assert((rows + mfb.take(t + 1))[q] == before[q]);
                    }
                }
                assert(sets_of(cands@) =~= rows + mfb.take(t + 1));
            }
            t += 1;
        }
        let ghost cb = sets_of(cands@);
        let ghost mfs = mfb;
        proof {
            assert(mfb.take(mf.len() as int) =~= mfb);
            assert forall|c: int| 0 <= c < mfb.len() implies #[trigger] mfb[c] == mf_cands(rows, self.n as int)[c] by {
                assert(mfb[c] == fbs_bits(mf[c]));
            }
            assert(mfb =~= mf_cands(rows, self.n as int));
            assert(cb == rows + mfb);
            assert forall|c: int| 0 <= c < mfb.len() implies (#[trigger] mfb[c]).len() == self.size() by {
                assert(mfb[c] == fbs_bits(mf[c]));
            }
        }
        let mut seen: Vec<fixedbitset::FixedBitSet> = Vec::new();
        let mut i: usize = 0;
        while i < cands.len()
            invariant
                self.wf(),
                rows == self.rows(),
                cb == sets_of(cands@),
                i <= cands.len(),
                forall|c: int| 0 <= c < cands.len() ==> (#[trigger] fbs_bits(cands[c])).len() == self.size(),
                forall|p: int| 0 <= p < i ==> #[trigger] sep_fails(rows, cb[p]),
                forall|x: Seq<bool>| #[trigger] sets_of(seen@).contains(x) ==> sep_fails(rows, x),
                cb == rows + mfs,
                mfs == mf_cands(rows, self.n as int),
                mfs.len() == self.size(),
                forall|c: int| 0 <= c < mfs.len() ==> (#[trigger] mfs[c]).len() == self.size(),
            decreases cands.len() - i,
        {
            let s = &cands[i];
            let ghost sb = fbs_bits(*s);
            let ghost idx = i as int;
            assert(cb[i as int] == sb);
            i += 1;
            if contains_set(&seen, s) {
                continue;
            }
            if fbs_count_ones(s) >= self.n {
                proof {
                    assert(sep_fails(rows, sb));
                }
                let cl = fbs_clone(s);
                proof {
                    lemma_push_fails(seen@, cl, rows);
                }
                seen.push(cl);
                continue;
            }
            let comps = self.components(s);
            if comps.len() < 2 {
                proof {
                    assert(is_split(rows, sb, sets_of(comps@)));
                    assert(sep_fails(rows, sb));
                }
                let cl = fbs_clone(s);
                proof {
                    lemma_push_fails(seen@, cl, rows);
                }
                seen.push(cl);
                continue;
            }
            if self.is_clique(s) {
                let res = fbs_clone(s);
                proof {
                    assert((rows + mfs)[idx] == fbs_bits(res));
                }
                return Some((res, comps));
            }
            if self.is_almost_clique(s) && self.is_minimal_separator(s) {
                let res = fbs_clone(s);
                proof {
                    assert((rows + mfs)[idx] == fbs_bits(res));
                }
                return Some((res, comps));
            }
            proof {
                assert(is_split(rows, sb, sets_of(comps@)));
                if is_almost_clique_set(rows, sb) {
                    let c2 = choose|comps2: Seq<Seq<bool>>|
                        #[trigger] is_split(rows, sb, comps2) && (comps2.filter(is_full(rows, sb)).len() < 2);
                    assert(minsep_fails(rows, sb));
                }
                assert(sep_fails(rows, sb));
            }
            let cl = fbs_clone(s);
            proof {
                lemma_push_fails(seen@, cl, rows);
            }
            seen.push(cl);
        }
        None
    }
}

/// Some split of `G - s` has fewer than two full components.
pub open spec fn minsep_fails(adj: Seq<Seq<bool>>, s: Seq<bool>) -> bool {
    exists|comps: Seq<Seq<bool>>| #[trigger] is_split(adj, s, comps) && comps.filter(is_full(adj, s)).len() < 2
}

/// The candidate `s` is no safe separator: it takes every vertex, or
/// (for the split found of `G - s`) it leaves fewer than two parts, or it
/// is neither a clique nor an almost clique, or it is an almost clique
/// (not a clique) that is not a minimal separator.
pub open spec fn sep_fails(adj: Seq<Seq<bool>>, s: Seq<bool>) -> bool {
    ||| count_true(s) >= adj.len()
    ||| exists|comps: Seq<Seq<bool>>|
        #[trigger] is_split(adj, s, comps) && (comps.len() < 2 || (!is_clique_set(adj, s)
            && !is_almost_clique_set(adj, s)) || (!is_clique_set(adj, s) && minsep_fails(adj, s)))
}

proof fn lemma_push_fails(seen: Seq<fixedbitset::FixedBitSet>, x: fixedbitset::FixedBitSet, adj: Seq<Seq<bool>>)
    requires
        forall|y: Seq<bool>| #[trigger] sets_of(seen).contains(y) ==> sep_fails(adj, y),
        sep_fails(adj, fbs_bits(x)),
    ensures
        forall|y: Seq<bool>| #[trigger] sets_of(seen.push(x)).contains(y) ==> sep_fails(adj, y),
{
    assert(sets_of(seen.push(x)) =~= sets_of(seen).push(fbs_bits(x)));
    assert forall|y: Seq<bool>| #[trigger] sets_of(seen.push(x)).contains(y) implies sep_fails(adj, y) by {
        let k = choose|k: int| 0 <= k < sets_of(seen.push(x)).len() && sets_of(seen.push(x))[k] == y;
        if k < seen.len() {
            assert(sets_of(seen).contains(sets_of(seen)[k]));
        }
    }
}

/// Is a set equal to `x` in `list`?
fn contains_set(list: &Vec<fixedbitset::FixedBitSet>, x: &fixedbitset::FixedBitSet) -> (r: bool)
    ensures
        r == sets_of(list@).contains(fbs_bits(*x)),
{
    let mut i: usize = 0;
    while i < list.len()
        invariant
            i <= list.len(),
            forall|q: int| 0 <= q < i ==> fbs_bits(#[trigger] list[q]) != fbs_bits(*x),
        decreases list.len() - i,
    {
        if fbs_eq(&list[i], x) {
            proof {
                assert(sets_of(list@)[i as int] == fbs_bits(*x));
            }
            return true;
        }
        i += 1;
    }
    proof {
        if sets_of(list@).contains(fbs_bits(*x)) {
            let q = choose|q: int| 0 <= q < list.len() && sets_of(list@)[q] == fbs_bits(*x);
            assert(fbs_bits(list[q]) == fbs_bits(*x));
        }
    }
    false
}

proof fn lemma_count_all(n: nat)
    ensures
        count_true(Seq::new(n, |i: int| true)) == n,
    decreases n,
{
    if n > 0 {
        assert(Seq::new(n, |i: int| true).drop_last() =~= Seq::new((n - 1) as nat, |i: int| true));
        lemma_count_all((n - 1) as nat);
    }
}

proof fn lemma_count_none(n: nat)
    ensures
        count_true(Seq::new(n, |i: int| false)) == 0,
    decreases n,
{
    if n > 0 {
        assert(Seq::new(n, |i: int| false).drop_last() =~= Seq::new((n - 1) as nat, |i: int| false));
        lemma_count_none((n - 1) as nat);
    }
}

impl BGraph {
    /// The crib of `s` with respect to `k` (`s ⊂ k`): `k \ s` plus every
    /// part of `G - k` whose neighbourhood meets `k \ s`.
    fn crib(&self, s: &fixedbitset::FixedBitSet, k: &fixedbitset::FixedBitSet) -> (r: fixedbitset::FixedBitSet)
        requires
            self.wf(),
            fbs_bits(*s).len() == self.size(),
            fbs_bits(*k).len() == self.size(),
        ensures
            fbs_bits(r).len() == self.size(),
            exists|comps: Seq<Seq<bool>>|
                #[trigger] is_split(self.rows(), fbs_bits(*k), comps) && forall|j: int|
                    0 <= j < self.size() ==> #[trigger] fbs_bits(r)[j] == ((fbs_bits(*k)[j] && !fbs_bits(*s)[j])
                        || exists|c: int|
                        0 <= c < comps.len() && comps[c][j] && !disjoint(
                            nbhd(self.rows(), comps[c]),
                            Seq::new(self.size(), |i: int| fbs_bits(*k)[i] && !fbs_bits(*s)[i]),
                        )),
    {
        let ghost kb = fbs_bits(*k);
        let ghost sb = fbs_bits(*s);
        let ghost rows = self.rows();
        let mut result = fbs_clone(k);
        fbs_difference_with(&mut result, s);
        let k_minus_s = fbs_clone(&result);
        let ghost kms = fbs_bits(k_minus_s);
        assert(kms =~= Seq::new(self.size(), |i: int| kb[i] && !sb[i]));
        let comps = self.components(k);
        let ghost cs = sets_of(comps@);
        let mut i: usize = 0;
        while i < comps.len()
            invariant
                self.wf(),
                rows == self.rows(),
                kb == fbs_bits(*k),
                kb.len() == self.size(),
                kms == fbs_bits(k_minus_s),
                kms.len() == self.size(),
                cs == sets_of(comps@),
                is_split(rows, kb, cs),
                i <= comps.len(),
                fbs_bits(result).len() == self.size(),
                forall|j: int|
                    0 <= j < self.size() ==> #[trigger] fbs_bits(result)[j] == (kms[j] || exists|c: int|
                        0 <= c < i && cs[c][j] && !disjoint(nbhd(rows, cs[c]), kms)),
            decreases comps.len() - i,
        {
            assert(cs[i as int] == fbs_bits(comps[i as int]));
            let nc = self.neighborhood(&comps[i]);
            if !fbs_is_disjoint(&nc, &k_minus_s) {
                let ghost before = fbs_bits(result);
                fbs_union_with(&mut result, &comps[i]);
                proof {
                    assert(!disjoint(nbhd(rows, cs[i as int]), kms));
                    assert forall|j: int| 0 <= j < self.size() implies #[trigger] fbs_bits(result)[j] == (kms[j] || exists|c: int|
                        0 <= c < i + 1 && cs[c][j] && !disjoint(nbhd(rows, cs[c]), kms)) by {
                        if cs[i as int][j] {
                        }
                    }
                }
            } else {
                proof {
                    assert(disjoint(nbhd(rows, cs[i as int]), kms));
                }
            }
            i += 1;
        }
        result
    }

    /// Is part `c` outbound: no full component of `N(c)` has a member
    /// below the lowest member of `c`? (`c` must be non-empty.)
    fn is_outbound(&self, c: &fixedbitset::FixedBitSet) -> (r: bool)
        requires
            self.wf(),
            fbs_bits(*c).len() == self.size(),
            nonempty(fbs_bits(*c)),
        ensures
            exists|comps: Seq<Seq<bool>>, m: int|
                #![trigger is_split(self.rows(), nbhd(self.rows(), fbs_bits(*c)), comps), lowest(fbs_bits(*c), m)]
                is_split(self.rows(), nbhd(self.rows(), fbs_bits(*c)), comps) && lowest(fbs_bits(*c), m)
                    && r == forall|e: int, j: int|
                    0 <= e < comps.filter(is_full(self.rows(), nbhd(self.rows(), fbs_bits(*c)))).len() && 0 <= j
                        < m ==> !#[trigger] comps.filter(is_full(self.rows(), nbhd(self.rows(), fbs_bits(*c))))[e][j],
    {
        let s = self.neighborhood(c);
        let m = match fbs_minimum(c) {
            Some(m) => m,
            None => {
                proof {
                    let w = choose|w: int| 0 <= w < fbs_bits(*c).len() && fbs_bits(*c)[w];
                }
                0
            },
        };
        let fc = self.full_components(&s);
        let ghost comps = choose|comps: Seq<Seq<bool>>|
            #[trigger] is_split(self.rows(), fbs_bits(s), comps) && sets_of(fc@) == comps.filter(
                is_full(self.rows(), fbs_bits(s)),
            );
        let ghost f = sets_of(fc@);
        proof {
            lemma_filter_members(comps, is_full(self.rows(), fbs_bits(s)));
        }
        let mut i: usize = 0;
        while i < fc.len()
            invariant
                f == sets_of(fc@),
                f == comps.filter(is_full(self.rows(), nbhd(self.rows(), fbs_bits(*c)))),
                lowest(fbs_bits(*c), m as int),
                is_split(self.rows(), nbhd(self.rows(), fbs_bits(*c)), comps),
                i <= fc.len(),
                m < self.size(),
                forall|e: int| 0 <= e < f.len() ==> (#[trigger] f[e]).len() == self.size(),
                forall|e: int, j: int| 0 <= e < i && 0 <= j < m ==> !#[trigger] f[e][j],
            decreases fc.len() - i,
        {
            assert(f[i as int] == fbs_bits(fc[i as int]));
            match fbs_minimum(&fc[i]) {
                Some(em) => {
                    if em < m {
                        proof {
                            assert(f[i as int][em as int]);
                            assert(lowest(fbs_bits(*c), m as int));
                            assert(is_split(self.rows(), nbhd(self.rows(), fbs_bits(*c)), comps));
                        }
                        return false;
                    }
                },
                None => {},
            }
            i += 1;
        }
        proof {
            assert(lowest(fbs_bits(*c), m as int));
            assert(is_split(self.rows(), nbhd(self.rows(), fbs_bits(*c)), comps));
        }
        true
    }

    /// The outlet of `k`: the neighbourhood of an inclusion-maximal
    /// outbound non-full part of `G - k`, or the empty set if none exists.
    fn outlet(&self, k: &fixedbitset::FixedBitSet) -> (r: fixedbitset::FixedBitSet)
        requires
            self.wf(),
            fbs_bits(*k).len() == self.size(),
        ensures
            fbs_bits(r).len() == self.size(),
            is_outlet(self.rows(), fbs_bits(*k), fbs_bits(r)),
    {
        let ghost rows = self.rows();
        let ghost kb = fbs_bits(*k);
        let comps = self.components(k);
        let ghost cs = sets_of(comps@);
        let ghost mut ob: Seq<bool> = Seq::empty();
        let mut best: Option<fixedbitset::FixedBitSet> = None;
        let mut i: usize = 0;
        while i < comps.len()
            invariant
                self.wf(),
                rows == self.rows(),
                kb == fbs_bits(*k),
                kb.len() == self.size(),
                cs == sets_of(comps@),
                is_split(rows, kb, cs),
                i <= comps.len(),
                ob.len() == i,
                forall|q: int| 0 <= q < i && nbhd(rows, cs[q]) != kb ==> #[trigger] outbound_ok(rows, cs[q], ob[q]),
                opt_bits(best) == outlet_pick(rows, kb, cs, ob, i as nat),
                best matches Some(b) ==> fbs_bits(b).len() == self.size(),
            decreases comps.len() - i,
        {
            assert(cs[i as int] == fbs_bits(comps[i as int]));
            let nc = self.neighborhood(&comps[i]);
            let full = fbs_eq(&nc, k);
            let mut outb = false;
            if !full {
                outb = self.is_outbound(&comps[i]);
                proof {
                    let (c2, m) = choose|comps2: Seq<Seq<bool>>, m: int|
                        #![trigger is_split(rows, nbhd(rows, cs[i as int]), comps2), lowest(cs[i as int], m)]
                        is_split(rows, nbhd(rows, cs[i as int]), comps2) && lowest(cs[i as int], m)
                            && outb == outbound_as(rows, cs[i as int], comps2, m);
                    assert(outbound_ok(rows, cs[i as int], outb));
                }
            }
            let ghost ob0 = ob;
            proof {
                ob = ob.push(outb);
                assert(ob.subrange(0, i as int) =~= ob0);
                lemma_outlet_pick_prefix(rows, kb, cs, ob0, ob, i as nat);
            }
            if !full && outb {
                match &best {
                    None => {
                        best = Some(nc);
                    },
                    Some(b) => {
                        if fbs_is_superset(&nc, b) {
                            best = Some(nc);
                        }
                    },
                }
            }
            i += 1;
        }
        let r = match best {
            Some(b) => b,
            None => fbs_with_capacity(self.n),
        };
        proof {
            assert(fbs_bits(r) == outlet_of(rows, kb, cs, ob));
        }
        r
    }

    /// The parts of `G - k` whose neighbourhood is not inside `outlet(k)`.
    fn support(&self, k: &fixedbitset::FixedBitSet) -> (r: Vec<fixedbitset::FixedBitSet>)
        requires
            self.wf(),
            fbs_bits(*k).len() == self.size(),
        ensures
            forall|c: int| 0 <= c < r.len() ==> (#[trigger] fbs_bits(r[c])).len() == self.size(),
            exists|comps: Seq<Seq<bool>>, o: Seq<bool>|
                #![trigger is_split(self.rows(), fbs_bits(*k), comps), is_outlet(self.rows(), fbs_bits(*k), o)]
                is_split(self.rows(), fbs_bits(*k), comps) && is_outlet(self.rows(), fbs_bits(*k), o)
                    && sets_of(r@) == comps.filter(leaks(self.rows(), o)),
    {
        let outlet = self.outlet(k);
        let comps = self.components(k);
        let ghost cs = sets_of(comps@);
        let ghost o = fbs_bits(outlet);
        let ghost f = leaks(self.rows(), o);
        let mut r: Vec<fixedbitset::FixedBitSet> = Vec::new();
        let mut i: usize = 0;
        while i < comps.len()
            invariant
                self.wf(),
                fbs_bits(*k).len() == self.size(),
                fbs_bits(outlet).len() == self.size(),
                o == fbs_bits(outlet),
                f == leaks(self.rows(), o),
                cs == sets_of(comps@),
                is_split(self.rows(), fbs_bits(*k), cs),
                i <= comps.len(),
                forall|c: int| 0 <= c < r.len() ==> (#[trigger] fbs_bits(r[c])).len() == self.size(),
                sets_of(r@) == cs.take(i as int).filter(f),
            decreases comps.len() - i,
        {
            assert(cs[i as int] == fbs_bits(comps[i as int]));
            let nc = self.neighborhood(&comps[i]);
            proof {
                reveal(Seq::filter);
                assert(cs.take(i + 1).drop_last() =~= cs.take(i as int));
                assert(cs.take(i + 1).last() == cs[i as int]);
                assert(f(cs[i as int]) == !bits_le(fbs_bits(nc), o));
            }
            if !fbs_is_subset(&nc, &outlet) {
                let ghost before = sets_of(r@);
                r.push(fbs_clone(&comps[i]));
                proof {
                    assert(sets_of(r@) =~= before.push(cs[i as int]));
                }
            }
            i += 1;
        }
        proof {
            assert(cs.take(comps.len() as int) =~= cs);
        }
        r
    }
}

/// Every member of `a` is in `b`.
pub open spec fn bits_le(a: Seq<bool>, b: Seq<bool>) -> bool {
    forall|i: int| 0 <= i < a.len() && a[i] ==> b[i]
}

/// `c`'s neighbourhood reaches outside `o`.
pub open spec fn leaks(adj: Seq<Seq<bool>>, o: Seq<bool>) -> spec_fn(Seq<bool>) -> bool {
    |c: Seq<bool>| !bits_le(nbhd(adj, c), o)
}

/// No full component of `N(c)`, in the split `comps` of `G - N(c)`, has a
/// member below `m`.
pub open spec fn outbound_as(adj: Seq<Seq<bool>>, c: Seq<bool>, comps: Seq<Seq<bool>>, m: int) -> bool {
    forall|e: int, j: int|
        0 <= e < comps.filter(is_full(adj, nbhd(adj, c))).len() && 0 <= j < m ==> !#[trigger] comps.filter(
            is_full(adj, nbhd(adj, c)),
        )[e][j]
}

/// `b` is the outbound test of the part `c`, relative to some split of
/// `G - N(c)` and the lowest member of `c`.
pub open spec fn outbound_ok(adj: Seq<Seq<bool>>, c: Seq<bool>, b: bool) -> bool {
    exists|comps: Seq<Seq<bool>>, m: int|
        #![trigger is_split(adj, nbhd(adj, c), comps), lowest(c, m)]
        is_split(adj, nbhd(adj, c), comps) && lowest(c, m) && b == outbound_as(adj, c, comps, m)
}

/// The bits of an optional set.
pub open spec fn opt_bits(b: Option<fixedbitset::FixedBitSet>) -> Option<Seq<bool>> {
    match b {
        Some(x) => Some(fbs_bits(x)),
        None => None,
    }
}

/// The neighbourhood kept after scanning the first `i` parts `comps` of
/// `G - k` (with outbound flags `ob`): each non-full outbound part's
/// neighbourhood replaces the kept one when it contains it.
pub open spec fn outlet_pick(adj: Seq<Seq<bool>>, k: Seq<bool>, comps: Seq<Seq<bool>>, ob: Seq<bool>, i: nat) -> Option<Seq<bool>>
    decreases i,
{
    if i == 0 {
        None
    } else {
        let prev = outlet_pick(adj, k, comps, ob, (i - 1) as nat);
        let nc = nbhd(adj, comps[i - 1]);
        if nc != k && ob[i - 1] {
            match prev {
                None => Some(nc),
                Some(b) => if bits_le(b, nc) {
                    Some(nc)
                } else {
                    prev
                },
            }
        } else {
            prev
        }
    }
}

/// The outlet chosen from the split `comps` with outbound flags `ob`
/// (the empty set when no part qualifies).
pub open spec fn outlet_of(adj: Seq<Seq<bool>>, k: Seq<bool>, comps: Seq<Seq<bool>>, ob: Seq<bool>) -> Seq<bool> {
    match outlet_pick(adj, k, comps, ob, comps.len()) {
        Some(b) => b,
        None => Seq::new(k.len(), |i: int| false),
    }
}

/// `o` is an outlet of `k`.
pub open spec fn is_outlet(adj: Seq<Seq<bool>>, k: Seq<bool>, o: Seq<bool>) -> bool {
    exists|comps: Seq<Seq<bool>>, ob: Seq<bool>|
        #![trigger outlet_of(adj, k, comps, ob)]
        is_split(adj, k, comps) && ob.len() == comps.len() && (forall|q: int|
            0 <= q < comps.len() && nbhd(adj, comps[q]) != k ==> #[trigger] outbound_ok(adj, comps[q], ob[q]))
            && o == outlet_of(adj, k, comps, ob)
}

/// The scan up to `i` reads only the first `i` flags.
proof fn lemma_outlet_pick_prefix(adj: Seq<Seq<bool>>, k: Seq<bool>, comps: Seq<Seq<bool>>, a: Seq<bool>, b: Seq<bool>, i: nat)
    requires
        i <= a.len(),
        i <= b.len(),
        forall|q: int| 0 <= q < i ==> a[q] == b[q],
    ensures
        outlet_pick(adj, k, comps, a, i) == outlet_pick(adj, k, comps, b, i),
    decreases i,
{
    if i > 0 {
        lemma_outlet_pick_prefix(adj, k, comps, a, b, (i - 1) as nat);
    }
}

// ---------------------------------------------------------------------
// Block sieves.

/// Marks a missing child in the sieve trie.
pub const NO_CHILD: usize = usize::MAX;

/// A block sieve: a trie over the vertices `0..n` (a node at depth `v`
/// decides vertex `v`; a node at depth `n` is a leaf that may hold a
/// stored set), answering superset queries `U ⊆ A` with
/// `|N(U) ∪ N(A)| <= k + 1`, pruned by a margin on `|N(U)|` along the path.
struct BlockSieve {
    n: usize,
    k: usize,
    margin: usize,
    vertex: Vec<usize>,
    include_child: Vec<usize>,
    exclude_child: Vec<usize>,
    stored: Vec<Option<fixedbitset::FixedBitSet>>,
    /// The bits decided on the path from the root to each node.
    prefix: Ghost<Seq<Seq<bool>>>,
}

impl BlockSieve {
    /// The trie shape: children one level deeper, each node labelled by the
    /// distinct path of bits that leads to it, every path prefix of a node
    /// present, child links exactly where a one-bit extension exists, and
    /// each stored set equal to its leaf's path.
    spec fn wf(&self) -> bool {
        let len = self.vertex.len();
        let pre = self.prefix@;
        &&& len >= 1
        &&& self.include_child.len() == len
        &&& self.exclude_child.len() == len
        &&& self.stored.len() == len
        &&& pre.len() == len
        &&& self.vertex[0] == 0
        &&& self.n < NO_CHILD
        &&& forall|i: int| 0 <= i < len ==> #[trigger] self.vertex[i] <= self.n
        &&& forall|i: int| 0 <= i < len ==> (#[trigger] pre[i]).len() == self.vertex[i]
        &&& forall|i: int|
            0 <= i < len && #[trigger] self.include_child[i] != NO_CHILD ==> self.include_child[i] < len
                && self.vertex[self.include_child[i] as int] == self.vertex[i] + 1
                && pre[self.include_child[i] as int] == pre[i].push(true)
        &&& forall|i: int|
            0 <= i < len && #[trigger] self.exclude_child[i] != NO_CHILD ==> self.exclude_child[i] < len
                && self.vertex[self.exclude_child[i] as int] == self.vertex[i] + 1
                && pre[self.exclude_child[i] as int] == pre[i].push(false)
        &&& forall|i: int, c: int|
            0 <= i < len && 0 <= c < len && #[trigger] pre[c] == #[trigger] pre[i].push(true) ==> self.include_child[i] == c
        &&& forall|i: int, c: int|
            0 <= i < len && 0 <= c < len && #[trigger] pre[c] == #[trigger] pre[i].push(false) ==> self.exclude_child[i] == c
        &&& forall|i: int, j: int| 0 <= i < len && 0 <= j < len && #[trigger] pre[i] == #[trigger] pre[j] ==> i == j
        &&& forall|i: int, d: int|
            0 <= i < len && 0 <= d <= self.vertex[i] ==> #[trigger] self.has_node(pre[i].take(d))
        &&& forall|i: int|
            0 <= i < len && (#[trigger] self.stored[i]) is Some ==> self.vertex[i] == self.n && fbs_bits(
                self.stored[i]->0,
            ) == pre[i]
    }

    /// Some node has path `p`.
    spec fn has_node(&self, p: Seq<bool>) -> bool {
        exists|j: int| 0 <= j < self.prefix@.len() && #[trigger] self.prefix@[j] == p
    }

    /// The stored sets.
    spec fn contents(&self) -> Set<Seq<bool>> {
        Set::new(
            |x: Seq<bool>|
                exists|i: int|
                    0 <= i < self.stored.len() && (#[trigger] self.stored[i]) is Some && fbs_bits(self.stored[i]->0) == x,
        )
    }

    fn new(n: usize, k: usize, margin: usize) -> (r: Self)
        requires
            n < NO_CHILD,
        ensures
            r.wf(),
            r.n == n,
            r.k == k,
            r.margin == margin,
            r.contents() == Set::<Seq<bool>>::empty(),
    {
        let mut vertex: Vec<usize> = Vec::new();
        vertex.push(0);
        let mut include_child: Vec<usize> = Vec::new();
        include_child.push(NO_CHILD);
        let mut exclude_child: Vec<usize> = Vec::new();
        exclude_child.push(NO_CHILD);
        let mut stored: Vec<Option<fixedbitset::FixedBitSet>> = Vec::new();
        stored.push(None);
        let ghost pre: Seq<Seq<bool>> = seq![Seq::empty()];
        let r = BlockSieve { n, k, margin, vertex, include_child, exclude_child, stored, prefix: Ghost(pre) };
        proof {
            assert forall|i: int, c: int|
                0 <= i < 1 && 0 <= c < 1 && #[trigger] pre[c] == #[trigger] pre[i].push(true) implies r.include_child[i] == c by {
                assert(pre[c].len() != pre[i].push(true).len());
            }
            assert forall|i: int, c: int|
                0 <= i < 1 && 0 <= c < 1 && #[trigger] pre[c] == #[trigger] pre[i].push(false) implies r.exclude_child[i] == c by {
                assert(pre[c].len() != pre[i].push(false).len());
            }
            assert forall|i: int, d: int| 0 <= i < 1 && 0 <= d <= r.vertex[i] implies #[trigger] r.has_node(pre[i].take(d)) by {
                assert(pre[i].take(d) =~= pre[0]);
                assert(r.prefix@[0] == pre[i].take(d));
            }
            assert(r.contents() =~= Set::<Seq<bool>>::empty());
        }
        r
    }

    /// Store `a`, following (and growing) the path of its bits. The trie
    /// has room for the path unless it already holds nearly `usize::MAX`
    /// nodes; with room, `a` joins the stored sets.
    fn store(&mut self, a: &fixedbitset::FixedBitSet)
        requires
            old(self).wf(),
            fbs_bits(*a).len() == old(self).n,
        ensures
            final(self).wf(),
            final(self).n == old(self).n,
            final(self).k == old(self).k,
            final(self).margin == old(self).margin,
            final(self).contents().subset_of(old(self).contents().insert(fbs_bits(*a))),
            old(self).contents().subset_of(final(self).contents()),
            old(self).vertex.len() + old(self).n < NO_CHILD ==> final(self).contents() == old(self).contents().insert(
                fbs_bits(*a),
            ),
    {
        let ghost ab = fbs_bits(*a);
        let ghost len0 = self.vertex.len();
        let mut idx: usize = 0;
        proof {
            assert(self.prefix@[0].len() == 0);
            assert(self.prefix@[0] =~= ab.take(0));
        }
        loop
            invariant
                self.wf(),
                self.n == old(self).n,
                self.k == old(self).k,
                self.margin == old(self).margin,
                ab == fbs_bits(*a),
                ab.len() == self.n,
                idx < self.vertex.len(),
                len0 == old(self).vertex.len(),
                self.prefix@[idx as int] == ab.take(self.vertex[idx as int] as int),
                self.vertex.len() <= len0 + self.vertex[idx as int],
                self.contents() == old(self).contents(),
            decreases self.n - self.vertex[idx as int],
        {
            let v = self.vertex[idx];
            if v >= self.n {
                let ghost before = self.contents();
                let ghost st0 = self.stored@;
                let ghost sv0 = *self;
                let cl = fbs_clone(a);
                self.stored.set(idx, Some(cl));
                proof {
                    assert(v == self.n);
                    assert(self.prefix@[idx as int] =~= ab);
                    assert forall|x: Seq<bool>| #[trigger] self.contents().contains(x) implies before.insert(ab).contains(x) by {
                        let i = choose|i: int|
                            0 <= i < self.stored.len() && (#[trigger] self.stored[i]) is Some && fbs_bits(self.stored[i]->0) == x;
                        if i != idx {
                            assert(self.stored[i] == st0[i]);
                        }
                    }
                    assert forall|x: Seq<bool>| before.insert(ab).contains(x) implies #[trigger] self.contents().contains(x) by {
                        if x == ab {
                            assert(self.stored[idx as int] is Some && fbs_bits(self.stored[idx as int]->0) == x);
                        } else {
                            let i = choose|i: int| 0 <= i < st0.len() && (#[trigger] st0[i]) is Some && fbs_bits(st0[i]->0) == x;
                            if i == idx {
                                assert(fbs_bits(st0[i]->0) == self.prefix@[i]);
                            }
                            assert(self.stored[i] == st0[i]);
                        }
                    }
                    assert(self.contents() =~= before.insert(ab));
                    assert forall|i: int|
                        0 <= i < self.vertex.len() && (#[trigger] self.stored[i]) is Some implies self.vertex[i] == self.n
                            && fbs_bits(self.stored[i]->0) == self.prefix@[i] by {
                        if i != idx {
                            assert(self.stored[i] == st0[i]);
                        }
                    }
                    assert(self.prefix@ == sv0.prefix@);
                    assert forall|i: int, d: int|
                        0 <= i < self.vertex.len() && 0 <= d <= self.vertex[i] implies #[trigger] self.has_node(self.prefix@[i].take(d)) by {
                        assert(sv0.has_node(sv0.prefix@[i].take(d)));
                        let j = choose|j: int| 0 <= j < sv0.prefix@.len() && #[trigger] sv0.prefix@[j] == sv0.prefix@[i].take(d);
                        assert(self.prefix@[j] == self.prefix@[i].take(d));
                    }
                }
                return;
            }
            let take = fbs_contains(a, v);
            let child = if take {
                self.include_child[idx]
            } else {
                self.exclude_child[idx]
            };
            if child != NO_CHILD {
                proof {
                    assert(ab.take(v + 1) =~= ab.take(v as int).push(take));
                }
                idx = child;
            } else {
                let new_idx = self.vertex.len();
                if new_idx >= NO_CHILD {
                    // a trie of NO_CHILD nodes cannot be allocated
                    return;
                }
                let ghost s0 = *self;
                let ghost np = ab.take(v + 1);
                proof {
                    assert(np =~= self.prefix@[idx as int].push(take));
                }
                self.vertex.push(v + 1);
                self.include_child.push(NO_CHILD);
                self.exclude_child.push(NO_CHILD);
                self.stored.push(None);
                self.prefix = Ghost(self.prefix@.push(np));
                if take {
                    self.include_child.set(idx, new_idx);
                } else {
                    self.exclude_child.set(idx, new_idx);
                }
                proof {
                    lemma_sieve_grow(s0, *self, idx as int, take);
                }
                idx = new_idx;
            }
        }
    }

    /// The stored sets below node `idx` that a query for `u` (with
    /// `N(U) = nu`), entered at `idx` with margin count `i`, reports.
    spec fn hits(&self, adj: Seq<Seq<bool>>, u: Seq<bool>, nu: Seq<bool>, idx: int, i: int) -> Set<Seq<bool>> {
        Set::new(
            |a: Seq<bool>|
                self.contents().contains(a) && a.take(self.vertex[idx] as int) == self.prefix@[idx] && sieve_hit(
                    adj,
                    u,
                    nu,
                    self.k as int,
                    self.margin as int,
                    a,
                    i,
                    self.vertex[idx] as int,
                ),
        )
    }

    /// Append every stored `A` with `U ⊆ A` and `|N(U) ∪ N(A)| <= k + 1`
    /// (subject to the margin pruning) to `out`.
    fn query(&self, g: &BGraph, u: &fixedbitset::FixedBitSet, n_u: &fixedbitset::FixedBitSet, out: &mut Vec<fixedbitset::FixedBitSet>)
        requires
            self.wf(),
            g.wf(),
            self.n == g.size(),
            self.k < usize::MAX,
            fbs_bits(*u).len() == g.size(),
            fbs_bits(*n_u).len() == g.size(),
            forall|c: int| 0 <= c < old(out).len() ==> (#[trigger] fbs_bits(old(out)[c])).len() == g.size(),
        ensures
            forall|c: int| 0 <= c < final(out).len() ==> (#[trigger] fbs_bits(final(out)[c])).len() == g.size(),
            final(out).len() >= old(out).len(),
            final(out)@.subrange(0, old(out).len() as int) == old(out)@,
            added_sets(old(out)@, final(out)@) == Set::new(
                |a: Seq<bool>|
                    self.contents().contains(a) && sieve_hit(
                        g.rows(),
                        fbs_bits(*u),
                        fbs_bits(*n_u),
                        self.k as int,
                        self.margin as int,
                        a,
                        0,
                        0,
                    ),
            ),
            new_part(old(out)@, final(out)@).no_duplicates(),
            fbs_bits(*n_u) == nbhd(g.rows(), fbs_bits(*u)) && (forall|a: Seq<bool>|
                #[trigger] self.contents().contains(a) ==> self.k + 1 - count_true(nbhd(g.rows(), a)) <= self.margin)
                ==> added_sets(old(out)@, final(out)@) == Set::new(
                |a: Seq<bool>|
                    self.contents().contains(a) && bits_le(fbs_bits(*u), a) && count_true(
                        bits_or(fbs_bits(*n_u), nbhd(g.rows(), a)),
                    ) <= self.k + 1,
            ),
    {
        self.query_rec(g, 0, u, n_u, out, 0);
        proof {
            let h = self.hits(g.rows(), fbs_bits(*u), fbs_bits(*n_u), 0, 0);
            assert(self.vertex[0] == 0);
            assert forall|a: Seq<bool>| true implies a.take(0) == self.prefix@[0] by {
                assert(a.take(0) =~= self.prefix@[0]);
            }
            let ub = fbs_bits(*u);
            let nb = fbs_bits(*n_u);
            let rows = g.rows();
            if nb == nbhd(rows, ub) && (forall|a: Seq<bool>|
                #[trigger] self.contents().contains(a) ==> self.k + 1 - count_true(nbhd(rows, a)) <= self.margin) {
                let plain = Set::new(
                    |a: Seq<bool>|
                        self.contents().contains(a) && bits_le(ub, a) && count_true(bits_or(nb, nbhd(rows, a)))
                            <= self.k + 1,
                );
                assert forall|a: Seq<bool>| #[trigger] h.contains(a) == plain.contains(a) by {
                    if self.contents().contains(a) {
                        self.lemma_stored_node(a, 0);
                        if bits_le(ub, a) && count_true(bits_or(nb, nbhd(rows, a))) <= self.k + 1 {
                            lemma_extra_le(ub, nb, a, rows, a.len() as int);
                            assert(a.take(a.len() as int) =~= a);
                            assert(nbhd(rows, a).take(a.len() as int) =~= nbhd(rows, a));
                            assert(bits_or(nb, nbhd(rows, a)).take(a.len() as int) =~= bits_or(nb, nbhd(rows, a)));
                        }
                        if h.contains(a) {
                            assert forall|i: int| 0 <= i < ub.len() && ub[i] implies a[i] by {}
                        }
                    }
                }
                assert(h =~= plain);
            }
        }
    }

    fn query_rec(
        &self,
        g: &BGraph,
        idx: usize,
        u: &fixedbitset::FixedBitSet,
        n_u: &fixedbitset::FixedBitSet,
        out: &mut Vec<fixedbitset::FixedBitSet>,
        i: usize,
    )
        requires
            self.wf(),
            g.wf(),
            self.n == g.size(),
            self.k < usize::MAX,
            idx < self.vertex.len(),
            i <= self.vertex[idx as int],
            fbs_bits(*u).len() == g.size(),
            fbs_bits(*n_u).len() == g.size(),
            forall|c: int| 0 <= c < old(out).len() ==> (#[trigger] fbs_bits(old(out)[c])).len() == g.size(),
        ensures
            forall|c: int| 0 <= c < final(out).len() ==> (#[trigger] fbs_bits(final(out)[c])).len() == g.size(),
            final(out).len() >= old(out).len(),
            final(out)@.subrange(0, old(out).len() as int) == old(out)@,
            added_sets(old(out)@, final(out)@) == self.hits(g.rows(), fbs_bits(*u), fbs_bits(*n_u), idx as int, i as int),
            new_part(old(out)@, final(out)@).no_duplicates(),
        decreases self.n - self.vertex[idx as int],
    {
        let ghost rows = g.rows();
        let ghost ub = fbs_bits(*u);
        let ghost nb = fbs_bits(*n_u);
        let ghost h = self.hits(rows, ub, nb, idx as int, i as int);
        let ghost o0 = out@;
        if i > self.margin {
            proof {
                lemma_added_none(o0);
                assert forall|a: Seq<bool>| !h.contains(a) by {
                    if h.contains(a) {
                        lemma_extra_nonneg(ub, nb, a, self.vertex[idx as int] as int, self.n as int);
                    }
                }
                assert(h =~= Set::<Seq<bool>>::empty());
                assert(out@.subrange(0, o0.len() as int) =~= o0);
                assert(new_part(o0, out@).len() == 0);
            }
            return;
        }
        let v = self.vertex[idx];
        if v >= self.n {
            proof {
                self.lemma_leaf_hits(rows, ub, nb, idx as int, i as int);
            }
            match &self.stored[idx] {
                Some(a) => {
                    let n_a = g.neighborhood(a);
                    let mut un = fbs_clone(n_u);
                    fbs_union_with(&mut un, &n_a);
                    proof {
                        assert(fbs_bits(un) =~= bits_or(nb, nbhd(rows, fbs_bits(*a))));
                    }
                    if fbs_count_ones(&un) <= self.k + 1 {
                        let cl = fbs_clone(a);
                        out.push(cl);
                        proof {
                            lemma_added_one(o0, cl);
                            assert(h =~= set![fbs_bits(*a)]);
                        }
                    } else {
                        proof {
                            lemma_added_none(o0);
                            assert(h =~= Set::<Seq<bool>>::empty());
                        }
                    }
                },
                None => {
                    proof {
                        lemma_added_none(o0);
                        assert(h =~= Set::<Seq<bool>>::empty());
                    }
                },
            }
            proof {
                assert(out@.subrange(0, o0.len() as int) =~= o0);
                assert(new_part(o0, out@).len() <= 1);
            }
            return;
        }
        let inc = self.include_child[idx];
        let exc = self.exclude_child[idx];
        if fbs_contains(u, v) {
            if inc != NO_CHILD {
                self.query_rec(g, inc, u, n_u, out, i);
            } else {
                proof {
                    lemma_added_none(o0);
                    assert(out@.subrange(0, o0.len() as int) =~= o0);
                    assert(new_part(o0, out@).len() == 0);
                }
            }
            proof {
                self.lemma_split_hits(rows, ub, nb, idx as int, i as int);
            }
        } else {
            if exc != NO_CHILD {
                self.query_rec(g, exc, u, n_u, out, i);
            } else {
                proof {
                    lemma_added_none(o0);
                    assert(out@.subrange(0, o0.len() as int) =~= o0);
                    assert(new_part(o0, out@).len() == 0);
                }
            }
            let ghost o1 = out@;
            let i2 = if fbs_contains(n_u, v) {
                i + 1
            } else {
                i
            };
            if inc != NO_CHILD {
                self.query_rec(g, inc, u, n_u, out, i2);
            } else {
                proof {
                    lemma_added_none(o1);
                    assert(out@.subrange(0, o1.len() as int) =~= o1);
                    assert(new_part(o1, out@).len() == 0);
                }
            }
            proof {
                lemma_added_chain(o0, o1, out@);
                self.lemma_split_hits(rows, ub, nb, idx as int, i as int);
                let p1 = new_part(o0, o1);
                let p2 = new_part(o1, out@);
                assert(new_part(o0, out@) =~= p1 + p2) by {
                    assert(out@.subrange(0, o1.len() as int) == o1);
                    assert forall|q: int| 0 <= q < p1.len() implies new_part(o0, out@)[q] == p1[q] by {
                        assert(out@[o0.len() + q] == o1[o0.len() + q]);
                    }
                }
                assert forall|x: int, y: int| 0 <= x < p1.len() && 0 <= y < p2.len() implies p1[x] != p2[y] by {
                    lemma_new_part_added(o0, o1, x);
                    lemma_new_part_added(o1, out@, y);
                    let vv = v as int;
                    let a1 = p1[x];
                    let a2 = p2[y];
                    // a1 lies below the exclude child, a2 below the include child
                    assert(a1.take(vv + 1) == self.prefix@[exc as int]);
                    assert(a2.take(vv + 1) == self.prefix@[inc as int]);
                    assert(a1[vv] == a1.take(vv + 1)[vv]);
                    assert(a2[vv] == a2.take(vv + 1)[vv]);
                }
                lemma_no_dup_concat(p1, p2);
            }
        }
    }

    /// The stored sets lie on full-length paths of the trie.
    proof fn lemma_stored_node(&self, a: Seq<bool>, d: int)
        requires
            self.wf(),
            self.contents().contains(a),
            0 <= d <= self.n,
        ensures
            a.len() == self.n,
            self.has_node(a.take(d)),
    {
        let j = choose|j: int| 0 <= j < self.stored.len() && (#[trigger] self.stored[j]) is Some && fbs_bits(self.stored[j]->0) == a;
        assert(self.has_node(self.prefix@[j].take(d)));
    }

    /// At a leaf the query reports the stored set there, if it passes.
    proof fn lemma_leaf_hits(&self, adj: Seq<Seq<bool>>, u: Seq<bool>, nu: Seq<bool>, idx: int, i: int)
        requires
            self.wf(),
            0 <= idx < self.vertex.len(),
            self.vertex[idx] >= self.n,
            0 <= i <= self.margin,
        ensures
            self.hits(adj, u, nu, idx, i) == (match self.stored[idx] {
                Some(a) => if count_true(bits_or(nu, nbhd(adj, fbs_bits(a)))) <= self.k + 1 {
                    set![fbs_bits(a)]
                } else {
                    Set::<Seq<bool>>::empty()
                },
                None => Set::<Seq<bool>>::empty(),
            }),
    {
        let h = self.hits(adj, u, nu, idx, i);
        let n = self.n as int;
        assert forall|a: Seq<bool>| #[trigger] h.contains(a) implies self.stored[idx] is Some && fbs_bits(self.stored[idx]->0) == a by {
            self.lemma_stored_node(a, n);
            assert(a.take(n) =~= a);
            let j = choose|j: int| 0 <= j < self.stored.len() && (#[trigger] self.stored[j]) is Some && fbs_bits(self.stored[j]->0) == a;
            assert(self.prefix@[j] == self.prefix@[idx]);
        }
        match self.stored[idx] {
            Some(x) => {
                let a = fbs_bits(x);
                assert(self.contents().contains(a));
                assert(a.take(n) =~= a);
                assert(sieve_hit(adj, u, nu, self.k as int, self.margin as int, a, i, n) == (count_true(bits_or(nu, nbhd(adj, a))) <= self.k + 1)) by {
                    assert(extra(u, nu, a, n, n) == 0);
                }
                if count_true(bits_or(nu, nbhd(adj, a))) <= self.k + 1 {
                    assert(h =~= set![a]);
                } else {
                    assert(h =~= Set::<Seq<bool>>::empty());
                }
            },
            None => {
                assert(h =~= Set::<Seq<bool>>::empty());
            },
        }
    }

    /// At an inner node the reported sets are those of the child subtrees
    /// the query enters.
    proof fn lemma_split_hits(&self, adj: Seq<Seq<bool>>, u: Seq<bool>, nu: Seq<bool>, idx: int, i: int)
        requires
            self.wf(),
            0 <= idx < self.vertex.len(),
            self.vertex[idx] < self.n,
            u.len() == self.n,
            nu.len() == self.n,
            0 <= i,
        ensures
            ({
                let v = self.vertex[idx] as int;
                let inc = self.include_child[idx];
                let exc = self.exclude_child[idx];
                let hi = if inc != NO_CHILD {
                    self.hits(adj, u, nu, inc as int, if !u[v] && nu[v] { i + 1 } else { i })
                } else {
                    Set::<Seq<bool>>::empty()
                };
                let he = if exc != NO_CHILD {
                    self.hits(adj, u, nu, exc as int, i)
                } else {
                    Set::<Seq<bool>>::empty()
                };
                self.hits(adj, u, nu, idx, i) == if u[v] {
                    hi
                } else {
                    he.union(hi)
                }
            }),
    {
        let v = self.vertex[idx] as int;
        let inc = self.include_child[idx];
        let exc = self.exclude_child[idx];
        let pre = self.prefix@;
        let h = self.hits(adj, u, nu, idx, i);
        let i2 = if !u[v] && nu[v] { i + 1 } else { i };
        let hi = if inc != NO_CHILD {
            self.hits(adj, u, nu, inc as int, i2)
        } else {
            Set::<Seq<bool>>::empty()
        };
        let he = if exc != NO_CHILD {
            self.hits(adj, u, nu, exc as int, i)
        } else {
            Set::<Seq<bool>>::empty()
        };
        let goal = if u[v] { hi } else { he.union(hi) };
        assert forall|a: Seq<bool>| h.contains(a) <==> #[trigger] goal.contains(a) by {
            if self.contents().contains(a) {
                self.lemma_stored_node(a, v + 1);
                assert(a.take(v + 1) =~= a.take(v).push(a[v]));
                lemma_extra_step(u, nu, a, v, self.n as int);
                if a.take(v) == pre[idx] {
                    let j = choose|j: int| 0 <= j < pre.len() && #[trigger] pre[j] == a.take(v + 1);
                    if a[v] {
                        assert(pre[j] == pre[idx].push(true));
                        assert(inc == j);
                    } else {
                        assert(pre[j] == pre[idx].push(false));
                        assert(exc == j);
                    }
                }
                if inc != NO_CHILD && a.take(v + 1) == pre[inc as int] {
                    assert(a.take(v + 1).take(v) =~= a.take(v));
                    assert(pre[inc as int].take(v) =~= pre[idx]);
                    assert(a[v] == pre[inc as int][v]);
                }
                if exc != NO_CHILD && a.take(v + 1) == pre[exc as int] {
                    assert(a.take(v + 1).take(v) =~= a.take(v));
                    assert(pre[exc as int].take(v) =~= pre[idx]);
                    assert(a[v] == pre[exc as int][v]);
                }
            }
        }
        assert(h =~= goal);
    }
}

/// The bitwise union of `a` and `b`.
pub open spec fn bits_or(a: Seq<bool>, b: Seq<bool>) -> Seq<bool> {
    Seq::new(a.len(), |j: int| a[j] || b[j])
}

/// The members `v` in `lo..hi` of `a \ u` that lie in `nu`.
pub open spec fn extra(u: Seq<bool>, nu: Seq<bool>, a: Seq<bool>, lo: int, hi: int) -> int
    decreases hi - lo,
{
    if lo >= hi {
        0
    } else {
        (if !u[lo] && a[lo] && nu[lo] { 1int } else { 0int }) + extra(u, nu, a, lo + 1, hi)
    }
}

proof fn lemma_extra_nonneg(u: Seq<bool>, nu: Seq<bool>, a: Seq<bool>, lo: int, hi: int)
    ensures
        extra(u, nu, a, lo, hi) >= 0,
    decreases hi - lo,
{
    if lo < hi {
        lemma_extra_nonneg(u, nu, a, lo + 1, hi);
    }
}

proof fn lemma_extra_step(u: Seq<bool>, nu: Seq<bool>, a: Seq<bool>, lo: int, hi: int)
    requires
        lo < hi,
    ensures
        extra(u, nu, a, lo, hi) == (if !u[lo] && a[lo] && nu[lo] { 1int } else { 0int }) + extra(u, nu, a, lo + 1, hi),
{
}

/// A sieve query entered at depth `lo` with margin count `i` reports `a`:
/// `a` holds every member of `u` from `lo` on, the members of `a \ u` in
/// `nu` from `lo` on keep the count within the margin, and
/// `|N(U) ∪ N(A)| <= k + 1`.
pub open spec fn sieve_hit(
    adj: Seq<Seq<bool>>,
    u: Seq<bool>,
    nu: Seq<bool>,
    k: int,
    margin: int,
    a: Seq<bool>,
    i: int,
    lo: int,
) -> bool {
    &&& forall|v: int| lo <= v < a.len() && u[v] ==> #[trigger] a[v]
    &&& i + extra(u, nu, a, lo, a.len() as int) <= margin
    &&& count_true(bits_or(nu, nbhd(adj, a))) <= k + 1
}

proof fn lemma_new_part_added(o: Seq<fixedbitset::FixedBitSet>, f: Seq<fixedbitset::FixedBitSet>, x: int)
    requires
        o.len() <= f.len(),
        0 <= x < new_part(o, f).len(),
    ensures
        added_sets(o, f).contains(new_part(o, f)[x]),
{
    assert(fbs_bits(f[o.len() + x]) == new_part(o, f)[x]);
}

proof fn lemma_no_dup_concat(a: Seq<Seq<bool>>, b: Seq<Seq<bool>>)
    requires
        a.no_duplicates(),
        b.no_duplicates(),
        forall|x: int, y: int| 0 <= x < a.len() && 0 <= y < b.len() ==> a[x] != b[y],
    ensures
        (a + b).no_duplicates(),
{
    let c = a + b;
    assert forall|i: int, j: int| 0 <= i < c.len() && 0 <= j < c.len() && i != j implies c[i] != c[j] by {
        if i < a.len() && j >= a.len() {
            assert(c[j] == b[j - a.len()]);
        } else if j < a.len() && i >= a.len() {
            assert(c[i] == b[i - a.len()]);
        }
    }
}

/// The bits of the sets appended to `old` to make `new`, in order.
pub open spec fn new_part(old: Seq<fixedbitset::FixedBitSet>, new: Seq<fixedbitset::FixedBitSet>) -> Seq<Seq<bool>> {
    sets_of(new).subrange(old.len() as int, new.len() as int)
}

/// Members of `a \ u` in `nu` (counted by `extra`) lie outside `N(a)`, so
/// together with `N(a)` they are counted in `nu ∪ N(a)`.
proof fn lemma_extra_le(u: Seq<bool>, nu: Seq<bool>, a: Seq<bool>, adj: Seq<Seq<bool>>, m: int)
    requires
        0 <= m <= a.len(),
        u.len() == a.len(),
        nu.len() == a.len(),
    ensures
        extra(u, nu, a, 0, m) + count_true(nbhd(adj, a).take(m)) <= count_true(bits_or(nu, nbhd(adj, a)).take(m)),
    decreases m,
{
    if m > 0 {
        lemma_extra_le(u, nu, a, adj, m - 1);
        lemma_extra_top(u, nu, a, 0, m - 1);
        let nb = nbhd(adj, a);
        let o = bits_or(nu, nb);
        assert(nb.take(m).drop_last() =~= nb.take(m - 1));
        assert(o.take(m).drop_last() =~= o.take(m - 1));
    }
}

/// `extra` grows by the top position.
proof fn lemma_extra_top(u: Seq<bool>, nu: Seq<bool>, a: Seq<bool>, lo: int, hi: int)
    requires
        lo <= hi,
    ensures
        extra(u, nu, a, lo, hi + 1) == extra(u, nu, a, lo, hi) + (if !u[hi] && a[hi] && nu[hi] { 1int } else { 0int }),
    decreases hi - lo,
{
    if lo < hi {
        lemma_extra_top(u, nu, a, lo + 1, hi);
        assert(extra(u, nu, a, lo, hi + 1) == (if !u[lo] && a[lo] && nu[lo] { 1int } else { 0int }) + extra(u, nu, a, lo + 1, hi + 1));
        assert(extra(u, nu, a, lo, hi) == (if !u[lo] && a[lo] && nu[lo] { 1int } else { 0int }) + extra(u, nu, a, lo + 1, hi));
    } else {
        assert(extra(u, nu, a, hi + 1, hi + 1) == 0);
        assert(extra(u, nu, a, hi, hi + 1) == (if !u[hi] && a[hi] && nu[hi] { 1int } else { 0int }) + extra(u, nu, a, hi + 1, hi + 1));
    }
}

/// The sets appended to `old` to make `new`.
pub open spec fn added_sets(old: Seq<fixedbitset::FixedBitSet>, new: Seq<fixedbitset::FixedBitSet>) -> Set<Seq<bool>> {
    Set::new(|x: Seq<bool>| exists|q: int| old.len() <= q < new.len() && #[trigger] fbs_bits(new[q]) == x)
}

proof fn lemma_added_none(o: Seq<fixedbitset::FixedBitSet>)
    ensures
        added_sets(o, o) == Set::<Seq<bool>>::empty(),
{
    assert(added_sets(o, o) =~= Set::<Seq<bool>>::empty());
}

proof fn lemma_added_one(o: Seq<fixedbitset::FixedBitSet>, x: fixedbitset::FixedBitSet)
    ensures
        added_sets(o, o.push(x)) == set![fbs_bits(x)],
{
    let n = o.push(x);
    assert(fbs_bits(n[o.len() as int]) == fbs_bits(x));
    assert(added_sets(o, n) =~= set![fbs_bits(x)]);
}

proof fn lemma_added_chain(a: Seq<fixedbitset::FixedBitSet>, b: Seq<fixedbitset::FixedBitSet>, c: Seq<fixedbitset::FixedBitSet>)
    requires
        b.len() >= a.len(),
        c.len() >= b.len(),
        c.subrange(0, b.len() as int) == b,
    ensures
        added_sets(a, c) == added_sets(a, b).union(added_sets(b, c)),
{
    assert forall|x: Seq<bool>| #[trigger] added_sets(a, c).contains(x) == added_sets(a, b).union(added_sets(b, c)).contains(x) by {
        if added_sets(a, c).contains(x) {
            let q = choose|q: int| a.len() <= q < c.len() && #[trigger] fbs_bits(c[q]) == x;
            if q < b.len() {
                assert(c[q] == c.subrange(0, b.len() as int)[q]);
            }
        }
        if added_sets(a, b).contains(x) {
            let q = choose|q: int| a.len() <= q < b.len() && #[trigger] fbs_bits(b[q]) == x;
            assert(c[q] == c.subrange(0, b.len() as int)[q]);
        }
    }
    assert(added_sets(a, c) =~= added_sets(a, b).union(added_sets(b, c)));
}

/// Growing the trie by the missing one-bit extension of node `idx`'s
/// path keeps its shape and its stored sets.
proof fn lemma_sieve_grow(s0: BlockSieve, s1: BlockSieve, idx: int, take: bool)
    requires
        s0.wf(),
        0 <= idx < s0.vertex.len(),
        s0.vertex[idx] < s0.n,
        take ==> s0.include_child[idx] == NO_CHILD,
        !take ==> s0.exclude_child[idx] == NO_CHILD,
        s0.vertex.len() < NO_CHILD,
        s1.n == s0.n,
        s1.vertex@ == s0.vertex@.push((s0.vertex[idx] + 1) as usize),
        s1.stored@ == s0.stored@.push(None),
        s1.prefix@ == s0.prefix@.push(s0.prefix@[idx].push(take)),
        take ==> s1.include_child@ == s0.include_child@.push(NO_CHILD).update(idx, s0.vertex.len() as usize),
        take ==> s1.exclude_child@ == s0.exclude_child@.push(NO_CHILD),
        !take ==> s1.exclude_child@ == s0.exclude_child@.push(NO_CHILD).update(idx, s0.vertex.len() as usize),
        !take ==> s1.include_child@ == s0.include_child@.push(NO_CHILD),
    ensures
        s1.wf(),
        s1.contents() == s0.contents(),
{
    let l = s0.vertex.len() as int;
    let p0 = s0.prefix@;
    let p1 = s1.prefix@;
    let np = p0[idx].push(take);
    // No node of s0 has the new path.
    assert forall|j: int| 0 <= j < l implies p0[j] != np by {
        if p0[j] == np {
            if take {
                assert(s0.include_child[idx] == j);
            } else {
                assert(s0.exclude_child[idx] == j);
            }
        }
    }
    assert forall|j: int| 0 <= j < l implies #[trigger] p1[j] == p0[j] by {}
    assert forall|i: int, c: int|
        0 <= i < l + 1 && 0 <= c < l + 1 && #[trigger] p1[c] == #[trigger] p1[i].push(true) implies s1.include_child[i] == c by {
        if c == l {
            assert(p1[c].last() == take);
            assert(p1[i].push(true).last() == true);
            assert(p1[i].push(true).drop_last() =~= p1[i]);
            assert(np.drop_last() =~= p0[idx]);
            assert(p1[i] == p0[idx]);
            if i < l {
                assert(p1[i] == p0[i]);
                assert(i == idx);
            } else {
                assert(p1[i].len() == p0[idx].len() + 1);
            }
        } else if i == l {
            assert(p1[c] == p0[c]);
            let v = s0.vertex[idx] as int;
            assert(p0[c].len() == v + 2);
            assert(s0.vertex[c] == v + 2);
            assert(s0.has_node(p0[c].take(v + 1)));
            assert(p0[c].take(v + 1) =~= np);
            let j = choose|j: int| 0 <= j < p0.len() && #[trigger] p0[j] == p0[c].take(v + 1);
            assert(p0[j] != np);
        } else {
            assert(p1[c] == p0[c]);
            assert(p1[i] == p0[i]);
            if take && i == idx {
                assert(s0.include_child[idx] == c);
            }
            assert(s1.include_child[i] == s0.include_child[i]);
        }
    }
    assert forall|i: int, c: int|
        0 <= i < l + 1 && 0 <= c < l + 1 && #[trigger] p1[c] == #[trigger] p1[i].push(false) implies s1.exclude_child[i] == c by {
        if c == l {
            assert(p1[c].last() == take);
            assert(p1[i].push(false).last() == false);
            assert(p1[i].push(false).drop_last() =~= p1[i]);
            assert(np.drop_last() =~= p0[idx]);
            assert(p1[i] == p0[idx]);
            if i < l {
                assert(p1[i] == p0[i]);
                assert(i == idx);
            } else {
                assert(p1[i].len() == p0[idx].len() + 1);
            }
        } else if i == l {
            assert(p1[c] == p0[c]);
            let v = s0.vertex[idx] as int;
            assert(p0[c].len() == v + 2);
            assert(s0.vertex[c] == v + 2);
            assert(s0.has_node(p0[c].take(v + 1)));
            assert(p0[c].take(v + 1) =~= np);
            let j = choose|j: int| 0 <= j < p0.len() && #[trigger] p0[j] == p0[c].take(v + 1);
            assert(p0[j] != np);
        } else {
            assert(p1[c] == p0[c]);
            assert(p1[i] == p0[i]);
            if !take && i == idx {
                assert(s0.exclude_child[idx] == c);
            }
            assert(s1.exclude_child[i] == s0.exclude_child[i]);
        }
    }
    assert forall|i: int, j: int| 0 <= i < l + 1 && 0 <= j < l + 1 && #[trigger] p1[i] == #[trigger] p1[j] implies i == j by {}
    assert forall|i: int, d: int| 0 <= i < l + 1 && 0 <= d <= s1.vertex[i] implies #[trigger] s1.has_node(p1[i].take(d)) by {
        if i == l {
            if d == s1.vertex[i] {
                assert(p1[i].take(d) =~= p1[l]);
            } else {
                assert(p1[i].take(d) =~= p0[idx].take(d));
                assert(s0.has_node(p0[idx].take(d)));
            }
        } else {
            assert(s0.has_node(p0[i].take(d)));
        }
        if s0.has_node(p1[i].take(d)) {
            let j = choose|j: int| 0 <= j < p0.len() && #[trigger] p0[j] == p1[i].take(d);
            assert(p1[j] == p0[j]);
        }
    }
    assert forall|i: int|
        0 <= i < l + 1 && #[trigger] s1.include_child[i] != NO_CHILD implies s1.include_child[i] < l + 1
            && s1.vertex[s1.include_child[i] as int] == s1.vertex[i] + 1 && p1[s1.include_child[i] as int] == p1[i].push(true) by {}
    assert forall|i: int|
        0 <= i < l + 1 && #[trigger] s1.exclude_child[i] != NO_CHILD implies s1.exclude_child[i] < l + 1
            && s1.vertex[s1.exclude_child[i] as int] == s1.vertex[i] + 1 && p1[s1.exclude_child[i] as int] == p1[i].push(false) by {}
    assert forall|x: Seq<bool>| s1.contents().contains(x) == s0.contents().contains(x) by {
        if s1.contents().contains(x) {
            let i = choose|i: int| 0 <= i < s1.stored.len() && (#[trigger] s1.stored[i]) is Some && fbs_bits(s1.stored[i]->0) == x;
            assert(s0.stored[i] == s1.stored[i]);
        }
        if s0.contents().contains(x) {
            let i = choose|i: int| 0 <= i < s0.stored.len() && (#[trigger] s0.stored[i]) is Some && fbs_bits(s0.stored[i]->0) == x;
            assert(s0.stored[i] == s1.stored[i]);
        }
    }
    assert(s1.contents() =~= s0.contents());
}

/// `2^e`.
pub open spec fn pow2(e: nat) -> nat
    decreases e,
{
    if e == 0 {
        1
    } else {
        2 * pow2((e - 1) as nat)
    }
}

/// Margin bounds `2, 4, 8, ..` below `k`, then `k`.
pub fn margin_bounds(k: usize) -> (ms: Vec<usize>)
    ensures
        ms.len() >= 1,
        ms[ms.len() - 1] == k,
        forall|i: int| 0 <= i < ms.len() - 1 ==> #[trigger] ms[i] == pow2((i + 1) as nat) && ms[i] < k,
        pow2(ms.len() as nat) >= k,
{
    let mut ms: Vec<usize> = Vec::new();
    let mut m: usize = 2;
    assert(pow2(1) == 2) by {
        reveal_with_fuel(pow2, 2);
    }
    while m < k
        invariant
            m >= 2,
            m == pow2((ms.len() + 1) as nat) || (m == usize::MAX && pow2((ms.len() + 1) as nat) > usize::MAX),
            forall|i: int| 0 <= i < ms.len() ==> #[trigger] ms[i] == pow2((i + 1) as nat) && ms[i] < k,
        decreases usize::MAX - m,
    {
        ms.push(m);
        m = if m > usize::MAX / 2 {
            usize::MAX
        } else {
            m * 2
        };
    }
    ms.push(k);
    ms
}

pub proof fn lemma_pow2_ge(e: nat)
    ensures
        pow2(e) >= e + 1,
        pow2(e) >= 1,
    decreases e,
{
    if e > 0 {
        lemma_pow2_ge((e - 1) as nat);
    }
}

/// The number whose binary digits (least significant first) are `s`.
pub open spec fn bits_val(s: Seq<bool>) -> nat
    decreases s.len(),
{
    if s.len() == 0 {
        0
    } else {
        (if s[0] {
            1nat
        } else {
            0nat
        }) + 2 * bits_val(s.drop_first())
    }
}

proof fn lemma_bits_val_bound(s: Seq<bool>)
    ensures
        bits_val(s) < pow2(s.len()),
    decreases s.len(),
{
    if s.len() > 0 {
        lemma_bits_val_bound(s.drop_first());
    }
}

proof fn lemma_bits_val_inj(a: Seq<bool>, b: Seq<bool>)
    requires
        a.len() == b.len(),
        bits_val(a) == bits_val(b),
    ensures
        a == b,
    decreases a.len(),
{
    if a.len() > 0 {
        assert(a[0] == b[0]);
        lemma_bits_val_inj(a.drop_first(), b.drop_first());
        assert(a =~= seq![a[0]] + a.drop_first());
        assert(b =~= seq![b[0]] + b.drop_first());
    } else {
        assert(a =~= b);
    }
}

/// Distinct vertex sets over `0..n` number at most `2^n`.
proof fn lemma_distinct_sets_bound(ss: Seq<Seq<bool>>, n: nat)
    requires
        ss.no_duplicates(),
        forall|i: int| 0 <= i < ss.len() ==> (#[trigger] ss[i]).len() == n,
    ensures
        ss.len() <= pow2(n),
{
    let vs = ss.map_values(|s: Seq<bool>| bits_val(s) as int);
    assert forall|i: int, j: int| 0 <= i < vs.len() && 0 <= j < vs.len() && i != j implies vs[i] != vs[j] by {
        if vs[i] == vs[j] {
            lemma_bits_val_inj(ss[i], ss[j]);
        }
    }
    assert(vs.no_duplicates());
    vs.unique_seq_to_set();
    assert forall|x: int| vs.to_set().contains(x) implies vstd::set_lib::set_int_range(0, pow2(n) as int).contains(x) by {
        let i = choose|i: int| 0 <= i < vs.len() && vs[i] == x;
        lemma_bits_val_bound(ss[i]);
    }
    vstd::set_lib::lemma_int_range(0, pow2(n) as int);
    vstd::set_lib::lemma_len_subset(vs.to_set(), vstd::set_lib::set_int_range(0, pow2(n) as int));
}

/// Push `x` onto `list` unless an equal set is there; the list stays
/// free of duplicates.
fn push_new(list: &mut Vec<fixedbitset::FixedBitSet>, x: &fixedbitset::FixedBitSet) -> (added: bool)
    requires
        sets_of(old(list)@).no_duplicates(),
    ensures
        sets_of(final(list)@).no_duplicates(),
        added == !sets_of(old(list)@).contains(fbs_bits(*x)),
        added ==> sets_of(final(list)@) == sets_of(old(list)@).push(fbs_bits(*x)),
        !added ==> final(list)@ == old(list)@,
        final(list).len() >= old(list).len(),
        forall|m: nat| all_len(old(list)@, m) && fbs_bits(*x).len() == m ==> #[trigger] all_len(final(list)@, m),
{
    if contains_set(list, x) {
        return false;
    }
    let ghost before = sets_of(list@);
    list.push(fbs_clone(x));
    proof {
        assert forall|m: nat| all_len(old(list)@, m) && fbs_bits(*x).len() == m implies #[trigger] all_len(list@, m) by {
            assert forall|c: int| 0 <= c < list.len() implies (#[trigger] fbs_bits(list@[c])).len() == m by {
                if c < old(list).len() {
                    assert(list@[c] == old(list)@[c]);
                }
            }
        }
        let after = sets_of(list@);
        assert(after =~= before.push(fbs_bits(*x)));
        assert forall|i: int, j: int| 0 <= i < after.len() && 0 <= j < after.len() && i != j implies after[i] != after[j] by {
            if j == before.len() {
                assert(before.contains(before[i]));
            } else if i == before.len() {
                assert(before.contains(before[j]));
            }
        }
    }
    true
}

/// `slot` is the first index whose margin bound is at least `m`, or the
/// last index when none is.
pub open spec fn is_slot(margins: Seq<usize>, m: int, slot: int) -> bool {
    &&& 0 <= slot < margins.len()
    &&& forall|j: int| 0 <= j < slot ==> #[trigger] margins[j] < m
    &&& margins[slot] >= m || slot == margins.len() - 1
}

/// The margin an O-block component with neighbourhood size `s` needs.
pub open spec fn margin_need(k: int, s: int) -> int {
    if s > k + 1 {
        0
    } else {
        k + 1 - s
    }
}

/// Store an O-block component `a` into the sieve whose margin bound is the
/// first not below `k + 1 - |N(a)|` (the last one if none).
fn store_o(g: &BGraph, sieves: &mut Vec<BlockSieve>, margins: &Vec<usize>, a: &fixedbitset::FixedBitSet, k: usize)
    requires
        g.wf(),
        k < usize::MAX,
        fbs_bits(*a).len() == g.size(),
        old(sieves).len() == margins.len(),
        margins.len() >= 1,
        forall|i: int| 0 <= i < old(sieves).len() ==> (#[trigger] old(sieves)[i]).wf() && old(sieves)[i].n == g.size()
            && old(sieves)[i].k == k,
    ensures
        final(sieves).len() == margins.len(),
        forall|i: int| 0 <= i < final(sieves).len() ==> (#[trigger] final(sieves)[i]).wf() && final(sieves)[i].n == g.size()
            && final(sieves)[i].k == k,
        exists|slot: int|
            #[trigger] is_slot(margins@, margin_need(k as int, count_true(nbhd(g.rows(), fbs_bits(*a))) as int), slot) && {
                &&& forall|i: int| 0 <= i < final(sieves).len() && i != slot ==> #[trigger] final(sieves)[i] == old(sieves)[i]
                &&& final(sieves)[slot].margin == old(sieves)[slot].margin
                &&& final(sieves)[slot].contents().subset_of(old(sieves)[slot].contents().insert(fbs_bits(*a)))
                &&& old(sieves)[slot].contents().subset_of(final(sieves)[slot].contents())
                &&& old(sieves)[slot].vertex.len() + g.size() < NO_CHILD ==> final(sieves)[slot].contents()
                    == old(sieves)[slot].contents().insert(fbs_bits(*a))
            },
{
    let s = fbs_count_ones(&g.neighborhood(a));
    let margin = if s > k + 1 {
        0
    } else {
        k + 1 - s
    };
    let ghost m = margin_need(k as int, count_true(nbhd(g.rows(), fbs_bits(*a))) as int);
    assert(margin == m);
    let mut idx: usize = 0;
    while idx < margins.len() && margins[idx] < margin
        invariant
            idx <= margins.len(),
            forall|j: int| 0 <= j < idx ==> #[trigger] margins@[j] < m,
            margin == m,
        decreases margins.len() - idx,
    {
        idx += 1;
    }
    if idx >= margins.len() {
        idx = margins.len() - 1;
    }
    assert(is_slot(margins@, m, idx as int));
    let mut sv = sieves.remove(idx);
    sv.store(a);
    sieves.insert(idx, sv);
    proof {
        assert forall|i: int| 0 <= i < sieves.len() implies (#[trigger] sieves[i]).wf() && sieves[i].n == g.size()
            && sieves[i].k == k by {
            if i < idx {
                assert(sieves[i] == old(sieves)[i]);
            } else if i > idx {
                assert(sieves[i] == old(sieves)[i]);
            }
        }
        assert forall|i: int| 0 <= i < sieves.len() && i != idx implies #[trigger] sieves[i] == old(sieves)[i] by {
            if i < idx {
                assert(sieves[i] == old(sieves)[i]);
            } else {
                assert(sieves[i] == old(sieves)[i]);
            }
        }
    }
}

/// Every set of the list has `n` bits.
pub open spec fn all_len(v: Seq<fixedbitset::FixedBitSet>, n: nat) -> bool {
    forall|c: int| 0 <= c < v.len() ==> (#[trigger] fbs_bits(v[c])).len() == n
}

/// Decide whether `tw(g) <= k` (`g` connected): Algorithm PID-BT.
fn decide(g: &BGraph, k: usize) -> (r: bool)
    requires
        g.wf(),
        k < usize::MAX,
    ensures
        g.size() == 0 ==> r,
{
    let n = g.n;
    if n == 0 {
        return true;
    }
    let margins = margin_bounds(k);
    let mut sieves: Vec<BlockSieve> = Vec::new();
    let mut t: usize = 0;
    while t < margins.len()
        invariant
            g.wf(),
            n == g.size(),
            k < usize::MAX,
            t <= margins.len(),
            sieves.len() == t,
            forall|i: int| 0 <= i < sieves.len() ==> (#[trigger] sieves[i]).wf() && sieves[i].n == n && sieves[i].k == k,
        decreases margins.len() - t,
    {
        sieves.push(BlockSieve::new(n, k, margins[t]));
        t += 1;
    }
    let mut o_list: Vec<fixedbitset::FixedBitSet> = Vec::new();
    let mut p_list: Vec<fixedbitset::FixedBitSet> = Vec::new();
    let mut s_list: Vec<fixedbitset::FixedBitSet> = Vec::new();
    let mut c_list: Vec<fixedbitset::FixedBitSet> = Vec::new();
    let mut i_list: Vec<fixedbitset::FixedBitSet> = Vec::new();
    proof {
        assert(sets_of(o_list@) =~= Seq::<Seq<bool>>::empty());
        assert(sets_of(p_list@) =~= Seq::<Seq<bool>>::empty());
        assert(sets_of(s_list@) =~= Seq::<Seq<bool>>::empty());
        assert(sets_of(c_list@) =~= Seq::<Seq<bool>>::empty());
    }
    // Initialize from the closed neighbourhoods.
    let mut v: usize = 0;
    while v < n
        invariant
            g.wf(),
            n == g.size(),
            k < usize::MAX,
            v <= n,
            all_len(p_list@, n as nat),
            all_len(s_list@, n as nat),
            all_len(c_list@, n as nat),
            sets_of(p_list@).no_duplicates(),
            sets_of(s_list@).no_duplicates(),
            sets_of(c_list@).no_duplicates(),
        decreases n - v,
    {
        let nv = g.closed_neighborhood(v);
        if fbs_count_ones(&nv) <= k + 1 && g.is_pmc(&nv) {
            push_new(&mut p_list, &nv);
            let sup = g.support(&nv);
            if sup.len() == 0 {
                push_new(&mut s_list, &nv);
                let out = g.outlet(&nv);
                if !fbs_is_clear(&out) {
                    let c = g.crib(&out, &nv);
                    push_new(&mut c_list, &c);
                }
            }
        }
        v += 1;
    }
    // Process the I-blocks in order, generating new ones.
    let mut i: usize = 0;
    proof {
        lemma_distinct_sets_bound(sets_of(c_list@), n as nat);
    }
    while i < c_list.len()
        invariant
            g.wf(),
            n == g.size(),
            k < usize::MAX,
            margins.len() >= 1,
            sieves.len() == margins.len(),
            forall|q: int| 0 <= q < sieves.len() ==> (#[trigger] sieves[q]).wf() && sieves[q].n == n && sieves[q].k == k,
            all_len(o_list@, n as nat),
            all_len(p_list@, n as nat),
            all_len(s_list@, n as nat),
            all_len(c_list@, n as nat),
            all_len(i_list@, n as nat),
            sets_of(o_list@).no_duplicates(),
            sets_of(p_list@).no_duplicates(),
            sets_of(s_list@).no_duplicates(),
            sets_of(c_list@).no_duplicates(),
            c_list.len() <= pow2(n as nat),
            i <= c_list.len(),
        decreases pow2(n as nat) - i,
    {
        let ci = fbs_clone(&c_list[i]);
        i += 1;
        i_list.push(fbs_clone(&ci));
        let nci = g.neighborhood(&ci);
        // Combine C_i with the stored O-blocks B with C_i ⊆ B and
        // |N(C_i) ∪ N(B)| <= k + 1.
        let mut candidates: Vec<fixedbitset::FixedBitSet> = Vec::new();
        let mut q: usize = 0;
        while q < sieves.len()
            invariant
                g.wf(),
                n == g.size(),
                k < usize::MAX,
                fbs_bits(ci).len() == n,
                fbs_bits(nci).len() == n,
                forall|x: int| 0 <= x < sieves.len() ==> (#[trigger] sieves[x]).wf() && sieves[x].n == n && sieves[x].k == k,
                all_len(candidates@, n as nat),
                q <= sieves.len(),
            decreases sieves.len() - q,
        {
            sieves[q].query(g, &ci, &nci, &mut candidates);
            q += 1;
        }
        let mut new_o: Vec<fixedbitset::FixedBitSet> = Vec::new();
        let mut b: usize = 0;
        while b < candidates.len()
            invariant
                g.wf(),
                n == g.size(),
                k < usize::MAX,
                fbs_bits(nci).len() == n,
                margins.len() >= 1,
                sieves.len() == margins.len(),
                forall|x: int| 0 <= x < sieves.len() ==> (#[trigger] sieves[x]).wf() && sieves[x].n == n && sieves[x].k == k,
                all_len(candidates@, n as nat),
                all_len(o_list@, n as nat),
                all_len(p_list@, n as nat),
                all_len(new_o@, n as nat),
                sets_of(o_list@).no_duplicates(),
                sets_of(p_list@).no_duplicates(),
                b <= candidates.len(),
            decreases candidates.len() - b,
        {
            let mut kset = fbs_clone(&nci);
            let nb = g.neighborhood(&candidates[b]);
            fbs_union_with(&mut kset, &nb);
            let cnt = fbs_count_ones(&kset);
            if cnt <= k + 1 {
                if g.is_pmc(&kset) {
                    push_new(&mut p_list, &kset);
                }
                if cnt <= k {
                    match g.outbound_full_component(&kset) {
                        Some(a) => {
                            proof {
                                lemma_outbound_len(g.rows(), fbs_bits(kset), fbs_bits(a));
                            }
                            if push_new(&mut o_list, &a) {
                                store_o(g, &mut sieves, &margins, &a, k);
                                new_o.push(a);
                            }
                        },
                        None => {},
                    }
                }
            }
            b += 1;
        }
        // The outbound full component of N(C_i).
        match g.outbound_full_component(&nci) {
            Some(a) => {
                proof {
                    lemma_outbound_len(g.rows(), fbs_bits(nci), fbs_bits(a));
                }
                if push_new(&mut o_list, &a) {
                    store_o(g, &mut sieves, &margins, &a, k);
                    new_o.push(a);
                }
            },
            None => {},
        }
        // Build potential maximal cliques from the new O-blocks.
        let mut x: usize = 0;
        while x < new_o.len()
            invariant
                g.wf(),
                n == g.size(),
                k < usize::MAX,
                all_len(new_o@, n as nat),
                all_len(p_list@, n as nat),
                sets_of(p_list@).no_duplicates(),
                x <= new_o.len(),
            decreases new_o.len() - x,
        {
            let na = g.neighborhood(&new_o[x]);
            let vs = fbs_ones(&na);
            proof {
                let nb = fbs_bits(na);
                lemma_idx_filter(|i: usize| (i as int) < nb.len() && nb[i as int], nb.len());
            }
            let mut y: usize = 0;
            while y < vs.len()
                invariant
                    g.wf(),
                    n == g.size(),
                    k < usize::MAX,
                    all_len(new_o@, n as nat),
                    x < new_o.len(),
                    fbs_bits(na).len() == n,
                    forall|w: int| 0 <= w < vs.len() ==> #[trigger] vs[w] < n,
                    all_len(p_list@, n as nat),
                    sets_of(p_list@).no_duplicates(),
                    y <= vs.len(),
                decreases vs.len() - y,
            {
                let mut kset = fbs_clone(&na);
                let mut nv_cap_a = fbs_clone(&g.adj[vs[y]]);
                fbs_intersect_with(&mut nv_cap_a, &new_o[x]);
                fbs_union_with(&mut kset, &nv_cap_a);
                if fbs_count_ones(&kset) <= k + 1 && g.is_pmc(&kset) {
                    push_new(&mut p_list, &kset);
                }
                y += 1;
            }
            x += 1;
        }
        // Promote buildable PMCs whose support is feasible.
        let mut t: usize = 0;
        while t < p_list.len()
            invariant
                g.wf(),
                n == g.size(),
                k < usize::MAX,
                all_len(p_list@, n as nat),
                all_len(s_list@, n as nat),
                all_len(c_list@, n as nat),
                all_len(i_list@, n as nat),
                sets_of(s_list@).no_duplicates(),
                sets_of(c_list@).no_duplicates(),
                i <= c_list.len(),
                t <= p_list.len(),
            decreases p_list.len() - t,
        {
            let kset = fbs_clone(&p_list[t]);
            t += 1;
            if contains_set(&s_list, &kset) {
                continue;
            }
            let sup = g.support(&kset);
            let mut all_in = true;
            let mut w: usize = 0;
            while w < sup.len() && all_in
                invariant
                    w <= sup.len(),
                decreases sup.len() - w, if all_in { 1nat } else { 0nat },
            {
                if !contains_set(&i_list, &sup[w]) {
                    all_in = false;
                } else {
                    w += 1;
                }
            }
            if all_in {
                push_new(&mut s_list, &kset);
                let out = g.outlet(&kset);
                if !fbs_is_clear(&out) {
                    let c = g.crib(&out, &kset);
                    push_new(&mut c_list, &c);
                }
            }
        }
        proof {
            lemma_distinct_sets_bound(sets_of(c_list@), n as nat);
        }
    }
    // Some feasible PMC has an empty outlet.
    let mut t: usize = 0;
    while t < s_list.len()
        invariant
            g.wf(),
            n == g.size(),
            all_len(s_list@, n as nat),
            t <= s_list.len(),
        decreases s_list.len() - t,
    {
        let out = g.outlet(&s_list[t]);
        if fbs_is_clear(&out) {
            return true;
        }
        t += 1;
    }
    false
}

/// A full component of `s` has as many bits as `s`.
proof fn lemma_outbound_len(rows: Seq<Seq<bool>>, s: Seq<bool>, a: Seq<bool>)
    requires
        exists|comps: Seq<Seq<bool>>|
            #[trigger] is_split(rows, s, comps) && comps.filter(is_full(rows, s)).contains(a),
    ensures
        a.len() == s.len(),
{
    let comps = choose|comps: Seq<Seq<bool>>|
        #[trigger] is_split(rows, s, comps) && comps.filter(is_full(rows, s)).contains(a);
    lemma_filter_members(comps, is_full(rows, s));
    let f = comps.filter(is_full(rows, s));
    let i = choose|i: int| 0 <= i < f.len() && f[i] == a;
    assert(comps.contains(f[i]));
    let j = choose|j: int| 0 <= j < comps.len() && comps[j] == f[i];
}

/// Treewidth of a connected graph, splitting first across a safe
/// separator (each side with the separator completed into a clique).
fn tw_connected(g: &BGraph) -> (r: usize)
    requires
        g.wf(),
    ensures
        g.size() <= 1 ==> r == 0,
        g.size() > 1 ==> r < g.size(),
    decreases g.size(),
{
    let n = g.n;
    if n <= 1 {
        return 0;
    }
    match g.safe_separator() {
        Some((s, comps)) => {
            let ghost cs = sets_of(comps@);
            let mut tw: usize = 0;
            let mut i: usize = 0;
            while i < comps.len()
                invariant
                    g.wf(),
                    n == g.size(),
                    n > 1,
                    fbs_bits(s).len() == n,
                    cs == sets_of(comps@),
                    is_split(g.rows(), fbs_bits(s), cs),
                    comps.len() >= 2,
                    i <= comps.len(),
                    tw < n,
                decreases comps.len() - i,
            {
                assert(cs[i as int] == fbs_bits(comps[i as int]));
                let sub = g.induced_with_clique(&comps[i], &s);
                proof {
                    let other: int = if i == 0 { 1 } else { 0 };
                    let d = cs[other];
                    assert(nonempty(d));
                    let w = choose|w: int| 0 <= w < d.len() && d[w];
                    assert(disjoint(cs[i as int], d) || disjoint(d, cs[i as int])) by {
                        if other < i {
                            assert(disjoint(cs[other], cs[i as int]));
                        } else {
                            assert(disjoint(cs[i as int], cs[other]));
                        }
                    }
                    assert(!fbs_bits(s)[w]);
                    let un = Seq::new(n as nat, |j: int| fbs_bits(comps[i as int])[j] || fbs_bits(s)[j]);
                    assert(!un[w]);
                    crate::seqs::lemma_count_true_lt(un, w);
                }
                let t = tw_connected(&sub);
                if t > tw {
                    tw = t;
                }
                i += 1;
            }
            return tw;
        },
        None => {},
    }
    let mut k = g.min_degree();
    proof {
        let v = choose|v: int| 0 <= v < g.size() && k == count_true(#[trigger] g.rows()[v]);
        assert(g.rows()[v] == fbs_bits(g.adj[v]));
        crate::seqs::lemma_count_true_lt(g.rows()[v], v);
    }
    loop
        invariant
            g.wf(),
            n == g.size(),
            n > 1,
            k < n,
        decreases n - k,
    {
        if decide(g, k) {
            return k;
        }
        k += 1;
        if k >= n {
            return n - 1;
        }
    }
}

/// Some edge joins two distinct alive vertices.
pub open spec fn has_alive_edge(m: crate::graph::GraphModel) -> bool {
    exists|u: usize, v: usize| #[trigger] m.is_alive(u) && #[trigger] m.is_nbr(u, v)
}

/// In a graph without edges every connected component is one vertex.
proof fn lemma_edgeless_part(rows: Seq<Seq<bool>>, removed: Seq<bool>, c: Seq<bool>)
    requires
        c.len() == removed.len(),
        nonempty(c),
        part_ok(rows, removed, c),
        forall|x: int, y: int| 0 <= x < c.len() && 0 <= y < c.len() ==> !#[trigger] rows[x][y],
    ensures
        count_true(c) == 1,
{
    let (ord, par) = choose|ord: Seq<int>, par: Seq<int>| #[trigger] linked_by(rows, c, ord, par);
    if ord.len() > 1 {
        assert(0 <= par[1] < 1);
        assert(rows[ord[par[1]]][ord[1]]);
        assert(false);
    }
    let w = ord[0];
    assert forall|v: int| 0 <= v < c.len() && c[v] implies v == w by {
        assert(ord.contains(v));
    }
    let z = c.update(w, false);
    assert(z =~= Seq::new(c.len(), |i: int| false));
    lemma_count_none(c.len());
    crate::seqs::lemma_count_true_set(z, w);
    assert(z.update(w, true) =~= c);
}

/// The treewidth of the alive part of `g`, by Tamaki's PID-BT algorithm on
/// each connected part.
pub fn pidd_tw(g: &Graph) -> (r: usize)
    requires
        g.wf(),
    ensures
        g@.alive_count() <= 1 ==> r == 0,
        g@.alive_count() > 1 ==> r < g@.alive_count(),
        !has_alive_edge(g@) ==> r == 0,
{
    let bg = BGraph::from_crate(g);
    proof {
        g.lemma_wf();
        crate::bitset::lemma_ones_of_count(g@.alive);
    }
    if bg.n <= 1 {
        return 0;
    }
    let empty = fbs_with_capacity(bg.n);
    let comps = bg.components(&empty);
    let ghost cs = sets_of(comps@);
    let ghost edgeless = !has_alive_edge(g@);
    proof {
        if edgeless {
            assert forall|x: int, y: int| 0 <= x < bg.size() && 0 <= y < bg.size() implies !#[trigger] bg.rows()[x][y] by {
                let al = g@.alive_list();
                lemma_idx_filter(|i: usize| (i as int) < g@.alive.len() && g@.alive[i as int], g@.alive.len());
                assert(g@.is_alive(al[x]));
                if bg.rows()[x][y] {
                    assert(g@.is_nbr(al[x], al[y]));
                    assert(has_alive_edge(g@));
                }
            }
        }
    }
    let mut tw: usize = 0;
    let mut i: usize = 0;
    while i < comps.len()
        invariant
            bg.wf(),
            bg.size() > 1,
            fbs_bits(empty).len() == bg.size(),
            cs == sets_of(comps@),
            is_split(bg.rows(), fbs_bits(empty), cs),
            i <= comps.len(),
            tw < bg.size(),
            edgeless ==> tw == 0,
            edgeless ==> forall|x: int, y: int| 0 <= x < bg.size() && 0 <= y < bg.size() ==> !#[trigger] bg.rows()[x][y],
        decreases comps.len() - i,
    {
        assert(cs[i as int] == fbs_bits(comps[i as int]));
        let sub = bg.induced_subgraph(&comps[i]);
        proof {
            crate::seqs::lemma_count_true_le(fbs_bits(comps[i as int]));
            if edgeless {
                lemma_edgeless_part(bg.rows(), fbs_bits(empty), cs[i as int]);
            }
        }
        let t = tw_connected(&sub);
        if t > tw {
            tw = t;
        }
        i += 1;
    }
    tw
}

} // verus!
