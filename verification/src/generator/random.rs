//! Random graph models driven by a seeded generator: `G(n, m)`, random
//! regular graphs and Barabási–Albert preferential attachment.
//!
//! Which graph comes out rests on the generator; the contracts state what
//! holds of every outcome.

use vstd::prelude::*;

use crate::generator::named::{clique_row, concat_rows};
use crate::graph::{lemma_adj_push, EColor, Graph, GraphModel, VColor};
use crate::seqs::{count_if, lemma_count_if_all, lemma_count_if_append, lemma_count_if_none, lemma_idx_filter};
use crate::petgraph_ext::{connects, index_limit};
use crate::rng::{rng_range, rng_shuffle};

verus! {

/// Every edge is an `NC` edge `(u, v)` with `u < v < n`, and no two edges
/// join the same pair.
pub open spec fn simple_upper(m: GraphModel, n: nat) -> bool {
    &&& forall|i: int| 0 <= i < m.edges.len() ==> (#[trigger] m.edges[i]).0 < m.edges[i].1 < n && m.edges[i].2 == EColor::NC
    &&& forall|i: int, j: int|
        0 <= i < j < m.edges.len() ==> ((#[trigger] m.edges[i]).0 != (#[trigger] m.edges[j]).0 || m.edges[i].1 != m.edges[j].1)
}

/// `n` alive `NC` vertices.
pub open spec fn plain_vertices(m: GraphModel, n: nat) -> bool {
    &&& m.nodes == Seq::new(n, |i: int| VColor::NC)
    &&& m.alive == Seq::new(n, |i: int| true)
}

/// The index of the first pair `(u, _)` in the row-major list of pairs
/// `u < v < n`.
pub open spec fn row_start(n: nat, u: nat) -> nat
    decreases u,
{
    if u == 0 {
        0
    } else {
        row_start(n, (u - 1) as nat) + if u - 1 < n - 1 { (n - 1 - (u - 1)) as nat } else { 0 }
    }
}

/// The number of pairs `u < v < n`.
pub open spec fn max_pairs(n: nat) -> nat {
    if n == 0 {
        0
    } else {
        row_start(n, (n - 1) as nat)
    }
}

proof fn lemma_row_start_mono(n: nat, a: nat, b: nat)
    requires
        a <= b,
    ensures
        row_start(n, a) <= row_start(n, b),
    decreases b,
{
    if a < b {
        lemma_row_start_mono(n, a, (b - 1) as nat);
    }
}

proof fn lemma_row_start_closed(n: nat, u: nat)
    requires
        u <= n,
    ensures
        2 * row_start(n, u) == u * (2 * n - u - 1),
    decreases u,
{
    if u > 0 {
        lemma_row_start_closed(n, (u - 1) as nat);
        let r = row_start(n, (u - 1) as nat);
        assert(row_start(n, u) == r + (n - u));
        let ui = u as int;
        let ni = n as int;
        assert((ui - 1) * (2 * ni - ui) + 2 * (ni - ui) == ui * (2 * ni - ui - 1)) by (nonlinear_arith);
        assert(2 * r == (ui - 1) * (2 * ni - ui));
        assert(2 * row_start(n, u) == ui * (2 * ni - ui - 1));
    } else {
        assert(u * (2 * n - u - 1) == 0) by (nonlinear_arith)
            requires
                u == 0,
        ;
    }
}

/// The `k`-th pair `(u, v)`, `u < v < n`, in row-major order.
fn pair_of(n: usize, k: usize) -> (r: (usize, usize))
    requires
        2 <= n,
        k < max_pairs(n as nat),
    ensures
        r.0 < r.1 < n,
        row_start(n as nat, r.0 as nat) <= k,
        k == row_start(n as nat, r.0 as nat) + (r.1 - r.0 - 1),
{
    let mut u: usize = 0;
    let mut rem: usize = k;
    while rem >= n - 1 - u
        invariant
            2 <= n,
            k < max_pairs(n as nat),
            u < n - 1,
            row_start(n as nat, u as nat) + rem == k,
        decreases n - u,
    {
        rem = rem - (n - 1 - u);
        proof {
            if u + 1 >= n - 1 {
                lemma_row_start_mono(n as nat, (u + 1) as nat, (n - 1) as nat);
                assert(row_start(n as nat, (u + 1) as nat) <= k);
                assert(false);
            }
        }
        u += 1;
    }
    (u, u + 1 + rem)
}

/// `G(n, m)`: `min(m, n(n-1)/2)` distinct edges chosen uniformly (by a
/// shuffle of the pair indices).
pub fn gnm(n: usize, m: usize, rng: &mut rand::rngs::StdRng) -> (g: Graph)
    requires
        n < index_limit(),
        n * n <= usize::MAX,
        n * n + 1 < index_limit() || m + 1 < index_limit(),
    ensures
        g.wf(),
        plain_vertices(g@, n as nat),
        simple_upper(g@, n as nat),
        g@.edges.len() == if m < max_pairs(n as nat) { m as nat } else { max_pairs(n as nat) },
{
    proof {
        if n >= 1 {
            lemma_row_start_closed(n as nat, (n - 1) as nat);
            assert((n - 1) * (2 * n - (n - 1) - 1) == n * (n - 1)) by (nonlinear_arith)
                requires
                    n >= 1,
            ;
            assert(n * (n - 1) <= n * n) by (nonlinear_arith);
        }
    }
    let max_edges: usize = if n == 0 {
        0
    } else {
        n * (n - 1) / 2
    };
    assert(max_edges == max_pairs(n as nat));
    let mm = if m < max_edges {
        m
    } else {
        max_edges
    };
    let mut g = Graph::with_capacity(n);
    proof {
        assert(g@.edges.len() == 0);
        assert(g@.nodes =~= Seq::new(n as nat, |i: int| VColor::NC));
    }
    if mm == 0 || n < 2 {
        proof {
            if n < 2 {
                if n == 1 {
                    assert(max_pairs(1) == 0);
                }
            }
        }
        return g;
    }
    let mut slots: Vec<usize> = Vec::new();
    let mut i: usize = 0;
    while i < max_edges
        invariant
            i <= max_edges,
            slots@ == Seq::new(i as nat, |t: int| t as usize),
        decreases max_edges - i,
    {
        slots.push(i);
        i += 1;
        proof {
            assert(slots@ =~= Seq::new(i as nat, |t: int| t as usize));
        }
    }
    let ghost s0 = slots@;
    proof {
        assert(s0.no_duplicates());
        s0.lemma_multiset_has_no_duplicates();
    }
    rng_shuffle(rng, &mut slots);
    proof {
        broadcast use vstd::seq_lib::group_to_multiset_ensures;
        slots@.lemma_multiset_has_no_duplicates_conv();
        assert forall|t: int| 0 <= t < slots.len() implies #[trigger] slots@[t] < max_edges by {
            assert(slots@.contains(slots@[t]));
            assert(slots@.to_multiset().count(slots@[t]) > 0);
            assert(s0.to_multiset().count(slots@[t]) > 0);
            assert(s0.contains(slots@[t]));
        }
        assert(slots.len() == max_edges) by {
            assert(slots@.to_multiset().len() == s0.to_multiset().len());
        }
        assert(mm * mm <= n * n || mm + 1 < index_limit());
    }
    let mut t: usize = 0;
    while t < mm
        invariant
            g.wf(),
            2 <= n,
            n < index_limit(),
            mm <= max_edges,
            max_edges == max_pairs(n as nat),
            slots.len() == max_edges,
            slots@.no_duplicates(),
            forall|q: int| 0 <= q < slots.len() ==> #[trigger] slots@[q] < max_edges,
            mm + 1 < index_limit(),
            t <= mm,
            g@.nodes == Seq::new(n as nat, |i: int| VColor::NC),
            g@.alive == Seq::new(n as nat, |i: int| true),
            g@.edges.len() == t,
            forall|q: int| 0 <= q < t ==> (#[trigger] g@.edges[q]).0 < g@.edges[q].1 < n && g@.edges[q].2 == EColor::NC
                && slots@[q] == row_start(n as nat, g@.edges[q].0 as nat) + (g@.edges[q].1 - g@.edges[q].0 - 1),
        decreases mm - t,
    {
        let (u, v) = pair_of(n, slots[t]);
        g.add_edge(u, v);
        t += 1;
    }
    proof {
        assert forall|i: int, j: int| 0 <= i < j < g@.edges.len() implies ((#[trigger] g@.edges[i]).0 != (
        #[trigger] g@.edges[j]).0 || g@.edges[i].1 != g@.edges[j].1) by {
            assert(slots@[i] != slots@[j]);
        }
    }
    g
}


/// The edges that pair up consecutive entries of `s`: `(s[0], s[1])`,
/// `(s[2], s[3])`, and so on.
pub open spec fn pairing_edges(s: Seq<usize>) -> Seq<(usize, usize, EColor)> {
    Seq::new(s.len() / 2, |j: int| (s[2 * j], s[2 * j + 1], EColor::NC))
}

/// No pair of `s` is a loop, and no two pairs join the same two vertices.
pub open spec fn pairing_simple(s: Seq<usize>) -> bool {
    simple_edges(pairing_edges(s))
}

/// No edge is a loop, and no two edges join the same two vertices.
pub open spec fn simple_edges(e: Seq<(usize, usize, EColor)>) -> bool {
    &&& forall|j: int| 0 <= j < e.len() ==> (#[trigger] e[j]).0 != e[j].1
    &&& forall|i: int, j: int| 0 <= i < j < e.len() ==> !connects(#[trigger] e[i], (#[trigger] e[j]).0, e[j].1)
}

/// The endpoints of the edges, in order: source then target of each.
pub open spec fn ends(edges: Seq<(usize, usize, EColor)>) -> Seq<usize>
    decreases edges.len(),
{
    if edges.len() == 0 {
        Seq::<usize>::empty()
    } else {
        ends(edges.drop_last()).push(edges.last().0).push(edges.last().1)
    }
}

/// A simple `k`-regular graph on `n` vertices: no loops, no two edges on
/// one pair, every endpoint below `n`, and every vertex the endpoint of
/// exactly `k` edges.
pub open spec fn is_regular(m: GraphModel, n: nat, k: nat) -> bool {
    &&& simple_edges(m.edges)
    &&& forall|i: int| 0 <= i < m.edges.len() ==> (#[trigger] m.edges[i]).0 < n && m.edges[i].1 < n && m.edges[i].2 == EColor::NC
    &&& forall|v: usize| v < n ==> #[trigger] ends(m.edges).to_multiset().count(v) == k
}

proof fn lemma_ends_pairing(s: Seq<usize>)
    requires
        s.len() % 2 == 0,
    ensures
        ends(pairing_edges(s)) == s,
    decreases s.len(),
{
    if s.len() > 0 {
        let t = s.take(s.len() - 2);
        lemma_ends_pairing(t);
        assert(pairing_edges(s).drop_last() =~= pairing_edges(t));
        assert(s =~= t.push(s[s.len() - 2]).push(s[s.len() - 1]));
    }
}

/// Each `v < n`, `k` times, in order.
fn stubs_of(n: usize, k: usize) -> (r: Vec<usize>)
    requires
        n * k <= usize::MAX,
    ensures
        r.len() == n * k,
        forall|i: int| 0 <= i < r.len() ==> #[trigger] r[i] < n,
        forall|v: usize| v < n ==> #[trigger] r@.to_multiset().count(v) == k,
{
    broadcast use vstd::seq_lib::group_to_multiset_ensures;

    let mut r: Vec<usize> = Vec::new();
    let mut v: usize = 0;
    while v < n
        invariant
            v <= n,
            n * k <= usize::MAX,
            r.len() == v * k,
            forall|i: int| 0 <= i < r.len() ==> #[trigger] r[i] < v,
            forall|w: usize| #[trigger] r@.to_multiset().count(w) == if w < v { k } else { 0 },
        decreases n - v,
    {
        proof {
            assert((v + 1) * k <= n * k) by (nonlinear_arith)
                requires
                    v + 1 <= n,
            ;
            assert((v + 1) * k == v * k + k) by (nonlinear_arith);
        }
        let mut j: usize = 0;
        while j < k
            invariant
                v < n,
                j <= k,
                (v + 1) * k <= usize::MAX,
                (v + 1) * k == v * k + k,
                r.len() == v * k + j,
                forall|i: int| 0 <= i < r.len() ==> #[trigger] r[i] < v + 1,
                forall|w: usize| #[trigger] r@.to_multiset().count(w) == if w < v { k } else if w == v { j } else { 0 },
            decreases k - j,
        {
            let ghost prev = r@;
            r.push(v);
            j += 1;
            proof {
                assert(r@ =~= prev.push(v));
                vstd::seq_lib::to_multiset_build(prev, v);
            }
        }
        v += 1;
    }
    r
}

/// The graph on `n` vertices whose edges pair up consecutive stubs, or
/// `None` where that pairing has a loop or joins one pair twice.
fn pair_stubs(n: usize, stubs: &Vec<usize>) -> (r: Option<Graph>)
    requires
        n < index_limit(),
        n * n <= usize::MAX,
        stubs.len() % 2 == 0,
        stubs.len() / 2 + 1 < index_limit(),
        forall|i: int| 0 <= i < stubs.len() ==> #[trigger] stubs[i] < n,
    ensures
        r is Some <==> pairing_simple(stubs@),
        r matches Some(g) ==> g.wf() && plain_vertices(g@, n as nat) && g@.edges == pairing_edges(stubs@),
{
    let mut g = Graph::with_capacity(n);
    let mut i: usize = 0;
    while i + 1 < stubs.len()
        invariant
            g.wf(),
            stubs.len() % 2 == 0,
            stubs.len() / 2 + 1 < index_limit(),
            forall|q: int| 0 <= q < stubs.len() ==> #[trigger] stubs[q] < n,
            i % 2 == 0,
            i <= stubs.len(),
            g@.nodes == Seq::new(n as nat, |q: int| VColor::NC),
            g@.alive == Seq::new(n as nat, |q: int| true),
            g@.edges == pairing_edges(stubs@.take(i as int)),
            pairing_simple(stubs@.take(i as int)),
        decreases stubs.len() - i,
    {
        let a = stubs[i];
        let b = stubs[i + 1];
        let ghost s = stubs@;
        let ghost j: int = (i / 2) as int;
        let ghost before = g@.edges;
        if a == b || g.has_edge(a, b) {
            proof {
                assert(s[2 * j] == a && s[2 * j + 1] == b);
                assert(pairing_edges(s)[j] == (a, b, EColor::NC));
                if a != b {
                    let e = choose|e: int| 0 <= e < g@.edges.len() && connects(#[trigger] g@.edges[e], a, b);
                    assert(pairing_edges(s)[e] == g@.edges[e]);
                }
                assert(!pairing_simple(s));
            }
            return None;
        }
        g.add_edge(a, b);
        i += 2;
        proof {
            let t = s.take(i as int);
            assert(g@.edges =~= pairing_edges(t));
            assert(pairing_edges(t) =~= before.push((a, b, EColor::NC)));
            assert forall|ii: int, jj: int| 0 <= ii < jj < g@.edges.len() implies !connects(#[trigger] g@.edges[ii], (#[trigger] g@.edges[jj]).0, g@.edges[jj].1) by {
                if jj < j {
                    assert(g@.edges[ii] == before[ii] && g@.edges[jj] == before[jj]);
                } else {
                    assert(g@.edges[ii] == before[ii]);
                    assert(!connects(before[ii], a, b));
                }
            }
            assert forall|jj: int| 0 <= jj < g@.edges.len() implies (#[trigger] g@.edges[jj]).0 != g@.edges[jj].1 by {
                if jj < j {
                    assert(g@.edges[jj] == before[jj]);
                }
            }
        }
    }
    proof {
        assert(stubs@.take(i as int) =~= stubs@);
    }
    Some(g)
}

/// `s` lists each vertex `v < n` exactly `k` times (a shuffle of the
/// stubs), and nothing else.
pub open spec fn stub_perm(s: Seq<usize>, n: nat, k: nat) -> bool {
    &&& s.len() == n * k
    &&& forall|i: int| 0 <= i < s.len() ==> #[trigger] s[i] < n
    &&& forall|v: usize| v < n ==> #[trigger] s.to_multiset().count(v) == k
}

/// 64 stub shuffles, none of whose pairings is simple.
pub open spec fn all_tries_fail(tries: Seq<Seq<usize>>, n: nat, k: nat) -> bool {
    &&& tries.len() == 64
    &&& forall|t: int| 0 <= t < 64 ==> #[trigger] stub_perm(tries[t], n, k) && !pairing_simple(tries[t])
}

/// With one stub per vertex, every pairing is simple: no vertex occurs
/// twice, so no pair is a loop and no two pairs join the same vertices.
pub proof fn lemma_single_stub_pairing_simple(s: Seq<usize>, n: nat)
    requires
        stub_perm(s, n, 1),
    ensures
        pairing_simple(s),
{
    broadcast use vstd::seq_lib::group_to_multiset_ensures;

    assert forall|i: int, j: int| 0 <= i < s.len() && 0 <= j < s.len() && i != j implies s[i] != s[j] by {
        if s[i] == s[j] {
            let r = s.remove(i);
            assert(r.to_multiset() =~= s.to_multiset().remove(s[i]));
            let jj = if j < i { j } else { j - 1 };
            assert(r[jj] == s[j]);
            assert(r.contains(s[j]));
            assert(r.to_multiset().count(s[j]) > 0);
            assert(s.to_multiset().count(s[i]) == 1);
        }
    }
    let e = pairing_edges(s);
    assert forall|j: int| 0 <= j < e.len() implies (#[trigger] e[j]).0 != e[j].1 by {
        assert(e[j].0 == s[2 * j] && e[j].1 == s[2 * j + 1]);
    }
    assert forall|i: int, j: int| 0 <= i < j < e.len() implies !crate::petgraph_ext::connects(
        #[trigger] e[i],
        (#[trigger] e[j]).0,
        e[j].1,
    ) by {
        assert(e[i].0 == s[2 * i] && e[i].1 == s[2 * i + 1]);
        assert(e[j].0 == s[2 * j] && e[j].1 == s[2 * j + 1]);
    }
}

/// A random simple `k`-regular graph on `n` vertices by the pairing
/// model: the stubs (each vertex `k` times) are shuffled and paired up,
/// and the first of up to 64 tries whose pairing has no loop and no
/// repeated pair is returned. Where `n == 0`, `k == 0`, `k >= n` or `n * k`
/// is odd, or no try succeeds, the `n` vertices come back without edges.
pub fn random_regular(n: usize, k: usize, rng: &mut rand::rngs::StdRng) -> (g: Graph)
    requires
        n < index_limit(),
        n * n <= usize::MAX,
        k < n ==> n * k / 2 + 1 < index_limit(),
    ensures
        g.wf(),
        plain_vertices(g@, n as nat),
        n == 0 || k == 0 || k >= n || (n * k) % 2 == 1 ==> g@.edges.len() == 0,
        g@.edges.len() == 0 || is_regular(g@, n as nat, k as nat),
        0 < k < n && (n * k) % 2 == 0 && g@.edges.len() == 0 ==> exists|tries: Seq<Seq<usize>>|
            #[trigger] all_tries_fail(tries, n as nat, k as nat),
        k == 1 && 2 <= n && n % 2 == 0 ==> g@.edges.len() > 0 && is_regular(g@, n as nat, 1),
{
    if n == 0 || k == 0 {
        return Graph::with_capacity(n);
    }
    if k >= n {
        return Graph::with_capacity(n);
    }
    proof {
        assert(n * k <= n * n) by (nonlinear_arith)
            requires
                k < n,
        ;
    }
    if (n * k) % 2 != 0 {
        return Graph::with_capacity(n);
    }
    let mut attempt: usize = 0;
    let ghost mut tries: Seq<Seq<usize>> = Seq::empty();
    while attempt < 64
        invariant
            tries.len() == attempt,
            attempt <= 64,
            forall|t: int| 0 <= t < attempt ==> #[trigger] stub_perm(tries[t], n as nat, k as nat) && !pairing_simple(tries[t]),
            0 < k < n,
            n < index_limit(),
            n * n <= usize::MAX,
            n * k <= usize::MAX,
            (n * k) % 2 == 0,
            n * k / 2 + 1 < index_limit(),
        decreases 64 - attempt,
    {
        let mut stubs = stubs_of(n, k);
        let ghost s0 = stubs@;
        rng_shuffle(rng, &mut stubs);
        proof {
            broadcast use vstd::seq_lib::group_to_multiset_ensures;

            assert(stubs.len() == n * k) by {
                assert(stubs@.to_multiset().len() == s0.to_multiset().len());
            }
            assert forall|q: int| 0 <= q < stubs.len() implies #[trigger] stubs@[q] < n by {
                assert(stubs@.contains(stubs@[q]));
                assert(s0.to_multiset().count(stubs@[q]) > 0);
                assert(s0.contains(stubs@[q]));
            }
            assert forall|v: usize| v < n implies #[trigger] stubs@.to_multiset().count(v) == k by {
                assert(s0.to_multiset().count(v) == k);
            }
            assert(stub_perm(stubs@, n as nat, k as nat));
            if k == 1 {
                lemma_single_stub_pairing_simple(stubs@, n as nat);
            }
        }
        match pair_stubs(n, &stubs) {
            Some(g) => {
                proof {
                    lemma_ends_pairing(stubs@);
                    assert forall|v: usize| v < n implies #[trigger] ends(g@.edges).to_multiset().count(v) == k by {
                        assert(s0.to_multiset().count(v) == k);
                    }
                    assert forall|i: int| 0 <= i < g@.edges.len() implies (#[trigger] g@.edges[i]).0 < n && g@.edges[i].1 < n && g@.edges[i].2 == EColor::NC by {
                        assert(g@.edges[i] == (stubs@[2 * i], stubs@[2 * i + 1], EColor::NC));
                    }
                }
                proof {
                    assert(n * k >= 2) by (nonlinear_arith)
                        requires
                            k >= 1,
                            n >= 2,
                    ;
                    assert(g@.edges.len() == stubs@.len() / 2);
                    assert(g@.edges.len() > 0);
                }
                return g;
            },
            None => {},
        }
        proof {
            let t0 = tries;
            tries = tries.push(stubs@);
            assert forall|t: int| 0 <= t < attempt + 1 implies #[trigger] stub_perm(tries[t], n as nat, k as nat) && !pairing_simple(tries[t]) by {
                if t < attempt {
                    assert(tries[t] == t0[t]);
                }
            }
        }
        attempt += 1;
    }
    let g = Graph::with_capacity(n);
    proof {
        assert(all_tries_fail(tries, n as nat, k as nat));
        if k == 1 {
            assert(stub_perm(tries[0], n as nat, k as nat) && !pairing_simple(tries[0]));
            lemma_single_stub_pairing_simple(tries[0], n as nat);
            assert(false);
        }
    }
    g
}

/// The edges of `es` as `NC` edges, loops kept.
pub open spec fn nc_edges(es: Seq<(usize, usize)>) -> Seq<(usize, usize, EColor)> {
    Seq::new(es.len(), |t: int| (es[t].0, es[t].1, EColor::NC))
}

/// `x` has a neighbor other than itself.
pub open spec fn has_nbr(m: GraphModel, x: usize) -> bool {
    exists|w: usize| w != x && #[trigger] m.adj(x, w)
}

proof fn lemma_clique_rows_len(s: nat, u: nat)
    requires
        u <= s,
    ensures
        concat_rows(clique_row(s), u as int).len() == row_start(s, u),
    decreases u,
{
    if u > 0 {
        lemma_clique_rows_len(s, (u - 1) as nat);
    }
}

/// Join every pair `u < v < s` of `g`'s first `s` vertices, row by row.
fn add_seed_clique(g: &mut Graph, s: usize)
    requires
        old(g).wf(),
        2 <= s <= old(g)@.nodes.len(),
        old(g)@.edges.len() == 0,
        max_pairs(s as nat) + 1 < index_limit(),
    ensures
        final(g).wf(),
        final(g)@.nodes == old(g)@.nodes,
        final(g)@.alive == old(g)@.alive,
        final(g)@.edges == nc_edges(concat_rows(clique_row(s as nat), s as int)),
        forall|x: usize| x < s ==> has_nbr(final(g)@, x),
{
    let ghost f = clique_row(s as nat);
    let ghost g0 = g@;
    proof {
        lemma_clique_rows_len(s as nat, (s - 1) as nat);
        lemma_clique_rows_len(s as nat, s as nat);
    }
    let mut u: usize = 0;
    while u < s
        invariant
            g.wf(),
            f == clique_row(s as nat),
            2 <= s <= g@.nodes.len(),
            g@.nodes == g0.nodes,
            g@.alive == g0.alive,
            u <= s,
            max_pairs(s as nat) + 1 < index_limit(),
            concat_rows(f, s as int).len() == max_pairs(s as nat),
            g@.edges == nc_edges(concat_rows(f, u as int)),
            u >= 1 ==> forall|x: usize| x < s ==> has_nbr(g@, x),
        decreases s - u,
    {
        let mut v: usize = u + 1;
        proof {
            lemma_clique_rows_len(s as nat, u as nat);
            assert(row_start(s as nat, (u + 1) as nat) == row_start(s as nat, u as nat) + (s - 1 - u));
            if u + 1 <= s - 1 {
                lemma_row_start_mono(s as nat, (u + 1) as nat, (s - 1) as nat);
            }
        }
        while v < s
            invariant
                g.wf(),
                f == clique_row(s as nat),
                2 <= s <= g@.nodes.len(),
                g@.nodes == g0.nodes,
                g@.alive == g0.alive,
                u < s,
                u + 1 <= v <= s,
                max_pairs(s as nat) + 1 < index_limit(),
                concat_rows(f, u as int).len() == row_start(s as nat, u as nat),
                row_start(s as nat, u as nat) + (s - 1 - u) <= max_pairs(s as nat),
                g@.edges == nc_edges(concat_rows(f, u as int) + f(u as int).take(v - u - 1)),
                u >= 1 ==> forall|x: usize| x < s ==> has_nbr(g@, x),
                u == 0 ==> forall|x: usize| 1 <= x < v ==> has_nbr(g@, x),
                u == 0 && v > 1 ==> has_nbr(g@, 0),
            decreases s - v,
        {
            let ghost before = g@;
            g.add_edge(u, v);
            proof {
                lemma_adj_push(before, g@, (u, v, EColor::NC));
                assert forall|x: usize| has_nbr(before, x) implies #[trigger] has_nbr(g@, x) by {
                    let w = choose|w: usize| w != x && #[trigger] before.adj(x, w);
                    assert(g@.adj(x, w));
                }
                assert(g@.adj(u, v) && g@.adj(v, u));
                let es = concat_rows(f, u as int) + f(u as int).take(v - u);
                assert(f(u as int)[v - u - 1] == (u, v));
                assert(g@.edges =~= nc_edges(es));
            }
            v += 1;
        }
        proof {
            assert(f(u as int).take(s - u - 1) =~= f(u as int));
        }
        u += 1;
    }
}

/// Each vertex `v < upto`, repeated once per neighbor.
fn degree_pool(g: &Graph, upto: usize) -> (pool: Vec<usize>)
    requires
        g.wf(),
        upto <= g@.nodes.len(),
        forall|x: usize| x < g@.nodes.len() ==> #[trigger] g@.is_alive(x),
        forall|x: usize| x < upto ==> #[trigger] has_nbr(g@, x),
    ensures
        forall|i: int| 0 <= i < pool.len() ==> #[trigger] pool[i] < upto,
        forall|x: usize| x < upto ==> #[trigger] pool@.contains(x),
        forall|x: usize| x < upto ==> #[trigger] pool@.to_multiset().count(x) == g@.nbrs(x).len(),
{
    broadcast use vstd::seq_lib::group_to_multiset_ensures;
    let mut pool: Vec<usize> = Vec::new();
    proof {
        assert(pool@.to_multiset() =~= vstd::multiset::Multiset::<usize>::empty());
    }
    let mut v: usize = 0;
    while v < upto
        invariant
            g.wf(),
            upto <= g@.nodes.len(),
            forall|x: usize| x < g@.nodes.len() ==> #[trigger] g@.is_alive(x),
        forall|x: usize| x < upto ==> #[trigger] has_nbr(g@, x),
            v <= upto,
            forall|i: int| 0 <= i < pool.len() ==> #[trigger] pool[i] < v,
            forall|x: usize| x < v ==> #[trigger] pool@.contains(x),
            forall|x: usize| x < v ==> #[trigger] pool@.to_multiset().count(x) == g@.nbrs(x).len(),
            forall|x: usize| x >= v ==> #[trigger] pool@.to_multiset().count(x) == 0,
        decreases upto - v,
    {
        let d = g.degree(v);
        proof {
            g.lemma_wf();
            let m = g@;
            assert(has_nbr(m, v));
            let w = choose|w: usize| w != v && #[trigger] m.adj(v, w);
            let e = choose|e: int| 0 <= e < m.edges.len() && connects(#[trigger] m.edges[e], v, w);
            assert(m.edges[e].0 < m.nodes.len() && m.edges[e].1 < m.nodes.len());
            assert(m.is_alive(w));
            lemma_idx_filter(m.nbr_pred(v), m.nodes.len());
            assert(m.nbr_pred(v)(w));
            assert(m.nbrs(v).contains(w));
        }
        let ghost start = pool@;
        let mut j: usize = 0;
        while j < d
            invariant
                j <= d,
                d > 0,
                v < upto,
                pool@.len() == start.len() + j,
                pool@.take(start.len() as int) == start,
                forall|i: int| start.len() <= i < pool.len() ==> #[trigger] pool[i] == v,
                forall|x: usize| x != v ==> #[trigger] pool@.to_multiset().count(x) == start.to_multiset().count(x),
                pool@.to_multiset().count(v) == start.to_multiset().count(v) + j,
            decreases d - j,
        {
            let ghost p0 = pool@;
            pool.push(v);
            j += 1;
            proof {
                assert(pool@.take(start.len() as int) =~= start);
                assert(pool@ == p0.push(v));
                p0.to_multiset_ensures();
                assert(p0.push(v).to_multiset() =~= p0.to_multiset().insert(v));
            }
        }
        proof {
            assert forall|i: int| 0 <= i < pool.len() implies #[trigger] pool[i] < v + 1 by {
                if i < start.len() {
                    assert(pool@.take(start.len() as int)[i] == start[i]);
                }
            }
            assert forall|x: usize| x < v + 1 implies #[trigger] pool@.contains(x) by {
                if x < v {
                    assert(start.contains(x));
                    let i = choose|i: int| 0 <= i < start.len() && start[i] == x;
                    assert(pool@.take(start.len() as int)[i] == x);
                    assert(pool@[i] == x);
                } else {
                    assert(pool@[start.len() as int] == x);
                }
            }
        }
        v += 1;
    }
    pool
}

/// A value below `n` that a duplicate-free sequence of fewer than `n`
/// values below `n` leaves out.
proof fn lemma_missing_value(s: Seq<usize>, n: nat)
    requires
        s.no_duplicates(),
        forall|i: int| 0 <= i < s.len() ==> #[trigger] s[i] < n,
        s.len() < n,
        n <= usize::MAX + 1,
    ensures
        exists|u: usize| u < n && !s.contains(u),
    decreases n,
{
    let top = (n - 1) as usize;
    if s.contains(top) {
        let p = choose|p: int| 0 <= p < s.len() && s[p] == top;
        let t = s.remove(p);
        assert forall|i: int| 0 <= i < t.len() implies #[trigger] t[i] < n - 1 by {
            if i < p {
                assert(t[i] == s[i]);
            } else {
                assert(t[i] == s[i + 1]);
            }
        }
        assert(t.no_duplicates()) by {
            assert forall|i: int, j: int| 0 <= i < t.len() && 0 <= j < t.len() && i != j implies t[i] != t[j] by {
                let si = if i < p { i } else { i + 1 };
                let sj = if j < p { j } else { j + 1 };
                assert(t[i] == s[si] && t[j] == s[sj]);
            }
        }
        lemma_missing_value(t, (n - 1) as nat);
        let u = choose|u: usize| u < n - 1 && !t.contains(u);
        assert(!s.contains(u)) by {
            if s.contains(u) {
                let q = choose|q: int| 0 <= q < s.len() && s[q] == u;
                assert(q != p);
                if q < p {
                    assert(t[q] == u);
                } else {
                    assert(t[q - 1] == u);
                }
            }
        }
    } else {
        assert(top < n && !s.contains(top));
    }
}

/// `pool` without the entries equal to `x`, order kept.
fn without(pool: &Vec<usize>, x: usize) -> (r: Vec<usize>)
    ensures
        r@ == pool@.filter(|y: usize| y != x),
        forall|y: usize| #[trigger] r@.contains(y) <==> pool@.contains(y) && y != x,
{
    let ghost keep = |y: usize| y != x;
    let mut r: Vec<usize> = Vec::new();
    let mut i: usize = 0;
    while i < pool.len()
        invariant
            keep == (|y: usize| y != x),
            i <= pool.len(),
            r@ == pool@.take(i as int).filter(keep),
            forall|y: usize| #[trigger] r@.contains(y) <==> pool@.take(i as int).contains(y) && y != x,
        decreases pool.len() - i,
    {
        let ghost t = pool@.take(i as int);
        proof {
            assert(t.push(pool@[i as int]) =~= pool@.take(i + 1));
            t.lemma_filter_push(pool@[i as int], keep);
        }
        let ghost r0 = r@;
        if pool[i] != x {
            r.push(pool[i]);
        }
        i += 1;
        proof {
            assert forall|y: usize| #[trigger] r@.contains(y) <==> pool@.take(i as int).contains(y) && y != x by {
                if pool@.take(i as int).contains(y) && y != x {
                    let k = choose|k: int| 0 <= k < i && pool@.take(i as int)[k] == y;
                    if k < i - 1 {
                        assert(t[k] == y);
                        assert(r0.contains(y));
                        let q = choose|q: int| 0 <= q < r0.len() && r0[q] == y;
                        assert(r@[q] == y);
                    } else {
                        assert(r@[r@.len() - 1] == y);
                    }
                }
                if r@.contains(y) {
                    let q = choose|q: int| 0 <= q < r@.len() && r@[q] == y;
                    if q < r0.len() {
                        assert(r0[q] == y);
                        assert(r0.contains(y));
                        let k = choose|k: int| 0 <= k < t.len() && t[k] == y;
                        assert(pool@.take(i as int)[k] == y);
                    } else {
                        assert(pool@.take(i as int)[i - 1] == y);
                    }
                }
            }
        }
    }
    proof {
        assert(pool@.take(pool.len() as int) =~= pool@);
    }
    r
}

/// `want` distinct entries of `pool`: each draw picks a uniformly random
/// position of what is left, then drops every copy of the value drawn.
fn pick_distinct(pool: Vec<usize>, want: usize, upto: usize, rng: &mut rand::rngs::StdRng) -> (picked: Vec<usize>)
    requires
        want <= upto,
        forall|i: int| 0 <= i < pool.len() ==> #[trigger] pool[i] < upto,
        forall|x: usize| x < upto ==> #[trigger] pool@.contains(x),
    ensures
        picked.len() == want,
        picked@.no_duplicates(),
        forall|i: int| 0 <= i < picked.len() ==> #[trigger] picked[i] < upto,
{
    let mut pool = pool;
    let mut picked: Vec<usize> = Vec::new();
    while picked.len() < want && pool.len() > 0
        invariant
            want <= upto,
            picked.len() <= want,
            forall|i: int| 0 <= i < pool.len() ==> #[trigger] pool[i] < upto,
            forall|x: usize| x < upto ==> (#[trigger] pool@.contains(x) <==> !picked@.contains(x)),
            picked@.no_duplicates(),
            forall|i: int| 0 <= i < picked.len() ==> #[trigger] picked[i] < upto,
        decreases want - picked.len(),
    {
        let idx = rng_range(rng, 0, pool.len());
        let cand = pool[idx];
        let ghost p0 = picked@;
        let ghost pool0 = pool@;
        assert(pool0.contains(cand));
        pool = without(&pool, cand);
        picked.push(cand);
        proof {
            assert(picked@ == p0.push(cand));
            assert(!p0.contains(cand));
            assert forall|i: int| 0 <= i < pool.len() implies #[trigger] pool[i] < upto by {
                assert(pool@.contains(pool@[i]));
                let k = choose|k: int| 0 <= k < pool0.len() && pool0[k] == pool@[i];
            }
            assert forall|x: usize| x < upto implies (#[trigger] pool@.contains(x) <==> !picked@.contains(x)) by {
                if picked@.contains(x) && x != cand {
                    let q = choose|q: int| 0 <= q < picked@.len() && picked@[q] == x;
                    assert(p0[q] == x);
                }
                if p0.contains(x) {
                    let q = choose|q: int| 0 <= q < p0.len() && p0[q] == x;
                    assert(picked@[q] == x);
                }
                assert(picked@[p0.len() as int] == cand);
            }
            assert forall|i: int, j: int| 0 <= i < picked.len() && 0 <= j < picked.len() && i != j implies picked@[i] != picked@[j] by {
                if i < p0.len() && j < p0.len() {
                    assert(p0[i] != p0[j]);
                } else if i < p0.len() {
                    assert(p0.contains(p0[i]));
                } else if j < p0.len() {
                    assert(p0.contains(p0[j]));
                }
            }
        }
    }
    proof {
        if picked.len() < want {
            lemma_missing_value(picked@, upto as nat);
            let u = choose|u: usize| u < upto && !picked@.contains(u);
            assert(pool@.contains(u));
        }
    }
    picked
}

/// Number of edges whose target is `v`.
pub open spec fn target_count(e: Seq<(usize, usize, EColor)>, v: nat) -> nat {
    count_if(e, |x: (usize, usize, EColor)| x.1 == v)
}

/// The attachment edges of a graph grown from `s` seed vertices up to
/// `n`: each edge `(u, v)` has `u < v` and `s <= v < n`, targets never
/// decrease along the list, no target gets the same source twice, and
/// each grown vertex is the target of exactly `m` edges.
pub open spec fn attachments(e: Seq<(usize, usize, EColor)>, s: nat, n: nat, m: nat) -> bool {
    &&& forall|i: int| 0 <= i < e.len() ==> (#[trigger] e[i]).0 < e[i].1 && s <= e[i].1 < n && e[i].2 == EColor::NC
    &&& forall|i: int, j: int| 0 <= i < j < e.len() ==> (#[trigger] e[i]).1 <= (#[trigger] e[j]).1
    &&& forall|i: int, j: int| 0 <= i < j < e.len() && (#[trigger] e[i]).1 == (#[trigger] e[j]).1 ==> e[i].0 != e[j].0
    &&& forall|v: nat| s <= v < n ==> #[trigger] target_count(e, v) == m
}

/// The number of edges each grown vertex attaches with: `m`, at least 1.
pub open spec fn ba_degree(m: nat) -> nat {
    if m > 1 { m } else { 1 }
}

/// The size of the seed clique: `ba_degree(m) + 1`, at most `n`.
pub open spec fn ba_seed(n: nat, m: nat) -> nat {
    if ba_degree(m) + 1 < n { ba_degree(m) + 1 } else { n }
}

/// The number of edges of the preferential-attachment graph.
pub open spec fn ba_edge_count(n: nat, m: nat) -> nat {
    max_pairs(ba_seed(n, m)) + ((n - ba_seed(n, m)) as nat) * ba_degree(m)
}

proof fn lemma_attach_block(tail: Seq<(usize, usize, EColor)>, picked: Seq<usize>, s: nat, v: usize, m: nat)
    requires
        s <= v,
        attachments(tail, s, v as nat, m),
        picked.len() == m,
        picked.no_duplicates(),
        forall|i: int| 0 <= i < picked.len() ==> #[trigger] picked[i] < v,
    ensures
        attachments(tail + Seq::new(m, |q: int| (picked[q], v, EColor::NC)), s, (v + 1) as nat, m),
{
    let b = Seq::new(m, |q: int| (picked[q], v, EColor::NC));
    let e = tail + b;
    assert forall|i: int| 0 <= i < e.len() implies (#[trigger] e[i]).0 < e[i].1 && s <= e[i].1 < v + 1 && e[i].2 == EColor::NC by {
        if i < tail.len() {
            assert(e[i] == tail[i]);
        } else {
            assert(e[i] == b[i - tail.len()]);
        }
    }
    assert forall|i: int, j: int| 0 <= i < j < e.len() implies (#[trigger] e[i]).1 <= (#[trigger] e[j]).1 by {
        if j < tail.len() {
            assert(e[i] == tail[i] && e[j] == tail[j]);
        } else if i < tail.len() {
            assert(e[i] == tail[i] && e[j] == b[j - tail.len()]);
        } else {
            assert(e[i] == b[i - tail.len()] && e[j] == b[j - tail.len()]);
        }
    }
    assert forall|i: int, j: int| 0 <= i < j < e.len() && (#[trigger] e[i]).1 == (#[trigger] e[j]).1 implies e[i].0 != e[j].0 by {
        if j < tail.len() {
            assert(e[i] == tail[i] && e[j] == tail[j]);
        } else if i < tail.len() {
            assert(e[i] == tail[i] && e[j] == b[j - tail.len()]);
        } else {
            assert(e[i] == b[i - tail.len()] && e[j] == b[j - tail.len()]);
            assert(picked[i - tail.len()] != picked[j - tail.len()]);
        }
    }
    assert forall|w: nat| s <= w < v + 1 implies #[trigger] target_count(e, w) == m by {
        let p = |x: (usize, usize, EColor)| x.1 == w;
        lemma_count_if_append(tail, b, p);
        if w == v {
            lemma_count_if_all(b, p);
            assert forall|i: int| 0 <= i < tail.len() implies !p(#[trigger] tail[i]) by {}
            lemma_count_if_none(tail, p);
        } else {
            assert(target_count(tail, w) == m);
            assert forall|i: int| 0 <= i < b.len() implies !p(#[trigger] b[i]) by {}
            lemma_count_if_none(b, p);
        }
    }
}

/// A Barabási–Albert preferential-attachment graph on `n` vertices: a
/// clique on the first `ba_seed(n, m)` vertices, then each further vertex
/// joined to `ba_degree(m)` distinct earlier vertices, each drawn with
/// probability proportional to its degree among those not yet drawn.
pub fn barabasi_albert(n: usize, m: usize, rng: &mut rand::rngs::StdRng) -> (g: Graph)
    requires
        n < index_limit(),
        n * n <= usize::MAX,
        m < usize::MAX,
        ba_edge_count(n as nat, m as nat) + 1 < index_limit(),
    ensures
        g.wf(),
        plain_vertices(g@, n as nat),
        g@.edges.len() == ba_edge_count(n as nat, m as nat),
        g@.edges.take(max_pairs(ba_seed(n as nat, m as nat)) as int) == nc_edges(
            concat_rows(clique_row(ba_seed(n as nat, m as nat)), ba_seed(n as nat, m as nat) as int),
        ),
        attachments(
            g@.edges.skip(max_pairs(ba_seed(n as nat, m as nat)) as int),
            ba_seed(n as nat, m as nat),
            n as nat,
            ba_degree(m as nat),
        ),
{
    let mm: usize = if m > 1 { m } else { 1 };
    let mut g = Graph::with_capacity(n);
    if n == 0 {
        proof {
            assert(g@.edges.take(0) =~= nc_edges(concat_rows(clique_row(0), 0)));
            assert(g@.edges.skip(0) =~= Seq::<(usize, usize, EColor)>::empty());
            assert(0 * ba_degree(m as nat) == 0);
        }
        return g;
    }
    let seed = mm + 1;
    let seed_size = if seed < n { seed } else { n };
    let ghost s = seed_size as nat;
    let ghost base = nc_edges(concat_rows(clique_row(s), s as int));
    proof {
        lemma_clique_rows_len(s, s);
        lemma_clique_rows_len(s, (s - 1) as nat);
        assert(row_start(s, s) == max_pairs(s));
    }
    if seed_size >= 2 {
        add_seed_clique(&mut g, seed_size);
    } else {
        proof {
            assert(base =~= g@.edges);
        }
    }
    let mut new_v: usize = seed_size;
    proof {
        assert((new_v - s) * mm == 0) by (nonlinear_arith)
            requires
                new_v == s,
        ;
    }
    while new_v < n
        invariant
            g.wf(),
            mm == ba_degree(m as nat),
            s == seed_size,
            s == ba_seed(n as nat, m as nat),
            seed_size <= new_v <= n,
            new_v < n ==> 2 <= seed_size && mm < seed_size,
            ba_edge_count(n as nat, m as nat) + 1 < index_limit(),
            base.len() == max_pairs(s),
            g@.nodes == Seq::new(n as nat, |i: int| VColor::NC),
            g@.alive == Seq::new(n as nat, |i: int| true),
            g@.edges.len() == max_pairs(s) + (new_v - s) * mm,
            g@.edges.take(max_pairs(s) as int) == base,
            attachments(g@.edges.skip(max_pairs(s) as int), s, new_v as nat, mm as nat),
            seed_size >= 2 ==> forall|x: usize| x < new_v ==> has_nbr(g@, x),
        decreases n - new_v,
    {
        let pool = degree_pool(&g, new_v);
        let want = if mm < new_v { mm } else { new_v };
        let picked = pick_distinct(pool, want, new_v, rng);
        let ghost before = g@;
        let ghost tail0 = before.edges.skip(max_pairs(s) as int);
        proof {
            assert((new_v - s) * mm + mm == (new_v + 1 - s) * mm) by (nonlinear_arith);
            assert((new_v + 1 - s) * mm <= (n - s) * mm) by (nonlinear_arith)
                requires
                    new_v + 1 <= n,
                    s <= new_v,
            ;
        }
        let mut t: usize = 0;
        while t < picked.len()
            invariant
                g.wf(),
                picked.len() == mm,
                forall|i: int| 0 <= i < picked.len() ==> #[trigger] picked[i] < new_v,
                new_v < n,
                before.nodes.len() == n,
                before.edges.len() == max_pairs(s) + (new_v - s) * mm,
                max_pairs(s) + (new_v + 1 - s) * mm + 1 < index_limit(),
                (new_v - s) * mm + mm == (new_v + 1 - s) * mm,
                t <= picked.len(),
                g@.nodes == before.nodes,
                g@.alive == before.alive,
                g@.edges == before.edges + Seq::new(t as nat, |q: int| (picked[q], new_v, EColor::NC)),
                seed_size >= 2 ==> forall|x: usize| x < new_v ==> has_nbr(g@, x),
                t > 0 ==> has_nbr(g@, new_v),
            decreases picked.len() - t,
        {
            let ghost prev = g@;
            g.add_edge(picked[t], new_v);
            proof {
                lemma_adj_push(prev, g@, (picked[t as int], new_v, EColor::NC));
                assert forall|x: usize| has_nbr(prev, x) implies #[trigger] has_nbr(g@, x) by {
                    let w = choose|w: usize| w != x && #[trigger] prev.adj(x, w);
                    assert(g@.adj(x, w));
                }
                assert(g@.adj(new_v, picked[t as int]));
                assert(g@.edges =~= before.edges + Seq::new((t + 1) as nat, |q: int| (picked[q], new_v, EColor::NC)));
            }
            t += 1;
        }
        proof {
            let blk = Seq::new(mm as nat, |q: int| (picked[q], new_v, EColor::NC));
            assert(g@.edges.skip(max_pairs(s) as int) =~= tail0 + blk);
            assert(g@.edges.take(max_pairs(s) as int) =~= before.edges.take(max_pairs(s) as int));
            lemma_attach_block(tail0, picked@, s, new_v, mm as nat);
        }
        new_v += 1;
    }
    g
}


/// The number of vertex pairs of `n` vertices, `n (n - 1) / 2`.
pub open spec fn pair_total(n: int) -> int {
    n * (n - 1) / 2
}

/// The edge count drawn for G(n, m): between a tenth and a half of all
/// pairs (`lo <= m < hi`), or the tenth when that range is empty.
pub open spec fn gnm_param(n: int, m: int) -> bool {
    let lo = pair_total(n) / 10;
    let hi = pair_total(n) / 2 + 1;
    if hi > lo {
        lo <= m < hi
    } else {
        m == lo
    }
}

/// The degree used for a random regular graph from a draw `k0` in `2..=4`:
/// at most `n - 1`, lowered by one (but not below 2) when `n k` is odd.
pub open spec fn regular_degree(n: int, k0: int) -> int {
    let k1 = if k0 < n - 1 { k0 } else { n - 1 };
    if (n * k1) % 2 != 0 {
        if k1 - 1 > 2 { k1 - 1 } else { 2 }
    } else {
        k1
    }
}

/// Room below petgraph's index limit for the edges of the chosen model.
pub open spec fn model_room(n: int, model: int) -> bool {
    if model == 1 {
        pair_total(n) / 2 + 2 < index_limit()
    } else if model == 2 {
        2 * n + 2 < index_limit()
    } else if model == 3 {
        ba_edge_count(n as nat, 2) + 1 < index_limit() && ba_edge_count(n as nat, 3) + 1 < index_limit()
    } else {
        true
    }
}

/// The integer part of the random-graph dispatcher: for `model` 1, 2 or 3,
/// G(n, m) with `m` between a tenth and a half of all pairs, a random
/// regular graph of degree 2 to 4 (adjusted to `n`), or Barabási–Albert
/// with 2 or 3 attachments, each on `n` vertices; model 0 (G(n, p), which
/// draws a float) is left to the caller and answered with `None`.
pub fn random_graph_model(n: usize, model: u8, rng: &mut rand::rngs::StdRng) -> (g: Option<Graph>)
    requires
        2 <= n,
        model < 4,
        n < index_limit(),
        n * n <= usize::MAX,
        model_room(n as int, model as int),
    ensures
        (model == 0) <==> g is None,
        g matches Some(h) ==> h.wf() && plain_vertices(h@, n as nat),
        model == 1 ==> (g matches Some(h) && exists|m: int|
            #[trigger] gnm_param(n as int, m) && simple_upper(h@, n as nat) && h@.edges.len() == if m < max_pairs(
                n as nat,
            ) {
                m
            } else {
                max_pairs(n as nat) as int
            }),
        model == 2 ==> (g matches Some(h) && exists|k0: int|
            2 <= k0 <= 4 && #[trigger] regular_degree(n as int, k0) >= 1 && (h@.edges.len() == 0 || is_regular(
                h@,
                n as nat,
                regular_degree(n as int, k0) as nat,
            )) && ((n * regular_degree(n as int, k0)) % 2 == 1 ==> h@.edges.len() == 0)),
        model == 3 ==> (g matches Some(h) && exists|m: int|
            2 <= m <= 3 && #[trigger] ba_edge_count(n as nat, m as nat) == h@.edges.len() && h@.edges.take(
                max_pairs(ba_seed(n as nat, m as nat)) as int,
            ) == nc_edges(concat_rows(clique_row(ba_seed(n as nat, m as nat)), ba_seed(n as nat, m as nat) as int))
                && attachments(
                h@.edges.skip(max_pairs(ba_seed(n as nat, m as nat)) as int),
                ba_seed(n as nat, m as nat),
                n as nat,
                ba_degree(m as nat),
            )),
{
    if model == 0 {
        return None;
    }
    proof {
        assert(n * (n - 1) <= n * n) by (nonlinear_arith);
        lemma_row_start_closed(n as nat, (n - 1) as nat);
        assert((n - 1) * (2 * n - (n - 1) - 1) == n * (n - 1)) by (nonlinear_arith)
            requires
                n >= 1,
        ;
        assert(max_pairs(n as nat) == pair_total(n as int));
    }
    if model == 1 {
        let max_edges = n * (n - 1) / 2;
        let lo = max_edges / 10;
        let hi = max_edges / 2 + 1;
        let m = if hi > lo {
            rng_range(rng, lo, hi)
        } else {
            lo
        };
        assert(gnm_param(n as int, m as int));
        let g = gnm(n, m, rng);
        return Some(g);
    }
    if model == 2 {
        let k0 = rng_range(rng, 2, 5);
        let mut k = if k0 < n - 1 {
            k0
        } else {
            n - 1
        };
        proof {
            assert(n * k <= n * n) by (nonlinear_arith)
                requires
                    k <= n,
            ;
        }
        if (n * k) % 2 != 0 {
            k = if k - 1 > 2 {
                k - 1
            } else {
                2
            };
        }
        assert(k == regular_degree(n as int, k0 as int));
        proof {
            assert(n * k / 2 + 1 < index_limit()) by (nonlinear_arith)
                requires
                    k <= 4,
                    2 * n + 2 < index_limit(),
            ;
        }
        let g = random_regular(n, k, rng);
        return Some(g);
    }
    let m = rng_range(rng, 2, 4);
    let g = barabasi_albert(n, m, rng);
    Some(g)
}

} // verus!
