//! Deterministic named graph families (simple, undirected, all vertices
//! alive and `NC`).

use vstd::prelude::*;

use crate::graph::{EColor, Graph, VColor};
use crate::petgraph_ext::index_limit;

verus! {

/// The edges of a list, self-loops dropped, as `NC` edges.
pub open spec fn loopless(es: Seq<(usize, usize)>) -> Seq<(usize, usize, EColor)>
    decreases es.len(),
{
    if es.len() == 0 {
        Seq::empty()
    } else {
        let prev = loopless(es.drop_last());
        let e = es.last();
        if e.0 != e.1 {
            prev.push((e.0, e.1, EColor::NC))
        } else {
            prev
        }
    }
}

/// Rows `0..r` of a family of edge lists, concatenated.
pub open spec fn concat_rows(f: spec_fn(int) -> Seq<(usize, usize)>, r: int) -> Seq<(usize, usize)>
    decreases r,
{
    if r <= 0 {
        Seq::empty()
    } else {
        concat_rows(f, r - 1) + f(r - 1)
    }
}

/// `m` has `n` alive `NC` vertices and the edges `es` (loops dropped).
pub open spec fn built(m: crate::graph::GraphModel, n: nat, es: Seq<(usize, usize)>) -> bool {
    &&& m.nodes == Seq::new(n, |i: int| VColor::NC)
    &&& m.alive == Seq::new(n, |i: int| true)
    &&& m.edges == loopless(es)
}

/// Every endpoint is below `n`.
pub open spec fn endpoints_below(es: Seq<(usize, usize)>, n: nat) -> bool {
    forall|i: int| 0 <= i < es.len() ==> (#[trigger] es[i]).0 < n && es[i].1 < n
}

/// A graph on `n` vertices with the edges `es`, self-loops skipped.
pub fn build_with_n_vertices(n: usize, es: Vec<(usize, usize)>) -> (g: Graph)
    requires
        n < index_limit(),
        n * n <= usize::MAX,
        endpoints_below(es@, n as nat),
        es.len() + 1 < index_limit(),
    ensures
        g.wf(),
        built(g@, n as nat, es@),
{
    let mut g = Graph::with_capacity(n);
    let mut i: usize = 0;
    while i < es.len()
        invariant
            g.wf(),
            i <= es.len(),
            n == g@.nodes.len(),
            endpoints_below(es@, n as nat),
            es.len() + 1 < index_limit(),
            g@.nodes == Seq::new(n as nat, |i: int| VColor::NC),
            g@.alive == Seq::new(n as nat, |i: int| true),
            g@.edges == loopless(es@.take(i as int)),
            g@.edges.len() <= i,
        decreases es.len() - i,
    {
        let (u, v) = es[i];
        proof {
            assert(es@.take(i + 1).drop_last() =~= es@.take(i as int));
        }
        if u != v {
            g.add_edge(u, v);
        }
        i += 1;
    }
    proof {
        assert(es@.take(es.len() as int) =~= es@);
    }
    g
}

pub open spec fn path_edges(n: nat) -> Seq<(usize, usize)> {
    Seq::new(if n == 0 { 0 } else { (n - 1) as nat }, |i: int| (i as usize, (i + 1) as usize))
}

/// The path `0 - 1 - .. - (n-1)`.
pub fn path(n: usize) -> (g: Graph)
    requires
        n + 1 < index_limit(),
        n * n <= usize::MAX,
    ensures
        g.wf(),
        built(g@, n as nat, path_edges(n as nat)),
{
    let mut es: Vec<(usize, usize)> = Vec::new();
    let k = if n == 0 {
        0
    } else {
        n - 1
    };
    let mut i: usize = 0;
    while i < k
        invariant
            k == if n == 0 { 0 } else { n - 1 },
            i <= k,
            es@ == path_edges(n as nat).take(i as int),
        decreases k - i,
    {
        es.push((i, i + 1));
        i += 1;
        proof {
            assert(es@ =~= path_edges(n as nat).take(i as int));
        }
    }
    proof {
        assert(es@ =~= path_edges(n as nat));
    }
    build_with_n_vertices(n, es)
}

pub open spec fn cycle_edges(n: nat) -> Seq<(usize, usize)> {
    if n >= 3 {
        path_edges(n).push(((n - 1) as usize, 0usize))
    } else {
        path_edges(n)
    }
}

/// The cycle on `n` vertices (a path for `n < 3`).
pub fn cycle(n: usize) -> (g: Graph)
    requires
        n + 1 < index_limit(),
        n * n <= usize::MAX,
    ensures
        g.wf(),
        built(g@, n as nat, cycle_edges(n as nat)),
{
    let mut es: Vec<(usize, usize)> = Vec::new();
    let k = if n == 0 {
        0
    } else {
        n - 1
    };
    let mut i: usize = 0;
    while i < k
        invariant
            k == if n == 0 { 0 } else { n - 1 },
            i <= k,
            es@ == path_edges(n as nat).take(i as int),
        decreases k - i,
    {
        es.push((i, i + 1));
        i += 1;
        proof {
            assert(es@ =~= path_edges(n as nat).take(i as int));
        }
    }
    proof {
        assert(es@ =~= path_edges(n as nat));
    }
    if n >= 3 {
        es.push((n - 1, 0));
    }
    build_with_n_vertices(n, es)
}

/// Row `i` of the complete graph on `n`: `(i, j)` for `i < j < n`.
pub open spec fn clique_row(n: nat) -> spec_fn(int) -> Seq<(usize, usize)> {
    |i: int| Seq::new(if i < n { (n - i - 1) as nat } else { 0 }, |t: int| (i as usize, (i + 1 + t) as usize))
}

/// The complete graph on `n` vertices.
pub fn clique(n: usize) -> (g: Graph)
    requires
        n * n + 1 < index_limit(),
    ensures
        g.wf(),
        built(g@, n as nat, concat_rows(clique_row(n as nat), n as int)),
{
    let ghost f = clique_row(n as nat);
    let mut es: Vec<(usize, usize)> = Vec::new();
    let mut i: usize = 0;
    while i < n
        invariant
            f == clique_row(n as nat),
            n * n + 1 < index_limit(),
            i <= n,
            es@ == concat_rows(f, i as int),
            es.len() <= i * n,
        decreases n - i,
    {
        let mut j: usize = i + 1;
        while j < n
            invariant
                f == clique_row(n as nat),
                n * n + 1 < index_limit(),
                i < n,
                i + 1 <= j <= n,
                es@ == concat_rows(f, i as int) + f(i as int).take(j - i - 1),
                es.len() <= i * n + (j - i - 1),
            decreases n - j,
        {
            es.push((i, j));
            j += 1;
            proof {
                assert(es@ =~= concat_rows(f, i as int) + f(i as int).take(j - i - 1));
            }
        }
        proof {
            assert(f(i as int).take(n - i - 1) =~= f(i as int));
            assert(es.len() <= (i + 1) * n) by (nonlinear_arith)
                requires
                    es.len() <= i * n + (n - i - 1),
            ;
        }
        i += 1;
    }
    proof {
        assert(es.len() <= n * n);
        assert(n <= n * n) by (nonlinear_arith);
        assert forall|i: int| 0 <= i < n implies endpoints_below(#[trigger] f(i), n as nat) by {}
        lemma_rows_endpoints(f, n as int, n as nat);
    }
    build_with_n_vertices(n, es)
}

/// Rows whose entries are below `n` concatenate to entries below `n`.
pub proof fn lemma_rows_endpoints(f: spec_fn(int) -> Seq<(usize, usize)>, r: int, n: nat)
    requires
        forall|i: int| 0 <= i < r ==> endpoints_below(#[trigger] f(i), n),
    ensures
        endpoints_below(concat_rows(f, r), n),
    decreases r,
{
    if r > 0 {
        lemma_rows_endpoints(f, r - 1, n);
        assert(endpoints_below(f(r - 1), n));
        let c = concat_rows(f, r);
        let p = concat_rows(f, r - 1);
        assert forall|k: int| 0 <= k < c.len() implies (#[trigger] c[k]).0 < n && c[k].1 < n by {
            if k < p.len() {
                assert(c[k] == p[k]);
            } else {
                assert(c[k] == f(r - 1)[k - p.len()]);
            }
        }
    }
}

pub open spec fn star_edges(n: nat) -> Seq<(usize, usize)> {
    Seq::new(if n == 0 { 0 } else { (n - 1) as nat }, |i: int| (0usize, (i + 1) as usize))
}

/// The star: centre `0` joined to `1..n`.
pub fn star(n: usize) -> (g: Graph)
    requires
        n + 1 < index_limit(),
        n * n <= usize::MAX,
    ensures
        g.wf(),
        built(g@, n as nat, star_edges(n as nat)),
{
    let mut es: Vec<(usize, usize)> = Vec::new();
    let mut i: usize = 1;
    while i < n
        invariant
            1 <= i <= n || (n == 0 && i == 1),
            es@ == star_edges(n as nat).take(i - 1),
        decreases n - i,
    {
        es.push((0, i));
        i += 1;
        proof {
            assert(es@ =~= star_edges(n as nat).take(i - 1));
        }
    }
    proof {
        assert(es@ =~= star_edges(n as nat));
    }
    build_with_n_vertices(n, es)
}

/// Row `r` of the grid: for each column `c`, the edge to the right, then
/// the edge below, when they exist.
pub open spec fn grid_cell(rows: nat, cols: nat, r: int, c: int) -> Seq<(usize, usize)> {
    let i = r * cols + c;
    (if c + 1 < cols { seq![(i as usize, (i + 1) as usize)] } else { Seq::empty() }) + (if r + 1 < rows {
        seq![(i as usize, (i + cols) as usize)]
    } else {
        Seq::empty()
    })
}

pub open spec fn grid_row(rows: nat, cols: nat) -> spec_fn(int) -> Seq<(usize, usize)> {
    |r: int| concat_rows(|c: int| grid_cell(rows, cols, r, c), cols as int)
}

/// The `rows x cols` grid, vertex `r * cols + c`.
pub fn grid(rows: usize, cols: usize) -> (g: Graph)
    requires
        rows * cols * rows * cols + 2 * rows * cols + 1 < index_limit(),
    ensures
        g.wf(),
        built(g@, (rows * cols) as nat, concat_rows(grid_row(rows as nat, cols as nat), rows as int)),
{
    assert(rows * cols <= rows * cols * rows * cols) by (nonlinear_arith)
        requires
            rows * cols * rows * cols + 2 * rows * cols + 1 < index_limit(),
    ;
    let n = rows * cols;
    assert(n * n == rows * cols * rows * cols) by (nonlinear_arith)
        requires
            n == rows * cols,
    ;
    let ghost f = grid_row(rows as nat, cols as nat);
    let mut es: Vec<(usize, usize)> = Vec::new();
    let mut r: usize = 0;
    while r < rows
        invariant
            f == grid_row(rows as nat, cols as nat),
            n == rows * cols,
            n * n < index_limit(),
            r <= rows,
            es@ == concat_rows(f, r as int),
            es.len() <= 2 * r * cols,
            endpoints_below(es@, n as nat),
        decreases rows - r,
    {
        let ghost g = |c: int| grid_cell(rows as nat, cols as nat, r as int, c);
        let ghost base = es@;
        let mut c: usize = 0;
        while c < cols
            invariant
                f == grid_row(rows as nat, cols as nat),
                g == (|c: int| grid_cell(rows as nat, cols as nat, r as int, c)),
                n == rows * cols,
                n * n < index_limit(),
                r < rows,
                c <= cols,
                base == concat_rows(f, r as int),
                es@ == base + concat_rows(g, c as int),
                es.len() <= 2 * r * cols + 2 * c,
                endpoints_below(es@, n as nat),
            decreases cols - c,
        {
            proof {
                assert((r * cols + c) + cols < n || r + 1 >= rows) by (nonlinear_arith)
                    requires
                        n == rows * cols,
                        c < cols,
                        r < rows,
                ;
                assert((r * cols + c) + 1 < n || c + 1 >= cols) by (nonlinear_arith)
                    requires
                        n == rows * cols,
                        c < cols,
                        r < rows,
                ;
                assert(r * cols + c < n) by (nonlinear_arith)
                    requires
                        n == rows * cols,
                        c < cols,
                        r < rows,
                ;
            }
            let i = r * cols + c;
            let ghost before = es@;
            if c + 1 < cols {
                es.push((i, i + 1));
            }
            if r + 1 < rows {
                es.push((i, i + cols));
            }
            proof {
                assert(es@ =~= before + grid_cell(rows as nat, cols as nat, r as int, c as int));
                assert(es@ =~= base + concat_rows(g, c + 1));
            }
            c += 1;
        }
        proof {
            assert(f(r as int) == concat_rows(g, cols as int));
            assert(2 * r * cols + 2 * cols == 2 * (r + 1) * cols) by (nonlinear_arith);
        }
        r += 1;
    }
    proof {
        assert(2 * rows * cols == 2 * n) by (nonlinear_arith)
            requires
                n == rows * cols,
        ;
        assert(es.len() <= 2 * n);
        assert(n <= n * n) by (nonlinear_arith);
        assert(2 * n <= n * n || n < 2) by (nonlinear_arith);
    }
    build_with_n_vertices(n, es)
}

/// An edgeless graph on `n` vertices.
pub fn empty(n: usize) -> (g: Graph)
    requires
        n < index_limit(),
        n * n <= usize::MAX,
    ensures
        g.wf(),
        built(g@, n as nat, Seq::empty()),
{
    let g = Graph::with_capacity(n);
    proof {
        assert(loopless(Seq::<(usize, usize)>::empty()) =~= Seq::<(usize, usize, EColor)>::empty());
    }
    g
}

pub open spec fn bip_row(a: nat, b: nat) -> spec_fn(int) -> Seq<(usize, usize)> {
    |i: int| Seq::new(b, |j: int| (i as usize, (a + j) as usize))
}

/// The complete bipartite graph `K(a, b)`: `0..a` joined to `a..a+b`.
pub fn complete_bipartite(a: usize, b: usize) -> (g: Graph)
    requires
        (a + b) * (a + b) + 1 < index_limit(),
    ensures
        g.wf(),
        built(g@, (a + b) as nat, concat_rows(bip_row(a as nat, b as nat), a as int)),
{
    assert(a + b <= (a + b) * (a + b)) by (nonlinear_arith);
    let ghost f = bip_row(a as nat, b as nat);
    let mut es: Vec<(usize, usize)> = Vec::new();
    let mut i: usize = 0;
    while i < a
        invariant
            f == bip_row(a as nat, b as nat),
            (a + b) * (a + b) + 1 < index_limit(),
            a + b < index_limit(),
            i <= a,
            es@ == concat_rows(f, i as int),
            es.len() == i * b,
            endpoints_below(es@, (a + b) as nat),
        decreases a - i,
    {
        let ghost base = es@;
        let mut j: usize = 0;
        while j < b
            invariant
                f == bip_row(a as nat, b as nat),
                (a + b) * (a + b) + 1 < index_limit(),
                a + b < index_limit(),
                i < a,
                j <= b,
                base == concat_rows(f, i as int),
                base.len() == i * b,
                es@ == base + f(i as int).take(j as int),
                endpoints_below(es@, (a + b) as nat),
            decreases b - j,
        {
            es.push((i, a + j));
            j += 1;
            proof {
                assert(es@ =~= base + f(i as int).take(j as int));
            }
        }
        proof {
            assert(f(i as int).take(b as int) =~= f(i as int));
            assert(i * b + b == (i + 1) * b) by (nonlinear_arith);
        }
        i += 1;
    }
    proof {
        assert(a * b <= (a + b) * (a + b)) by (nonlinear_arith);
    }
    build_with_n_vertices(a + b, es)
}

pub open spec fn wheel_edges(n: nat) -> Seq<(usize, usize)> {
    Seq::new(n, |i: int| (i as usize, n as usize)) + if n >= 3 {
        Seq::new(n, |i: int| (i as usize, ((i + 1) % (n as int)) as usize))
    } else {
        Seq::empty()
    }
}

/// The wheel: rim `0..n` (a cycle when `n >= 3`), hub `n`.
pub fn wheel(n: usize) -> (g: Graph)
    requires
        (n + 1) * (n + 1) < index_limit(),
    ensures
        g.wf(),
        built(g@, (n + 1) as nat, wheel_edges(n as nat)),
{
    let mut es: Vec<(usize, usize)> = Vec::new();
    let mut i: usize = 0;
    while i < n
        invariant
            i <= n,
            es@ == Seq::new(n as nat, |i: int| (i as usize, n as usize)).take(i as int),
        decreases n - i,
    {
        es.push((i, n));
        i += 1;
        proof {
            assert(es@ =~= Seq::new(n as nat, |i: int| (i as usize, n as usize)).take(i as int));
        }
    }
    let ghost spokes = es@;
    proof {
        assert(spokes =~= Seq::new(n as nat, |i: int| (i as usize, n as usize)));
    }
    if n >= 3 {
        let mut i: usize = 0;
        while i < n
            invariant
                n >= 3,
                i <= n,
                es@ == spokes + Seq::new(n as nat, |i: int| (i as usize, ((i + 1) % (n as int)) as usize)).take(i as int),
            decreases n - i,
        {
            es.push((i, (i + 1) % n));
            i += 1;
            proof {
                assert(es@ =~= spokes + Seq::new(n as nat, |i: int| (i as usize, ((i + 1) % (n as int)) as usize)).take(
                    i as int,
                ));
            }
        }
    }
    proof {
        assert(es@ =~= wheel_edges(n as nat));
        assert((n + 1) * (n + 1) >= 2 * n + 1) by (nonlinear_arith);
        assert(n + 1 <= (n + 1) * (n + 1)) by (nonlinear_arith);
    }
    build_with_n_vertices(n + 1, es)
}

/// `x` has exactly one bit set.
pub open spec fn is_pow2_bits(x: usize) -> bool {
    x != 0 && x & ((x - 1) as usize) == 0
}

pub open spec fn cube_row(n: nat) -> spec_fn(int) -> Seq<(usize, usize)> {
    |u: int| Seq::new(if u < n { (n - u - 1) as nat } else { 0 }, |t: int| (u as usize, (u + 1 + t) as usize)).filter(
        |e: (usize, usize)| is_pow2_bits(e.0 ^ e.1),
    )
}

/// Number of vertices of the `d`-cube: `2^d`, or 0 when `2^d` does not fit
/// a `usize`.
pub open spec fn cube_size(d: nat) -> nat {
    if d < 16 {
        crate::algorithm::pidd::pow2(d)
    } else {
        0
    }
}

/// The `d`-dimensional hypercube: `u` and `v` adjacent when they differ in
/// one bit (no vertex at all when `2^d` overflows a `usize`).
pub fn hypercube(d: usize) -> (g: Graph)
    requires
        d < 16 || d >= usize::BITS,
    ensures
        g.wf(),
        built(g@, cube_size(d as nat), concat_rows(cube_row(cube_size(d as nat)), cube_size(d as nat) as int)),
{
    if d >= 16 {
        let g = Graph::with_capacity(0);
        proof {
            assert(loopless(Seq::<(usize, usize)>::empty()) =~= Seq::<(usize, usize, EColor)>::empty());
            assert(concat_rows(cube_row(0), 0) =~= Seq::<(usize, usize)>::empty());
            assert(g@.nodes =~= Seq::new(0, |i: int| VColor::NC));
            assert(g@.alive =~= Seq::new(0, |i: int| true));
        }
        return g;
    }
    let mut n: usize = 1;
    let mut t: usize = 0;
    while t < d
        invariant
            t <= d,
            d < 16,
            n == crate::algorithm::pidd::pow2(t as nat),
            n <= 0x8000,
        decreases d - t,
    {
        proof {
            assert(crate::algorithm::pidd::pow2((t + 1) as nat) == 2 * crate::algorithm::pidd::pow2(t as nat));
            lemma_pow2_le(t as nat, 14);
            assert(crate::algorithm::pidd::pow2(14) == 0x4000) by {
                reveal_with_fuel(crate::algorithm::pidd::pow2, 15);
            }
        }
        n = n * 2;
        t += 1;
    }
    let ghost f = cube_row(n as nat);
    let mut es: Vec<(usize, usize)> = Vec::new();
    let mut u: usize = 0;
    while u < n
        invariant
            f == cube_row(n as nat),
            n <= 0x8000,
            u <= n,
            es@ == concat_rows(f, u as int),
            es.len() <= u * n,
            endpoints_below(es@, n as nat),
        decreases n - u,
    {
        let ghost base = es@;
        let ghost row = Seq::new((n - u - 1) as nat, |t: int| (u as usize, (u + 1 + t) as usize));
        let mut v: usize = u + 1;
        while v < n
            invariant
                f == cube_row(n as nat),
                row == Seq::new((n - u - 1) as nat, |t: int| (u as usize, (u + 1 + t) as usize)),
                n <= 0x8000,
                u < n,
                u + 1 <= v <= n,
                base == concat_rows(f, u as int),
                base.len() <= u * n,
                es@ == base + row.take(v - u - 1).filter(|e: (usize, usize)| is_pow2_bits(e.0 ^ e.1)),
                es.len() <= base.len() + (v - u - 1),
                endpoints_below(es@, n as nat),
            decreases n - v,
        {
            let x = u ^ v;
            proof {
                reveal(Seq::filter);
                assert(row.take(v - u).drop_last() =~= row.take(v - u - 1));
                assert(row.take(v - u).last() == (u, v));
            }
            if x != 0 && x & (x - 1) == 0 {
                es.push((u, v));
            }
            v += 1;
        }
        proof {
            assert(row.take(n - u - 1) =~= row);
            assert(base.len() + (n - u - 1) <= (u + 1) * n) by (nonlinear_arith)
                requires
                    base.len() <= u * n,
                    u < n,
            ;
        }
        u += 1;
    }
    proof {
        assert(n * n <= 0x8000 * 0x8000) by (nonlinear_arith)
            requires
                n <= 0x8000,
        ;
    }
    build_with_n_vertices(n, es)
}

proof fn lemma_pow2_le(t: nat, b: nat)
    requires
        t <= b,
    ensures
        crate::algorithm::pidd::pow2(t) <= crate::algorithm::pidd::pow2(b),
    decreases b,
{
    if t < b {
        lemma_pow2_le(t, (b - 1) as nat);
    }
}

pub open spec fn tree_edges(n: nat) -> Seq<(usize, usize)> {
    concat_rows(|i: int| seq![(i as usize, (2 * i + 1) as usize), (i as usize, (2 * i + 2) as usize)], (n / 2) as int)
}

/// The complete binary tree of depth `depth` (`2^(depth+1) - 1`
/// vertices), children of `i` at `2i + 1` and `2i + 2`.
pub fn complete_binary_tree(depth: usize) -> (g: Graph)
    requires
        depth < 15,
    ensures
        g.wf(),
        built(g@, (crate::algorithm::pidd::pow2((depth + 1) as nat) - 1) as nat, tree_edges((crate::algorithm::pidd::pow2((depth + 1) as nat) - 1) as nat)),
{
    let mut p: usize = 1;
    let mut t: usize = 0;
    while t < depth + 1
        invariant
            t <= depth + 1,
            depth < 15,
            p == crate::algorithm::pidd::pow2(t as nat),
            p <= 0x8000,
        decreases depth + 1 - t,
    {
        proof {
            assert(crate::algorithm::pidd::pow2((t + 1) as nat) == 2 * crate::algorithm::pidd::pow2(t as nat));
            lemma_pow2_le(t as nat, 14);
            assert(crate::algorithm::pidd::pow2(14) == 0x4000) by {
                reveal_with_fuel(crate::algorithm::pidd::pow2, 15);
            }
        }
        p = p * 2;
        t += 1;
    }
    proof {
        crate::algorithm::pidd::lemma_pow2_ge(t as nat);
    }
    let n = p - 1;
    proof {
        assert(p == 2 * crate::algorithm::pidd::pow2((t - 1) as nat));
    }
    assert(n % 2 == 1);
    let ghost f = |i: int| seq![(i as usize, (2 * i + 1) as usize), (i as usize, (2 * i + 2) as usize)];
    let mut es: Vec<(usize, usize)> = Vec::new();
    let mut i: usize = 0;
    while i < n / 2
        invariant
            f == (|i: int| seq![(i as usize, (2 * i + 1) as usize), (i as usize, (2 * i + 2) as usize)]),
            n < 0x8000,
            n % 2 == 1,
            i <= n / 2,
            es@ == concat_rows(f, i as int),
            es.len() == 2 * i,
            endpoints_below(es@, n as nat),
        decreases n / 2 - i,
    {
        let ghost before = es@;
        es.push((i, 2 * i + 1));
        es.push((i, 2 * i + 2));
        proof {
            assert(es@ =~= before + f(i as int));
        }
        i += 1;
    }
    proof {
        assert(n * n <= 0x8000 * 0x8000) by (nonlinear_arith)
            requires
                n < 0x8000,
        ;
    }
    build_with_n_vertices(n, es)
}

pub open spec fn mobius_edges(n: nat) -> Seq<(usize, usize)> {
    Seq::new(2 * n, |i: int| (i as usize, ((i + 1) % (2 * n as int)) as usize)) + if n >= 3 {
        Seq::new(n, |i: int| (i as usize, (i + n) as usize))
    } else {
        Seq::empty()
    }
}

/// The Möbius ladder: the cycle `0..2n` plus the rungs `(i, i + n)` (rungs
/// only when `n >= 3`).
pub fn mobius_ladder(n: usize) -> (g: Graph)
    requires
        4 * n * n + 3 * n + 1 < index_limit(),
    ensures
        g.wf(),
        built(g@, (2 * n) as nat, mobius_edges(n as nat)),
{
    assert(2 * n <= 4 * n * n + 1) by (nonlinear_arith);
    let n2 = 2 * n;
    let mut es: Vec<(usize, usize)> = Vec::new();
    let mut i: usize = 0;
    while i < n2
        invariant
            n2 == 2 * n,
            n2 < index_limit(),
            i <= n2,
            es@ == Seq::new(2 * n as nat, |i: int| (i as usize, ((i + 1) % (2 * n as int)) as usize)).take(i as int),
        decreases n2 - i,
    {
        es.push((i, (i + 1) % n2));
        i += 1;
        proof {
            assert(es@ =~= Seq::new(2 * n as nat, |i: int| (i as usize, ((i + 1) % (2 * n as int)) as usize)).take(i as int));
        }
    }
    let ghost ring = es@;
    proof {
        assert(ring =~= Seq::new(2 * n as nat, |i: int| (i as usize, ((i + 1) % (2 * n as int)) as usize)));
    }
    if n >= 3 {
        let mut i: usize = 0;
        while i < n
            invariant
                n2 == 2 * n,
                n2 < index_limit(),
                i <= n,
                es@ == ring + Seq::new(n as nat, |i: int| (i as usize, (i + n) as usize)).take(i as int),
            decreases n - i,
        {
            es.push((i, i + n));
            i += 1;
            proof {
                assert(es@ =~= ring + Seq::new(n as nat, |i: int| (i as usize, (i + n) as usize)).take(i as int));
            }
        }
    }
    proof {
        assert(es@ =~= mobius_edges(n as nat));
        assert(n2 * n2 == 4 * n * n) by (nonlinear_arith)
            requires
                n2 == 2 * n,
        ;
    }
    build_with_n_vertices(n2, es)
}

pub open spec fn prism_edges(n: nat) -> Seq<(usize, usize)> {
    Seq::new(n, |i: int| (i as usize, (n + i) as usize)) + if n >= 3 {
        concat_rows(
            |i: int| seq![(i as usize, ((i + 1) % (n as int)) as usize), ((n + i) as usize, (n + (i + 1) % (n as int)) as usize)],
            n as int,
        )
    } else {
        Seq::empty()
    }
}

/// The prism: two `n`-cycles `0..n` and `n..2n` (cycles only when
/// `n >= 3`) joined by the rungs `(i, n + i)`.
pub fn prism(n: usize) -> (g: Graph)
    requires
        4 * n * n + 3 * n + 1 < index_limit(),
    ensures
        g.wf(),
        built(g@, (2 * n) as nat, prism_edges(n as nat)),
{
    assert(2 * n <= 4 * n * n + 1) by (nonlinear_arith);
    let n2 = 2 * n;
    let mut es: Vec<(usize, usize)> = Vec::new();
    let mut i: usize = 0;
    while i < n
        invariant
            n2 == 2 * n,
            n2 < index_limit(),
            i <= n,
            es@ == Seq::new(n as nat, |i: int| (i as usize, (n + i) as usize)).take(i as int),
        decreases n - i,
    {
        es.push((i, n + i));
        i += 1;
        proof {
            assert(es@ =~= Seq::new(n as nat, |i: int| (i as usize, (n + i) as usize)).take(i as int));
        }
    }
    let ghost rungs = es@;
    proof {
        assert(rungs =~= Seq::new(n as nat, |i: int| (i as usize, (n + i) as usize)));
    }
    let ghost f = |i: int| seq![(i as usize, ((i + 1) % (n as int)) as usize), ((n + i) as usize, (n + (i + 1) % (n as int)) as usize)];
    if n >= 3 {
        let mut i: usize = 0;
        while i < n
            invariant
                n >= 3,
                n2 == 2 * n,
                n2 < index_limit(),
                f == (|i: int| seq![(i as usize, ((i + 1) % (n as int)) as usize), ((n + i) as usize, (n + (i + 1) % (n as int)) as usize)]),
                i <= n,
                es@ == rungs + concat_rows(f, i as int),
                es.len() == n + 2 * i,
            decreases n - i,
        {
            let ghost before = es@;
            es.push((i, (i + 1) % n));
            es.push((n + i, n + (i + 1) % n));
            proof {
                assert(es@ =~= before + f(i as int));
            }
            i += 1;
        }
    }
    proof {
        assert(es@ =~= prism_edges(n as nat));
        assert(n2 * n2 == 4 * n * n) by (nonlinear_arith)
            requires
                n2 == 2 * n,
        ;
        assert forall|k: int| 0 <= k < es.len() implies (#[trigger] es@[k]).0 < n2 && es@[k].1 < n2 by {
            if k >= n && n >= 3 {
                lemma_rows_index(f, n as int, k - n);
            }
        }
    }
    build_with_n_vertices(n2, es)
}

/// An entry of concatenated rows comes from some row.
pub proof fn lemma_rows_index(f: spec_fn(int) -> Seq<(usize, usize)>, r: int, k: int)
    requires
        0 <= k < concat_rows(f, r).len(),
    ensures
        exists|i: int, j: int| 0 <= i < r && 0 <= j < f(i).len() && concat_rows(f, r)[k] == #[trigger] f(i)[j],
    decreases r,
{
    if r > 0 {
        let p = concat_rows(f, r - 1);
        if k < p.len() {
            lemma_rows_index(f, r - 1, k);
            let (i, j) = choose|i: int, j: int| 0 <= i < r - 1 && 0 <= j < f(i).len() && p[k] == #[trigger] f(i)[j];
            assert(concat_rows(f, r)[k] == f(i)[j]);
        } else {
            assert(concat_rows(f, r)[k] == f(r - 1)[k - p.len()]);
        }
    }
}

pub open spec fn friendship_edges(n: nat) -> Seq<(usize, usize)> {
    concat_rows(
        |k: int| seq![(0usize, (2 * k + 1) as usize), (0usize, (2 * k + 2) as usize), ((2 * k + 1) as usize, (2 * k + 2) as usize)],
        n as int,
    )
}

/// The friendship graph: `n` triangles sharing vertex `0`.
pub fn friendship(n: usize) -> (g: Graph)
    requires
        (2 * n + 1) * (2 * n + 1) + 3 * n + 1 < index_limit(),
    ensures
        g.wf(),
        built(g@, (2 * n + 1) as nat, friendship_edges(n as nat)),
{
    assert(2 * n + 1 <= (2 * n + 1) * (2 * n + 1)) by (nonlinear_arith);
    let ghost f = |k: int| seq![(0usize, (2 * k + 1) as usize), (0usize, (2 * k + 2) as usize), ((2 * k + 1) as usize, (2 * k + 2) as usize)];
    let mut es: Vec<(usize, usize)> = Vec::new();
    let mut k: usize = 0;
    while k < n
        invariant
            f == (|k: int| seq![(0usize, (2 * k + 1) as usize), (0usize, (2 * k + 2) as usize), ((2 * k + 1) as usize, (2 * k + 2) as usize)]),
            2 * n + 1 < index_limit(),
            k <= n,
            es@ == concat_rows(f, k as int),
            es.len() == 3 * k,
            endpoints_below(es@, (2 * n + 1) as nat),
        decreases n - k,
    {
        let a = 2 * k + 1;
        let b = 2 * k + 2;
        let ghost before = es@;
        es.push((0, a));
        es.push((0, b));
        es.push((a, b));
        proof {
            assert(es@ =~= before + f(k as int));
        }
        k += 1;
    }
    build_with_n_vertices(2 * n + 1, es)
}

} // verus!
