use cartographer::algorithm::{bb, min_fill, minor_min_width, pidd_tw, BbResult};
use cartographer::generator::named::{cycle, grid, path};
use cartographer::generator::random::gnm;
use cartographer::graph::Graph;
use rand::rngs::StdRng;
use rand::{Rng, SeedableRng};

/// `G(n, p)`: each pair `u < v` joined with probability `p`.
fn gnp(n: usize, p: f64, rng: &mut StdRng) -> Graph {
    let mut g = Graph::with_capacity(n);
    for u in 0..n {
        for v in (u + 1)..n {
            if rng.random::<f64>() < p {
                g.add_edge(u, v);
            }
        }
    }
    g
}


// The original Figure 4 baseline (full branching, no enhancements), kept as
// an independent oracle for differential testing.
fn bb_baseline(g: &Graph) -> BbResult {
    if g.alive_count() < 2 {
        let order: Vec<usize> = g.alive_vertices();
        return BbResult { treewidth: 0, order, optimal: true };
    }
    let (ub, ub_order) = min_fill(g);
    let lb = minor_min_width(g);
    if lb == ub {
        return BbResult { treewidth: ub, order: ub_order, optimal: true };
    }
    let mut best = (ub, ub_order);
    let mut path = Vec::with_capacity(g.alive_count());
    bb_baseline_helper(g, 0, &mut path, &mut best);
    BbResult { treewidth: best.0, order: best.1, optimal: true }
}

fn bb_baseline_helper(g: &Graph, g_s: usize, path: &mut Vec<usize>, best: &mut (usize, Vec<usize>)) {
    if g.alive_count() < 2 {
        if g_s < best.0 {
            best.0 = g_s;
            best.1 = path.clone();
        }
        return;
    }
    let candidates: Vec<usize> = g.alive_vertices();
    for v in candidates {
        let d = g.degree(v);
        let g_child = g_s.max(d);
        let mut gc = g.clone();
        gc.elim(v);
        let h = minor_min_width(&gc);
        let f = g_child.max(h);
        if f < best.0 {
            path.push(v);
            bb_baseline_helper(&gc, g_child, path, best);
            path.pop();
        }
    }
}

fn grid3x3_bb() -> Graph {
    let mut edges = Vec::new();
    for r in 0..3 {
        for c in 0..3 {
            let i = r * 3 + c;
            if c + 1 < 3 {
                edges.push((i, i + 1));
            }
            if r + 1 < 3 {
                edges.push((i, i + 3));
            }
        }
    }
    Graph::from_edges(edges)
}

fn star_graph(n: usize) -> Graph {
    Graph::from_edges((1..n).map(|i| (0, i)).collect::<Vec<_>>())
}

/// Simulate `order` on a fresh copy of `g` and return the elimination
/// width, i.e. the maximum degree-at-elimination.
fn elimination_width(g: &Graph, order: &[usize]) -> usize {
    let mut work = g.clone();
    let mut width = 0;
    for &v in order {
        width = width.max(work.elim(v));
    }
    width
}

fn is_permutation(g: &Graph, order: &[usize]) -> bool {
    let mut sorted: Vec<usize> = order.to_vec();
    sorted.sort();
    let mut expected: Vec<usize> = g.alive_vertices();
    expected.sort();
    sorted == expected
}

/// Build every simple graph on `n` labelled vertices.
fn all_graphs_bb(n: usize) -> Vec<Graph> {
    let max = n.saturating_mul(n.saturating_sub(1)) / 2;
    let mut pairs = Vec::new();
    for i in 0..n {
        for j in (i + 1)..n {
            pairs.push((i, j));
        }
    }
    let mut out = Vec::with_capacity(1usize << max);
    for mask in 0u64..(1u64 << max) {
        let mut g = Graph::with_capacity(n);
        for (k, &(a, b)) in pairs.iter().enumerate() {
            if (mask >> k) & 1 == 1 {
                g.add_edge(a, b);
            }
        }
        out.push(g);
    }
    out
}

#[test]
fn tw_clique_k4() {
    let g = Graph::from_edges(vec![(0, 1), (0, 2), (0, 3), (1, 2), (1, 3), (2, 3)]);
    let r = bb(&g);
    assert_eq!(r.treewidth, 3);
    assert_eq!(r.order.len(), 4);
    assert!(r.optimal);
}

#[test]
fn tw_path_p5() {
    let g = Graph::from_edges(vec![(0, 1), (1, 2), (2, 3), (3, 4)]);
    let r = bb(&g);
    assert_eq!(r.treewidth, 1);
    assert_eq!(r.order.len(), 5);
}

#[test]
fn tw_cycle_c5() {
    let g = Graph::from_edges(vec![(0, 1), (1, 2), (2, 3), (3, 4), (4, 0)]);
    let r = bb(&g);
    assert_eq!(r.treewidth, 2);
}

#[test]
fn tw_grid3x3() {
    let g = grid3x3_bb();
    let r = bb(&g);
    assert_eq!(r.treewidth, 3);
}

#[test]
fn tw_tree_is_one() {
    let mut edges = Vec::new();
    for i in 0..7 {
        edges.push((i, 2 * i + 1));
        edges.push((i, 2 * i + 2));
    }
    let g = Graph::from_edges(edges);
    let r = bb(&g);
    assert_eq!(r.treewidth, 1);
}

#[test]
fn tw_star() {
    let g = star_graph(6);
    let r = bb(&g);
    assert_eq!(r.treewidth, 1);
}

#[test]
fn tw_single_and_empty() {
    let empty = Graph::with_capacity(0);
    let r = bb(&empty);
    assert_eq!(r.treewidth, 0);

    let single = Graph::with_capacity(1);
    let r = bb(&single);
    assert_eq!(r.treewidth, 0);
    assert_eq!(r.order.len(), 1);
}

#[test]
fn determinism() {
    let g = grid3x3_bb();
    let r1 = bb(&g);
    let r2 = bb(&g);
    assert_eq!(r1, r2);
}

#[test]
fn lower_bound_respected() {
    let g = grid3x3_bb();
    let r = bb(&g);
    let lb = minor_min_width(&g);
    assert!(lb <= r.treewidth);
}

#[test]
fn order_is_permutation() {
    let g = grid3x3_bb();
    let r = bb(&g);
    assert!(is_permutation(&g, &r.order));
}

/// The enhanced search must agree with the naive Figure 4 baseline on
/// every labelled graph up to 6 vertices, and must return a valid optimal
/// ordering (a permutation whose elimination width equals the treewidth).
#[test]
fn agrees_with_baseline_up_to_6_vertices() {
    for n in 0..=6usize {
        for g in all_graphs_bb(n) {
            let expected = bb_baseline(&g).treewidth;
            let r = bb(&g);
            assert_eq!(
                r.treewidth, expected,
                "n={n}: enhanced tw {} != baseline tw {}",
                r.treewidth, expected
            );
            assert!(r.optimal);
            assert!(is_permutation(&g, &r.order), "n={n}: order not a permutation");
            assert_eq!(
                elimination_width(&g, &r.order),
                r.treewidth,
                "n={n}: witness ordering width != reported treewidth"
            );
        }
    }
}

/// Spot-check some small named graphs against the baseline.
#[test]
fn agrees_with_baseline_on_named_graphs() {
    for n in 2..=10 {
        let g = path(n);
        assert_eq!(bb(&g).treewidth, bb_baseline(&g).treewidth, "path({n})");
    }
    for n in 3..=9 {
        let g = cycle(n);
        assert_eq!(bb(&g).treewidth, bb_baseline(&g).treewidth, "cycle({n})");
    }
    // The naive baseline is exponential, so keep grids tiny.
    for (r, c) in [(3, 3), (3, 4), (4, 3)] {
        let g = grid(r, c);
        assert_eq!(bb(&g).treewidth, bb_baseline(&g).treewidth, "grid({r}x{c})");
    }
}


fn path_graph(n: usize) -> Graph {
    Graph::from_edges((0..n - 1).map(|i| (i, i + 1)).collect::<Vec<_>>())
}

#[test]
fn mmw_path_lower_bound_le_one() {
    // A path has treewidth 1, so MMW must be <= 1.
    for n in [2usize, 3, 4, 5, 10] {
        let g = path_graph(n);
        let lb = minor_min_width(&g);
        assert!(lb <= 1, "path of {n} vertices: MMW={lb} should be <= 1");
    }
}

#[test]
fn mmw_clique() {
    // K4 has treewidth 3.
    let g = Graph::from_edges(vec![(0, 1), (0, 2), (0, 3), (1, 2), (1, 3), (2, 3)]);
    let lb = minor_min_width(&g);
    assert!((1..=3).contains(&lb), "K4: MMW={lb} should be in [1,3]");
}

#[test]
fn mmw_empty_graph() {
    let g = Graph::with_capacity(0);
    assert_eq!(minor_min_width(&g), 0);
}

#[test]
fn mmw_isolated_vertex() {
    let mut g = Graph::with_capacity(3); // 3 isolated vertices
    let _ = &mut g;
    assert_eq!(minor_min_width(&g), 0);
}


#[test]
fn min_fill_path_is_1() {
    // Path of 5 vertices: treewidth 1, min-fill should find 1.
    let g = Graph::from_edges(vec![(0, 1), (1, 2), (2, 3), (3, 4)]);
    let (ub, order) = min_fill(&g);
    assert_eq!(ub, 1);
    assert_eq!(order.len(), 5);
}

#[test]
fn min_fill_clique() {
    // K4: treewidth 3.
    let g = Graph::from_edges(vec![(0, 1), (0, 2), (0, 3), (1, 2), (1, 3), (2, 3)]);
    let (ub, order) = min_fill(&g);
    assert_eq!(ub, 3);
    assert_eq!(order.len(), 4);
}

#[test]
fn min_fill_cycle_5_is_2() {
    // C5: treewidth 2.
    let g = Graph::from_edges(vec![(0, 1), (1, 2), (2, 3), (3, 4), (4, 0)]);
    let (ub, _) = min_fill(&g);
    assert_eq!(ub, 2);
}

#[test]
fn min_fill_empty() {
    let g = Graph::with_capacity(0);
    let (ub, order) = min_fill(&g);
    assert_eq!(ub, 0);
    assert!(order.is_empty());
}


fn grid3x3() -> Graph {
    let mut edges = Vec::new();
    for r in 0..3 {
        for c in 0..3 {
            let i = r * 3 + c;
            if c + 1 < 3 {
                edges.push((i, i + 1));
            }
            if r + 1 < 3 {
                edges.push((i, i + 3));
            }
        }
    }
    Graph::from_edges(edges)
}

fn all_graphs(n: usize) -> Vec<Graph> {
    let max = n.saturating_mul(n.saturating_sub(1)) / 2;
    let mut pairs = Vec::new();
    for i in 0..n {
        for j in (i + 1)..n {
            pairs.push((i, j));
        }
    }
    let mut out = Vec::with_capacity(1usize << max);
    for mask in 0u64..(1u64 << max) {
        let mut g = Graph::with_capacity(n);
        for (k, &(a, b)) in pairs.iter().enumerate() {
            if (mask >> k) & 1 == 1 {
                g.add_edge(a, b);
            }
        }
        out.push(g);
    }
    out
}

#[test]
fn known_values() {
    assert_eq!(pidd_tw(&Graph::from_edges(vec![(0, 1), (1, 2), (2, 3), (3, 4)])), 1); // P5
    assert_eq!(pidd_tw(&Graph::from_edges(vec![(0, 1), (1, 2), (2, 3), (3, 4), (4, 0)])), 2); // C5
    assert_eq!(pidd_tw(&Graph::from_edges(vec![(0, 1), (0, 2), (0, 3), (1, 2), (1, 3), (2, 3)])), 3); // K4
    assert_eq!(pidd_tw(&grid3x3()), 3);
    assert_eq!(pidd_tw(&Graph::with_capacity(0)), 0);
    assert_eq!(pidd_tw(&Graph::with_capacity(1)), 0);
}

#[test]
fn agrees_with_quickbb_up_to_6_vertices() {
    for n in 0..=6usize {
        for g in all_graphs(n) {
            let expected = bb(&g).treewidth;
            let got = pidd_tw(&g);
            assert_eq!(got, expected, "n={n}: pidd tw {got} != quickbb tw {expected}");
        }
    }
}

#[test]
fn agrees_with_quickbb_on_random_graphs() {
    let mut rng = StdRng::seed_from_u64(0xDEC0DE);
    for n in 7..=11usize {
        for _ in 0..30 {
            let g = gnp(n, 0.5, &mut rng);
            assert_eq!(pidd_tw(&g), bb(&g).treewidth, "gnp n={n}");
        }
    }
    let mut rng = StdRng::seed_from_u64(0xBEEF);
    for n in 7..=11usize {
        let max_edges = n * (n - 1) / 2;
        for _ in 0..30 {
            let m = rng.random_range(n..=max_edges);
            let g = gnm(n, m, &mut rng);
            assert_eq!(pidd_tw(&g), bb(&g).treewidth, "gnm n={n} m={m}");
        }
    }
}

#[test]
fn agrees_with_quickbb_on_named_graphs() {
    for n in 2..=10 {
        let g = path(n);
        assert_eq!(pidd_tw(&g), bb(&g).treewidth, "path({n})");
    }
    for n in 3..=9 {
        let g = cycle(n);
        assert_eq!(pidd_tw(&g), bb(&g).treewidth, "cycle({n})");
    }
    for (r, c) in [(3, 3), (3, 4), (4, 3), (4, 4), (5, 5)] {
        let g = grid(r, c);
        assert_eq!(pidd_tw(&g), bb(&g).treewidth, "grid({r}x{c})");
    }
}

