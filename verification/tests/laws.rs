use cartographer::algorithm::pidd::{margin_bounds, pidd_tw};
use cartographer::generator::named::{clique, cycle, path, star};
use cartographer::generator::random::{barabasi_albert, gnm, random_regular};
use cartographer::graph::{EColor, Graph, VColor};
use cartographer::io::graph3::{from_graph3, to_graph3};
use cartographer::operation::line_graph::line_graph;
use cartographer::operation::unfuse::unfuse_to_sep_h_edge;
use cartographer::operation::zx::fuse::{fuse_total, fuse_vertices};
use cartographer::operation::zx::k3_remove_edge_ha_2::k3_remove_had2;
use cartographer::operation::zx::normalize_h_parity::{normalize_h_parity, normalize_h_parity_total};
use cartographer::operation::zx::reduce_had_triangle::{reduce_had_triangle_on_vertex, reduce_had_triangle_total};
use cartographer::q_circuit::qasm::{x_gate_name, z_gate_name};
use rand::rngs::StdRng;
use rand::SeedableRng;

/// Sorted `(u, v, color)` triples of the alive edges, u <= v.
fn sorted_colored_edges(g: &Graph) -> Vec<(usize, usize, EColor)> {
    let mut out: Vec<_> = g
        .edges()
        .into_iter()
        .map(|(s, t, e)| (s.min(t), s.max(t), g.edge_color(e)))
        .collect();
    out.sort_by_key(|&(x, y, c)| (x, y, c == EColor::H));
    out
}

/// Number of alive H edges.
fn alive_h(g: &Graph) -> usize {
    g.edges().into_iter().filter(|&(_, _, e)| g.edge_color(e) == EColor::H).count()
}

/// Every alive edge as a sorted pair, without colors.
fn sorted_pairs(g: &Graph) -> Vec<(usize, usize)> {
    let mut out: Vec<_> = g.edges().into_iter().map(|(s, t, _)| (s.min(t), s.max(t))).collect();
    out.sort();
    out
}

/// A Z spider graph with parallel H edges, self-loops and normal edges.
fn messy_graph() -> Graph {
    let mut g = Graph::new();
    for p in 0..5u8 {
        g.add_vertex_with(VColor::Z(p));
    }
    for _ in 0..3 {
        g.add_edge_c(0, 1, EColor::H);
    }
    for _ in 0..2 {
        g.add_edge_c(1, 2, EColor::H);
    }
    g.add_edge_c(2, 2, EColor::H);
    g.add_edge_c(3, 3, EColor::NC);
    g.add_edge_c(2, 3, EColor::NC);
    g.add_edge_c(2, 3, EColor::NC);
    g.add_edge_c(3, 4, EColor::H);
    g
}

#[test]
fn normalize_total_collapses_parity_and_is_idempotent() {
    let g = messy_graph();
    let once = normalize_h_parity_total(&g);
    assert_eq!(
        sorted_colored_edges(&once),
        vec![(0, 1, EColor::H), (2, 3, EColor::NC), (2, 3, EColor::NC), (3, 4, EColor::H)]
    );
    let twice = normalize_h_parity_total(&once);
    assert_eq!(sorted_colored_edges(&twice), sorted_colored_edges(&once));
    assert_eq!(twice.node_count(), g.node_count());
}

#[test]
fn normalize_pair_touches_only_that_pair() {
    let g = messy_graph();
    let out = normalize_h_parity(&g, 1, 0);
    assert_eq!(out.edge_multiplicity(0, 1), 1);
    assert_eq!(out.edge_multiplicity(1, 2), 2);
    assert_eq!(out.edge_multiplicity(2, 2), 1);
    let even = normalize_h_parity(&g, 1, 2);
    assert_eq!(even.edge_multiplicity(1, 2), 0);
    assert_eq!(even.edge_multiplicity(0, 1), 3);
}

#[test]
fn fuse_adds_phases_modulo_eight() {
    let mut g = Graph::new();
    let a = g.add_vertex_with(VColor::Z(5));
    let b = g.add_vertex_with(VColor::Z(6));
    let c = g.add_vertex_with(VColor::X(1));
    g.add_edge_c(a, b, EColor::NC);
    g.add_edge_c(b, c, EColor::H);
    let out = fuse_vertices(&g, a, b);
    assert_eq!(out.label(a), VColor::Z(3));
    assert!(!out.is_alive(b));
    assert_eq!(sorted_colored_edges(&out), vec![(0, 2, EColor::H)]);
}

#[test]
fn fuse_total_never_adds_alive_h_edges_and_is_idempotent() {
    let g = messy_graph();
    let once = fuse_total(&g);
    assert!(alive_h(&once) <= alive_h(&g));
    let twice = fuse_total(&once);
    assert_eq!(sorted_colored_edges(&twice), sorted_colored_edges(&once));
    assert_eq!(twice.alive_count(), once.alive_count());
}

#[test]
fn reduce_on_vertex_deletes_one_alive_h_edge_net() {
    // v1 = 0 in a triangle with an extra H leaf: the diagonal goes, the
    // leaf's H edge moves to the fresh w, no H edge is added.
    let mut g = Graph::new();
    for _ in 0..4 {
        g.add_vertex_with(VColor::Z(0));
    }
    for (p, q) in [(0usize, 1usize), (0, 2), (1, 2), (0, 3)] {
        g.add_edge_c(p, q, EColor::H);
    }
    let out = reduce_had_triangle_on_vertex(&g, 0);
    assert_eq!(alive_h(&out), alive_h(&g) - 1);
    assert_eq!(out.edge_multiplicity(1, 2), 0);
    assert_eq!(out.edge_multiplicity(0, 3), 0);
    assert_eq!(out.edge_multiplicity(4, 3), 1);
}

#[test]
fn reduce_total_lowers_alive_h_count_to_a_fixpoint() {
    // An H-K4 of Z spiders: every round deletes one diagonal.
    let mut g = Graph::new();
    for _ in 0..4 {
        g.add_vertex_with(VColor::Z(0));
    }
    for p in 0..4usize {
        for q in p + 1..4 {
            g.add_edge_c(p, q, EColor::H);
        }
    }
    let out = reduce_had_triangle_total(&g);
    assert!(alive_h(&out) < alive_h(&g));
    let again = reduce_had_triangle_total(&out);
    assert_eq!(sorted_colored_edges(&again), sorted_colored_edges(&out));
    assert_eq!(again.alive_count(), out.alive_count());
    assert_eq!(again.node_count(), out.node_count());
}

#[test]
fn reduce_total_leaves_a_fixpoint_alone() {
    // An H path of Z spiders: nothing to fuse, no triangle.
    let mut g = Graph::new();
    for p in 0..4u8 {
        g.add_vertex_with(VColor::Z(p));
    }
    for (p, q) in [(0usize, 1usize), (1, 2), (2, 3)] {
        g.add_edge_c(p, q, EColor::H);
    }
    let out = reduce_had_triangle_total(&g);
    assert_eq!(sorted_colored_edges(&out), sorted_colored_edges(&g));
    assert_eq!(out.node_count(), 4);
    for v in 0..4usize {
        assert_eq!(out.label(v), g.label(v));
    }
}

#[test]
fn unfuse_keeps_h_edges_and_adds_a_normal_chain() {
    let mut g = Graph::new();
    let v = g.add_vertex_with(VColor::Z(3));
    let a = g.add_vertex_with(VColor::Z(0));
    let r = g.add_vertex_with(VColor::X(1));
    g.add_edge_c(v, a, EColor::H);
    g.add_edge_c(v, r, EColor::NC);
    let out = unfuse_to_sep_h_edge(&g, v);
    assert_eq!(alive_h(&out), alive_h(&g));
    assert_eq!(out.node_count(), 5);
    assert_eq!(out.label(v), VColor::Z(0));
    assert_eq!(out.label(4), VColor::Z(3));
    assert_eq!(
        sorted_colored_edges(&out),
        vec![(0, 1, EColor::H), (0, 4, EColor::NC), (2, 3, EColor::NC), (3, 4, EColor::NC)]
    );
}

#[test]
fn line_graph_of_path_is_shorter_path() {
    let lg = line_graph(&path(5));
    assert_eq!(lg.node_count(), 4);
    assert_eq!(sorted_pairs(&lg), vec![(0, 1), (1, 2), (2, 3)]);
}

#[test]
fn line_graph_of_star_is_clique() {
    let lg = line_graph(&star(5));
    assert_eq!(lg.node_count(), 4);
    assert_eq!(sorted_pairs(&lg), vec![(0, 1), (0, 2), (0, 3), (1, 2), (1, 3), (2, 3)]);
    let lc = line_graph(&cycle(5));
    assert_eq!(lc.node_count(), 5);
    assert_eq!(sorted_pairs(&lc).len(), 5);
}

#[test]
fn gnm_caps_at_all_pairs_and_stays_simple() {
    let mut rng = StdRng::seed_from_u64(11);
    let full = gnm(5, 100, &mut rng);
    assert_eq!(full.edge_count(), 10);
    let g = gnm(8, 9, &mut rng);
    let pairs = sorted_pairs(&g);
    assert_eq!(pairs.len(), 9);
    for w in pairs.windows(2) {
        assert!(w[0] != w[1]);
    }
    assert!(pairs.iter().all(|&(a, b)| a < b && b < 8));
}

#[test]
fn random_regular_has_every_degree_k() {
    let mut rng = StdRng::seed_from_u64(5);
    let g = random_regular(10, 3, &mut rng);
    assert_eq!(g.node_count(), 10);
    if g.edge_count() > 0 {
        for v in 0..10usize {
            assert_eq!(g.degree(v), 3);
        }
        assert_eq!(g.edge_count(), 15);
    }
    let odd = random_regular(5, 3, &mut rng);
    assert_eq!(odd.edge_count(), 0);
}

#[test]
fn barabasi_albert_edge_count_formula() {
    let mut rng = StdRng::seed_from_u64(3);
    let (n, m) = (12usize, 2usize);
    let g = barabasi_albert(n, m, &mut rng);
    assert_eq!(g.node_count(), n);
    assert_eq!(g.edge_count(), m * (m + 1) / 2 + (n - m - 1) * m);
    assert_eq!(sorted_pairs(&g).windows(2).filter(|w| w[0] == w[1]).count(), 0);
    let seed_only = barabasi_albert(3, 4, &mut rng);
    assert_eq!(seed_only.edge_count(), 3);
}

#[test]
fn pidd_matches_known_treewidths() {
    assert_eq!(pidd_tw(&path(6)), 1);
    assert_eq!(pidd_tw(&cycle(6)), 2);
    assert_eq!(pidd_tw(&clique(5)), 4);
}

#[test]
fn margin_bounds_double_up_to_k() {
    assert_eq!(margin_bounds(10), vec![2, 4, 8, 10]);
    assert_eq!(margin_bounds(8), vec![2, 4, 8]);
    assert_eq!(margin_bounds(1), vec![1]);
}

#[test]
fn gate_names_cover_every_phase() {
    let z: Vec<String> = (0..8u8).map(z_gate_name).collect();
    assert_eq!(z, vec!["u1(0)", "t", "s", "u1(3*pi/4)", "z", "u1(5*pi/4)", "sdg", "tdg"]);
    let x: Vec<String> = (0..8u8).map(x_gate_name).collect();
    assert_eq!(x, vec!["rx(0)", "rx(1*pi/4)", "rx(2*pi/4)", "rx(3*pi/4)", "x", "rx(5*pi/4)", "rx(6*pi/4)", "rx(7*pi/4)"]);
    assert_eq!(z_gate_name(9), "t");
    assert_eq!(x_gate_name(12), "x");
}

#[test]
fn graph3_round_trip_keeps_the_alive_part() {
    let mut g = Graph::new();
    let a = g.add_vertex_with(VColor::Z(9));
    let d = g.add_vertex_with(VColor::X(2));
    let b = g.add_vertex_with(VColor::H);
    g.add_edge_c(a, b, EColor::H);
    g.add_edge_c(a, b, EColor::H);
    g.add_edge_c(a, b, EColor::NC);
    g.add_edge_c(b, b, EColor::NC);
    g.add_edge_c(a, d, EColor::NC);
    g.remove_vertex(d);
    let back = from_graph3(&to_graph3(&g)).unwrap();
    assert_eq!(back.node_count(), 2);
    assert_eq!(back.label(0), VColor::Z(1));
    assert_eq!(back.label(1), VColor::H);
    assert_eq!(sorted_colored_edges(&back), vec![(0, 1, EColor::NC), (0, 1, EColor::H), (0, 1, EColor::H), (1, 1, EColor::NC)]);
}

#[test]
fn graph3_rejects_a_pair_over_the_format_limit() {
    let mut g = Graph::new();
    let a = g.add_vertex();
    let b = g.add_vertex();
    for _ in 0..10001 {
        g.add_edge(a, b);
    }
    let err = from_graph3(&to_graph3(&g)).unwrap_err();
    assert!(err.contains("exceeds 10000"), "got: {err}");
}

#[test]
fn had2_fixpoint_stops_at_a_mixed_diagonal() {
    // The diagonal a-b carries a normal edge beside its H edge: the site is
    // left alone rather than rewritten.
    let mut g = Graph::new();
    for _ in 0..3 {
        g.add_vertex_with(VColor::Z(0));
    }
    for (p, q) in [(0usize, 1usize), (0, 2), (1, 2)] {
        g.add_edge_c(p, q, EColor::H);
    }
    g.add_edge_c(1, 2, EColor::NC);
    let out = k3_remove_had2(&g);
    assert_eq!(out.node_count(), 3);
    assert_eq!(sorted_colored_edges(&out), sorted_colored_edges(&g));
}

#[test]
fn pidd_tw_of_edgeless_graph_is_zero() {
    assert_eq!(pidd_tw(&Graph::with_capacity(4)), 0);
    let mut g = Graph::from_edges(vec![(0, 1), (1, 2)]);
    g.remove_edge(0, 1);
    g.remove_edge(1, 2);
    assert_eq!(pidd_tw(&g), 0);
}

#[test]
fn had2_total_removes_each_triangle_diagonal() {
    let mut g = Graph::new();
    for _ in 0..6 {
        g.add_vertex_with(VColor::Z(0));
    }
    for (p, q) in [(0, 1), (0, 2), (1, 2), (3, 4), (3, 5), (4, 5)] {
        g.add_edge_c(p, q, EColor::H);
    }
    let out = k3_remove_had2(&g);
    assert_eq!(out.edge_multiplicity(1, 2), 0);
    assert_eq!(out.edge_multiplicity(4, 5), 0);
}
