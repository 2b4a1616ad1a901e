use cartographer::graph::{EColor, Graph, VColor};
use cartographer::operation::zx::reduce_had_triangle::{reduce_had_triangle_on_vertex, reduce_had_triangle_total};

/// Sorted `(u, v, color)` triples of the alive edges, u <= v.
fn sorted_colored_edges(g: &Graph) -> Vec<(usize, usize, EColor)> {
    let mut out: Vec<_> = g
        .edges()
        .into_iter()
        .map(|(s, t, e)| (s.min(t), s.max(t), g.edge_color(e)))
        .collect();
    out.sort_by_key(|&(x, y, _)| (x, y));
    out
}

/// (H, NC) self-loop counts at `v`.
fn self_loop_counts(g: &Graph, v: usize) -> (usize, usize) {
    let mut counts = (0, 0);
    for (s, t, e) in g.edges() {
        if s == v && t == v {
            if g.edge_color(e) == EColor::H {
                counts.0 += 1;
            } else {
                counts.1 += 1;
            }
        }
    }
    counts
}

/// v1=Z(pv) in an H triangle with v2=Z(0), v3=Z(0).
fn h_triangle(pv: u8) -> Graph {
    let mut g = Graph::new();
    for p in [pv, 0, 0] {
        g.add_vertex_with(VColor::Z(p));
    }
    for (p, q) in [(0usize, 1usize), (0, 2), (1, 2)] {
        g.add_edge_c(p, q, EColor::H);
    }
    g
}

#[test]
fn rewrites_triangle_moving_mixed_boundary() {
    let mut g = h_triangle(3);
    g.set_color(1, VColor::Z(1));
    g.set_color(2, VColor::Z(5));
    let r = g.add_vertex_with(VColor::X(2));
    let h = g.add_vertex_with(VColor::Z(0));
    g.add_edge_c(0, r, EColor::NC);
    g.add_edge_c(0, h, EColor::H);

    let out = reduce_had_triangle_on_vertex(&g, 0);

    assert_eq!(out.node_count(), 9);
    assert_eq!(
        sorted_colored_edges(&out),
        vec![
            (0, 1, EColor::H),
            (0, 2, EColor::H),
            (0, 8, EColor::NC),
            (3, 5, EColor::NC),
            (4, 5, EColor::H),
            (5, 6, EColor::NC),
            (6, 7, EColor::NC),
            (7, 8, EColor::NC),
        ]
    );
    assert_eq!(out.label(0), VColor::Z(0));
    assert_eq!(out.label(1), VColor::Z(2));
    assert_eq!(out.label(2), VColor::Z(6));
    assert_eq!(out.label(3), VColor::X(2));
    assert_eq!(out.label(4), VColor::Z(0));
    assert_eq!(out.label(5), VColor::Z(3));
    assert_eq!(out.label(6), VColor::Z(0));
    assert_eq!(out.label(7), VColor::Z(0));
    assert_eq!(out.label(8), VColor::X(7));

    assert_eq!(g.node_count(), 5);
    assert_eq!(
        sorted_colored_edges(&g),
        vec![
            (0, 1, EColor::H),
            (0, 2, EColor::H),
            (0, 3, EColor::NC),
            (0, 4, EColor::H),
            (1, 2, EColor::H),
        ]
    );
}

#[test]
fn bare_triangle_appends_the_chain_only() {
    let mut g = h_triangle(4);
    g.set_color(2, VColor::Z(7));

    let out = reduce_had_triangle_on_vertex(&g, 0);
    assert_eq!(out.node_count(), 7);
    assert_eq!(
        sorted_colored_edges(&out),
        vec![
            (0, 1, EColor::H),
            (0, 2, EColor::H),
            (0, 6, EColor::NC),
            (3, 4, EColor::NC),
            (4, 5, EColor::NC),
            (5, 6, EColor::NC),
        ]
    );
    assert_eq!(out.label(0), VColor::Z(0));
    assert_eq!(out.label(1), VColor::Z(1));
    assert_eq!(out.label(2), VColor::Z(0));
    assert_eq!(out.label(3), VColor::Z(4));
    assert_eq!(out.label(6), VColor::X(7));
}

#[test]
fn parallel_h_edges_reduce_by_parity() {
    let mut g = h_triangle(0);
    g.set_color(1, VColor::Z(2));
    for _ in 0..2 {
        g.add_edge_c(0, 1, EColor::H);
        g.add_edge_c(1, 2, EColor::H);
    }

    let out = reduce_had_triangle_on_vertex(&g, 0);
    assert_eq!(out.node_count(), 7);
    assert_eq!(out.edge_multiplicity(0, 1), 1);
    assert_eq!(out.edge_multiplicity(0, 2), 1);
    assert_eq!(out.edge_multiplicity(1, 2), 0);
    assert_eq!(out.label(1), VColor::Z(3));
    assert_eq!(out.label(2), VColor::Z(1));
}

#[test]
fn even_h_edges_do_not_form_a_triangle() {
    let mut even_diagonal = h_triangle(0);
    even_diagonal.add_edge_c(1, 2, EColor::H);
    let mut even_side = h_triangle(0);
    even_side.add_edge_c(0, 1, EColor::H);

    for g in [&even_diagonal, &even_side] {
        for target in 0..3usize {
            let out = reduce_had_triangle_on_vertex(g, target);
            assert_eq!(out.node_count(), g.node_count(), "target {target}");
            assert_eq!(sorted_colored_edges(&out), sorted_colored_edges(g), "target {target}");
        }
    }
    assert_eq!(
        sorted_colored_edges(&reduce_had_triangle_total(&even_diagonal)),
        vec![(0, 1, EColor::H), (0, 2, EColor::H)]
    );
    assert_eq!(
        sorted_colored_edges(&reduce_had_triangle_total(&even_side)),
        vec![(0, 2, EColor::H), (1, 2, EColor::H)]
    );
}

#[test]
fn reduce_had_triangle_returns_unchanged_for_invalid_targets() {
    let mut non_z_v1 = h_triangle(0);
    non_z_v1.set_color(0, VColor::X(0));
    let mut non_z_v2 = h_triangle(0);
    non_z_v2.set_color(1, VColor::X(3));

    let mut nc_triangle = Graph::new();
    for _ in 0..3 {
        nc_triangle.add_vertex_with(VColor::Z(0));
    }
    for (p, q) in [(0usize, 1usize), (0, 2), (1, 2)] {
        nc_triangle.add_edge_c(p, q, EColor::NC);
    }

    let mut open = h_triangle(0);
    open.remove_edge(1, 2);

    let mut dead_v1 = h_triangle(0);
    dead_v1.remove_vertex(0);

    for g in [&non_z_v1, &non_z_v2, &nc_triangle, &open, &dead_v1] {
        let out = reduce_had_triangle_on_vertex(g, 0);
        assert_eq!(out.node_count(), g.node_count());
        assert_eq!(sorted_colored_edges(&out), sorted_colored_edges(g));
    }
}

#[test]
fn removes_v1_self_loops() {
    let mut g = h_triangle(1);
    let r = g.add_vertex_with(VColor::X(0));
    g.add_edge_c(0, r, EColor::NC);
    g.add_edge_c(0, 0, EColor::H);
    g.add_edge_c(0, 0, EColor::H);
    g.add_edge_c(0, 0, EColor::NC);

    let out = reduce_had_triangle_on_vertex(&g, 0);
    assert_eq!(out.node_count(), 8);
    assert_eq!(self_loop_counts(&out, 0), (0, 0));
    assert_eq!(out.edge_multiplicity(1, 2), 0);
    assert_eq!(out.label(0), VColor::Z(0));
    assert_eq!(out.label(4), VColor::Z(1));
    assert_eq!(out.label(7), VColor::X(7));
}

#[test]
fn normalizes_h_parity_before_moving_n1() {
    let mut g = h_triangle(2);
    let r = g.add_vertex_with(VColor::X(1));
    let h = g.add_vertex_with(VColor::Z(0));
    let q = g.add_vertex_with(VColor::X(0));
    g.add_edge_c(0, r, EColor::NC);
    g.add_edge_c(0, r, EColor::NC);
    g.add_edge_c(0, h, EColor::H);
    g.add_edge_c(0, h, EColor::H);
    g.add_edge_c(0, q, EColor::H);
    g.add_edge_c(0, q, EColor::H);
    g.add_edge_c(0, q, EColor::H);

    let out = reduce_had_triangle_on_vertex(&g, 0);
    assert_eq!(out.node_count(), 10);
    assert_eq!(
        sorted_colored_edges(&out),
        vec![
            (0, 1, EColor::H),
            (0, 2, EColor::H),
            (0, 9, EColor::NC),
            (3, 6, EColor::NC),
            (3, 6, EColor::NC),
            (5, 6, EColor::H),
            (6, 7, EColor::NC),
            (7, 8, EColor::NC),
            (8, 9, EColor::NC),
        ]
    );
    assert_eq!(out.edge_multiplicity(0, h), 0);
    assert_eq!(out.edge_multiplicity(6, h), 0);
    assert_eq!(out.label(6), VColor::Z(2));
    assert_eq!(out.label(h), VColor::Z(0));
    assert_eq!(out.label(9), VColor::X(7));
}

#[test]
fn chooses_first_ascending_pair() {
    let mut g = h_triangle(0);
    let d = g.add_vertex_with(VColor::Z(0));
    for p in [0usize, 1, 2] {
        g.add_edge_c(p, d, EColor::H);
    }

    let out = reduce_had_triangle_on_vertex(&g, 0);
    assert_eq!(out.node_count(), 8);
    assert_eq!(
        sorted_colored_edges(&out),
        vec![
            (0, 1, EColor::H),
            (0, 2, EColor::H),
            (0, 7, EColor::NC),
            (1, 3, EColor::H),
            (2, 3, EColor::H),
            (3, 4, EColor::H),
            (4, 5, EColor::NC),
            (5, 6, EColor::NC),
            (6, 7, EColor::NC),
        ]
    );
    assert_eq!(out.label(1), VColor::Z(1));
    assert_eq!(out.label(2), VColor::Z(1));
    assert_eq!(out.label(3), VColor::Z(0));
}

#[test]
fn fixpoint_rewrites_fuses_and_is_idempotent() {
    let mut g = h_triangle(1);
    let v2 = g.add_vertex_with(VColor::Z(2));
    let a2 = g.add_vertex_with(VColor::Z(0));
    let b2 = g.add_vertex_with(VColor::Z(1));
    for (p, q) in [(v2, a2), (v2, b2), (a2, b2)] {
        g.add_edge_c(p, q, EColor::H);
    }

    let out = reduce_had_triangle_total(&g);
    assert_eq!(out.node_count(), 14);
    assert_eq!(out.alive_count(), 10);
    for dead in [7usize, 8, 11, 12] {
        assert!(!out.is_alive(dead));
    }
    assert_eq!(
        sorted_colored_edges(&out),
        vec![
            (0, 1, EColor::H),
            (0, 2, EColor::H),
            (0, 9, EColor::NC),
            (3, 4, EColor::H),
            (3, 5, EColor::H),
            (3, 13, EColor::NC),
            (6, 9, EColor::NC),
            (10, 13, EColor::NC),
        ]
    );
    assert_eq!(out.edge_multiplicity(1, 2), 0);
    assert_eq!(out.edge_multiplicity(4, 5), 0);
    assert_eq!(out.label(0), VColor::Z(0));
    assert_eq!(out.label(3), VColor::Z(0));
    assert_eq!(out.label(1), VColor::Z(1));
    assert_eq!(out.label(2), VColor::Z(1));
    assert_eq!(out.label(4), VColor::Z(1));
    assert_eq!(out.label(5), VColor::Z(2));
    assert_eq!(out.label(6), VColor::Z(1));
    assert_eq!(out.label(10), VColor::Z(2));
    assert_eq!(out.label(9), VColor::X(7));
    assert_eq!(out.label(13), VColor::X(7));

    let twice = reduce_had_triangle_total(&out);
    assert_eq!(out.node_count(), twice.node_count());
    assert_eq!(out.alive_count(), twice.alive_count());
    assert_eq!(sorted_colored_edges(&out), sorted_colored_edges(&twice));
}
