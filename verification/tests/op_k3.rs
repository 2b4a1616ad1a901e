use cartographer::graph::{EColor, Graph, VColor};
use cartographer::operation::zx::k3_remove_edge::{k3_remove, k3_remove_edge_degree2_on_vertex};



/// Z(0)-spider triangle 0-1-2 with all three edges Hadamard.
fn h_triangle() -> Graph {
    let mut g = Graph::new();
    let v = g.add_vertex_with(VColor::Z(0));
    let a = g.add_vertex_with(VColor::Z(0));
    let b = g.add_vertex_with(VColor::Z(0));
    for (p, q) in [(v, a), (v, b), (a, b)] {
        g.add_edge_c(p, q, EColor::H);
    }
    g
}

/// Sorted `(u, v, color)` triples of the alive edges, u <= v.
fn sorted_colored_edges(g: &Graph) -> Vec<(usize, usize, EColor)> {
    let mut out: Vec<_> = g
        .edges()
        .into_iter()
        .map(|(s, t, e)| {
            let (x, y) = (s, t);
            (x.min(y), x.max(y), g.edge_color(e))
        })
        .collect();
    out.sort_by_key(|&(x, y, _)| (x, y));
    out
}

#[test]
fn applies_to_h_triangle_of_z_spiders() {
    let before = h_triangle();
    let v = 0;
    let out = k3_remove_edge_degree2_on_vertex(&before, v);

    // One new vertex: the X(7) leaf.
    assert_eq!(out.node_count(), 4);
    assert_eq!(out.alive_count(), 4);
    let x = 3;
    assert_eq!(out.label(x), VColor::X(7));
    assert_eq!(out.degree(x), 1);

    // Topology + colors: H edges at v kept, H edge a-b gone, x attached
    // to v by a normal edge.
    assert_eq!(
        sorted_colored_edges(&out),
        vec![(0, 1, EColor::H), (0, 2, EColor::H), (0, 3, EColor::NC),]
    );

    // Neighbour phases bumped 0 -> 1; other phases arbitrary but intact.
    assert_eq!(out.label(1), VColor::Z(1));
    assert_eq!(out.label(2), VColor::Z(1));

    // Input graph is left untouched.
    assert_eq!(
        sorted_colored_edges(&before),
        vec![(0, 1, EColor::H), (0, 2, EColor::H), (1, 2, EColor::H)]
    );
    for i in 0..3 {
        assert_eq!(before.label(i), VColor::Z(0));
    }
}

#[test]
fn neighbour_phases_wrap_at_8_and_v_is_untouched() {
    let mut g = h_triangle();
    g.set_color(0, VColor::Z(3));
    g.set_color(1, VColor::Z(7));
    g.set_color(2, VColor::Z(5));

    let out = k3_remove_edge_degree2_on_vertex(&g, 0);
    assert_eq!(out.label(0), VColor::Z(3)); // v keeps phase
    assert_eq!(out.label(1), VColor::Z(0)); // 7 + 1 wraps
    assert_eq!(out.label(2), VColor::Z(6));
}

#[test]
fn rejects_vertex_of_wrong_degree() {
    // A K3 is symmetric: disabling one corner would merely move the
    // rewrite to another, so give all three a third H neighbour. Then no
    // triangle corner has degree 2 and nothing applies.
    let mut g = h_triangle();
    for target in 0..3 {
        let leaf = g.add_vertex_with(VColor::Z(0));
        g.add_edge_c(target, leaf, EColor::H);
    }

    let out = k3_remove_edge_degree2_on_vertex(&g, 0);
    assert_eq!(out.node_count(), g.node_count());
    assert_eq!(out.edge_count(), g.edge_count());
    assert_eq!(sorted_colored_edges(&out), sorted_colored_edges(&g));
}

#[test]
fn fixpoint_rewrites_every_applicable_triangle() {
    // Two disjoint triangles at nodes {0,1,2} and {3,4,5}: the fixpoint
    // must consume both, appending one X(7) leaf per site (6 and 7).
    let mut g = h_triangle();
    for _ in 0..3 {
        g.add_vertex_with(VColor::Z(0));
    }
    for (p, q) in [(3, 4), (3, 5), (4, 5)] {
        g.add_edge_c(p, q, EColor::H);
    }

    let out = k3_remove(&g);
    assert_eq!(out.node_count(), 8);
    assert_eq!(
        sorted_colored_edges(&out),
        vec![
            (0, 1, EColor::H),
            (0, 2, EColor::H),
            (0, 6, EColor::NC),
            (3, 4, EColor::H),
            (3, 5, EColor::H),
            (3, 7, EColor::NC),
        ]
    );
    assert_eq!(out.label(6), VColor::X(7));
    assert_eq!(out.label(7), VColor::X(7));
}

#[test]
fn fixpoint_is_idempotent() {
    let mut g = h_triangle();
    let leaf = g.add_vertex_with(VColor::Z(0));
    g.add_edge_c(1, leaf, EColor::H);

    let once = k3_remove(&g);
    let twice = k3_remove(&once);
    assert_eq!(sorted_colored_edges(&once), sorted_colored_edges(&twice));
    assert_eq!(once.node_count(), twice.node_count());
}

#[test]
fn rejects_triangle_without_all_h_edges() {
    // Triangle present but every edge is plain (NC), not H.
    let mut g = Graph::new();
    for _ in 0..3 {
        g.add_vertex_with(VColor::Z(0));
    }
    for (p, q) in [(0, 1), (0, 2), (1, 2)] {
        g.add_edge_c(p, q, EColor::NC);
    }

    let out = k3_remove_edge_degree2_on_vertex(&g, 0);
    assert_eq!(out.node_count(), 3);
    assert_eq!(out.to_graph3(), g.to_graph3());
}

#[test]
fn rejects_without_closed_triangle() {
    // Path 0-1-2: no diagonal edge, so not a K3.
    let mut g = Graph::new();
    for _ in 0..3 {
        g.add_vertex_with(VColor::Z(0));
    }
    for (p, q) in [(0, 1), (0, 2)] {
        g.add_edge_c(p, q, EColor::H);
    }

    let out = k3_remove_edge_degree2_on_vertex(&g, 0);
    assert_eq!(out.node_count(), 3);
    assert_eq!(out.to_graph3(), g.to_graph3());
}

#[test]
fn rejects_non_z_vertices() {
    let mut g = h_triangle();
    g.set_color(1, VColor::X(0));

    let out = k3_remove_edge_degree2_on_vertex(&g, 0);
    assert_eq!(out.node_count(), 3);
    assert_eq!(out.to_graph3(), g.to_graph3());
}

