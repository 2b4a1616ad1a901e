use cartographer::graph::{EColor, Graph, VColor};
use cartographer::operation::zx::k3_remove_edge_ha_2::{k3_remove_edge_had2_on_vertex, k3_remove_had2};



/// Sorted `(u, v, color)` triples of the alive edges, u <= v.
fn sorted_colored_edges(g: &Graph) -> Vec<(usize, usize, EColor)> {
    let mut out: Vec<_> = g
        .edges()
        .into_iter()
        .map(|(s, t, e)| {
            let (x, y) = (s, t);
            (x.min(y), x.max(y), g.edge_color(e))
        })
        .collect();
    out.sort_by_key(|&(x, y, _)| (x, y));
    out
}

/// v=Z(pv) with H triangle a=Z(pa), b=Z(pb) and normal neighbours
/// r1=Z(pr), r2=X(px). Returns (graph, indices).
fn had2_site(pv: u8, pa: u8, pb: u8) -> Graph {
    let mut g = Graph::new();
    let v = g.add_vertex_with(VColor::Z(pv));
    let a = g.add_vertex_with(VColor::Z(pa));
    let b = g.add_vertex_with(VColor::Z(pb));
    let r1 = g.add_vertex_with(VColor::Z(5));
    let r2 = g.add_vertex_with(VColor::X(2));
    for (p, q) in [(v, a), (v, b), (a, b)] {
        g.add_edge_c(p, q, EColor::H);
    }
    g.add_edge_c(v, r1, EColor::NC);
    g.add_edge_c(v, r2, EColor::NC);
    g
}

#[test]
fn rewrites_triangle_with_extra_normal_neighbours() {
    let g = had2_site(3, 1, 0);
    let out = k3_remove_edge_had2_on_vertex(&g, 0);

    // unfuse appends u = node 5, w = node 6; the X(7) node x = node 7.
    assert_eq!(out.node_count(), 8);

    // Chain r1,r2 == u(Z0) == w(Z3) == x(X7) == v(Z0); the two H edges at
    // v are kept, the a-b diagonal is gone.
    assert_eq!(
        sorted_colored_edges(&out),
        vec![
            (0, 1, EColor::H),
            (0, 2, EColor::H),
            (0, 7, EColor::NC),
            (3, 5, EColor::NC),
            (4, 5, EColor::NC),
            (5, 6, EColor::NC),
            (6, 7, EColor::NC),
        ]
    );

    // Labels: v resets to Z(0), w carries v's old phase 3, x is X(7),
    // neighbours' phases bump by one, everyone else is untouched.
    assert_eq!(out.label(0), VColor::Z(0));
    assert_eq!(out.label(1), VColor::Z(2)); // 1 + 1
    assert_eq!(out.label(2), VColor::Z(1)); // 0 + 1
    assert_eq!(out.label(3), VColor::Z(5));
    assert_eq!(out.label(4), VColor::X(2));
    assert_eq!(out.label(5), VColor::Z(0)); // u
    assert_eq!(out.label(6), VColor::Z(3)); // w
    assert_eq!(out.label(7), VColor::X(7)); // x

    // Input graph is left untouched.
    assert_eq!(g.node_count(), 5);
    assert_eq!(
        sorted_colored_edges(&g),
        vec![
            (0, 1, EColor::H),
            (0, 2, EColor::H),
            (0, 3, EColor::NC),
            (0, 4, EColor::NC),
            (1, 2, EColor::H),
        ]
    );
}

#[test]
fn applies_with_no_normal_neighbours_and_wraps_phases() {
    // v = Z(7) in a bare H triangle: still a valid had2 target (order 2),
    // and a = Z(7) wraps to Z(0) after the bump.
    let mut g = Graph::new();
    let v = g.add_vertex_with(VColor::Z(7));
    let a = g.add_vertex_with(VColor::Z(7));
    let b = g.add_vertex_with(VColor::Z(5));
    for (p, q) in [(v, a), (v, b), (a, b)] {
        g.add_edge_c(p, q, EColor::H);
    }

    let out = k3_remove_edge_had2_on_vertex(&g, v);
    // u = 3 (only joined to w), w = 4, x = 5.
    assert_eq!(
        sorted_colored_edges(&out),
        vec![
            (0, 1, EColor::H),
            (0, 2, EColor::H),
            (0, 5, EColor::NC),
            (3, 4, EColor::NC),
            (4, 5, EColor::NC),
        ]
    );
    assert_eq!(out.label(v), VColor::Z(0));
    assert_eq!(out.label(a), VColor::Z(0)); // 7 + 1 wraps
    assert_eq!(out.label(b), VColor::Z(6));
    assert_eq!(out.label(3), VColor::Z(0)); // u
    assert_eq!(out.label(4), VColor::Z(7)); // w keeps pv
    assert_eq!(out.label(5), VColor::X(7)); // x
    assert_eq!(out.degree(3), 1); // u touches only w
}

#[test]
fn k3_remove_edge_ha_2_returns_unchanged_for_invalid_targets() {
    // Node 0 gains a third H neighbour, so its H-degree is wrong. Nodes 1
    // and 2 stay valid (a K3 is symmetric), so only 0, 3, 4, 5 must come
    // back untouched.
    let mut g = had2_site(0, 0, 0);
    let c = g.add_vertex_with(VColor::Z(0));
    g.add_edge_c(0, c, EColor::H);

    for target in [0usize, 3, 4, 5] {
        let out = k3_remove_edge_had2_on_vertex(&g, target);
        assert_eq!(out.node_count(), g.node_count(), "target {target}");
        assert_eq!(
            sorted_colored_edges(&out),
            sorted_colored_edges(&g),
            "target {target}"
        );
    }
}

#[test]
fn returns_unchanged_without_closed_h_triangle() {
    // Drop the a-b diagonal: no K3 anywhere.
    let mut g = had2_site(0, 0, 0);
    g.remove_edge(1, 2);

    let out = k3_remove_edge_had2_on_vertex(&g, 0);
    assert_eq!(out.node_count(), g.node_count());
    assert_eq!(sorted_colored_edges(&out), sorted_colored_edges(&g));
}

#[test]
fn returns_unchanged_for_non_z_triangle_member() {
    let mut g = had2_site(0, 0, 0);
    g.set_color(1, VColor::X(0));

    let out = k3_remove_edge_had2_on_vertex(&g, 0);
    assert_eq!(out.node_count(), g.node_count());
    assert_eq!(sorted_colored_edges(&out), sorted_colored_edges(&g));
}

#[test]
fn fixpoint_rewrites_every_site_and_terminates() {
    // Two disjoint had2 sites: {0,1,2} with normal leaves 3, 4, and
    // {5,6,7} with normal leaf 8. The fixpoint must consume both.
    let mut g = had2_site(0, 0, 0); // nodes 0..=4
    let v2 = g.add_vertex_with(VColor::Z(2));
    let a2 = g.add_vertex_with(VColor::Z(0));
    let b2 = g.add_vertex_with(VColor::Z(1));
    let r3 = g.add_vertex_with(VColor::Z(0));
    for (p, q) in [(v2, a2), (v2, b2), (a2, b2)] {
        g.add_edge_c(p, q, EColor::H);
    }
    g.add_edge_c(v2, r3, EColor::NC);

    let out = k3_remove_had2(&g);
    // 9 original vertices + u, w, x per site = 15.
    assert_eq!(out.node_count(), 15);
    // Both diagonals are gone and the v's have reset to Z(0).
    assert_eq!(
        out.edge_multiplicity(1, 2),
        0
    );
    assert_eq!(
        out.edge_multiplicity(6, 7),
        0
    );
    assert_eq!(out.label(0), VColor::Z(0));
    assert_eq!(out.label(5), VColor::Z(0));
    // w's carry the original v phases: 0 for site 1, 2 for site 2.
    assert_eq!(out.label(10), VColor::Z(0));
    assert_eq!(out.label(13), VColor::Z(2));
    // The two X(7) nodes close each chain.
    assert_eq!(out.label(11), VColor::X(7));
    assert_eq!(out.label(14), VColor::X(7));

    // Idempotent: a second fixpoint pass changes nothing.
    let twice = k3_remove_had2(&out);
    assert_eq!(out.node_count(), twice.node_count());
    assert_eq!(sorted_colored_edges(&out), sorted_colored_edges(&twice));
}

