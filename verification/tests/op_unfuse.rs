use cartographer::graph::{EColor, Graph, VColor};
use cartographer::operation::unfuse::unfuse_to_sep_h_edge;



/// Sorted `(u, v, color)` triples of the alive edges, u <= v.
fn sorted_colored_edges(g: &Graph) -> Vec<(usize, usize, EColor)> {
    let mut out: Vec<_> = g
        .edges()
        .into_iter()
        .map(|(s, t, e)| {
            let (x, y) = (s, t);
            (x.min(y), x.max(y), g.edge_color(e))
        })
        .collect();
    out.sort_by_key(|&(x, y, _)| (x, y));
    out
}

#[test]
fn moves_normal_neighbours_behind_u_w_chain() {
    // v=Z(3) with normal neighbours a1, a2 and H neighbour b.
    let mut g = Graph::new();
    let v = g.add_vertex_with(VColor::Z(3));
    let a1 = g.add_vertex_with(VColor::Z(1));
    let a2 = g.add_vertex_with(VColor::X(2));
    let b = g.add_vertex_with(VColor::Z(0));
    g.add_edge_c(v, a1, EColor::NC);
    g.add_edge_c(v, a2, EColor::NC);
    g.add_edge_c(v, b, EColor::H);

    let out = unfuse_to_sep_h_edge(&g, v);

    // Two new vertices: u = node 4, w = node 5.
    assert_eq!(out.node_count(), 6);
    assert_eq!(out.label(4), VColor::Z(0)); // u
    assert_eq!(out.label(5), VColor::Z(3)); // w keeps p

    // The v-N1 normal edges moved onto u; w chains u to v; the v-N2 H
    // edge is untouched.
    assert_eq!(
        sorted_colored_edges(&out),
        vec![
            (0, 3, EColor::H),
            (0, 5, EColor::NC),
            (1, 4, EColor::NC),
            (2, 4, EColor::NC),
            (4, 5, EColor::NC),
        ]
    );
    // Existing labels are preserved, but v's phase moved onto w.
    assert_eq!(out.label(v), VColor::Z(0));
    assert_eq!(out.label(a1), VColor::Z(1));
    assert_eq!(out.label(a2), VColor::X(2));

    // Input is left untouched.
    assert_eq!(g.node_count(), 4);
    assert_eq!(
        sorted_colored_edges(&g),
        vec![(0, 1, EColor::NC), (0, 2, EColor::NC), (0, 3, EColor::H)]
    );
}

#[test]
fn deletes_all_parallel_edges_to_n1() {
    let mut g = Graph::new();
    let v = g.add_vertex_with(VColor::Z(0));
    let a = g.add_vertex_with(VColor::Z(0));
    g.add_edge_c(v, a, EColor::NC);
    g.add_edge_c(v, a, EColor::NC);

    let out = unfuse_to_sep_h_edge(&g, v);
    // Nothing survives between v and a; only the u-a, u-w, w-v chain.
    assert_eq!(out.edge_multiplicity(v, a), 0);
    assert_eq!(
        sorted_colored_edges(&out),
        vec![(0, 3, EColor::NC), (1, 2, EColor::NC), (2, 3, EColor::NC),]
    );
}

#[test]
fn empty_n1_still_appends_the_chain() {
    // Pure H boundary: N1 is empty, yet u--w--v is still attached.
    let mut g = Graph::new();
    let v = g.add_vertex_with(VColor::Z(7));
    let b = g.add_vertex_with(VColor::Z(0));
    g.add_edge_c(v, b, EColor::H);

    let out = unfuse_to_sep_h_edge(&g, v);
    assert_eq!(out.node_count(), 4);
    assert_eq!(
        sorted_colored_edges(&out),
        vec![(0, 1, EColor::H), (0, 3, EColor::NC), (2, 3, EColor::NC),]
    );
    assert_eq!(out.label(2), VColor::Z(0));
    assert_eq!(out.label(3), VColor::Z(7));
}

#[test]
fn pure_normal_boundary_leaves_v_via_w_only() {
    let mut g = Graph::new();
    let v = g.add_vertex_with(VColor::Z(1));
    let l1 = g.add_vertex_with(VColor::Z(0));
    let l2 = g.add_vertex_with(VColor::Z(0));
    g.add_edge_c(v, l1, EColor::NC);
    g.add_edge_c(v, l2, EColor::NC);

    let out = unfuse_to_sep_h_edge(&g, v);
    // v now touches only w; the leaves hang off u.
    assert_eq!(
        sorted_colored_edges(&out),
        vec![
            (0, 4, EColor::NC),
            (1, 3, EColor::NC),
            (2, 3, EColor::NC),
            (3, 4, EColor::NC),
        ]
    );
    assert_eq!(out.degree(v), 1);
}


