use cartographer::graph::{EColor, Graph, VColor};
use cartographer::operation::zx::normalize_h_parity::{normalize_h_parity, normalize_h_parity_total, odd_h_connected};



/// Sorted `(u, v, color)` triples of the alive edges, u <= v.
fn sorted_colored_edges(g: &Graph) -> Vec<(usize, usize, EColor)> {
    let mut out: Vec<_> = g
        .edges()
        .into_iter()
        .map(|(s, t, e)| {
            let (x, y) = (s, t);
            (x.min(y), x.max(y), g.edge_color(e))
        })
        .collect();
    out.sort_by_key(|&(x, y, _)| (x, y));
    out
}

#[test]
fn collapses_odd_to_one_and_even_to_none() {
    // 0-1: 3 H (odd), 1-2: 2 H (even), 0-2: 1 H.
    let mut g = Graph::new();
    for _ in 0..3 {
        g.add_vertex_with(VColor::Z(0));
    }
    for _ in 0..3 {
        g.add_edge_c(0, 1, EColor::H);
    }
    for _ in 0..2 {
        g.add_edge_c(1, 2, EColor::H);
    }
    g.add_edge_c(0, 2, EColor::H);

    let out = normalize_h_parity_total(&g);
    assert_eq!(
        out.edge_multiplicity(0, 1),
        1
    );
    assert_eq!(
        out.edge_multiplicity(1, 2),
        0
    );
    assert_eq!(
        out.edge_multiplicity(0, 2),
        1
    );

    // Input untouched, and the pass is idempotent.
    assert_eq!(g.edge_multiplicity(0, 1), 3);
    assert_eq!(g.edge_multiplicity(1, 2), 2);
    let twice = normalize_h_parity_total(&out);
    assert_eq!(sorted_colored_edges(&twice), sorted_colored_edges(&out));
}

#[test]
fn keeps_nc_copies_on_mixed_pairs() {
    let mut g = Graph::new();
    g.add_vertex_with(VColor::Z(0));
    g.add_vertex_with(VColor::Z(0));
    g.add_edge_c(0, 1, EColor::NC);
    g.add_edge_c(0, 1, EColor::NC);
    for _ in 0..3 {
        g.add_edge_c(0, 1, EColor::H);
    }

    // 3 H -> 1 H, both NC copies re-attached; same via the pair and the
    // total version.
    let expected = vec![(0, 1, EColor::NC), (0, 1, EColor::NC), (0, 1, EColor::H)];
    assert_eq!(
        sorted_colored_edges(&normalize_h_parity(
            &g,
            0,
            1
        )),
        expected
    );
    assert_eq!(
        sorted_colored_edges(&normalize_h_parity_total(&g)),
        expected
    );
}

#[test]
fn pair_version_only_touches_its_pair() {
    // Two even-H pairs; normalizing 0-1 leaves 2-3 alone.
    let mut g = Graph::new();
    for _ in 0..4 {
        g.add_vertex_with(VColor::Z(0));
    }
    for (p, q) in [(0usize, 1usize), (2, 3)] {
        g.add_edge_c(p, q, EColor::H);
        g.add_edge_c(p, q, EColor::H);
    }

    let out = normalize_h_parity(&g, 0, 1);
    assert_eq!(
        out.edge_multiplicity(0, 1),
        0
    );
    assert_eq!(
        out.edge_multiplicity(2, 3),
        2
    );
}

#[test]
fn removes_self_loops() {
    // H self-loops x2 (even) and one NC self-loop at 0, another NC
    // self-loop at 1, plus an even-H pair 0-1: the total pass removes
    // every self-loop, whatever its colour, and the pair still collapses.
    let mut g = Graph::new();
    g.add_vertex_with(VColor::Z(0));
    g.add_vertex_with(VColor::Z(0));
    g.add_edge_c(0, 0, EColor::H);
    g.add_edge_c(0, 0, EColor::H);
    g.add_edge_c(0, 0, EColor::NC);
    g.add_edge_c(1, 1, EColor::NC);
    g.add_edge_c(0, 1, EColor::H);
    g.add_edge_c(0, 1, EColor::H);

    let out = normalize_h_parity_total(&g);
    assert_eq!(sorted_colored_edges(&out), vec![]);

    // The pair version with a == b only strips that vertex's self-loops.
    let pair = normalize_h_parity(&g, 0, 0);
    assert_eq!(
        sorted_colored_edges(&pair),
        vec![(0, 1, EColor::H), (0, 1, EColor::H), (1, 1, EColor::NC),]
    );

    // A graph with neither H pairs nor self-loops is returned unchanged,
    // as is the empty graph.
    let mut nc_only = Graph::new();
    nc_only.add_vertex_with(VColor::Z(3));
    nc_only.add_vertex_with(VColor::Z(0));
    nc_only.add_edge_c(0, 1, EColor::NC);
    assert_eq!(
        sorted_colored_edges(&normalize_h_parity_total(&nc_only)),
        sorted_colored_edges(&nc_only)
    );
    assert_eq!(normalize_h_parity_total(&Graph::new()).node_count(), 0);
}

