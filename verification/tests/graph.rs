use cartographer::algorithm::bb_tw;
use cartographer::graph::{EColor, Graph, VColor};

fn g_path(n: usize) -> Graph {
    let edges: Vec<(usize, usize)> = (0..n - 1).map(|i| (i, i + 1)).collect();
    Graph::from_edges(edges)
}

#[test]
fn from_edges_and_counts() {
    let g = Graph::from_edges(vec![(0, 1), (1, 2), (0, 2)]);
    assert_eq!(g.node_count(), 3);
    assert_eq!(g.alive_count(), 3);
    assert!(g.has_edge(0, 2));
    let g2 = Graph::from_edges(vec![(0, 0), (0, 1)]);
    assert_eq!(g2.node_count(), 2);
    assert!(g2.has_edge(0, 0));
    assert_eq!(g2.edge_multiplicity(0, 0), 1);
}

#[test]
fn degree_and_neighbors() {
    let g = g_path(4);
    assert_eq!(g.degree(0), 1);
    assert_eq!(g.degree(1), 2);
    assert_eq!(g.degree(3), 1);
}

#[test]
fn elim_fills_clique_and_removes_vertex() {
    let mut g = Graph::from_edges(vec![(0, 1), (0, 2), (0, 3)]);
    let d = g.elim(0);
    assert_eq!(d, 3);
    assert!(!g.is_alive(0));
    assert!(g.has_edge(1, 2));
    assert!(g.has_edge(1, 3));
    assert!(g.has_edge(2, 3));
    assert_eq!(g.alive_count(), 3);
}

#[test]
fn fill_in_count_star() {
    let g = Graph::from_edges(vec![(0, 1), (0, 2), (0, 3)]);
    assert_eq!(g.fill_in_count(0), 3);
    assert_eq!(g.fill_in_count(1), 0);
}

#[test]
fn contract_merges_neighborhoods() {
    let mut g = g_path(3);
    g.contract(0, 1);
    assert!(!g.is_alive(1));
    assert!(g.has_edge(0, 2));
    assert_eq!(g.alive_count(), 2);
}

#[test]
fn multigraph_parallel_edges_and_multiplicity() {
    let mut g = Graph::with_capacity(2);
    g.add_edge(0, 1);
    g.add_edge(0, 1);
    g.add_edge(0, 1);
    g.add_edge(0, 0);
    assert_eq!(g.edge_multiplicity(0, 1), 3);
    assert_eq!(g.edge_multiplicity(1, 0), 3);
    assert_eq!(g.edge_multiplicity(0, 0), 1);
    assert_eq!(g.edge_count(), 4);
    assert_eq!(g.degree(0), 1);
}

#[test]
fn ensure_edge_does_not_create_parallel_edges() {
    let mut g = Graph::with_capacity(2);
    g.ensure_edge(0, 1);
    g.ensure_edge(0, 1);
    g.ensure_edge(0, 0);
    assert_eq!(g.edge_multiplicity(0, 1), 1);
    assert_eq!(g.edge_count(), 1);
    assert!(!g.has_edge(0, 0));
}

#[test]
fn alive_neighbors_dedupes_and_sorts() {
    let mut g = Graph::with_capacity(4);
    g.add_edge(0, 3);
    g.add_edge(0, 2);
    g.add_edge(0, 2);
    g.add_edge(0, 1);
    g.add_edge(0, 0);
    assert_eq!(g.alive_neighbors(0), vec![1, 2, 3]);
    assert_eq!(g.degree(0), 3);
}

#[test]
fn from_edges_keeps_parallel_edges() {
    let g = Graph::from_edges(vec![(0, 1), (0, 1), (0, 1)]);
    assert_eq!(g.node_count(), 2);
    assert_eq!(g.edge_multiplicity(0, 1), 3);
    assert_eq!(g.edge_count(), 3);
}

#[test]
fn treewidth_ignores_parallel_edges_and_self_loops() {
    let simple = Graph::from_edges(vec![(0, 1), (1, 2), (2, 3), (3, 4)]);
    let multi = Graph::from_graph3("0 1 3\n1 2\n2 3 2\n3 4\n4 4 f\n0 0\n").unwrap();
    assert_eq!(bb_tw(&simple), 1);
    assert_eq!(bb_tw(&multi), 1);
}

#[test]
fn colored_graph_with_enum_labels() {
    let mut g = Graph::new();
    let a = g.add_vertex_with(VColor::Z(0));
    let b = g.add_vertex_with(VColor::X(1));
    let c = g.add_vertex_with(VColor::H);
    g.add_edge(a, b);
    g.add_edge(b, c);

    assert_eq!(g.label(a), VColor::Z(0));
    assert_eq!(g.label(b), VColor::X(1));
    assert_eq!(g.label(c), VColor::H);

    g.set_color(c, VColor::Z(2));
    assert_eq!(g.label(c), VColor::Z(2));

    assert_eq!(g.node_count(), 3);
    assert_eq!(bb_tw(&g), 1);

    let g2 = Graph::from_edges(vec![(0, 1), (1, 2)]);
    assert_eq!(g2.label(0), VColor::NC);
    assert_eq!(g2.label(1), VColor::NC);

    let mut g3 = Graph::new();
    g3.add_vertex();
    assert_eq!(g3.label(0), VColor::NC);
}

#[test]
fn edges_lists_alive_edges_with_colors() {
    let mut g = Graph::with_capacity(3);
    g.add_edge_c(0, 1, EColor::H);
    g.add_edge(1, 2);
    g.remove_vertex(2);
    assert_eq!(g.edges(), vec![(0, 1, 0)]);
    assert_eq!(g.edge_color(0), EColor::H);
    g.set_edge_color(0, EColor::NC);
    assert_eq!(g.edge_color(0), EColor::NC);
}

#[test]
fn info_reports_counts() {
    let g = Graph::from_edges(vec![(0, 1), (1, 2)]);
    assert_eq!(g.info(), "Graph with 3 vertices and 2 edges");
}

#[test]
fn remove_edge_drops_one_copy() {
    let mut g = Graph::from_edges(vec![(0, 1), (0, 1)]);
    g.remove_edge(1, 0);
    assert_eq!(g.edge_multiplicity(0, 1), 1);
    g.remove_edge(0, 2);
    assert_eq!(g.edge_count(), 1);
}
