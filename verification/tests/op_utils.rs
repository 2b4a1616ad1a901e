use cartographer::graph::{EColor, Graph};
use cartographer::operation::utils::{get_h_neighbour, get_normal_neighbour, h_connected, nc_connected};



/// 0 joined to 1 (NC), 2 (H), 3 (2x parallel H); NC self-loop at 0, H
/// self-loop at 2; 4 joined to 0 but logically deleted.
fn fixture() -> Graph {
    let mut g = Graph::with_capacity(5);
    for _ in 0..5 {
        g.add_vertex();
    }
    g.add_edge_c(0, 1, EColor::NC);
    g.add_edge_c(0, 2, EColor::H);
    g.add_edge_c(0, 3, EColor::H);
    g.add_edge_c(0, 3, EColor::H);
    g.add_edge_c(0, 0, EColor::NC);
    g.add_edge_c(2, 2, EColor::H);
    g.add_edge_c(0, 4, EColor::H);
    g.remove_vertex(4);
    g
}

#[test]
fn connected_helpers_respect_colour_and_liveness() {
    let g = fixture();
    assert!(nc_connected(&g, 0, 1));
    assert!(!h_connected(&g, 0, 1));
    assert!(h_connected(&g, 0, 2));
    assert!(!nc_connected(&g, 0, 2));
    // Parallel copies: presence, not multiplicity.
    assert!(h_connected(&g, 0, 3));
    // Self-loops count as a connection (colour included).
    assert!(nc_connected(&g, 0, 0));
    assert!(h_connected(&g, 2, 2));
    assert!(!h_connected(&g, 0, 0));
    // Dead endpoints see nothing.
    assert!(!h_connected(&g, 0, 4));
    assert!(!nc_connected(&g, 0, 4));
    // Disconnected pair.
    assert!(!nc_connected(&g, 1, 2));
    // Symmetric.
    assert!(h_connected(&g, 2, 0));
}

#[test]
fn neighbour_helpers_are_sorted_deduped_and_skip_loops() {
    let mut g = fixture();
    // More parallel NC copies and an H copy to 1, so 0 reaches 1 both ways.
    g.add_edge_c(0, 1, EColor::NC);
    g.add_edge_c(0, 1, EColor::H);

    assert_eq!(
        get_h_neighbour(&g, 0),
        vec![1, 2, 3]
    );
    assert_eq!(get_normal_neighbour(&g, 0), vec![1]);
    // Self-loops never appear; the H loop at 2 gives no H neighbour.
    assert_eq!(get_h_neighbour(&g, 2), vec![0]);
    // Dead vertex: no edges visible at all.
    assert_eq!(get_h_neighbour(&g, 4), Vec::new());
    assert_eq!(get_normal_neighbour(&g, 4), Vec::new());
}

