use cartographer::graph::VColor;
use cartographer::q_circuit::{QCircuit, QGate};

fn circuit(n: usize, layers: Vec<Vec<QGate>>) -> QCircuit {
    let mut c = QCircuit::emtpy(n);
    for layer in layers {
        c.push_layer(layer);
    }
    c
}

#[test]
fn to_graph_opens_and_closes_with_x_rows() {
    let g = circuit(1, vec![vec![QGate::H]]).to_graph();
    assert_eq!(g.node_count(), 3);
    assert_eq!(*g.color(0), VColor::X(0));
    assert_eq!(*g.color(1), VColor::H);
    assert_eq!(*g.color(2), VColor::X(0));
    assert_eq!(g.edge_count(), 2);
    assert!(g.has_edge(0, 1));
    assert!(g.has_edge(1, 2));
    assert!(!g.has_edge(0, 2));
}

#[test]
fn to_graph_wires_cnot_and_swap_between_boundary_rows() {
    let g = circuit(
        2,
        vec![vec![QGate::CNOT_C, QGate::CNOT_E], vec![QGate::SWAP_1, QGate::SWAP_2]],
    )
    .to_graph();
    // rows: 0,1 open; 2,3 CNOT layer; 4,5 SWAP layer; 6,7 close
    assert_eq!(g.node_count(), 8);
    assert_eq!(*g.color(2), VColor::Z(0));
    assert_eq!(*g.color(3), VColor::X(0));
    assert_eq!(*g.color(6), VColor::X(0));
    assert_eq!(*g.color(7), VColor::X(0));
    assert!(g.has_edge(2, 3));
    assert!(g.has_edge(0, 2));
    assert!(g.has_edge(1, 3));
    // the swap crosses the wires
    assert!(g.has_edge(2, 5));
    assert!(g.has_edge(3, 4));
    assert!(g.has_edge(5, 6));
    assert!(g.has_edge(4, 7));
    assert_eq!(g.edge_count(), 1 + 2 + 2 + 2);
}

#[test]
fn to_graph_with_no_layers_joins_the_rows() {
    let g = circuit(2, vec![]).to_graph();
    assert_eq!(g.node_count(), 4);
    assert!(g.has_edge(0, 2));
    assert!(g.has_edge(1, 3));
    assert_eq!(g.edge_count(), 2);
}
