use cartographer::q_circuit::{QCircuit, QGate};
use rand::rngs::StdRng;
use rand::SeedableRng;

/// A circuit assembled from explicit layers.
fn circuit(n: usize, layers: Vec<Vec<QGate>>) -> QCircuit {
    let mut c = QCircuit::emtpy(n);
    for layer in layers {
        c.push_layer(layer);
    }
    c
}

#[test]
fn empty_circuit_is_header_only() {
    assert_eq!(
        QCircuit::emtpy(3).to_qasm2(),
        "OPENQASM 2.0;\ninclude \"qelib1.inc\";\nqreg q[3];\n"
    );
}

#[test]
fn exports_single_and_two_qubit_gates() {
    let c = circuit(
        2,
        vec![
            vec![QGate::H, QGate::T],
            vec![QGate::CNOT_C, QGate::CNOT_E],
            vec![QGate::SWAP_1, QGate::SWAP_2],
            vec![QGate::Z(5), QGate::X(6)],
        ],
    );
    let expected = String::new()
        + "OPENQASM 2.0;\n"
        + "include \"qelib1.inc\";\n"
        + "qreg q[2];\n"
        + "h q[0];\n"
        + "t q[1];\n"
        + "cx q[0], q[1];\n"
        + "swap q[0], q[1];\n"
        + "u1(5*pi/4) q[0];\n"
        + "rx(6*pi/4) q[1];\n";
    assert_eq!(c.to_qasm2(), expected);
}

#[test]
fn maps_spider_phases_to_named_gates() {
    let mut z_layers = vec![];
    let mut x_layers = vec![];
    for s in 0u8..8 {
        z_layers.push(vec![QGate::Z(s)]);
        x_layers.push(vec![QGate::X(s)]);
    }

    let zq = circuit(1, z_layers).to_qasm2();
    let body: Vec<&str> = zq.lines().skip(3).collect();
    assert_eq!(
        body,
        vec![
            "u1(0) q[0];",
            "t q[0];",
            "s q[0];",
            "u1(3*pi/4) q[0];",
            "z q[0];",
            "u1(5*pi/4) q[0];",
            "sdg q[0];",
            "tdg q[0];",
        ]
    );

    let xq = circuit(1, x_layers).to_qasm2();
    let body: Vec<&str> = xq.lines().skip(3).collect();
    assert_eq!(
        body,
        vec![
            "rx(0) q[0];",
            "rx(1*pi/4) q[0];",
            "rx(2*pi/4) q[0];",
            "rx(3*pi/4) q[0];",
            "x q[0];",
            "rx(5*pi/4) q[0];",
            "rx(6*pi/4) q[0];",
            "rx(7*pi/4) q[0];",
        ]
    );
}

#[test]
fn skips_boundary_and_identity_gates() {
    let c = circuit(
        2,
        vec![vec![QGate::Input, QGate::ID], vec![QGate::ID, QGate::Output]],
    );
    assert_eq!(
        c.to_qasm2(),
        "OPENQASM 2.0;\ninclude \"qelib1.inc\";\nqreg q[2];\n"
    );
}

#[test]
fn unpaired_two_qubit_markers_emit_nothing() {
    let c = circuit(2, vec![vec![QGate::CNOT_C, QGate::H]]);
    let qasm = c.to_qasm2();
    assert!(qasm.contains("h q[1];"));
    assert!(!qasm.contains("cx"));

    let c = circuit(2, vec![vec![QGate::SWAP_2, QGate::ID]]);
    assert!(!c.to_qasm2().contains("swap"));
}

#[test]
fn random_circuit_exports_header_and_lines() {
    let mut rng = StdRng::seed_from_u64(7);
    let c = QCircuit::rand_circuit(4, 8, &mut rng);
    let qasm = c.to_qasm2();
    assert!(qasm.starts_with("OPENQASM 2.0;\n"));
    assert!(qasm.contains("include \"qelib1.inc\";\n"));
    assert!(qasm.contains("qreg q[4];\n"));
    for line in qasm.lines().skip(3) {
        assert!(line.ends_with(';'), "unterminated line: {line}");
        assert!(!line.is_empty());
    }
}
