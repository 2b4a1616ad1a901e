//! Quantum circuits: gate layers, their ZX-diagram graph, and OpenQASM 2.0
//! export.

pub mod def;
pub mod qasm;

pub use def::{QCircuit, QGate};
