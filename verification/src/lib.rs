//! Cartographer: a small graph-theory library with exact treewidth solvers,
//! graph generators, a Graph3 text format and ZX-diagram rewrites.
//!
//! - [`graph`]: the colored multigraph with logical vertex deletion.
//! - [`algorithm`]: QuickBB branch-and-bound, Tamaki's PID-BT, min-fill and
//!   minor-min-width.
//! - [`generator`]: named and random graphs.
//! - [`io`]: the Graph3 format.
//! - [`operation`]: line graph and ZX-calculus rewrites.
//! - [`q_circuit`]: quantum circuits, their ZX graph and OpenQASM 2.0 export.

pub mod seqs;
pub mod text;
pub mod petgraph_ext;
pub mod bitset;
pub mod rng;
pub mod graph;
pub mod q_circuit;
pub mod io;
pub mod algorithm;
pub mod generator;
pub mod operation;

pub use graph::{EColor, Graph, VColor};
