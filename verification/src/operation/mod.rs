//! Graph rewrites: the line graph, spider unfusing and the ZX-calculus
//! rules for graph-like diagrams.

pub mod utils;
pub mod zx;
pub mod unfuse;
pub mod line_graph;
