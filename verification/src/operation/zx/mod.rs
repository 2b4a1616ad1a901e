//! ZX-calculus rewrites: H-edge parity normalization, spider fusion, K3
//! edge removal and Hadamard-triangle reduction.

pub mod normalize_h_parity;
pub mod fuse;
pub mod k3_remove_edge;
pub mod k3_remove_edge_ha_2;
pub mod reduce_had_triangle;
