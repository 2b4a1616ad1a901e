//! Treewidth algorithms: Tamaki's PID-BT, QuickBB branch-and-bound, and the
//! min-fill and minor-min-width heuristics.

pub mod branchbound;
pub mod elimination;
pub mod minfill;
pub mod mmw;
pub mod pidd;

pub use branchbound::{bb, bb_tw, BbResult};
pub use minfill::min_fill;
pub use mmw::minor_min_width;
pub use pidd::pidd_tw;


