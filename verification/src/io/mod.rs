//! Text formats: the Graph3 multigraph format.

pub mod scan;
pub mod graph3;
pub mod round_trip;
pub mod render_fixpoint;
