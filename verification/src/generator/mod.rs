//! Graph generators: deterministic named graphs and random graph models.

pub mod named;
pub mod small;
pub mod random;
pub mod zx;
