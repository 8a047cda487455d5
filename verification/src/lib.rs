//! Rank, discretize, pairwise-combine and finite-count operations over
//! n-dimensional dense grids, with tie-breaking methods and a sentinel
//! for values that take no part in ordering.

pub mod bucket;
pub mod elem;
pub mod finite;
pub mod grid;
pub mod pairwise;
pub mod rank;
pub mod ranking;
pub mod view;
