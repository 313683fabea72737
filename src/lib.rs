//! An in-place comparison sort that places each pivot by a two-cursor convergence
//! scan and recurses on the ranges to either side of it, in ascending or
//! descending order, over any element type with a partial order.

pub mod laws;
pub mod order;
mod sort;

pub use sort::cursorsort;
