//! A similarity-search index: a vantage-point tree over borrowed objects and
//! a metric, built once and then searched for the objects within a radius of
//! a target.
//!
//! - `utils` selects an order statistic in place: `partition`, `quick_select`.
//! - `vptree` builds the tree (`build`) and searches it (`search`).
//! - `metric` holds the distance functions, `circle` the entries of a tree.
//! - `order`, `perm`, `shape` and `query` hold what the contracts speak of:
//!   ranks under an order, rearranged sequences, the shape of a tree, and what
//!   a search reports.
//!
//! Distances are integers. The tree is laid out in one sequence of entries:
//! the first entry of a range is its vantage point, the members near to it
//! follow, the members far from it come last, and each of the two parts is
//! laid out in the same way.

pub mod circle;
pub mod metric;
pub mod order;
pub mod perm;
pub mod query;
pub mod shape;
pub mod utils;
pub mod vptree;
