//! A bounded one-dimensional k-means solver for sorted integer samples.
//!
//! Given a sorted sequence of `i32` samples and a cluster count, the solver
//! returns one representative value (centroid) per cluster, computed by a
//! threshold-scan k-means iteration whose running sums are kept in an `i64`
//! accumulator.  The mathematical model of the iteration lives in [`model`],
//! the executable solver in [`solver`], and the proved properties of the
//! algorithm in [`laws`].

pub mod laws;
pub mod model;
pub mod solver;

pub use solver::kmeans;
pub use solver::KmeansError;
