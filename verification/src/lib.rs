//! Graph construction from exact neighbours, and the routing of centroid
//! assignment, with their contracts proved.
//!
//! [`exact_knn`] computes the exact nearest neighbours of every vector of a
//! partition from the scores of a matrix kernel, and [`exact_build`] makes a
//! layered proximity graph of them. [`assignment`] decides how vectors find their
//! partition, and [`simple_index`] trains the approximate index over centroids
//! where that is the way. [`tensor`] and [`finite`] work on arrays of vectors.
pub mod array;
pub mod arrival;
pub mod assignment;
pub mod by_vectors;
pub mod distance;
pub mod element;
pub mod error;
pub mod exact_build;
pub mod exact_knn;
pub mod finite;
pub mod graph;
pub mod heap;
pub mod invariants;
pub mod knn;
pub mod lanes;
pub mod merged;
pub mod offer_order;
pub mod order;
mod parallel;
pub mod scan;
pub mod simple_index;
pub mod single;
pub mod tensor;
pub mod text;
pub mod top_k;
