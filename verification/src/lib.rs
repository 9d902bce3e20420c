//! Proxima — a vector database / approximate-nearest-neighbor search engine.
//!
//! - [`vector`]: the [`Vector`] type.
//! - [`metric`]: the metrics ([`L2`], [`Cosine`]) and the integer order key of
//!   a floating-point distance.
//! - [`neighbor`]: exact k-nearest selection over scored candidates, batch or
//!   streaming ([`NearestBuffer`]).
//! - [`brute_force`]: [`BruteForceIndex`], the exact (flat) kNN index.
//! - [`nsw`]: [`NswIndex`], the single-layer navigable small-world graph.
//! - [`graph`]: the k-NN edge set and its connected components.
//! - [`controls`]: the interactive visualizer's input handling.
use vstd::prelude::*;

pub mod brute_force;
pub mod controls;
pub mod graph;
pub mod metric;
pub mod neighbor;
pub mod nsw;
pub mod vector;

pub use brute_force::BruteForceIndex;
pub use metric::{distance_bits, distance_key, Cosine, L2};
pub use neighbor::{nearest_k, NearestBuffer, Neighbor};
pub use nsw::NswIndex;
pub use vector::Vector;

verus! {

} // verus!
