//! A KD-tree spatial index over fixed-dimension integer points, answering
//! approximate nearest-neighbour queries under the cosine-similarity metric.
//!
//! The tree is built once, by recursive stable median splits that cycle the
//! coordinate axis with depth, and is never mutated afterwards.  A query
//! descends to the half-space containing the query point, then backtracks,
//! visiting the far branch of a node only when the coordinate gap at the
//! node's split axis exceeds the similarity of the best candidate so far.
//!
//! Coordinates are bounded integers, so every similarity comparison the
//! search makes is carried out exactly in 128-bit integer arithmetic; no
//! rounding can change an answer.

pub mod dbmodel;
pub mod gangdb;
pub mod laws;
pub mod sim;
pub mod sort;
