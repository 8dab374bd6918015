//! Computational kernel for etymological and historical-linguistic analysis.
//!
//! The crate measures phonetic similarity between transcriptions, aligns them
//! to expose sound correspondences, assembles pairwise similarities into a
//! sparse matrix and a weighted graph, and derives structural summaries:
//! connected components (cognate sets), communities, centrality ranks and
//! threshold clusterings.
//!
//! All similarity values are exact: a similarity or a distance is a [`types::Ratio`]
//! of two integers, and edge weights are fixed-point integers in units of
//! one millionth (`1_000_000` stands for a similarity of one).

pub mod types;

pub mod phonetic;

pub mod sparse;

pub mod graph;

pub mod cluster;
