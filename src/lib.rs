//! Co-occurrence graphs over labelled records, ranked by eigenvector centrality.
//!
//! Records name a few participants each; every pair of distinct participants
//! that share a record gains one unit of weight. The weighted graph built from
//! those counts is ranked by power iteration.
use vstd::prelude::*;

pub mod label;
pub mod pairs;
pub mod graph;
pub mod centrality;
pub mod rank;
