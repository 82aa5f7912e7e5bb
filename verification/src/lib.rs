//! Folding of a single RNA-like strand around its largest loop, and the
//! building blocks of a Boolean network.
//!
//! A strand is an ordered sequence of segments, each either a lone base or a
//! run of bases already committed to a loop. The strand is split at its major
//! loop into two arms, and a recursive search looks for the segmentation of
//! the arms that minimises a simple free-energy score.

pub mod nucleotide;
pub mod segment;
pub mod structure;
pub mod energy;
mod parallel;
pub mod search;
pub mod minimize;
pub mod laws;
pub mod parser;
pub mod model;
