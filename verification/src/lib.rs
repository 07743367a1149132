//! Local composition Hellinger distance, as an exact step function.
//!
//! Two environments, each a list of labelled neighbours ordered by distance
//! from an anchor, are swept by growing radius. The sweep yields the pieces
//! of the radius axis on which both compositions stay constant, with the two
//! histograms that hold on each piece. Everything here is integer arithmetic:
//! distances enter as `i64` ranks, of which only the order and the place of
//! zero are read.
use vstd::prelude::*;

pub mod batch;
pub mod catalog;
pub mod comparator;
pub mod error;
pub mod laws;
pub mod primitives;
pub mod range;
pub mod rearrangement;
pub mod sorting;
pub mod sweep;
pub mod tracker;
pub mod validity;
