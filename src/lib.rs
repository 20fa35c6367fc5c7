//! An undirected similarity graph over health and lifestyle records, with
//! the similarity rule that decides its edges and the analyses run on it.
use vstd::prelude::*;

pub mod analysis;
pub mod construct;
pub mod cohort;
pub mod graph;
pub mod similarity;

verus! {

} // verus!
