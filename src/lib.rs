//! Taproot output descriptors: the tree of script-path leaves, its text
//! form, the spend planner and the witness weight estimator.
use vstd::prelude::*;

pub mod cache;
pub mod descriptor;
pub mod error;
pub mod laws;
pub mod leaf;
pub mod parse;
pub mod plan;
pub mod policy;
pub mod spend;
pub mod tree;
pub mod weight;

verus! {

} // verus!
