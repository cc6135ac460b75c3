//! A parallel build tool: rule files are read into a dependency graph,
//! ordered, and built with a bounded number of rules running at once.
use vstd::prelude::*;

pub mod graph;
pub mod parser;
pub mod writer;

verus! {

} // verus!
