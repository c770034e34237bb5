use vstd::prelude::*;

pub mod lang;
pub mod cost;
pub mod analysis;
pub mod egraph;
pub mod extract;
pub mod cse;
pub mod rewrite;
pub mod runner;
pub mod parse;

verus! {

} // verus!
