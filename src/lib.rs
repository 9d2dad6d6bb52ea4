use vstd::prelude::*;

pub mod pool;
pub mod queue;
pub mod run;
pub mod traversal;
pub mod walker;

verus! {

} // verus!
