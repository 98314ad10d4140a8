use vstd::prelude::*;

pub mod merge_find;
pub mod spanning;
pub mod queue;
pub mod world;
pub mod explore;
pub mod render;
pub mod robot;
pub mod forest;

verus! {

} // verus!
