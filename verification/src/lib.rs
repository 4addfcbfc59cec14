use vstd::prelude::*;

pub mod builder;
pub mod bus;
pub mod create;
pub mod debug;
pub mod eval;
pub mod graph;
pub mod interner;
pub mod ir;
pub mod link;
pub mod mutation;
pub mod owner_id;
pub mod passes;
pub mod registry;
pub mod quad_eval;
pub mod quad_felt;
pub mod span;
pub mod utils;
pub mod value;
pub mod views;

verus! {

} // verus!
