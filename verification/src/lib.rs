use vstd::prelude::*;

pub mod commands;
pub mod drives;
pub mod laws;
pub mod order;
pub mod text;
pub mod scan;
pub mod tree;

verus! {
} // verus!
