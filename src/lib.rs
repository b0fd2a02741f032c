//! Adaptive refinement of the double-pendulum phase space: sample cells are integrated
//! until their second arm flips over, and regions whose neighbouring cells disagree
//! are split into smaller cells.
use vstd::prelude::*;

pub mod cell;
pub mod family;
pub mod rolling;

verus! {

} // verus!
