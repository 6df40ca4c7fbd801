//! The front end of a small compiler: it scans an arithmetic line of one-digit
//! numbers joined by `+` and `-`, checks its shape, and emits the assembly
//! instructions that leave its value in the accumulator.
use vstd::prelude::*;

pub mod token;
pub mod driver;

verus! {

} // verus!
