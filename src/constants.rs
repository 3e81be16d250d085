use vstd::prelude::*;

verus! {

/// Address at which the first cell of a program is placed.
pub const PROGRAM_START: u64 = 1000;

} // verus!
