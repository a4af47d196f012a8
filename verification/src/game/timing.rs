use vstd::prelude::*;

verus! {

/// Milliseconds between the reveal of one letter of a guess and the next.
pub const MILLIS_PER_LETTER: i64 = 250;

} // verus!
