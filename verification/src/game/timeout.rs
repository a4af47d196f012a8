use vstd::prelude::*;

verus! {

/// How long to wait before something happens; `Forever` comes after any
/// number of milliseconds.
#[derive(PartialEq, Eq, Structural, PartialOrd, Ord, Debug, Clone, Copy)]
pub enum Timeout {
    Milliseconds(i64),
    Forever,
}

/// A timeout that has already expired.
pub fn immediately() -> (t: Timeout)
    ensures
        t == Timeout::Milliseconds(0),
{
    Timeout::Milliseconds(0)
}

} // verus!
