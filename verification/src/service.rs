//! The fixed bodies the serving layer answers health probes with.

use vstd::prelude::*;

verus! {

/// The body of a wake-up probe's answer.
pub fn wake_up() -> (r: &'static str)
    ensures
        r@ == "awake"@,
{
    "awake"
}

/// The body of the root endpoint's answer.
pub fn index() -> (r: &'static str)
    ensures
        r@ == "Hello, world!"@,
{
    "Hello, world!"
}

} // verus!
