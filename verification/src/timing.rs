//! The decisions of timing code: how long to go on, and how to name the
//! unit of a time.
use vstd::prelude::*;

verus! {

/// Whether timing goes on: until at least 100 ms have passed and at least
/// three runs were made.
pub fn keep_timing(elapsed_ms: u128, runs: usize) -> (r: bool)
    ensures
        r == (elapsed_ms < 100 || runs < 3),
{
    elapsed_ms < 100 || runs < 3
}

/// The name of the unit of time of the given power of ten of seconds.
pub fn time_units(exp: i32) -> (r: &'static str)
    requires
        exp == 0 || exp == -3 || exp == -6 || exp == -9,
    ensures
        exp == 0 ==> r@ == "s"@,
        exp == -3 ==> r@ == "ms"@,
        exp == -6 ==> r@ == "µs"@,
        exp == -9 ==> r@ == "ns"@,
{
    if exp == 0 {
        "s"
    } else if exp == -3 {
        "ms"
    } else if exp == -6 {
        "µs"
    } else {
        "ns"
    }
}

} // verus!
