use vstd::prelude::*;

verus! {

/// The sum of two numbers.
pub fn adder(a: u64, b: u64) -> (r: u64)
    requires
        a + b <= u64::MAX,
    ensures
        r == a + b,
{
    a + b
}

} // verus!
