//! Bit counts and the bit distance of two codes.

use vstd::prelude::*;

verus! {

/// The number of one bits in `x`.
pub open spec fn popcount(x: u32) -> nat
    decreases x,
{
    if x == 0 {
        0
    } else {
        (x % 2) as nat + popcount(x / 2)
    }
}

/// The number of bit positions at which `a` and `b` differ.
pub open spec fn distance(a: u32, b: u32) -> nat {
    popcount(a ^ b)
}

/// `u32::count_ones` of the standard library, which returns the number of
/// ones in the binary representation of its argument. Verus is told, without
/// proof, that this number is `popcount` of the argument.
pub assume_specification[ u32::count_ones ](x: u32) -> (ones: u32)
    ensures
        ones == popcount(x),
;

/// The bit distance of two codes.
pub fn bit_distance(a: u32, b: u32) -> (d: u32)
    ensures
        d == distance(a, b),
{
    let bit_diff: u32 = a ^ b;
    bit_diff.count_ones()
}

} // verus!
