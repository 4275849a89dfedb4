//! Distances as the library sees them: the bit pattern of an IEEE 754 double,
//! ordered as the standard total order on doubles orders them.

use vstd::prelude::*;

verus! {

/// The distance between two feature vectors that a classification goes by.
#[derive(Debug, Clone, Copy, PartialEq, Eq)]
pub enum AlgoType {
    /// The root of the sum of the squared differences.
    Euclidean,
    /// The sum of the absolute differences.
    Manhattan,
}

/// The integer by which a distance, given as the bit pattern of a double, is
/// ordered. Patterns with the sign bit clear keep their value; patterns with
/// the sign bit set are mirrored below zero. The resulting order runs from
/// negative NaN over the negative numbers, the two zeros and the positive
/// numbers up to positive NaN.
pub open spec fn order_key(bits: u64) -> int {
    if bits < 0x8000_0000_0000_0000 {
        bits as int
    } else {
        0x7fff_ffff_ffff_ffff - bits
    }
}

/// Whether the distance `a` comes strictly before the distance `b`.
pub fn nearer(a: u64, b: u64) -> (r: bool)
    ensures
        r == (order_key(a) < order_key(b)),
{
    let high: u64 = 0x8000_0000_0000_0000;
    if a < high {
        b < high && a < b
    } else {
        b < high || b < a
    }
}

} // verus!
