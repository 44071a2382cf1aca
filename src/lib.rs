pub mod approx;
pub mod divisibility;
pub mod fraction;
pub mod text;

pub use fraction::{gcd, Fraction, FractionError};

use vstd::prelude::*;

verus! {

/// The sum of two sizes.
pub fn add(left: usize, right: usize) -> (r: usize)
    requires
        left + right <= usize::MAX,
    ensures
        r == left + right,
{
    left + right
}

} // verus!
