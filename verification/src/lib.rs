pub mod color;
pub mod image;
pub mod otsu;
pub mod pipeline;

use vstd::prelude::*;

verus! {

/// Absolute difference of two unsigned values.
pub fn diff(a: u128, b: u128) -> (r: u128)
    ensures
        r == if a >= b { a - b } else { b - a },
{
    if a > b {
        a - b
    } else {
        b - a
    }
}

} // verus!
