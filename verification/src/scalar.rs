//! Scalars as order keys.
//!
//! The library never computes with the scalars of a scene (distances, dot
//! products, offsets); it only compares them. A scalar therefore reaches the
//! library as a signed key that orders as the scalars do: the key of a
//! non-negative double-precision number is its IEEE-754 bit pattern, and the
//! key of a negative number is the negated key of its magnitude. Both zeros
//! have key 0, and the keys beyond that of infinity belong to the values that
//! are not numbers.

use vstd::prelude::*;

verus! {

/// The key of positive infinity.
pub const INFINITY_KEY: i64 = 0x7FF0_0000_0000_0000;

/// The key of one part in a million, the least a ray must face a plane by.
pub const PLANE_EPSILON_KEY: i64 = 0x3EB0_C6F7_A0B5_ED8D;

/// The key of six, half the side of a plane's square patch.
pub const PLANE_HALF_EXTENT_KEY: i64 = 0x4018_0000_0000_0000;

/// The key stands for a number, finite or infinite.
pub open spec fn is_number(key: i64) -> bool {
    -INFINITY_KEY <= key <= INFINITY_KEY
}

/// Whether the key stands for a value that is not a number.
pub fn is_nan(key: i64) -> (r: bool)
    ensures
        r == !is_number(key),
{
    key > INFINITY_KEY || key < -INFINITY_KEY
}

} // verus!
