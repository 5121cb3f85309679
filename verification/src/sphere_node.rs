//! Where a ray meets a sphere.
//!
//! With `L` the vector from the ray's origin to the sphere's centre, `tca`
//! its length along the ray and `thc` half the length of the chord that the
//! ray cuts, the caller measures the squared closest approach `L.L - tca^2`,
//! the squared radius and the two roots `tca - thc` and `tca + thc`. What
//! follows from them is decided here.

use crate::scalar::is_nan;
use crate::scalar::is_number;
use vstd::prelude::*;

verus! {

/// A ray measured against a sphere, each scalar by its order key.
#[derive(Clone, Copy, PartialEq, Eq, Debug, Structural)]
pub struct SphereTest {
    /// The square of the least distance between the ray's line and the
    /// centre.
    pub approach_sq: i64,
    /// The square of the radius.
    pub radius_sq: i64,
    /// The distance along the ray at which its line enters the sphere.
    pub near: i64,
    /// The distance along the ray at which its line leaves the sphere.
    pub far: i64,
}

impl SphereTest {
    /// The ray passes the sphere by.
    pub open spec fn misses(self) -> bool {
        self.approach_sq > self.radius_sq
    }

    /// The distance at which the ray meets the sphere: nothing if it passes
    /// by or if the sphere lies behind it, else the smaller of the roots
    /// that are not negative.
    pub open spec fn distance(self) -> Option<i64> {
        if self.misses() {
            None
        } else if self.near >= 0 && self.far >= 0 {
            if self.near <= self.far {
                Some(self.near)
            } else {
                Some(self.far)
            }
        } else if self.near >= 0 {
            Some(self.near)
        } else if self.far >= 0 {
            Some(self.far)
        } else {
            None
        }
    }

    /// One of the values that the decision rests on is not a number. The
    /// roots count only where the ray does not pass by.
    pub open spec fn degenerate(self) -> bool {
        ||| !is_number(self.approach_sq)
        ||| !is_number(self.radius_sq)
        ||| !self.misses() && (!is_number(self.near) || !is_number(self.far))
    }

    /// The distance at which the ray meets the sphere, if it does. A ray
    /// that passes by meets nothing; a ray that starts outside and runs
    /// towards the sphere meets it where it enters; a ray that starts inside
    /// meets it where it leaves; a ray that runs away from the sphere meets
    /// nothing.
    pub fn intersect(&self) -> (r: Option<i64>)
        ensures
            r == self.distance(),
            self.misses() ==> r is None,
            !self.misses() && 0 <= self.near <= self.far ==> r == Some(self.near),
            !self.misses() && self.near < 0 <= self.far ==> r == Some(self.far),
            !self.misses() && self.near < 0 && self.far < 0 ==> r is None,
            r matches Some(d) ==> d >= 0 && (d == self.near || d == self.far),
    {
        if self.approach_sq > self.radius_sq {
            return None;
        }
        if self.near < 0 && self.far < 0 {
            return None;
        }
        if self.near < 0 {
            Some(self.far)
        } else if self.far < 0 || self.near <= self.far {
            Some(self.near)
        } else {
            Some(self.far)
        }
    }

    /// Whether one of the values that the decision rests on is not a number.
    pub fn is_degenerate(&self) -> (r: bool)
        ensures
            r == self.degenerate(),
    {
        if is_nan(self.approach_sq) || is_nan(self.radius_sq) {
            return true;
        }
        if self.approach_sq > self.radius_sq {
            return false;
        }
        is_nan(self.near) || is_nan(self.far)
    }
}

} // verus!
