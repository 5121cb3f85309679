//! Where a ray meets a plane.
//!
//! A plane is a finite square patch around its origin. The caller measures
//! how far the ray faces the plane (the dot product of the plane's normal
//! and the ray's direction), the distance along the ray to the plane, and
//! the offset of the meeting point from the plane's origin along the two
//! axes that lie in the plane. What follows from them is decided here.

use crate::scalar::is_nan;
use crate::scalar::is_number;
use crate::scalar::{PLANE_EPSILON_KEY, PLANE_HALF_EXTENT_KEY};
use vstd::prelude::*;

verus! {

/// A ray measured against a plane, each scalar by its order key.
#[derive(Clone, Copy, PartialEq, Eq, Debug, Structural)]
pub struct PlaneTest {
    /// The dot product of the plane's normal and the ray's direction.
    pub facing: i64,
    /// The distance along the ray at which its line meets the plane.
    pub distance: i64,
    /// The offset of the meeting point from the plane's origin along the
    /// first axis in the plane.
    pub across: i64,
    /// The offset along the second axis in the plane.
    pub along: i64,
}

impl PlaneTest {
    /// The ray runs towards the plane's face: it is neither parallel to the
    /// plane nor coming from behind.
    pub open spec fn faces(self) -> bool {
        self.facing > PLANE_EPSILON_KEY
    }

    /// The offset lies on the patch along one axis.
    pub open spec fn on_patch(offset: i64) -> bool {
        -PLANE_HALF_EXTENT_KEY <= offset <= PLANE_HALF_EXTENT_KEY
    }

    /// The distance at which the ray meets the patch: that of the meeting
    /// point, if the ray faces the plane, the point does not lie behind the
    /// ray's origin, and it lies on the patch along both axes.
    pub open spec fn meeting(self) -> Option<i64> {
        if self.faces() && self.distance >= 0 && Self::on_patch(self.across) && Self::on_patch(
            self.along,
        ) {
            Some(self.distance)
        } else {
            None
        }
    }

    /// One of the values that the decision rests on is not a number. The
    /// distance counts only where the ray faces the plane, the offsets only
    /// where the meeting point lies ahead.
    pub open spec fn degenerate(self) -> bool {
        ||| !is_number(self.facing)
        ||| self.faces() && !is_number(self.distance)
        ||| self.faces() && self.distance >= 0 && (!is_number(self.across) || !is_number(
            self.along,
        ))
    }

    /// The distance at which the ray meets the patch, if it does.
    pub fn intersect(&self) -> (r: Option<i64>)
        ensures
            r == self.meeting(),
            r matches Some(d) ==> d >= 0 && d == self.distance,
    {
        if self.facing > PLANE_EPSILON_KEY && self.distance >= 0 && -PLANE_HALF_EXTENT_KEY
            <= self.across && self.across <= PLANE_HALF_EXTENT_KEY && -PLANE_HALF_EXTENT_KEY
            <= self.along && self.along <= PLANE_HALF_EXTENT_KEY {
            Some(self.distance)
        } else {
            None
        }
    }

    /// Whether one of the values that the decision rests on is not a number.
    pub fn is_degenerate(&self) -> (r: bool)
        ensures
            r == self.degenerate(),
    {
        if is_nan(self.facing) {
            return true;
        }
        if self.facing <= PLANE_EPSILON_KEY {
            return false;
        }
        if is_nan(self.distance) {
            return true;
        }
        if self.distance < 0 {
            return false;
        }
        is_nan(self.across) || is_nan(self.along)
    }
}

} // verus!
