//! The light model, as far as it decides what a light reaches.
//!
//! A directional light is infinitely far from every point; a spherical light
//! is a point light at some distance. A surface point is lit by a light
//! unless the shadow ray from the point towards the light meets a surface
//! before it gets there.

use crate::intersector::{Hit, RayTest};
use crate::scalar::is_nan;
use crate::scalar::is_number;
use crate::sphere_node::SphereTest;
use vstd::prelude::*;

verus! {

/// The two kinds of light.
#[derive(Clone, Copy, PartialEq, Eq, Debug, Structural)]
pub enum Light {
    /// Parallel rays of constant intensity from a fixed direction.
    Directional,
    /// A point light whose intensity falls off with the square of the
    /// distance.
    Spherical,
}

/// How far a light is from a surface point.
#[derive(Clone, Copy, PartialEq, Eq, Debug, Structural)]
pub enum LightDistance {
    /// Farther than any distance: every surface on the way casts a shadow.
    Infinite,
    /// The order key of the distance between the point and the light.
    Finite(i64),
}

/// What the caller found out about one light for one surface point.
pub struct ShadowProbe {
    /// The order key of the distance between the point and the light's
    /// position. It counts for spherical lights only.
    pub separation: i64,
    /// For each node, what was measured of the shadow ray from the point
    /// towards the light against that node.
    pub tests: Vec<RayTest>,
}

impl Light {
    /// The distance of the light from a point that is `separation` away from
    /// the light's position.
    pub open spec fn reach(self, separation: i64) -> LightDistance {
        match self {
            Light::Directional => LightDistance::Infinite,
            Light::Spherical => LightDistance::Finite(separation),
        }
    }

    /// The separation counts and is not a number.
    pub open spec fn degenerate(self, separation: i64) -> bool {
        self is Spherical && !is_number(separation)
    }

    /// Whether the separation counts and is not a number.
    pub fn is_degenerate(&self, separation: i64) -> (r: bool)
        ensures
            r == self.degenerate(separation),
    {
        match self {
            Light::Directional => false,
            Light::Spherical => is_nan(separation),
        }
    }

    /// Whether a ray hits the light itself, given what was measured of the
    /// ray against the small sphere that stands for a spherical light. A
    /// directional light is nowhere and cannot be hit.
    pub fn intersect(&self, bulb: &SphereTest) -> (r: bool)
        ensures
            r == (self is Spherical && bulb.distance() is Some),
    {
        match self {
            Light::Directional => false,
            Light::Spherical => bulb.intersect().is_some(),
        }
    }

    /// The distance of the light from a point that is `separation` away from
    /// the light's position. A directional light has no position: its
    /// distance is infinite whatever the separation.
    pub fn distance(&self, separation: i64) -> (d: LightDistance)
        ensures
            d == self.reach(separation),
    {
        match self {
            Light::Directional => LightDistance::Infinite,
            Light::Spherical => LightDistance::Finite(separation),
        }
    }
}

/// A point is lit if its shadow ray meets nothing, or meets the closest
/// surface no sooner than the light.
pub open spec fn lit(shadow: Option<Hit>, distance: LightDistance) -> bool {
    match shadow {
        None => true,
        Some(hit) => match distance {
            LightDistance::Infinite => false,
            LightDistance::Finite(d) => hit.distance >= d,
        },
    }
}

/// Whether a point is lit, given the closest hit of its shadow ray and the
/// distance of the light.
pub fn in_light(shadow: Option<Hit>, distance: LightDistance) -> (r: bool)
    ensures
        r == lit(shadow, distance),
{
    match shadow {
        None => true,
        Some(hit) => match distance {
            LightDistance::Infinite => false,
            LightDistance::Finite(d) => hit.distance >= d,
        },
    }
}

} // verus!
