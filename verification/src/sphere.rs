//! Spheres.

use vstd::prelude::*;
use crate::scalar::Scalar;
use crate::vector::Vec3;

verus! {

/// A sphere. Nothing is asked of the radius or of the colour channels.
#[derive(Debug, Clone, Copy)]
pub struct Sphere {
    pub center: Vec3,
    pub color: Vec3,
    pub radius: Scalar,
}

impl Sphere {
    /// The sphere with the given centre, colour and radius.
    pub fn new(center: Vec3, color: Vec3, radius: Scalar) -> (r: Sphere)
        ensures
            r.center == center,
            r.color == color,
            r.radius == radius,
    {
        Sphere { center, color, radius }
    }
}

} // verus!
