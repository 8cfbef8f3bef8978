//! Triangles.

use vstd::prelude::*;
use crate::scalar::{Scalar, THREE};
use crate::vector::Vec3;

verus! {

/// A triangle with the centroid it is sorted by. The centroid is stored, not
/// derived: whoever moves a corner computes it anew.
#[derive(Debug, Clone, Copy)]
pub struct Triangle {
    pub corners: [Vec3; 3],
    pub color: Vec3,
    pub centroid: Vec3,
}

/// One component of a centroid: the sum of the corners divided by three.
pub open spec fn mean(a: Scalar, b: Scalar, c: Scalar) -> Scalar {
    a.spec_add(b).spec_add(c).spec_div(Scalar { bits: THREE })
}

impl Triangle {
    /// The centroid of a triangle with these corners: their mean, on each
    /// axis.
    pub open spec fn centroid_of(corners: [Vec3; 3]) -> Vec3 {
        Vec3(
            mean(corners[0].0, corners[1].0, corners[2].0),
            mean(corners[0].1, corners[1].1, corners[2].1),
            mean(corners[0].2, corners[1].2, corners[2].2),
        )
    }

    /// A black triangle with all corners, and the centroid, at the origin.
    pub fn new() -> (r: Triangle)
        ensures
            r.corners[0] == Vec3::zero(),
            r.corners[1] == Vec3::zero(),
            r.corners[2] == Vec3::zero(),
            r.color == Vec3::zero(),
            r.centroid == Vec3::zero(),
    {
        Triangle { corners: [Vec3::zero(); 3], color: Vec3::zero(), centroid: Vec3::zero() }
    }

    /// The triangle whose corners lie at the given offsets from a centre.
    /// Its centroid is the mean of its corners.
    pub fn build_from_center_and_offsets(center: Vec3, offsets: [Vec3; 3], color: Vec3) -> (r:
        Triangle)
        ensures
            r.corners[0] == center.spec_add(offsets[0]),
            r.corners[1] == center.spec_add(offsets[1]),
            r.corners[2] == center.spec_add(offsets[2]),
            r.color == color,
            r.centroid == Triangle::centroid_of(r.corners),
    {
        let c0 = center.add(offsets[0]);
        let c1 = center.add(offsets[1]);
        let c2 = center.add(offsets[2]);
        Triangle::build_from_corners([c0, c1, c2], color)
    }

    /// The triangle with the given corners and the centroid that belongs
    /// to them.
    pub fn build_from_corners(corners: [Vec3; 3], color: Vec3) -> (r: Triangle)
        ensures
            r.corners == corners,
            r.color == color,
            r.centroid == Triangle::centroid_of(corners),
    {
        let mut triangle = Triangle { corners, color, centroid: Vec3::zero() };
        triangle.make_centroid();
        triangle
    }

    /// Stores the centroid that belongs to the corners: their sum divided by
    /// three, on each axis.
    pub fn make_centroid(&mut self)
        ensures
            final(self).corners == old(self).corners,
            final(self).color == old(self).color,
            final(self).centroid == Triangle::centroid_of(old(self).corners),
    {
        let three = Scalar::from_bits(THREE);
        let a = self.corners[0];
        let b = self.corners[1];
        let c = self.corners[2];
        self.centroid = Vec3(
            a.0.add(b.0).add(c.0).div(three),
            a.1.add(b.1).add(c.1).div(three),
            a.2.add(b.2).add(c.2).div(three),
        );
    }
}

} // verus!
