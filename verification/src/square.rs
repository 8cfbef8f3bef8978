//! Flat rectangles made of two triangles.

use vstd::prelude::*;
use crate::scalar::{Scalar, TWO};
use crate::triangle::Triangle;
use crate::vector::Vec3;

verus! {

/// Width and height of a rectangle.
#[derive(Debug, Clone, Copy)]
pub struct Size {
    pub width: Scalar,
    pub height: Scalar,
}

/// A level rectangle about a centre, turned about the second axis, and the
/// two triangles it is drawn as.
#[derive(Debug, Clone)]
pub struct Square {
    pub center: Vec3,
    pub size: Size,
    pub color: Vec3,
    pub orientation: Scalar,
    pub triangles: Vec<Triangle>,
}

/// A corner at `(x, 0, z)` turned about the second axis by the angle with
/// the given sine and cosine, and moved to the centre.
pub open spec fn placed(x: Scalar, z: Scalar, sin: Scalar, cos: Scalar, center: Vec3) -> Vec3 {
    Vec3(
        x.spec_mul(cos).spec_sub(z.spec_mul(sin)),
        Scalar { bits: 0 },
        x.spec_mul(sin).spec_add(z.spec_mul(cos)),
    ).spec_add(center)
}

/// The four corners of a rectangle: far left, far right, near left, near
/// right, where far is up the third axis and right is up the first.
pub open spec fn corners_of(center: Vec3, size: Size, sin: Scalar, cos: Scalar) -> Seq<Vec3> {
    let half_width = size.width.spec_div(Scalar { bits: TWO });
    let half_height = size.height.spec_div(Scalar { bits: TWO });
    seq![
        placed(half_width.spec_neg(), half_height, sin, cos, center),
        placed(half_width, half_height, sin, cos, center),
        placed(half_width.spec_neg(), half_height.spec_neg(), sin, cos, center),
        placed(half_width, half_height.spec_neg(), sin, cos, center),
    ]
}

/// The triangle with these corners, this colour and the centroid that
/// belongs to the corners.
pub open spec fn triangle_of(a: Vec3, b: Vec3, c: Vec3, color: Vec3) -> Triangle {
    Triangle { corners: [a, b, c], color, centroid: Triangle::centroid_of([a, b, c]) }
}

/// The two triangles of a rectangle with the given corners: far left, near
/// left, far right; and near left, near right, far right.
pub open spec fn triangles_of(corners: Seq<Vec3>, color: Vec3) -> Seq<Triangle> {
    seq![
        triangle_of(corners[0], corners[2], corners[1], color),
        triangle_of(corners[2], corners[3], corners[1], color),
    ]
}

impl Square {
    /// A rectangle with its two triangles. `sin_cos` gives sine and cosine
    /// of the orientation, an angle in radians.
    pub fn new<F: Fn(Scalar) -> (Scalar, Scalar)>(
        center: Vec3,
        height: Scalar,
        width: Scalar,
        color: Vec3,
        orientation: Scalar,
        sin_cos: &F,
    ) -> (r: Square)
        requires
            call_requires(*sin_cos, (orientation,)),
        ensures
            r.center == center,
            r.size == (Size { width, height }),
            r.color == color,
            r.orientation == orientation,
            exists|sin: Scalar, cos: Scalar| #[trigger]
                call_ensures(*sin_cos, (orientation,), (sin, cos)) && r.triangles@
                    == triangles_of(corners_of(center, r.size, sin, cos), color),
    {
        let mut square = Square {
            center,
            size: Size { width, height },
            color,
            orientation,
            triangles: Vec::new(),
        };
        let (sin, cos) = sin_cos(orientation);
        square.calculate_triangles(sin, cos);
        square
    }

    /// Works out the corners and adds the two triangles.
    fn calculate_triangles(&mut self, sin: Scalar, cos: Scalar)
        ensures
            final(self).center == old(self).center,
            final(self).size == old(self).size,
            final(self).color == old(self).color,
            final(self).orientation == old(self).orientation,
            final(self).triangles@ == old(self).triangles@ + triangles_of(
                corners_of(old(self).center, old(self).size, sin, cos),
                old(self).color,
            ),
    {
        let two = Scalar::from_bits(TWO);
        let half_width = self.size.width.div(two);
        let half_height = self.size.height.div(two);
        let c0 = place(half_width.neg(), half_height, sin, cos, self.center);
        let c1 = place(half_width, half_height, sin, cos, self.center);
        let c2 = place(half_width.neg(), half_height.neg(), sin, cos, self.center);
        let c3 = place(half_width, half_height.neg(), sin, cos, self.center);
        let triangle1 = Triangle::build_from_corners([c0, c2, c1], self.color);
        let triangle2 = Triangle::build_from_corners([c2, c3, c1], self.color);
        self.triangles.push(triangle1);
        self.triangles.push(triangle2);
        proof {
            let corners = corners_of(old(self).center, old(self).size, sin, cos);
            assert(triangle1.corners =~= [corners[0], corners[2], corners[1]]);
            assert(triangle2.corners =~= [corners[2], corners[3], corners[1]]);
            assert(triangle1 == triangle_of(corners[0], corners[2], corners[1], self.color));
            assert(triangle2 == triangle_of(corners[2], corners[3], corners[1], self.color));
            assert(self.triangles@ =~= old(self).triangles@ + triangles_of(corners, self.color));
        }
    }
}

/// Turns a corner at `(x, 0, z)` about the second axis and moves it to the
/// centre.
fn place(x: Scalar, z: Scalar, sin: Scalar, cos: Scalar, center: Vec3) -> (r: Vec3)
    ensures
        r == placed(x, z, sin, cos, center),
{
    let rotated_x = x.mul(cos).sub(z.mul(sin));
    let rotated_z = x.mul(sin).add(z.mul(cos));
    Vec3(rotated_x, Scalar::zero(), rotated_z).add(center)
}

} // verus!
