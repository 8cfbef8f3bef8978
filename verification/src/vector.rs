//! Vectors of two and three binary32 components.

use vstd::prelude::*;
use crate::scalar::{Scalar, ONE};

verus! {

/// Three components: x, y and z.
#[derive(Debug, Clone, Copy)]
pub struct Vec3(pub Scalar, pub Scalar, pub Scalar);

impl Vec3 {
    /// The component on an axis: 0 is x, 1 is y, any other is z.
    pub open spec fn spec_axis(self, axis: usize) -> Scalar {
        if axis == 0 {
            self.0
        } else if axis == 1 {
            self.1
        } else {
            self.2
        }
    }

    /// The vector whose components are all positive zero.
    pub open spec fn spec_zero() -> Vec3 {
        Vec3(Scalar { bits: 0 }, Scalar { bits: 0 }, Scalar { bits: 0 })
    }

    /// The sum, component by component.
    pub open spec fn spec_add(self, other: Vec3) -> Vec3 {
        Vec3(self.0.spec_add(other.0), self.1.spec_add(other.1), self.2.spec_add(other.2))
    }

    /// The difference, component by component.
    pub open spec fn spec_sub(self, other: Vec3) -> Vec3 {
        Vec3(self.0.spec_sub(other.0), self.1.spec_sub(other.1), self.2.spec_sub(other.2))
    }

    /// Each component plus the scalar.
    pub open spec fn spec_add_scalar(self, scalar: Scalar) -> Vec3 {
        Vec3(self.0.spec_add(scalar), self.1.spec_add(scalar), self.2.spec_add(scalar))
    }

    /// Each component less the scalar.
    pub open spec fn spec_sub_scalar(self, scalar: Scalar) -> Vec3 {
        Vec3(self.0.spec_sub(scalar), self.1.spec_sub(scalar), self.2.spec_sub(scalar))
    }

    /// Each component divided by the scalar.
    pub open spec fn spec_div(self, scalar: Scalar) -> Vec3 {
        Vec3(self.0.spec_div(scalar), self.1.spec_div(scalar), self.2.spec_div(scalar))
    }

    /// Each component times the scalar.
    pub open spec fn spec_mul(self, scalar: Scalar) -> Vec3 {
        Vec3(self.0.spec_mul(scalar), self.1.spec_mul(scalar), self.2.spec_mul(scalar))
    }

    /// The sum of the products of the components, added up from the left.
    pub open spec fn spec_dot(self, other: Vec3) -> Scalar {
        self.0.spec_mul(other.0).spec_add(self.1.spec_mul(other.1)).spec_add(
            self.2.spec_mul(other.2),
        )
    }

    /// The cross product.
    pub open spec fn spec_cross(self, other: Vec3) -> Vec3 {
        Vec3(
            self.1.spec_mul(other.2).spec_sub(self.2.spec_mul(other.1)),
            self.2.spec_mul(other.0).spec_sub(self.0.spec_mul(other.2)),
            self.0.spec_mul(other.1).spec_sub(self.1.spec_mul(other.0)),
        )
    }

    /// The length: the square root of the dot product with itself.
    pub open spec fn spec_magnitude(self) -> Scalar {
        self.spec_dot(self).spec_sqrt()
    }

    /// The vector scaled to length one: multiplied by one over its length.
    /// A vector whose length is not above zero is left as it is.
    pub open spec fn spec_normalize(self) -> Vec3 {
        if self.spec_magnitude().spec_gt(Scalar { bits: 0 }) {
            self.spec_mul((Scalar { bits: ONE }).spec_div(self.spec_magnitude()))
        } else {
            self
        }
    }

    /// The vector whose components are all positive zero.
    #[verifier::when_used_as_spec(spec_zero)]
    pub fn zero() -> (r: Vec3)
        ensures
            r == Vec3::spec_zero(),
    {
        Vec3(Scalar::zero(), Scalar::zero(), Scalar::zero())
    }

    /// The component on an axis: 0 is x, 1 is y, any other is z.
    #[verifier::when_used_as_spec(spec_axis)]
    pub fn axis(self, axis: usize) -> (r: Scalar)
        ensures
            r == self.spec_axis(axis),
    {
        if axis == 0 {
            self.0
        } else if axis == 1 {
            self.1
        } else {
            self.2
        }
    }

    /// Adds two vectors, component by component.
    #[verifier::when_used_as_spec(spec_add)]
    pub fn add(self, other: Vec3) -> (r: Vec3)
        ensures
            r == self.spec_add(other),
    {
        Vec3(self.0.add(other.0), self.1.add(other.1), self.2.add(other.2))
    }

    /// Subtracts `other`, component by component.
    #[verifier::when_used_as_spec(spec_sub)]
    pub fn sub(self, other: Vec3) -> (r: Vec3)
        ensures
            r == self.spec_sub(other),
    {
        Vec3(self.0.sub(other.0), self.1.sub(other.1), self.2.sub(other.2))
    }

    /// Adds a scalar to each component.
    #[verifier::when_used_as_spec(spec_add_scalar)]
    pub fn add_scalar(self, scalar: Scalar) -> (r: Vec3)
        ensures
            r == self.spec_add_scalar(scalar),
    {
        Vec3(self.0.add(scalar), self.1.add(scalar), self.2.add(scalar))
    }

    /// Subtracts a scalar from each component.
    #[verifier::when_used_as_spec(spec_sub_scalar)]
    pub fn sub_scalar(self, scalar: Scalar) -> (r: Vec3)
        ensures
            r == self.spec_sub_scalar(scalar),
    {
        Vec3(self.0.sub(scalar), self.1.sub(scalar), self.2.sub(scalar))
    }

    /// Divides each component by a scalar.
    #[verifier::when_used_as_spec(spec_div)]
    pub fn div(self, scalar: Scalar) -> (r: Vec3)
        ensures
            r == self.spec_div(scalar),
    {
        Vec3(self.0.div(scalar), self.1.div(scalar), self.2.div(scalar))
    }

    /// Multiplies each component by a scalar.
    #[verifier::when_used_as_spec(spec_mul)]
    pub fn mul(self, scalar: Scalar) -> (r: Vec3)
        ensures
            r == self.spec_mul(scalar),
    {
        Vec3(self.0.mul(scalar), self.1.mul(scalar), self.2.mul(scalar))
    }

    /// The dot product.
    #[verifier::when_used_as_spec(spec_dot)]
    pub fn dot(self, other: Vec3) -> (r: Scalar)
        ensures
            r == self.spec_dot(other),
    {
        self.0.mul(other.0).add(self.1.mul(other.1)).add(self.2.mul(other.2))
    }

    /// The cross product.
    #[verifier::when_used_as_spec(spec_cross)]
    pub fn cross(self, other: Vec3) -> (r: Vec3)
        ensures
            r == self.spec_cross(other),
    {
        Vec3(
            self.1.mul(other.2).sub(self.2.mul(other.1)),
            self.2.mul(other.0).sub(self.0.mul(other.2)),
            self.0.mul(other.1).sub(self.1.mul(other.0)),
        )
    }

    /// The length of the vector.
    #[verifier::when_used_as_spec(spec_magnitude)]
    pub fn magnitude(self) -> (r: Scalar)
        ensures
            r == self.spec_magnitude(),
    {
        self.dot(self).sqrt()
    }

    /// The vector scaled to length one. A vector of length zero is given
    /// back as it is.
    #[verifier::when_used_as_spec(spec_normalize)]
    pub fn normalize(self) -> (r: Vec3)
        ensures
            r == self.spec_normalize(),
    {
        let mag = self.magnitude();
        if mag.gt(Scalar::zero()) {
            self.mul(Scalar::from_bits(ONE).div(mag))
        } else {
            self
        }
    }
}

/// Two components.
#[derive(Debug, Clone, Copy)]
pub struct Vec2(pub Scalar, pub Scalar);

impl Vec2 {
    /// The sum, component by component.
    pub open spec fn spec_add(self, other: Vec2) -> Vec2 {
        Vec2(self.0.spec_add(other.0), self.1.spec_add(other.1))
    }

    /// The difference, component by component.
    pub open spec fn spec_sub(self, other: Vec2) -> Vec2 {
        Vec2(self.0.spec_sub(other.0), self.1.spec_sub(other.1))
    }

    /// Each component plus the scalar.
    pub open spec fn spec_add_scalar(self, scalar: Scalar) -> Vec2 {
        Vec2(self.0.spec_add(scalar), self.1.spec_add(scalar))
    }

    /// Each component less the scalar.
    pub open spec fn spec_sub_scalar(self, scalar: Scalar) -> Vec2 {
        Vec2(self.0.spec_sub(scalar), self.1.spec_sub(scalar))
    }

    /// Each component divided by the scalar.
    pub open spec fn spec_div(self, scalar: Scalar) -> Vec2 {
        Vec2(self.0.spec_div(scalar), self.1.spec_div(scalar))
    }

    /// Each component times the scalar.
    pub open spec fn spec_mul(self, scalar: Scalar) -> Vec2 {
        Vec2(self.0.spec_mul(scalar), self.1.spec_mul(scalar))
    }

    /// The sum of the products of the components, added up from the left.
    pub open spec fn spec_dot(self, other: Vec2) -> Scalar {
        self.0.spec_mul(other.0).spec_add(self.1.spec_mul(other.1))
    }

    /// The length: the square root of the dot product with itself.
    pub open spec fn spec_magnitude(self) -> Scalar {
        self.spec_dot(self).spec_sqrt()
    }

    /// The vector scaled to length one: multiplied by one over its length.
    /// A vector whose length is not above zero is left as it is.
    pub open spec fn spec_normalize(self) -> Vec2 {
        if self.spec_magnitude().spec_gt(Scalar { bits: 0 }) {
            self.spec_mul((Scalar { bits: ONE }).spec_div(self.spec_magnitude()))
        } else {
            self
        }
    }

    /// Adds two vectors, component by component.
    #[verifier::when_used_as_spec(spec_add)]
    pub fn add(self, other: Vec2) -> (r: Vec2)
        ensures
            r == self.spec_add(other),
    {
        Vec2(self.0.add(other.0), self.1.add(other.1))
    }

    /// Subtracts `other`, component by component.
    #[verifier::when_used_as_spec(spec_sub)]
    pub fn sub(self, other: Vec2) -> (r: Vec2)
        ensures
            r == self.spec_sub(other),
    {
        Vec2(self.0.sub(other.0), self.1.sub(other.1))
    }

    /// Adds a scalar to each component.
    #[verifier::when_used_as_spec(spec_add_scalar)]
    pub fn add_scalar(self, scalar: Scalar) -> (r: Vec2)
        ensures
            r == self.spec_add_scalar(scalar),
    {
        Vec2(self.0.add(scalar), self.1.add(scalar))
    }

    /// Subtracts a scalar from each component.
    #[verifier::when_used_as_spec(spec_sub_scalar)]
    pub fn sub_scalar(self, scalar: Scalar) -> (r: Vec2)
        ensures
            r == self.spec_sub_scalar(scalar),
    {
        Vec2(self.0.sub(scalar), self.1.sub(scalar))
    }

    /// Divides each component by a scalar.
    #[verifier::when_used_as_spec(spec_div)]
    pub fn div(self, scalar: Scalar) -> (r: Vec2)
        ensures
            r == self.spec_div(scalar),
    {
        Vec2(self.0.div(scalar), self.1.div(scalar))
    }

    /// Multiplies each component by a scalar.
    #[verifier::when_used_as_spec(spec_mul)]
    pub fn mul(self, scalar: Scalar) -> (r: Vec2)
        ensures
            r == self.spec_mul(scalar),
    {
        Vec2(self.0.mul(scalar), self.1.mul(scalar))
    }

    /// The dot product.
    #[verifier::when_used_as_spec(spec_dot)]
    pub fn dot(self, other: Vec2) -> (r: Scalar)
        ensures
            r == self.spec_dot(other),
    {
        self.0.mul(other.0).add(self.1.mul(other.1))
    }

    /// The length of the vector.
    #[verifier::when_used_as_spec(spec_magnitude)]
    pub fn magnitude(self) -> (r: Scalar)
        ensures
            r == self.spec_magnitude(),
    {
        self.dot(self).sqrt()
    }

    /// The vector scaled to length one. A vector of length zero is given
    /// back as it is.
    #[verifier::when_used_as_spec(spec_normalize)]
    pub fn normalize(self) -> (r: Vec2)
        ensures
            r == self.spec_normalize(),
    {
        let mag = self.magnitude();
        if mag.gt(Scalar::zero()) {
            self.mul(Scalar::from_bits(ONE).div(mag))
        } else {
            self
        }
    }
}

// The operators `+`, `-`, `*` and `/` do what the methods of the same
// name do.
impl core::ops::Add for Vec3 {
    type Output = Vec3;

    fn add(self, other: Vec3) -> (r: Vec3) {
        self.add(other)
    }
}

impl vstd::std_specs::ops::AddSpecImpl for Vec3 {
    open spec fn obeys_add_spec() -> bool {
        true
    }

    open spec fn add_req(self, other: Vec3) -> bool {
        true
    }

    open spec fn add_spec(self, other: Vec3) -> Vec3 {
        self.spec_add(other)
    }
}

impl core::ops::Add<Scalar> for Vec3 {
    type Output = Vec3;

    fn add(self, scalar: Scalar) -> (r: Vec3) {
        self.add_scalar(scalar)
    }
}

impl vstd::std_specs::ops::AddSpecImpl<Scalar> for Vec3 {
    open spec fn obeys_add_spec() -> bool {
        true
    }

    open spec fn add_req(self, scalar: Scalar) -> bool {
        true
    }

    open spec fn add_spec(self, scalar: Scalar) -> Vec3 {
        self.spec_add_scalar(scalar)
    }
}

impl core::ops::Sub for Vec3 {
    type Output = Vec3;

    fn sub(self, other: Vec3) -> (r: Vec3) {
        self.sub(other)
    }
}

impl vstd::std_specs::ops::SubSpecImpl for Vec3 {
    open spec fn obeys_sub_spec() -> bool {
        true
    }

    open spec fn sub_req(self, other: Vec3) -> bool {
        true
    }

    open spec fn sub_spec(self, other: Vec3) -> Vec3 {
        self.spec_sub(other)
    }
}

impl core::ops::Sub<Scalar> for Vec3 {
    type Output = Vec3;

    fn sub(self, scalar: Scalar) -> (r: Vec3) {
        self.sub_scalar(scalar)
    }
}

impl vstd::std_specs::ops::SubSpecImpl<Scalar> for Vec3 {
    open spec fn obeys_sub_spec() -> bool {
        true
    }

    open spec fn sub_req(self, scalar: Scalar) -> bool {
        true
    }

    open spec fn sub_spec(self, scalar: Scalar) -> Vec3 {
        self.spec_sub_scalar(scalar)
    }
}

impl core::ops::Mul<Scalar> for Vec3 {
    type Output = Vec3;

    fn mul(self, scalar: Scalar) -> (r: Vec3) {
        self.mul(scalar)
    }
}

impl vstd::std_specs::ops::MulSpecImpl<Scalar> for Vec3 {
    open spec fn obeys_mul_spec() -> bool {
        true
    }

    open spec fn mul_req(self, scalar: Scalar) -> bool {
        true
    }

    open spec fn mul_spec(self, scalar: Scalar) -> Vec3 {
        self.spec_mul(scalar)
    }
}

impl core::ops::Div<Scalar> for Vec3 {
    type Output = Vec3;

    fn div(self, scalar: Scalar) -> (r: Vec3) {
        self.div(scalar)
    }
}

impl vstd::std_specs::ops::DivSpecImpl<Scalar> for Vec3 {
    open spec fn obeys_div_spec() -> bool {
        true
    }

    open spec fn div_req(self, scalar: Scalar) -> bool {
        true
    }

    open spec fn div_spec(self, scalar: Scalar) -> Vec3 {
        self.spec_div(scalar)
    }
}

impl core::ops::Add for Vec2 {
    type Output = Vec2;

    fn add(self, other: Vec2) -> (r: Vec2) {
        self.add(other)
    }
}

impl vstd::std_specs::ops::AddSpecImpl for Vec2 {
    open spec fn obeys_add_spec() -> bool {
        true
    }

    open spec fn add_req(self, other: Vec2) -> bool {
        true
    }

    open spec fn add_spec(self, other: Vec2) -> Vec2 {
        self.spec_add(other)
    }
}

impl core::ops::Add<Scalar> for Vec2 {
    type Output = Vec2;

    fn add(self, scalar: Scalar) -> (r: Vec2) {
        self.add_scalar(scalar)
    }
}

impl vstd::std_specs::ops::AddSpecImpl<Scalar> for Vec2 {
    open spec fn obeys_add_spec() -> bool {
        true
    }

    open spec fn add_req(self, scalar: Scalar) -> bool {
        true
    }

    open spec fn add_spec(self, scalar: Scalar) -> Vec2 {
        self.spec_add_scalar(scalar)
    }
}

impl core::ops::Sub for Vec2 {
    type Output = Vec2;

    fn sub(self, other: Vec2) -> (r: Vec2) {
        self.sub(other)
    }
}

impl vstd::std_specs::ops::SubSpecImpl for Vec2 {
    open spec fn obeys_sub_spec() -> bool {
        true
    }

    open spec fn sub_req(self, other: Vec2) -> bool {
        true
    }

    open spec fn sub_spec(self, other: Vec2) -> Vec2 {
        self.spec_sub(other)
    }
}

impl core::ops::Sub<Scalar> for Vec2 {
    type Output = Vec2;

    fn sub(self, scalar: Scalar) -> (r: Vec2) {
        self.sub_scalar(scalar)
    }
}

impl vstd::std_specs::ops::SubSpecImpl<Scalar> for Vec2 {
    open spec fn obeys_sub_spec() -> bool {
        true
    }

    open spec fn sub_req(self, scalar: Scalar) -> bool {
        true
    }

    open spec fn sub_spec(self, scalar: Scalar) -> Vec2 {
        self.spec_sub_scalar(scalar)
    }
}

impl core::ops::Mul<Scalar> for Vec2 {
    type Output = Vec2;

    fn mul(self, scalar: Scalar) -> (r: Vec2) {
        self.mul(scalar)
    }
}

impl vstd::std_specs::ops::MulSpecImpl<Scalar> for Vec2 {
    open spec fn obeys_mul_spec() -> bool {
        true
    }

    open spec fn mul_req(self, scalar: Scalar) -> bool {
        true
    }

    open spec fn mul_spec(self, scalar: Scalar) -> Vec2 {
        self.spec_mul(scalar)
    }
}

impl core::ops::Div<Scalar> for Vec2 {
    type Output = Vec2;

    fn div(self, scalar: Scalar) -> (r: Vec2) {
        self.div(scalar)
    }
}

impl vstd::std_specs::ops::DivSpecImpl<Scalar> for Vec2 {
    open spec fn obeys_div_spec() -> bool {
        true
    }

    open spec fn div_req(self, scalar: Scalar) -> bool {
        true
    }

    open spec fn div_spec(self, scalar: Scalar) -> Vec2 {
        self.spec_div(scalar)
    }
}

} // verus!
