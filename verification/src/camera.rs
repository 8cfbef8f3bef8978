//! The camera: where it stands, which way it looks, and how keys move it.

use vstd::prelude::*;
use crate::scalar::{Scalar, ONE, SIGN};
use crate::vector::Vec3;

verus! {

/// Pattern of the greatest pitch, in degrees: eighty-nine.
pub const PITCH_LIMIT: u32 = 0x42B2_0000;

/// Pattern of the binary32 number nearest to pi over 180.
pub const RADIANS_PER_DEGREE: u32 = 0x3C8E_FA35;

/// Where the camera stands, the three directions that span its view, and
/// the two angles, in degrees, that the directions come from.
#[derive(Debug, Clone, Copy)]
pub struct Camera {
    pub position: Vec3,
    pub forwards: Vec3,
    pub right: Vec3,
    pub up: Vec3,
    pub yaw: Scalar,
    pub pitch: Scalar,
}

/// Sine and cosine of the two angles of a camera.
#[derive(Debug, Clone, Copy)]
pub struct Angles {
    pub sin_yaw: Scalar,
    pub cos_yaw: Scalar,
    pub sin_pitch: Scalar,
    pub cos_pitch: Scalar,
}

/// The three directions of a camera.
#[derive(Debug, Clone, Copy)]
pub struct Basis {
    pub forwards: Vec3,
    pub right: Vec3,
    pub up: Vec3,
}

/// The pitch kept within eighty-nine degrees either way. A NaN stays one.
pub open spec fn spec_clamp_pitch(pitch: Scalar) -> Scalar {
    if pitch.spec_gt(Scalar { bits: PITCH_LIMIT }) {
        Scalar { bits: PITCH_LIMIT }
    } else if pitch.spec_lt(Scalar { bits: (SIGN + PITCH_LIMIT) as u32 }) {
        Scalar { bits: (SIGN + PITCH_LIMIT) as u32 }
    } else {
        pitch
    }
}

/// The pitch is a number of at most eighty-nine degrees either way.
pub open spec fn within_limit(pitch: Scalar) -> bool {
    (Scalar { bits: (SIGN + PITCH_LIMIT) as u32 }).spec_le(pitch) && pitch.spec_le(
        Scalar { bits: PITCH_LIMIT },
    )
}

/// An angle in degrees as radians.
pub open spec fn spec_to_radians(degrees: Scalar) -> Scalar {
    degrees.spec_mul(Scalar { bits: RADIANS_PER_DEGREE })
}

/// The directions that belong to two angles, given their sines and
/// cosines: forwards points where the angles say; right is level, at a
/// right angle to forwards, made one long; up is at a right angle to both.
/// The world's up is the third axis.
pub open spec fn spec_basis(angles: Angles) -> Basis {
    let forwards = Vec3(
        angles.cos_yaw.spec_mul(angles.cos_pitch),
        angles.sin_yaw.spec_mul(angles.cos_pitch),
        angles.sin_pitch,
    );
    let back = Vec3(forwards.0.spec_neg(), forwards.1.spec_neg(), forwards.2.spec_neg());
    let world_up = Vec3(Scalar { bits: 0 }, Scalar { bits: 0 }, Scalar { bits: ONE });
    let right = world_up.spec_cross(back).spec_normalize();
    Basis { forwards, right, up: back.spec_cross(right) }
}

/// The sines and cosines of the angles zero and zero.
pub open spec fn level() -> Angles {
    Angles {
        sin_yaw: Scalar { bits: 0 },
        cos_yaw: Scalar { bits: ONE },
        sin_pitch: Scalar { bits: 0 },
        cos_pitch: Scalar { bits: ONE },
    }
}

/// `outcome` holds what the function `sin_cos` may give for the two angles,
/// taken in radians.
pub open spec fn angles_of<F: Fn(Scalar) -> (Scalar, Scalar)>(
    sin_cos: F,
    yaw: Scalar,
    pitch: Scalar,
    outcome: Angles,
) -> bool {
    &&& call_ensures(sin_cos, (spec_to_radians(yaw),), (outcome.sin_yaw, outcome.cos_yaw))
    &&& call_ensures(sin_cos, (spec_to_radians(pitch),), (outcome.sin_pitch, outcome.cos_pitch))
}

/// Keeps a pitch within eighty-nine degrees either way.
#[verifier::when_used_as_spec(spec_clamp_pitch)]
pub fn clamp_pitch(pitch: Scalar) -> (r: Scalar)
    ensures
        r == spec_clamp_pitch(pitch),
        !pitch.spec_is_nan() ==> within_limit(r),
{
    let limit = Scalar::from_bits(PITCH_LIMIT);
    if pitch.gt(limit) {
        limit
    } else if pitch.lt(limit.neg()) {
        limit.neg()
    } else {
        pitch
    }
}

/// Converts degrees to radians.
#[verifier::when_used_as_spec(spec_to_radians)]
pub fn to_radians(degrees: Scalar) -> (r: Scalar)
    ensures
        r == spec_to_radians(degrees),
{
    degrees.mul(Scalar::from_bits(RADIANS_PER_DEGREE))
}

/// The directions that belong to two angles, given their sines and cosines.
#[verifier::when_used_as_spec(spec_basis)]
pub fn basis(angles: Angles) -> (r: Basis)
    ensures
        r == spec_basis(angles),
{
    let forwards = Vec3(
        angles.cos_yaw.mul(angles.cos_pitch),
        angles.sin_yaw.mul(angles.cos_pitch),
        angles.sin_pitch,
    );
    let back = Vec3(forwards.0.neg(), forwards.1.neg(), forwards.2.neg());
    let world_up = Vec3(Scalar::zero(), Scalar::zero(), Scalar::from_bits(ONE));
    let right = world_up.cross(back).normalize();
    Basis { forwards, right, up: back.cross(right) }
}

impl Camera {
    /// The camera after a step of `distance` along `direction`.
    pub open spec fn stepped(self, direction: Vec3, distance: Scalar) -> Camera {
        Camera { position: self.position.spec_add(direction.spec_mul(distance)), ..self }
    }

    /// The camera with the given angles and the directions that belong to
    /// their sines and cosines.
    pub open spec fn pointed(self, yaw: Scalar, pitch: Scalar, angles: Angles) -> Camera {
        Camera {
            position: self.position,
            forwards: spec_basis(angles).forwards,
            right: spec_basis(angles).right,
            up: spec_basis(angles).up,
            yaw,
            pitch,
        }
    }

    /// `after` is the camera turned to the given angles: it has them, and
    /// its directions belong to sines and cosines that `sin_cos` may give
    /// for them.
    pub open spec fn turned<F: Fn(Scalar) -> (Scalar, Scalar)>(
        self,
        yaw: Scalar,
        pitch: Scalar,
        sin_cos: F,
        after: Camera,
    ) -> bool {
        exists|outcome: Angles|
            (#[trigger] angles_of(sin_cos, yaw, pitch, outcome)) && after == self.pointed(
                yaw,
                pitch,
                outcome,
            )
    }

    /// A camera at `position` that looks along the first axis, level.
    pub fn new(position: Vec3) -> (r: Camera)
        ensures
            r == (Camera {
                position,
                forwards: spec_basis(level()).forwards,
                right: spec_basis(level()).right,
                up: spec_basis(level()).up,
                yaw: Scalar { bits: 0 },
                pitch: Scalar { bits: 0 },
            }),
    {
        let one = Scalar::from_bits(ONE);
        let zero = Scalar::zero();
        let b = basis(Angles { sin_yaw: zero, cos_yaw: one, sin_pitch: zero, cos_pitch: one });
        Camera { position, forwards: b.forwards, right: b.right, up: b.up, yaw: zero, pitch: zero }
    }

    /// Moves the camera along the direction it looks in.
    pub fn move_forwards(&mut self, distance: Scalar)
        ensures
            *final(self) == old(self).stepped(old(self).forwards, distance),
    {
        self.position = self.position.add(self.forwards.mul(distance));
    }

    /// Moves the camera along its right.
    pub fn move_vertical(&mut self, distance: Scalar)
        ensures
            *final(self) == old(self).stepped(old(self).right, distance),
    {
        self.position = self.position.add(self.right.mul(distance));
    }

    /// Moves the camera along its up.
    pub fn move_horizontal(&mut self, distance: Scalar)
        ensures
            *final(self) == old(self).stepped(old(self).up, distance),
    {
        self.position = self.position.add(self.up.mul(distance));
    }

    /// Sets the angles and, from their sines and cosines, the directions.
    fn point<F: Fn(Scalar) -> (Scalar, Scalar)>(&mut self, yaw: Scalar, pitch: Scalar, sin_cos: &F)
        requires
            forall|x: Scalar| call_requires(*sin_cos, (x,)),
        ensures
            old(self).turned(yaw, pitch, *sin_cos, *final(self)),
    {
        let (sin_yaw, cos_yaw) = sin_cos(to_radians(yaw));
        let (sin_pitch, cos_pitch) = sin_cos(to_radians(pitch));
        let angles = Angles { sin_yaw, cos_yaw, sin_pitch, cos_pitch };
        let b = basis(angles);
        self.forwards = b.forwards;
        self.right = b.right;
        self.up = b.up;
        self.yaw = yaw;
        self.pitch = pitch;
        assert(angles_of(*sin_cos, yaw, pitch, angles));
    }

    /// Turns the heading by `angle_deg` degrees and sets the directions
    /// anew. `sin_cos` gives sine and cosine of an angle in radians.
    pub fn rotate_yaw<F: Fn(Scalar) -> (Scalar, Scalar)>(&mut self, angle_deg: Scalar, sin_cos: &F)
        requires
            forall|x: Scalar| call_requires(*sin_cos, (x,)),
        ensures
            final(self).position == old(self).position,
            final(self).yaw == old(self).yaw.spec_add(angle_deg),
            final(self).pitch == old(self).pitch,
            old(self).turned(
                old(self).yaw.spec_add(angle_deg),
                old(self).pitch,
                *sin_cos,
                *final(self),
            ),
    {
        let yaw = self.yaw.add(angle_deg);
        let pitch = self.pitch;
        self.point(yaw, pitch, sin_cos);
    }

    /// Turns the elevation by `angle_deg` degrees, but to no more than
    /// eighty-nine degrees either way, and sets the directions anew.
    /// `sin_cos` gives sine and cosine of an angle in radians.
    pub fn rotate_pitch<F: Fn(Scalar) -> (Scalar, Scalar)>(&mut self, angle_deg: Scalar, sin_cos: &F)
        requires
            forall|x: Scalar| call_requires(*sin_cos, (x,)),
        ensures
            final(self).position == old(self).position,
            final(self).yaw == old(self).yaw,
            final(self).pitch == spec_clamp_pitch(old(self).pitch.spec_add(angle_deg)),
            !old(self).pitch.spec_add(angle_deg).spec_is_nan() ==> within_limit(final(self).pitch),
            old(self).turned(
                old(self).yaw,
                spec_clamp_pitch(old(self).pitch.spec_add(angle_deg)),
                *sin_cos,
                *final(self),
            ),
    {
        let yaw = self.yaw;
        let pitch = clamp_pitch(self.pitch.add(angle_deg));
        self.point(yaw, pitch, sin_cos);
    }
}

} // verus!
