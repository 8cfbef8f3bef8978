//! How pressed keys move the camera of a scene.

use vstd::prelude::*;
use crate::camera::Camera;
use crate::scalar::Scalar;
use crate::scene::{Scene, SceneView};

verus! {

/// Pattern of the distance that one key press moves the camera: the
/// binary32 number nearest to one tenth.
pub const MOVEMENT_SPEED: u32 = 0x3DCC_CCCD;

/// Pattern of the number four: a key press turns the camera by four times
/// as many degrees as it would move it.
pub const TURN_FACTOR: u32 = 0x4080_0000;

/// The keys that move the camera. Any other key is `Other`.
#[derive(Debug, Clone, Copy, PartialEq, Eq, Hash)]
pub enum Key {
    KeyW,
    KeyS,
    KeyA,
    KeyD,
    KeyQ,
    KeyE,
    Space,
    ShiftLeft,
    ArrowLeft,
    ArrowRight,
    ArrowUp,
    ArrowDown,
    Other,
}

/// What a key asks of the camera, and by how much.
#[derive(Debug, Clone, Copy)]
pub enum Motion {
    Forwards(Scalar),
    Vertical(Scalar),
    Horizontal(Scalar),
    Yaw(Scalar),
    Pitch(Scalar),
}

/// The distance of one step.
pub open spec fn step() -> Scalar {
    Scalar { bits: MOVEMENT_SPEED }
}

/// The angle of one turn, in degrees: four steps.
pub open spec fn turn() -> Scalar {
    step().spec_mul(Scalar { bits: TURN_FACTOR })
}

/// What each key asks for: W and S move forwards and back, D and A along
/// the camera's right and against it, E and left shift along its up, Q and
/// space against it; the left and right arrows turn the heading, the down
/// and up arrows the elevation.
pub open spec fn spec_motion_for(key: Key) -> Option<Motion> {
    match key {
        Key::KeyW => Some(Motion::Forwards(step())),
        Key::KeyS => Some(Motion::Forwards(step().spec_neg())),
        Key::KeyA => Some(Motion::Vertical(step().spec_neg())),
        Key::KeyD => Some(Motion::Vertical(step())),
        Key::KeyQ => Some(Motion::Horizontal(step().spec_neg())),
        Key::KeyE => Some(Motion::Horizontal(step())),
        Key::Space => Some(Motion::Horizontal(step().spec_neg())),
        Key::ShiftLeft => Some(Motion::Horizontal(step())),
        Key::ArrowLeft => Some(Motion::Yaw(turn())),
        Key::ArrowRight => Some(Motion::Yaw(step().spec_neg().spec_mul(Scalar { bits: TURN_FACTOR }))),
        Key::ArrowUp => Some(Motion::Pitch(step().spec_neg().spec_mul(Scalar { bits: TURN_FACTOR }))),
        Key::ArrowDown => Some(Motion::Pitch(turn())),
        Key::Other => None,
    }
}

/// `after` is the camera `before` moved as `motion` asks, with `sin_cos`
/// giving the sines and cosines for a turn.
pub open spec fn moved<F: Fn(Scalar) -> (Scalar, Scalar)>(
    before: Camera,
    motion: Option<Motion>,
    sin_cos: F,
    after: Camera,
) -> bool {
    match motion {
        None => after == before,
        Some(Motion::Forwards(d)) => after == before.stepped(before.forwards, d),
        Some(Motion::Vertical(d)) => after == before.stepped(before.right, d),
        Some(Motion::Horizontal(d)) => after == before.stepped(before.up, d),
        Some(Motion::Yaw(a)) => before.turned(before.yaw.spec_add(a), before.pitch, sin_cos, after),
        Some(Motion::Pitch(a)) => before.turned(
            before.yaw,
            crate::camera::spec_clamp_pitch(before.pitch.spec_add(a)),
            sin_cos,
            after,
        ),
    }
}

/// `path` tells where the camera is before and after each of `keys`: it
/// begins at `before`, and each key leads from one entry to the next.
pub open spec fn leads<F: Fn(Scalar) -> (Scalar, Scalar)>(
    before: Camera,
    keys: Seq<Key>,
    sin_cos: F,
    path: Seq<Camera>,
) -> bool {
    &&& path.len() == keys.len() + 1
    &&& path[0] == before
    &&& forall|i: int|
        0 <= i < keys.len() ==> moved(
            path[i],
            spec_motion_for(#[trigger] keys[i]),
            sin_cos,
            path[i + 1],
        )
}

/// `after` is the camera `before` moved as each of `keys` asks, one after
/// another.
pub open spec fn followed<F: Fn(Scalar) -> (Scalar, Scalar)>(
    before: Camera,
    keys: Seq<Key>,
    sin_cos: F,
    after: Camera,
) -> bool {
    exists|path: Seq<Camera>|
        (#[trigger] leads(before, keys, sin_cos, path)) && path.last() == after
}

/// What a key asks of the camera.
#[verifier::when_used_as_spec(spec_motion_for)]
pub fn motion_for(key: Key) -> (r: Option<Motion>)
    ensures
        r == spec_motion_for(key),
{
    let movement_speed = Scalar::from_bits(MOVEMENT_SPEED);
    let four = Scalar::from_bits(TURN_FACTOR);
    match key {
        Key::KeyW => Some(Motion::Forwards(movement_speed)),
        Key::KeyS => Some(Motion::Forwards(movement_speed.neg())),
        Key::KeyA => Some(Motion::Vertical(movement_speed.neg())),
        Key::KeyD => Some(Motion::Vertical(movement_speed)),
        Key::KeyQ => Some(Motion::Horizontal(movement_speed.neg())),
        Key::KeyE => Some(Motion::Horizontal(movement_speed)),
        Key::Space => Some(Motion::Horizontal(movement_speed.neg())),
        Key::ShiftLeft => Some(Motion::Horizontal(movement_speed)),
        Key::ArrowLeft => Some(Motion::Yaw(movement_speed.mul(four))),
        Key::ArrowRight => Some(Motion::Yaw(movement_speed.neg().mul(four))),
        Key::ArrowUp => Some(Motion::Pitch(movement_speed.neg().mul(four))),
        Key::ArrowDown => Some(Motion::Pitch(movement_speed.mul(four))),
        Key::Other => None,
    }
}

impl Camera {
    /// Moves the camera as `motion` asks.
    pub fn apply<F: Fn(Scalar) -> (Scalar, Scalar)>(&mut self, motion: Option<Motion>, sin_cos: &F)
        requires
            forall|x: Scalar| call_requires(*sin_cos, (x,)),
        ensures
            moved(*old(self), motion, *sin_cos, *final(self)),
    {
        match motion {
            None => {},
            Some(Motion::Forwards(d)) => self.move_forwards(d),
            Some(Motion::Vertical(d)) => self.move_vertical(d),
            Some(Motion::Horizontal(d)) => self.move_horizontal(d),
            Some(Motion::Yaw(a)) => self.rotate_yaw(a, sin_cos),
            Some(Motion::Pitch(a)) => self.rotate_pitch(a, sin_cos),
        }
    }
}

impl Scene {
    /// Moves the camera as each of the pressed keys asks, in the order
    /// given. `sin_cos` gives sine and cosine of an angle in radians. The
    /// hierarchy is not touched.
    pub fn update<F: Fn(Scalar) -> (Scalar, Scalar)>(&mut self, keys: &Vec<Key>, sin_cos: &F)
        requires
            forall|x: Scalar| call_requires(*sin_cos, (x,)),
        ensures
            final(self)@ == (SceneView { camera: final(self).camera, ..old(self)@ }),
            followed(old(self).camera, keys@, *sin_cos, final(self).camera),
    {
        let mut i: usize = 0;
        let ghost mut path: Seq<Camera> = seq![self.camera];
        while i < keys.len()
            invariant
                i <= keys.len(),
                forall|x: Scalar| call_requires(*sin_cos, (x,)),
                self@ == (SceneView { camera: self.camera, ..old(self)@ }),
                leads(old(self).camera, keys@.take(i as int), *sin_cos, path),
                path.last() == self.camera,
            decreases keys.len() - i,
        {
            let motion = motion_for(keys[i]);
            self.camera.apply(motion, sin_cos);
            proof {
                let longer = path.push(self.camera);
                let now = keys@.take(i + 1);
                assert forall|j: int| 0 <= j < now.len() implies moved(
                    longer[j],
                    spec_motion_for(#[trigger] now[j]),
                    *sin_cos,
                    longer[j + 1],
                ) by {
                    if j < i {
                        assert(keys@.take(i as int)[j] == now[j]);
                    }
                }
                path = longer;
            }
            i = i + 1;
        }
        proof {
            assert(keys@.take(keys.len() as int) =~= keys@);
        }
    }
}

} // verus!
