//! One particle's random moves: the prior's spread and the odometry step.
use rand::rngs::SmallRng;
use vstd::prelude::*;

use crate::num::{less, num, Num, TINY_ANGLE};
use crate::numerics::{
    compose, is_composed, is_normal_draw, is_product, is_rotated, is_turn, is_v_norm, is_v_sum,
    normal_draw, product, rotate, turn, v_norm, v_sum, Numerics,
};
use crate::rng::{is_seeded, seeded};
use crate::types::{OdomDelta, Pose, UnitQuaternion, Vector3};

verus! {

/// Three standard normal draws from `rng` gave `v` and left `next`.
pub open spec fn is_triple_draw<K: Numerics>(rng: SmallRng, v: Vector3, next: SmallRng) -> bool {
    exists|a: SmallRng, b: SmallRng|
        {
            &&& #[trigger] is_normal_draw::<K>(rng, (v.x, a))
            &&& #[trigger] is_normal_draw::<K>(a, (v.y, b))
            &&& is_normal_draw::<K>(b, (v.z, next))
        }
}

fn triple_draw<K: Numerics>(rng: SmallRng) -> (r: (Vector3, SmallRng))
    ensures
        is_triple_draw::<K>(rng, r.0, r.1),
{
    let (x, a) = normal_draw::<K>(rng);
    let ghost after_x = a;
    let (y, b) = normal_draw::<K>(a);
    let ghost after_y = b;
    let (z, next) = normal_draw::<K>(b);
    let v = Vector3 { x, y, z };
    assert(is_normal_draw::<K>(rng, (v.x, after_x)));
    assert(is_normal_draw::<K>(after_x, (v.y, after_y)));
    assert(is_normal_draw::<K>(after_y, (v.z, next)));
    (v, next)
}

/// `r` is `a` times `b`, coordinate by coordinate.
pub open spec fn is_scaled<K: Numerics>(a: Vector3, b: Vector3, r: Vector3) -> bool {
    &&& is_product::<K>(a.x, b.x, r.x)
    &&& is_product::<K>(a.y, b.y, r.y)
    &&& is_product::<K>(a.z, b.z, r.z)
}

fn scaled<K: Numerics>(a: Vector3, b: Vector3) -> (r: Vector3)
    ensures
        is_scaled::<K>(a, b, r),
{
    Vector3 {
        x: product::<K>(a.x, b.x),
        y: product::<K>(a.y, b.y),
        z: product::<K>(a.z, b.z),
    }
}

/// `dq` is the rotation about `axis` by its length, none for a tiny length.
pub open spec fn is_small_turn<K: Numerics>(axis: Vector3, dq: UnitQuaternion) -> bool {
    exists|angle: Num|
        #[trigger] is_v_norm::<K>(axis, angle) && if less(num(TINY_ANGLE), angle) {
            is_turn::<K>(axis, angle, dq)
        } else {
            dq == UnitQuaternion::identity()
        }
}

fn small_turn<K: Numerics>(axis: Vector3) -> (dq: UnitQuaternion)
    ensures
        is_small_turn::<K>(axis, dq),
{
    let angle = v_norm::<K>(axis);
    if num(TINY_ANGLE).less(angle) {
        turn::<K>(axis, angle)
    } else {
        UnitQuaternion::identity()
    }
}

/// The six normal draws of the stream `seed`: three for the position, then
/// three for the attitude.
pub open spec fn is_noise<K: Numerics>(seed: u64, n: Vector3, w: Vector3) -> bool {
    exists|rng: SmallRng, mid: SmallRng, end: SmallRng|
        {
            &&& is_seeded(seed, rng)
            &&& #[trigger] is_triple_draw::<K>(rng, n, mid)
            &&& #[trigger] is_triple_draw::<K>(mid, w, end)
        }
}

fn noise<K: Numerics>(seed: u64) -> (r: (Vector3, Vector3))
    ensures
        is_noise::<K>(seed, r.0, r.1),
{
    let rng = seeded(seed);
    let ghost start = rng;
    let (n, mid) = triple_draw::<K>(rng);
    let ghost between = mid;
    let (w, end) = triple_draw::<K>(mid);
    assert(is_triple_draw::<K>(start, n, between));
    assert(is_triple_draw::<K>(between, w, end));
    (n, w)
}

/// `(p, a)` is `pose` with a Gaussian offset from the stream `seed`.
pub open spec fn is_spread<K: Numerics>(
    seed: u64,
    pose: Pose,
    pos_std: Vector3,
    rot_std: Vector3,
    p: Vector3,
    a: UnitQuaternion,
) -> bool {
    exists|n: Vector3, w: Vector3, off: Vector3, axis: Vector3, dq: UnitQuaternion|
        {
            &&& #[trigger] is_noise::<K>(seed, n, w)
            &&& #[trigger] is_scaled::<K>(pos_std, n, off)
            &&& is_v_sum::<K>(pose.position, off, p)
            &&& #[trigger] is_scaled::<K>(rot_std, w, axis)
            &&& #[trigger] is_small_turn::<K>(axis, dq)
            &&& is_composed::<K>(pose.attitude, dq, a)
        }
}

/// A pose drawn around `pose`.
pub fn spread<K: Numerics>(seed: u64, pose: &Pose, pos_std: &Vector3, rot_std: &Vector3) -> (r: (
    Vector3,
    UnitQuaternion,
))
    ensures
        is_spread::<K>(seed, *pose, *pos_std, *rot_std, r.0, r.1),
{
    let (n, w) = noise::<K>(seed);
    let off = scaled::<K>(*pos_std, n);
    let p = v_sum::<K>(pose.position, off);
    let axis = scaled::<K>(*rot_std, w);
    let dq = small_turn::<K>(axis);
    let a = compose::<K>(pose.attitude, dq);
    (p, a)
}

/// `(p, a)` is the pose `(pos, att)` moved by the odometry delta, with noise
/// from the stream `seed`.
pub open spec fn is_moved<K: Numerics>(
    seed: u64,
    odom: OdomDelta,
    pos: Vector3,
    att: UnitQuaternion,
    p: Vector3,
    a: UnitQuaternion,
) -> bool {
    exists|n: Vector3, w: Vector3, off: Vector3, axis: Vector3, dq: UnitQuaternion|
        {
            &&& #[trigger] is_noise::<K>(seed, n, w)
            &&& #[trigger] is_scaled::<K>(odom.trans_noise, n, off)
            &&& is_displaced::<K>(pos, att, odom.translation, off, p)
            &&& #[trigger] is_scaled::<K>(odom.rot_noise, w, axis)
            &&& #[trigger] is_small_turn::<K>(axis, dq)
            &&& is_turned::<K>(att, odom.rotation, dq, a)
        }
}

/// `p` is `pos` displaced by `translation + off`, a body-frame vector.
pub open spec fn is_displaced<K: Numerics>(
    pos: Vector3,
    att: UnitQuaternion,
    translation: Vector3,
    off: Vector3,
    p: Vector3,
) -> bool {
    exists|body: Vector3, world: Vector3|
        {
            &&& is_v_sum::<K>(translation, off, body)
            &&& #[trigger] is_rotated::<K>(att, body, world)
            &&& is_v_sum::<K>(pos, world, p)
        }
}

/// `a` is `att * rotation * dq`.
pub open spec fn is_turned<K: Numerics>(
    att: UnitQuaternion,
    rotation: UnitQuaternion,
    dq: UnitQuaternion,
    a: UnitQuaternion,
) -> bool {
    exists|mid: UnitQuaternion|
        #[trigger] is_composed::<K>(att, rotation, mid) && is_composed::<K>(mid, dq, a)
}

/// A pose moved by an odometry delta.
pub fn moved<K: Numerics>(seed: u64, odom: &OdomDelta, pos: Vector3, att: UnitQuaternion) -> (r: (
    Vector3,
    UnitQuaternion,
))
    ensures
        is_moved::<K>(seed, *odom, pos, att, r.0, r.1),
{
    let (n, w) = noise::<K>(seed);
    let off = scaled::<K>(odom.trans_noise, n);
    let body = v_sum::<K>(odom.translation, off);
    let world = rotate::<K>(att, body);
    let p = v_sum::<K>(pos, world);
    let axis = scaled::<K>(odom.rot_noise, w);
    let dq = small_turn::<K>(axis);
    let mid = compose::<K>(att, odom.rotation);
    let a = compose::<K>(mid, dq);
    assert(is_displaced::<K>(pos, att, odom.translation, off, p));
    assert(is_turned::<K>(att, odom.rotation, dq, a));
    (p, a)
}

} // verus!
