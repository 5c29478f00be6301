//! Shared types: pose, particles, observations, odometry deltas.
use vstd::prelude::*;

use crate::num::{at_most, is_nan, less, negated, num, Num, HALF, ONE, P02, P03, P05, ZERO};
use crate::numerics::{
    eigen, is_eigen, is_product, is_q_unit, is_rotated, is_sum, is_unrotated,
    is_v_difference, is_v_sum, product, q_unit, rotate, sum, unrotate, v_difference,
    v_sum, Numerics,
};

verus! {

#[derive(Clone, Copy, Debug, PartialEq)]
pub struct Vector2 {
    pub x: Num,
    pub y: Num,
}

#[derive(Clone, Copy, Debug, PartialEq)]
pub struct Vector3 {
    pub x: Num,
    pub y: Num,
    pub z: Num,
}

/// Four coordinates, scalar part first.
#[derive(Clone, Copy, Debug, PartialEq)]
pub struct Quaternion {
    pub w: Num,
    pub i: Num,
    pub j: Num,
    pub k: Num,
}

/// A rotation. Length one is up to the arithmetic that made it.
#[derive(Clone, Copy, Debug, PartialEq)]
pub struct UnitQuaternion {
    pub q: Quaternion,
}

/// A 4x4 matrix by rows.
#[derive(Clone, Copy, Debug)]
pub struct Matrix4 {
    pub rows: [[Num; 4]; 4],
}

/// A 3x3 matrix by rows.
#[derive(Clone, Copy, Debug)]
pub struct Matrix3 {
    pub rows: [[Num; 3]; 3],
}

impl Vector3 {
    #[verifier::allow_in_spec]
    pub fn new(x: Num, y: Num, z: Num) -> Vector3
        returns
            (Vector3 { x, y, z }),
    {
        Vector3 { x, y, z }
    }

    #[verifier::allow_in_spec]
    pub fn zeros() -> Vector3
        returns
            (Vector3 { x: num(ZERO), y: num(ZERO), z: num(ZERO) }),
    {
        Vector3 { x: num(ZERO), y: num(ZERO), z: num(ZERO) }
    }

    /// The coordinates by number.
    pub open spec fn coord(self, c: int) -> Num {
        if c == 0 {
            self.x
        } else if c == 1 {
            self.y
        } else {
            self.z
        }
    }
}

impl Quaternion {
    /// The coordinates by number, scalar part first.
    pub open spec fn coord(self, c: int) -> Num {
        if c == 0 {
            self.w
        } else if c == 1 {
            self.i
        } else if c == 2 {
            self.j
        } else {
            self.k
        }
    }

    /// The coordinates with the opposite signs.
    pub fn neg(self) -> (r: Quaternion)
        ensures
            r == (Quaternion {
                w: negated(self.w),
                i: negated(self.i),
                j: negated(self.j),
                k: negated(self.k),
            }),
    {
        Quaternion { w: self.w.neg(), i: self.i.neg(), j: self.j.neg(), k: self.k.neg() }
    }
}

impl UnitQuaternion {
    #[verifier::allow_in_spec]
    pub fn identity() -> UnitQuaternion
        returns
            (UnitQuaternion {
                q: Quaternion { w: num(ONE), i: num(ZERO), j: num(ZERO), k: num(ZERO) },
            }),
    {
        UnitQuaternion {
            q: Quaternion { w: num(ONE), i: num(ZERO), j: num(ZERO), k: num(ZERO) },
        }
    }
}

impl Matrix4 {
    pub open spec fn at(self, r: int, c: int) -> Num {
        self.rows@[r]@[c]
    }

    pub fn zeros() -> (m: Matrix4)
        ensures
            forall|r: int, c: int| 0 <= r < 4 && 0 <= c < 4 ==> #[trigger] m.at(r, c) == num(ZERO),
    {
        let z = num(ZERO);
        Matrix4 { rows: [[z, z, z, z], [z, z, z, z], [z, z, z, z], [z, z, z, z]] }
    }
}

impl Matrix3 {
    pub open spec fn at(self, r: int, c: int) -> Num {
        self.rows@[r]@[c]
    }

    /// The matrix with the same number in all places.
    pub fn filled(v: Num) -> (m: Matrix3)
        ensures
            forall|r: int, c: int| 0 <= r < 3 && 0 <= c < 3 ==> #[trigger] m.at(r, c) == v,
    {
        Matrix3 { rows: [[v, v, v], [v, v, v], [v, v, v]] }
    }
}

/// Full 6-DoF pose.
#[derive(Clone, Copy, Debug, PartialEq)]
pub struct Pose {
    pub position: Vector3,
    pub attitude: UnitQuaternion,
}

impl Default for Pose {
    fn default() -> (r: Self)
        ensures
            r == (Pose { position: Vector3::zeros(), attitude: UnitQuaternion::identity() }),
    {
        Pose { position: Vector3::zeros(), attitude: UnitQuaternion::identity() }
    }
}

impl Pose {
    /// `w` is the body-frame vector `v` in the world frame.
    pub open spec fn is_transform<K: Numerics>(self, v: Vector3, w: Vector3) -> bool {
        exists|turned: Vector3|
            #[trigger] is_rotated::<K>(self.attitude, v, turned) && is_v_sum::<K>(
                turned,
                self.position,
                w,
            )
    }

    /// `b` is the world vector `v` in the body frame.
    pub open spec fn is_inverse_transform<K: Numerics>(self, v: Vector3, b: Vector3) -> bool {
        exists|gap: Vector3|
            #[trigger] is_v_difference::<K>(v, self.position, gap) && is_unrotated::<K>(
                self.attitude,
                gap,
                b,
            )
    }

    /// Transform a body-frame vector into the world frame.
    pub fn transform<K: Numerics>(&self, v: &Vector3) -> (w: Vector3)
        ensures
            self.is_transform::<K>(*v, w),
    {
        let turned = rotate::<K>(self.attitude, *v);
        v_sum::<K>(turned, self.position)
    }

    /// Transform a world vector into the body frame.
    pub fn inverse_transform<K: Numerics>(&self, v: &Vector3) -> (b: Vector3)
        ensures
            self.is_inverse_transform::<K>(*v, b),
    {
        let gap = v_difference::<K>(*v, self.position);
        unrotate::<K>(self.attitude, gap)
    }
}

/// One particle: pose + weight.
#[derive(Clone, Copy, Debug, PartialEq)]
pub struct Particle {
    pub pose: Pose,
    pub weight: Num,
}

impl Default for Particle {
    fn default() -> (r: Self)
        ensures
            r.pose == (Pose { position: Vector3::zeros(), attitude: UnitQuaternion::identity() }),
            r.weight == num(ZERO),
    {
        Particle { pose: Pose::default(), weight: num(ZERO) }
    }
}

/// How an observation is expressed (always in the robot BODY frame).
#[derive(Clone, Copy, Debug, PartialEq, Eq, Structural)]
pub enum ObsMode {
    /// (dx, dy, dz) offset to the landmark in body frame.
    Cartesian,
    /// Range in meters + unit bearing direction in body frame.
    RangeBearing,
}

/// A single landmark observation.
#[derive(Clone, Copy, Debug)]
pub struct Observation {
    pub landmark_id: i32,
    pub mode: ObsMode,
    /// Cartesian: the offset. RangeBearing: the unit direction.
    pub vector: Vector3,
    /// Range in meters (RangeBearing only).
    pub range: Num,
}

/// Odometry delta between two filter updates, expressed in the BODY frame of
/// the previous pose: displacement + rotation since then, with noise stds.
#[derive(Clone, Copy, Debug)]
pub struct OdomDelta {
    pub translation: Vector3,
    pub rotation: UnitQuaternion,
    /// Translation noise std devs (m) per axis, body frame.
    pub trans_noise: Vector3,
    /// Rotation noise std devs (rad), roll/pitch/yaw-ish tangent axes.
    pub rot_noise: Vector3,
}

impl Default for OdomDelta {
    fn default() -> (r: Self)
        ensures
            r == (OdomDelta {
                translation: Vector3::zeros(),
                rotation: UnitQuaternion::identity(),
                trans_noise: Vector3::new(num(P05), num(P05), num(P05)),
                rot_noise: Vector3::new(num(P02), num(P02), num(P03)),
            }),
    {
        OdomDelta {
            translation: Vector3::zeros(),
            rotation: UnitQuaternion::identity(),
            trans_noise: Vector3::new(num(P05), num(P05), num(P05)),
            rot_noise: Vector3::new(num(P02), num(P02), num(P03)),
        }
    }
}

/// Filter estimate: weighted mean pose + covariances + effective sample size.
#[derive(Clone, Copy, Debug)]
pub struct Estimate {
    pub mean: Pose,
    /// Position covariance (3x3, world frame).
    pub pos_cov: Matrix3,
    /// Attitude covariance (3x3, tangent space at the mean).
    pub att_cov: Matrix3,
    /// Effective sample size (1..=N).
    pub ess: Num,
    pub valid: bool,
}

/// `e` is the estimate before the first update.
pub open spec fn is_blank_estimate(e: Estimate) -> bool {
    &&& e.mean == (Pose { position: Vector3::zeros(), attitude: UnitQuaternion::identity() })
    &&& forall|r: int, c: int|
        0 <= r < 3 && 0 <= c < 3 ==> #[trigger] e.pos_cov.at(r, c) == num(ONE)
    &&& forall|r: int, c: int|
        0 <= r < 3 && 0 <= c < 3 ==> #[trigger] e.att_cov.at(r, c) == num(ONE)
    &&& e.ess == num(ZERO)
    &&& !e.valid
}

impl Default for Estimate {
    fn default() -> (r: Self)
        ensures
            is_blank_estimate(r),
    {
        Estimate {
            mean: Pose::default(),
            pos_cov: Matrix3::filled(num(ONE)),
            att_cov: Matrix3::filled(num(ONE)),
            ess: num(ZERO),
            valid: false,
        }
    }
}

/// `r` is `v + (w * a) * b`.
pub open spec fn is_accumulated<K: Numerics>(v: Num, w: Num, a: Num, b: Num, r: Num) -> bool {
    exists|wa: Num, wab: Num|
        {
            &&& is_product::<K>(w, a, wa)
            &&& #[trigger] is_product::<K>(wa, b, wab)
            &&& #[trigger] is_sum::<K>(v, wab, r)
        }
}

pub(crate) fn accumulated<K: Numerics>(v: Num, w: Num, a: Num, b: Num) -> (r: Num)
    ensures
        is_accumulated::<K>(v, w, a, b, r),
{
    let wa = product::<K>(w, a);
    let wab = product::<K>(wa, b);
    sum::<K>(v, wab)
}

/// `next` is `m + w q q^T`.
pub open spec fn is_moment_step<K: Numerics>(q: Quaternion, w: Num, m: Matrix4, next: Matrix4) -> bool {
    forall|r: int, c: int|
        0 <= r < 4 && 0 <= c < 4 ==> is_accumulated::<K>(
            m.at(r, c),
            w,
            q.coord(r),
            q.coord(c),
            #[trigger] next.at(r, c),
        )
}

fn moment_row<K: Numerics>(row: &[Num; 4], w: Num, a: Num, q: Quaternion) -> (next: [Num; 4])
    ensures
        forall|c: int|
            0 <= c < 4 ==> is_accumulated::<K>(row@[c], w, a, q.coord(c), #[trigger] next@[c]),
{
    let n0 = accumulated::<K>(row[0], w, a, q.w);
    let n1 = accumulated::<K>(row[1], w, a, q.i);
    let n2 = accumulated::<K>(row[2], w, a, q.j);
    let n3 = accumulated::<K>(row[3], w, a, q.k);
    [n0, n1, n2, n3]
}

/// Quaternion -> 4x4 moment matrix M = sum w q q^T (Markley mean).
pub(crate) fn quat_moment<K: Numerics>(q: Quaternion, w: Num, m: Matrix4) -> (next: Matrix4)
    ensures
        is_moment_step::<K>(q, w, m, next),
{
    let r0 = moment_row::<K>(&m.rows[0], w, q.w, q);
    let r1 = moment_row::<K>(&m.rows[1], w, q.i, q);
    let r2 = moment_row::<K>(&m.rows[2], w, q.j, q);
    let r3 = moment_row::<K>(&m.rows[3], w, q.k, q);
    let next = Matrix4 { rows: [r0, r1, r2, r3] };
    assert forall|r: int, c: int| 0 <= r < 4 && 0 <= c < 4 implies is_accumulated::<K>(
        m.at(r, c),
        w,
        q.coord(r),
        q.coord(c),
        #[trigger] next.at(r, c),
    ) by {
        assert(next.at(r, c) == next.rows@[r]@[c]);
    }
    next
}

/// `r` is `a * 0.5 + b * 0.5`.
pub open spec fn is_midpoint<K: Numerics>(a: Num, b: Num, r: Num) -> bool {
    exists|x: Num, y: Num|
        {
            &&& #[trigger] is_product::<K>(a, num(HALF), x)
            &&& #[trigger] is_product::<K>(b, num(HALF), y)
            &&& is_sum::<K>(x, y, r)
        }
}

fn midpoint<K: Numerics>(a: Num, b: Num) -> (r: Num)
    ensures
        is_midpoint::<K>(a, b, r),
{
    let x = product::<K>(a, num(HALF));
    let y = product::<K>(b, num(HALF));
    assert(is_product::<K>(a, num(HALF), x) && is_product::<K>(b, num(HALF), y));
    sum::<K>(x, y)
}

/// `r` is `m^T * 0.5 + m * 0.5`.
pub open spec fn is_symmetrized<K: Numerics>(m: Matrix4, r: Matrix4) -> bool {
    forall|i: int, j: int|
        0 <= i < 4 && 0 <= j < 4 ==> is_midpoint::<K>(m.at(j, i), m.at(i, j), #[trigger] r.at(i, j))
}

fn symmetrized_row<K: Numerics>(m: &Matrix4, i: usize) -> (row: [Num; 4])
    requires
        i < 4,
    ensures
        forall|j: int|
            0 <= j < 4 ==> is_midpoint::<K>(m.at(j, i as int), m.at(i as int, j), #[trigger] row@[j]),
{
    let r0 = midpoint::<K>(m.rows[0][i], m.rows[i][0]);
    let r1 = midpoint::<K>(m.rows[1][i], m.rows[i][1]);
    let r2 = midpoint::<K>(m.rows[2][i], m.rows[i][2]);
    let r3 = midpoint::<K>(m.rows[3][i], m.rows[i][3]);
    [r0, r1, r2, r3]
}

/// The symmetric part of a matrix.
fn symmetrized<K: Numerics>(m: Matrix4) -> (r: Matrix4)
    ensures
        is_symmetrized::<K>(m, r),
{
    let r0 = symmetrized_row::<K>(&m, 0);
    let r1 = symmetrized_row::<K>(&m, 1);
    let r2 = symmetrized_row::<K>(&m, 2);
    let r3 = symmetrized_row::<K>(&m, 3);
    let r = Matrix4 { rows: [r0, r1, r2, r3] };
    assert forall|i: int, j: int| 0 <= i < 4 && 0 <= j < 4 implies is_midpoint::<K>(
        m.at(j, i),
        m.at(i, j),
        #[trigger] r.at(i, j),
    ) by {
        assert(r.at(i, j) == r.rows@[i]@[j]);
    }
    r
}

/// The place that a scan for the largest of the first `n` numbers ends at.
pub open spec fn largest_at(v: Seq<Num>, n: nat) -> int
    decreases n,
{
    if n <= 1 {
        0
    } else {
        let p = largest_at(v, (n - 1) as nat);
        if less(v[p], v[n - 1]) {
            n - 1
        } else {
            p
        }
    }
}

/// The scan finds a largest number where none is a NaN.
pub proof fn law_largest(v: Seq<Num>, n: nat)
    requires
        0 < n <= v.len(),
        forall|i: int| 0 <= i < n ==> !is_nan(#[trigger] v[i]),
    ensures
        0 <= largest_at(v, n) < n,
        forall|i: int| 0 <= i < n ==> at_most(#[trigger] v[i], v[largest_at(v, n)]),
    decreases n,
{
    if n > 1 {
        law_largest(v, (n - 1) as nat);
    }
}

/// A column of a matrix as a quaternion.
pub open spec fn column(m: Matrix4, c: int) -> Quaternion {
    Quaternion { w: m.at(0, c), i: m.at(1, c), j: m.at(2, c), k: m.at(3, c) }
}

/// `r` is the unit quaternion along `q`, or along `-q` where the scalar part
/// would be negative.
pub open spec fn is_upper_unit<K: Numerics>(q: Quaternion, r: UnitQuaternion) -> bool {
    exists|u: UnitQuaternion|
        #[trigger] is_q_unit::<K>(q, u) && if less(u.q.w, num(ZERO)) {
            is_q_unit::<K>(
                Quaternion {
                    w: negated(q.w),
                    i: negated(q.i),
                    j: negated(q.j),
                    k: negated(q.k),
                },
                r,
            )
        } else {
            r == u
        }
}

/// `r` is the mean that a moment matrix gives: along the eigenvector of the
/// largest eigenvalue.
pub open spec fn is_quat_mean<K: Numerics>(m: Matrix4, r: UnitQuaternion) -> bool {
    exists|sym: Matrix4, es: ([Num; 4], Matrix4)|
        {
            &&& is_symmetrized::<K>(m, sym)
            &&& #[trigger] is_eigen::<K>(sym, es)
            &&& is_upper_unit::<K>(column(es.1, largest_at(es.0@, 4)), r)
        }
}

/// Weighted quaternion mean via the largest-eigenvector method.
pub(crate) fn quat_mean<K: Numerics>(m: Matrix4) -> (r: UnitQuaternion)
    ensures
        is_quat_mean::<K>(m, r),
{
    let sym = symmetrized::<K>(m);
    let es = eigen::<K>(sym);
    let (values, vectors) = es;
    let mut p: usize = 0;
    for i in 1..4usize
        invariant
            p == largest_at(values@, i as nat),
            p < 4,
    {
        if values[p].less(values[i]) {
            p = i;
        }
    }
    let q = Quaternion {
        w: vectors.rows[0][p],
        i: vectors.rows[1][p],
        j: vectors.rows[2][p],
        k: vectors.rows[3][p],
    };
    assert(q == column(vectors, p as int));
    let u = q_unit::<K>(q);
    if u.q.w.less(num(ZERO)) {
        let r = q_unit::<K>(q.neg());
        assert(is_upper_unit::<K>(q, r));
        r
    } else {
        assert(is_upper_unit::<K>(q, u));
        u
    }
}

} // verus!
