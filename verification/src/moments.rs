//! The mean, the covariances and the effective sample size of a cloud.
use vstd::prelude::*;

use crate::num::{absolute, at_most, less, negated, num, Num, NANO, ONE, TWO, ZERO};
use crate::numerics::{
    atan2, compose, inverse, is_atan2, is_composed, is_inverse, is_product, is_quotient, is_sum,
    is_v_difference, is_v_norm, is_v_product, is_v_sum, is_v_unit, product, quotient, sum,
    v_difference, v_norm, v_product, v_sum, v_unit, Numerics,
};
use crate::types::{
    accumulated, is_accumulated, is_moment_step, is_quat_mean, quat_mean, quat_moment, Estimate,
    Matrix3, Matrix4, Pose, Quaternion, UnitQuaternion, Vector3,
};

verus! {

/// `s` is the sum of the squares of the first `n` weights.
pub open spec fn is_square_total<K: Numerics>(ws: Seq<Num>, n: nat, s: Num) -> bool
    decreases n,
{
    if n == 0 {
        s == num(ZERO)
    } else {
        exists|prev: Num, square: Num|
            {
                &&& is_square_total::<K>(ws, (n - 1) as nat, prev)
                &&& is_product::<K>(ws[n - 1], ws[n - 1], square)
                &&& #[trigger] is_sum::<K>(prev, square, s)
            }
    }
}

/// `ess` is one over the sum of the squared weights, 0 where that is not
/// positive.
pub open spec fn is_ess<K: Numerics>(ws: Seq<Num>, ess: Num) -> bool {
    exists|s: Num| #[trigger]
        is_square_total::<K>(ws, ws.len(), s) && if less(num(ZERO), s) {
            is_quotient::<K>(num(ONE), s, ess)
        } else {
            ess == num(ZERO)
        }
}

fn effective_size<K: Numerics>(ws: &Vec<Num>) -> (ess: Num)
    ensures
        is_ess::<K>(ws@, ess),
{
    let mut s = num(ZERO);
    for i in 0..ws.len()
        invariant
            is_square_total::<K>(ws@, i as nat, s),
    {
        let ghost prev = s;
        let square = product::<K>(ws[i], ws[i]);
        s = sum::<K>(s, square);
        assert(is_product::<K>(ws@[(i + 1) - 1], ws@[(i + 1) - 1], square));
        assert(is_sum::<K>(prev, square, s));
    }
    assert(is_square_total::<K>(ws@, ws@.len(), s));
    if num(ZERO).less(s) {
        quotient::<K>(num(ONE), s)
    } else {
        num(ZERO)
    }
}

/// `m` is the weighted sum of the first `n` positions.
pub open spec fn is_position_total<K: Numerics>(
    pos: Seq<Vector3>,
    ws: Seq<Num>,
    n: nat,
    m: Vector3,
) -> bool
    decreases n,
{
    if n == 0 {
        m == Vector3::zeros()
    } else {
        exists|prev: Vector3, p: Vector3|
            {
                &&& is_position_total::<K>(pos, ws, (n - 1) as nat, prev)
                &&& is_v_product::<K>(pos[n - 1], ws[n - 1], p)
                &&& #[trigger] is_v_sum::<K>(prev, p, m)
            }
    }
}

fn position_total<K: Numerics>(pos: &Vec<Vector3>, ws: &Vec<Num>) -> (m: Vector3)
    requires
        pos@.len() == ws@.len(),
    ensures
        is_position_total::<K>(pos@, ws@, pos@.len(), m),
{
    let mut m = Vector3::zeros();
    for i in 0..pos.len()
        invariant
            pos@.len() == ws@.len(),
            is_position_total::<K>(pos@, ws@, i as nat, m),
    {
        let ghost prev = m;
        let p = v_product::<K>(pos[i], ws[i]);
        m = v_sum::<K>(m, p);
        assert(is_v_product::<K>(pos@[(i + 1) - 1], ws@[(i + 1) - 1], p));
        assert(is_v_sum::<K>(prev, p, m));
    }
    m
}

/// `m` is the weighted sum of `q q^T` over the first `n` attitudes.
pub open spec fn is_moment<K: Numerics>(
    att: Seq<UnitQuaternion>,
    ws: Seq<Num>,
    n: nat,
    m: Matrix4,
) -> bool
    decreases n,
{
    if n == 0 {
        forall|r: int, c: int| 0 <= r < 4 && 0 <= c < 4 ==> #[trigger] m.at(r, c) == num(ZERO)
    } else {
        exists|prev: Matrix4|
            is_moment::<K>(att, ws, (n - 1) as nat, prev) && #[trigger] is_moment_step::<K>(
                att[n - 1].q,
                ws[n - 1],
                prev,
                m,
            )
    }
}

fn moment<K: Numerics>(att: &Vec<UnitQuaternion>, ws: &Vec<Num>) -> (m: Matrix4)
    requires
        att@.len() == ws@.len(),
    ensures
        is_moment::<K>(att@, ws@, att@.len(), m),
{
    let mut m = Matrix4::zeros();
    for i in 0..att.len()
        invariant
            att@.len() == ws@.len(),
            is_moment::<K>(att@, ws@, i as nat, m),
    {
        let ghost prev = m;
        m = quat_moment::<K>(att[i].q, ws[i], m);
        assert(is_moment_step::<K>(att@[(i + 1) - 1].q, ws@[(i + 1) - 1], prev, m));
    }
    m
}

/// `next` is `m + w d d^T`.
pub open spec fn is_outer_step<K: Numerics>(
    d: Vector3,
    w: Num,
    m: Matrix3,
    next: Matrix3,
) -> bool {
    forall|r: int, c: int|
        0 <= r < 3 && 0 <= c < 3 ==> is_accumulated::<K>(
            m.at(r, c),
            w,
            d.coord(r),
            d.coord(c),
            #[trigger] next.at(r, c),
        )
}

fn outer_row<K: Numerics>(row: &[Num; 3], w: Num, a: Num, d: Vector3) -> (next: [Num; 3])
    ensures
        forall|c: int|
            0 <= c < 3 ==> is_accumulated::<K>(row@[c], w, a, d.coord(c), #[trigger] next@[c]),
{
    let n0 = accumulated::<K>(row[0], w, a, d.x);
    let n1 = accumulated::<K>(row[1], w, a, d.y);
    let n2 = accumulated::<K>(row[2], w, a, d.z);
    [n0, n1, n2]
}

fn outer_step<K: Numerics>(d: Vector3, w: Num, m: Matrix3) -> (next: Matrix3)
    ensures
        is_outer_step::<K>(d, w, m, next),
{
    let r0 = outer_row::<K>(&m.rows[0], w, d.x, d);
    let r1 = outer_row::<K>(&m.rows[1], w, d.y, d);
    let r2 = outer_row::<K>(&m.rows[2], w, d.z, d);
    let next = Matrix3 { rows: [r0, r1, r2] };
    assert forall|r: int, c: int| 0 <= r < 3 && 0 <= c < 3 implies is_accumulated::<K>(
        m.at(r, c),
        w,
        d.coord(r),
        d.coord(c),
        #[trigger] next.at(r, c),
    ) by {
        assert(next.at(r, c) == next.rows@[r]@[c]);
    }
    next
}

/// `m` is the weighted sum of `d d^T` over the first `n` deviations.
pub open spec fn is_covariance<K: Numerics>(
    ds: Seq<Vector3>,
    ws: Seq<Num>,
    n: nat,
    m: Matrix3,
) -> bool
    decreases n,
{
    if n == 0 {
        forall|r: int, c: int| 0 <= r < 3 && 0 <= c < 3 ==> #[trigger] m.at(r, c) == num(ZERO)
    } else {
        exists|prev: Matrix3|
            is_covariance::<K>(ds, ws, (n - 1) as nat, prev) && #[trigger] is_outer_step::<K>(
                ds[n - 1],
                ws[n - 1],
                prev,
                m,
            )
    }
}

fn covariance<K: Numerics>(ds: &Vec<Vector3>, ws: &Vec<Num>) -> (m: Matrix3)
    requires
        ds@.len() == ws@.len(),
    ensures
        is_covariance::<K>(ds@, ws@, ds@.len(), m),
{
    let mut m = Matrix3::filled(num(ZERO));
    for i in 0..ds.len()
        invariant
            ds@.len() == ws@.len(),
            is_covariance::<K>(ds@, ws@, i as nat, m),
    {
        let ghost prev = m;
        m = outer_step::<K>(ds[i], ws[i], m);
        assert(is_outer_step::<K>(ds@[(i + 1) - 1], ws@[(i + 1) - 1], prev, m));
    }
    m
}

/// The vector part of the one of `q` and `-q` whose scalar part is not
/// negative: both stand for the same rotation.
pub open spec fn canonical_axis(q: Quaternion) -> Vector3 {
    if at_most(num(ZERO), q.w) {
        Vector3 { x: q.i, y: q.j, z: q.k }
    } else {
        Vector3 { x: negated(q.i), y: negated(q.j), z: negated(q.k) }
    }
}

/// `v` is the rotation `q` as an axis times its angle, `2 atan2(|axis|, |w|)`;
/// zero for a tiny axis.
pub open spec fn is_rotation_vector<K: Numerics>(q: Quaternion, v: Vector3) -> bool {
    exists|norm: Num| #[trigger]
        is_v_norm::<K>(canonical_axis(q), norm) && if less(num(NANO), norm) {
            is_turned_axis::<K>(canonical_axis(q), norm, absolute(q.w), v)
        } else {
            v == Vector3::zeros()
        }
}

pub open spec fn is_turned_axis<K: Numerics>(
    axis: Vector3,
    norm: Num,
    w: Num,
    v: Vector3,
) -> bool {
    exists|half: Num, angle: Num, unit: Vector3|
        {
            &&& #[trigger] is_atan2::<K>(norm, w, half)
            &&& is_product::<K>(num(TWO), half, angle)
            &&& #[trigger] is_v_unit::<K>(axis, unit)
            &&& #[trigger] is_v_product::<K>(unit, angle, v)
        }
}

fn rotation_vector<K: Numerics>(q: Quaternion) -> (v: Vector3)
    ensures
        is_rotation_vector::<K>(q, v),
{
    let axis = if num(ZERO).at_most(q.w) {
        Vector3 { x: q.i, y: q.j, z: q.k }
    } else {
        Vector3 { x: q.i.neg(), y: q.j.neg(), z: q.k.neg() }
    };
    assert(axis == canonical_axis(q));
    let norm = v_norm::<K>(axis);
    if num(NANO).less(norm) {
        let half = atan2::<K>(norm, q.w.abs());
        let angle = product::<K>(num(TWO), half);
        let unit = v_unit::<K>(axis);
        let v = v_product::<K>(unit, angle);
        assert(is_turned_axis::<K>(axis, norm, absolute(q.w), v));
        v
    } else {
        Vector3::zeros()
    }
}

/// `v` is how far `att` is turned from `mean`, in the tangent space there.
pub open spec fn is_tangent<K: Numerics>(
    mean: UnitQuaternion,
    att: UnitQuaternion,
    v: Vector3,
) -> bool {
    exists|inv: UnitQuaternion, dq: UnitQuaternion|
        {
            &&& is_inverse::<K>(mean, inv)
            &&& #[trigger] is_composed::<K>(inv, att, dq)
            &&& is_rotation_vector::<K>(dq.q, v)
        }
}

fn tangent<K: Numerics>(mean: UnitQuaternion, att: UnitQuaternion) -> (v: Vector3)
    ensures
        is_tangent::<K>(mean, att, v),
{
    let inv = inverse::<K>(mean);
    let dq = compose::<K>(inv, att);
    rotation_vector::<K>(dq.q)
}

/// `ds` is each position less the mean.
pub open spec fn are_offsets<K: Numerics>(
    pos: Seq<Vector3>,
    mean: Vector3,
    ds: Seq<Vector3>,
) -> bool {
    &&& ds.len() == pos.len()
    &&& forall|i: int|
        0 <= i < ds.len() ==> is_v_difference::<K>(pos[i], mean, #[trigger] ds[i])
}

/// `ds` is each attitude's turn from the mean.
pub open spec fn are_tangents<K: Numerics>(
    att: Seq<UnitQuaternion>,
    mean: UnitQuaternion,
    ds: Seq<Vector3>,
) -> bool {
    &&& ds.len() == att.len()
    &&& forall|i: int| 0 <= i < ds.len() ==> is_tangent::<K>(mean, att[i], #[trigger] ds[i])
}

fn position_covariance<K: Numerics>(pos: &Vec<Vector3>, ws: &Vec<Num>, mean: Vector3) -> (m:
    Matrix3)
    requires
        pos@.len() == ws@.len(),
    ensures
        is_position_covariance::<K>(pos@, ws@, mean, m),
{
    let mut ds: Vec<Vector3> = Vec::new();
    for i in 0..pos.len()
        invariant
            ds@.len() == i,
            forall|k: int|
                0 <= k < i ==> is_v_difference::<K>(pos@[k], mean, #[trigger] ds@[k]),
    {
        ds.push(v_difference::<K>(pos[i], mean));
    }
    assert(are_offsets::<K>(pos@, mean, ds@));
    covariance::<K>(&ds, ws)
}

fn attitude_covariance<K: Numerics>(
    att: &Vec<UnitQuaternion>,
    ws: &Vec<Num>,
    mean: UnitQuaternion,
) -> (m: Matrix3)
    requires
        att@.len() == ws@.len(),
    ensures
        is_attitude_covariance::<K>(att@, ws@, mean, m),
{
    let mut ds: Vec<Vector3> = Vec::new();
    for i in 0..att.len()
        invariant
            ds@.len() == i,
            forall|k: int| 0 <= k < i ==> is_tangent::<K>(mean, att@[k], #[trigger] ds@[k]),
    {
        ds.push(tangent::<K>(mean, att[i]));
    }
    assert(are_tangents::<K>(att@, mean, ds@));
    covariance::<K>(&ds, ws)
}

pub open spec fn is_position_covariance<K: Numerics>(
    pos: Seq<Vector3>,
    ws: Seq<Num>,
    mean: Vector3,
    m: Matrix3,
) -> bool {
    exists|ds: Seq<Vector3>| #[trigger]
        are_offsets::<K>(pos, mean, ds) && is_covariance::<K>(ds, ws, ds.len(), m)
}

pub open spec fn is_attitude_covariance<K: Numerics>(
    att: Seq<UnitQuaternion>,
    ws: Seq<Num>,
    mean: UnitQuaternion,
    m: Matrix3,
) -> bool {
    exists|ds: Seq<Vector3>| #[trigger]
        are_tangents::<K>(att, mean, ds) && is_covariance::<K>(ds, ws, ds.len(), m)
}

/// `r` is the weighted mean of the attitudes.
pub open spec fn is_mean_attitude<K: Numerics>(
    att: Seq<UnitQuaternion>,
    ws: Seq<Num>,
    r: UnitQuaternion,
) -> bool {
    exists|m: Matrix4| #[trigger] is_moment::<K>(att, ws, att.len(), m) && is_quat_mean::<K>(m, r)
}

/// `e` is the estimate that a weighted cloud gives.
pub open spec fn is_estimate<K: Numerics>(
    pos: Seq<Vector3>,
    att: Seq<UnitQuaternion>,
    ws: Seq<Num>,
    e: Estimate,
) -> bool {
    &&& is_position_total::<K>(pos, ws, pos.len(), e.mean.position)
    &&& is_mean_attitude::<K>(att, ws, e.mean.attitude)
    &&& is_position_covariance::<K>(pos, ws, e.mean.position, e.pos_cov)
    &&& is_attitude_covariance::<K>(att, ws, e.mean.attitude, e.att_cov)
    &&& is_ess::<K>(ws, e.ess)
    &&& e.valid
}

/// The estimate of a weighted cloud.
pub fn estimate_of<K: Numerics>(
    pos: &Vec<Vector3>,
    att: &Vec<UnitQuaternion>,
    ws: &Vec<Num>,
) -> (e: Estimate)
    requires
        pos@.len() == ws@.len(),
        att@.len() == ws@.len(),
    ensures
        is_estimate::<K>(pos@, att@, ws@, e),
{
    let ess = effective_size::<K>(ws);
    let position = position_total::<K>(pos, ws);
    let m = moment::<K>(att, ws);
    let attitude = quat_mean::<K>(m);
    Estimate {
        mean: Pose { position, attitude },
        pos_cov: position_covariance::<K>(pos, ws, position),
        att_cov: attitude_covariance::<K>(att, ws, attitude),
        ess,
        valid: true,
    }
}

} // verus!
