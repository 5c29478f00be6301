//! What the estimate of a cloud is, where no operation rounds.
use vstd::prelude::*;
use vstd::seq_lib::{commutative_foldl, lemma_fold_left_permutation};

use crate::exact::{
    lemma_total_of_equals, lemma_total_with_one_more, scalars_are_exact, total, turns_are_undone,
    vectors_are_exact, Reading,
};
use crate::moments::{
    are_offsets, are_tangents, canonical_axis, is_covariance, is_ess, is_estimate, is_moment,
    is_outer_step, is_position_total, is_rotation_vector, is_square_total, is_tangent,
    is_turned_axis,
};
use crate::num::{absolute, at_most, is_nan, less, negated, num, rank, Num, NANO, ONE, TWO, ZERO};
use crate::numerics::{
    is_atan2, is_composed, is_eigen, is_inverse, is_product, is_q_unit, is_quotient, is_sum,
    is_v_difference, is_v_norm, is_v_product, is_v_sum, is_v_unit, Numerics,
};
use crate::repeat::vectors_repeat;
use crate::types::{
    column, is_accumulated, is_midpoint, is_moment_step, is_quat_mean, is_symmetrized,
    is_upper_unit, largest_at, law_largest, Estimate, Matrix3, Matrix4, Quaternion, UnitQuaternion,
    Vector3,
};

verus! {

/// An entry of a covariance is the sum over the deviations of the products of
/// their coordinates, each with its own weight.
pub proof fn law_covariance_is_weighted<K: Numerics>(
    val: Reading,
    ds: Seq<Vector3>,
    ws: Seq<Num>,
    n: nat,
    m: Matrix3,
    r: int,
    c: int,
)
    requires
        scalars_are_exact::<K>(val),
        is_covariance::<K>(ds, ws, n, m),
        0 <= r < 3,
        0 <= c < 3,
    ensures
        val(m.at(r, c)) == total(
            n,
            |i: int| val(ws[i]) * val(ds[i].coord(r)) * val(ds[i].coord(c)),
        ),
    decreases n,
{
    let f = |i: int| val(ws[i]) * val(ds[i].coord(r)) * val(ds[i].coord(c));
    if n > 0 {
        let prev = choose|prev: Matrix3|
            is_covariance::<K>(ds, ws, (n - 1) as nat, prev) && #[trigger] is_outer_step::<K>(
                ds[n - 1],
                ws[n - 1],
                prev,
                m,
            );
        law_covariance_is_weighted::<K>(val, ds, ws, (n - 1) as nat, prev, r, c);
        let d = ds[n - 1];
        assert(is_accumulated::<K>(
            prev.at(r, c),
            ws[n - 1],
            d.coord(r),
            d.coord(c),
            m.at(r, c),
        ));
        assert(f(n - 1) == val(ws[n - 1]) * val(d.coord(r)) * val(d.coord(c)));
    }
}

/// A particle without weight makes no difference to a covariance, wherever it
/// stands in the cloud.
pub proof fn law_weightless_make_no_difference<K: Numerics>(
    val: Reading,
    ds: Seq<Vector3>,
    ws: Seq<Num>,
    m: Matrix3,
    k: int,
    d: Vector3,
    w: Num,
    more: Matrix3,
    r: int,
    c: int,
)
    requires
        scalars_are_exact::<K>(val),
        ds.len() == ws.len(),
        0 <= k <= ds.len(),
        val(w) == 0real,
        is_covariance::<K>(ds, ws, ds.len(), m),
        is_covariance::<K>(ds.insert(k, d), ws.insert(k, w), ds.len() + 1, more),
        0 <= r < 3,
        0 <= c < 3,
    ensures
        val(more.at(r, c)) == val(m.at(r, c)),
{
    let (ds2, ws2) = (ds.insert(k, d), ws.insert(k, w));
    let g = |i: int| val(ws[i]) * val(ds[i].coord(r)) * val(ds[i].coord(c));
    let f = |i: int| val(ws2[i]) * val(ds2[i].coord(r)) * val(ds2[i].coord(c));
    law_covariance_is_weighted::<K>(val, ds, ws, ds.len(), m, r, c);
    law_covariance_is_weighted::<K>(val, ds2, ws2, ds.len() + 1, more, r, c);
    lemma_total_with_one_more(ds.len(), k, f, g);
    assert(f(k) == 0real) by {
        let (a, b) = (val(d.coord(r)), val(d.coord(c)));
        assert(0real * a * b == 0real) by (nonlinear_arith);
    }
}

/// The particles with their weights.
pub open spec fn pairs<T>(items: Seq<T>, ws: Seq<Num>) -> Seq<(T, Num)> {
    Seq::new(items.len(), |i: int| (items[i], ws[i]))
}

proof fn lemma_total_is_a_fold<T>(
    ps: Seq<(T, Num)>,
    n: nat,
    term: spec_fn((T, Num)) -> real,
    f: spec_fn(int) -> real,
)
    requires
        n <= ps.len(),
        forall|i: int| 0 <= i < n ==> #[trigger] f(i) == term(ps[i]),
    ensures
        total(n, f) == ps.take(n as int).fold_left(0real, |s: real, p: (T, Num)| s + term(p)),
    decreases n,
{
    let grow = |s: real, p: (T, Num)| s + term(p);
    let front = ps.take(n as int);
    if n > 0 {
        lemma_total_is_a_fold(ps, (n - 1) as nat, term, f);
        assert(front.drop_last() =~= ps.take(n - 1));
        assert(front.last() == ps[n - 1]);
        assert(front.fold_left(0real, grow) == grow(
            front.drop_last().fold_left(0real, grow),
            front.last(),
        ));
    } else {
        assert(front =~= seq![]);
    }
}

proof fn lemma_total_of_pairs<T>(
    a: Seq<(T, Num)>,
    b: Seq<(T, Num)>,
    term: spec_fn((T, Num)) -> real,
    f: spec_fn(int) -> real,
    g: spec_fn(int) -> real,
)
    requires
        a.to_multiset() == b.to_multiset(),
        forall|i: int| 0 <= i < a.len() ==> #[trigger] f(i) == term(a[i]),
        forall|i: int| 0 <= i < b.len() ==> #[trigger] g(i) == term(b[i]),
    ensures
        total(a.len(), f) == total(b.len(), g),
{
    let grow = |s: real, p: (T, Num)| s + term(p);
    lemma_total_is_a_fold(a, a.len(), term, f);
    lemma_total_is_a_fold(b, b.len(), term, g);
    assert(a.take(a.len() as int) =~= a);
    assert(b.take(b.len() as int) =~= b);
    assert(commutative_foldl(grow));
    lemma_fold_left_permutation(a, b, grow, 0real);
}

/// The order of the particles makes no difference to a covariance, as long as
/// each keeps its weight.
pub proof fn law_order_makes_no_difference<K: Numerics>(
    val: Reading,
    ds: Seq<Vector3>,
    ws: Seq<Num>,
    m: Matrix3,
    ds2: Seq<Vector3>,
    ws2: Seq<Num>,
    m2: Matrix3,
    r: int,
    c: int,
)
    requires
        scalars_are_exact::<K>(val),
        pairs(ds, ws).to_multiset() == pairs(ds2, ws2).to_multiset(),
        is_covariance::<K>(ds, ws, ds.len(), m),
        is_covariance::<K>(ds2, ws2, ds2.len(), m2),
        0 <= r < 3,
        0 <= c < 3,
    ensures
        val(m.at(r, c)) == val(m2.at(r, c)),
{
    let f = |i: int| val(ws[i]) * val(ds[i].coord(r)) * val(ds[i].coord(c));
    let g = |i: int| val(ws2[i]) * val(ds2[i].coord(r)) * val(ds2[i].coord(c));
    let term = |p: (Vector3, Num)| val(p.1) * val(p.0.coord(r)) * val(p.0.coord(c));
    law_covariance_is_weighted::<K>(val, ds, ws, ds.len(), m, r, c);
    law_covariance_is_weighted::<K>(val, ds2, ws2, ds2.len(), m2, r, c);
    lemma_total_of_pairs(pairs(ds, ws), pairs(ds2, ws2), term, f, g);
}

/// The sum of the squared weights.
proof fn lemma_square_total<K: Numerics>(val: Reading, ws: Seq<Num>, n: nat, s: Num)
    requires
        scalars_are_exact::<K>(val),
        is_square_total::<K>(ws, n, s),
    ensures
        val(s) == total(n, |i: int| val(ws[i]) * val(ws[i])),
        !is_nan(s),
    decreases n,
{
    let f = |i: int| val(ws[i]) * val(ws[i]);
    if n > 0 {
        let (prev, square) = choose|prev: Num, square: Num|
            {
                &&& is_square_total::<K>(ws, (n - 1) as nat, prev)
                &&& is_product::<K>(ws[n - 1], ws[n - 1], square)
                &&& #[trigger] is_sum::<K>(prev, square, s)
            };
        lemma_square_total::<K>(val, ws, (n - 1) as nat, prev);
        assert(f(n - 1) == val(ws[n - 1]) * val(ws[n - 1]));
    }
}

/// The effective sample size times the sum of the squared weights is 1; it is
/// 0 where no weight counts. Equal weights of `1 / n` have the size `n`.
pub proof fn law_ess<K: Numerics>(val: Reading, ws: Seq<Num>, ess: Num)
    requires
        scalars_are_exact::<K>(val),
        is_ess::<K>(ws, ess),
    ensures
        ({
            let squares = total(ws.len(), |i: int| val(ws[i]) * val(ws[i]));
            if 0real < squares {
                val(ess) * squares == 1real
            } else {
                val(ess) == 0real
            }
        }),
{
    let s = choose|s: Num| #[trigger]
        is_square_total::<K>(ws, ws.len(), s) && if less(num(ZERO), s) {
            is_quotient::<K>(num(ONE), s, ess)
        } else {
            ess == num(ZERO)
        };
    lemma_square_total::<K>(val, ws, ws.len(), s);
    let v = val(s);
    if less(num(ZERO), s) {
        assert(1real / v * v == 1real) by (nonlinear_arith)
            requires
                v > 0real,
        ;
    } else if ws.len() > 0 {
        let prev = choose|prev: Num, square: Num|
            {
                &&& is_square_total::<K>(ws, (ws.len() - 1) as nat, prev)
                &&& is_product::<K>(
                    ws[ws.len() - 1],
                    ws[ws.len() - 1],
                    square,
                )
                &&& #[trigger] is_sum::<K>(prev, square, s)
            };
    }
}

/// Coordinate `c` of the mean position is the sum of the particles'
/// coordinates, each times its own weight.
pub proof fn law_mean_is_weighted<K: Numerics>(
    val: Reading,
    pos: Seq<Vector3>,
    ws: Seq<Num>,
    n: nat,
    m: Vector3,
    c: int,
)
    requires
        scalars_are_exact::<K>(val),
        vectors_are_exact::<K>(val),
        is_position_total::<K>(pos, ws, n, m),
        0 <= c < 3,
    ensures
        val(m.coord(c)) == total(n, |i: int| val(pos[i].coord(c)) * val(ws[i])),
    decreases n,
{
    let f = |i: int| val(pos[i].coord(c)) * val(ws[i]);
    if n > 0 {
        let (prev, p) = choose|prev: Vector3, p: Vector3|
            {
                &&& is_position_total::<K>(pos, ws, (n - 1) as nat, prev)
                &&& is_v_product::<K>(pos[n - 1], ws[n - 1], p)
                &&& #[trigger] is_v_sum::<K>(prev, p, m)
            };
        law_mean_is_weighted::<K>(val, pos, ws, (n - 1) as nat, prev, c);
        assert(f(n - 1) == val(pos[n - 1].coord(c)) * val(ws[n - 1]));
    }
}

/// An entry of the attitudes' moment matrix is the sum of the products of their
/// quaternion parts, each with its own weight: `q` and `-q` count alike.
pub proof fn law_moment_is_weighted<K: Numerics>(
    val: Reading,
    att: Seq<UnitQuaternion>,
    ws: Seq<Num>,
    n: nat,
    m: Matrix4,
    r: int,
    c: int,
)
    requires
        scalars_are_exact::<K>(val),
        is_moment::<K>(att, ws, n, m),
        0 <= r < 4,
        0 <= c < 4,
    ensures
        val(m.at(r, c)) == total(
            n,
            |i: int| val(ws[i]) * val(att[i].q.coord(r)) * val(att[i].q.coord(c)),
        ),
    decreases n,
{
    let f = |i: int| val(ws[i]) * val(att[i].q.coord(r)) * val(att[i].q.coord(c));
    if n > 0 {
        let prev = choose|prev: Matrix4|
            is_moment::<K>(att, ws, (n - 1) as nat, prev) && #[trigger] is_moment_step::<K>(
                att[n - 1].q,
                ws[n - 1],
                prev,
                m,
            );
        law_moment_is_weighted::<K>(val, att, ws, (n - 1) as nat, prev, r, c);
        let q = att[n - 1].q;
        assert(is_accumulated::<K>(
            prev.at(r, c),
            ws[n - 1],
            q.coord(r),
            q.coord(c),
            m.at(r, c),
        ));
        assert(f(n - 1) == val(ws[n - 1]) * val(q.coord(r)) * val(q.coord(c)));
    }
}

proof fn lemma_scale_back(x: real, l: real, a: real)
    requires
        l > 0real,
    ensures
        x / l * a * l == x * a,
{
    assert(x / l * a * l == x * a) by (nonlinear_arith)
        requires
            l > 0real,
    ;
}

/// A rotation vector lies along the axis of its rotation, the axis that goes
/// with a scalar part that is not negative, and is as long as the angle: twice
/// the arc tangent of the axis' length over the scalar part's size.
pub proof fn law_rotation_vector<K: Numerics>(val: Reading, q: Quaternion, v: Vector3, norm: Num)
    requires
        scalars_are_exact::<K>(val),
        vectors_are_exact::<K>(val),
        vectors_repeat::<K>(),
        is_rotation_vector::<K>(q, v),
        is_v_norm::<K>(Vector3 { x: q.i, y: q.j, z: q.k }, norm) || val(q.w) < 0real,
        is_v_norm::<K>(
            Vector3 { x: negated(q.i), y: negated(q.j), z: negated(q.k) },
            norm,
        ) || 0real <= val(q.w),
        !is_nan(q.w),
        0real < val(num(NANO)),
    ensures
        val(norm) <= val(num(NANO)) ==> v == Vector3::zeros(),
        val(num(NANO)) < val(norm) ==> exists|half: Num|
            {
                &&& #[trigger] is_atan2::<K>(norm, absolute(q.w), half)
                &&& val(v.x) * val(norm) == (if val(q.w) < 0real {
                    -val(q.i)
                } else {
                    val(q.i)
                }) * (2real * val(half))
                &&& val(v.y) * val(norm) == (if val(q.w) < 0real {
                    -val(q.j)
                } else {
                    val(q.j)
                }) * (2real * val(half))
                &&& val(v.z) * val(norm) == (if val(q.w) < 0real {
                    -val(q.k)
                } else {
                    val(q.k)
                }) * (2real * val(half))
            },
{
    let axis = canonical_axis(q);
    let len = choose|norm: Num| #[trigger]
        is_v_norm::<K>(axis, norm) && if less(num(NANO), norm) {
            is_turned_axis::<K>(axis, norm, absolute(q.w), v)
        } else {
            v == Vector3::zeros()
        };
    assert(len == norm);
    if less(num(NANO), norm) {
        let (half, angle, unit) = choose|half: Num, angle: Num, unit: Vector3|
            {
                &&& #[trigger] is_atan2::<K>(norm, absolute(q.w), half)
                &&& is_product::<K>(num(TWO), half, angle)
                &&& #[trigger] is_v_unit::<K>(axis, unit)
                &&& #[trigger] is_v_product::<K>(unit, angle, v)
            };
        let (l, a) = (val(norm), val(angle));
        lemma_scale_back(val(axis.x), l, a);
        lemma_scale_back(val(axis.y), l, a);
        lemma_scale_back(val(axis.z), l, a);
        assert(val(v.x) * l == (val(axis.x) / l) * a * l);
        assert(val(v.y) * l == (val(axis.y) / l) * a * l);
        assert(val(v.z) * l == (val(axis.z) / l) * a * l);
    }
}

/// The estimate of a cloud. The position covariance is that of the particles'
/// distances from the mean, and the attitude covariance that of their turns
/// from it, each particle with its own weight.
pub proof fn law_estimate<K: Numerics>(
    val: Reading,
    pos: Seq<Vector3>,
    att: Seq<UnitQuaternion>,
    ws: Seq<Num>,
    e: Estimate,
    r: int,
    c: int,
)
    requires
        scalars_are_exact::<K>(val),
        vectors_are_exact::<K>(val),
        is_estimate::<K>(pos, att, ws, e),
        0 <= r < 3,
        0 <= c < 3,
    ensures
        val(e.mean.position.coord(c)) == total(
            pos.len(),
            |i: int| val(pos[i].coord(c)) * val(ws[i]),
        ),
        val(e.pos_cov.at(r, c)) == total(
            pos.len(),
            |i: int|
                val(ws[i]) * (val(pos[i].coord(r)) - val(e.mean.position.coord(r))) * (val(
                    pos[i].coord(c),
                ) - val(e.mean.position.coord(c))),
        ),
        exists|turns: Seq<Vector3>|
            {
                &&& turns.len() == att.len()
                &&& forall|i: int|
                    0 <= i < att.len() ==> is_tangent::<K>(
                        e.mean.attitude,
                        att[i],
                        #[trigger] turns[i],
                    )
                &&& val(e.att_cov.at(r, c)) == total(
                    att.len(),
                    |i: int| val(ws[i]) * val(turns[i].coord(r)) * val(turns[i].coord(c)),
                )
            },
        e.valid,
{
    law_mean_is_weighted::<K>(val, pos, ws, pos.len(), e.mean.position, c);
    let mean = e.mean.position;
    let ds = choose|ds: Seq<Vector3>| #[trigger]
        are_offsets::<K>(pos, mean, ds) && is_covariance::<K>(ds, ws, ds.len(), e.pos_cov);
    law_covariance_is_weighted::<K>(val, ds, ws, ds.len(), e.pos_cov, r, c);
    let f = |i: int| val(ws[i]) * val(ds[i].coord(r)) * val(ds[i].coord(c));
    let g = |i: int|
        val(ws[i]) * (val(pos[i].coord(r)) - val(mean.coord(r))) * (val(pos[i].coord(c)) - val(
            mean.coord(c),
        ));
    assert forall|i: int| 0 <= i < pos.len() implies #[trigger] f(i) == g(i) by {
        assert(is_v_difference::<K>(pos[i], mean, ds[i]));
    }
    lemma_total_of_equals(pos.len(), f, g);
    let ts = choose|ts: Seq<Vector3>| #[trigger]
        are_tangents::<K>(att, e.mean.attitude, ts) && is_covariance::<K>(
            ts,
            ws,
            ts.len(),
            e.att_cov,
        );
    law_covariance_is_weighted::<K>(val, ts, ws, ts.len(), e.att_cov, r, c);
}

/// A turn from the mean is the rotation that takes the mean to the attitude.
pub proof fn law_turn_from_the_mean<K: Numerics>(
    mean: UnitQuaternion,
    att: UnitQuaternion,
    v: Vector3,
    turn: UnitQuaternion,
)
    requires
        turns_are_undone::<K>(),
        vectors_repeat::<K>(),
        is_composed::<K>(mean, turn, att),
        is_tangent::<K>(mean, att, v),
    ensures
        is_rotation_vector::<K>(turn.q, v),
{
    let (inv, dq) = choose|inv: UnitQuaternion, dq: UnitQuaternion|
        {
            &&& is_inverse::<K>(mean, inv)
            &&& #[trigger] is_composed::<K>(inv, att, dq)
            &&& is_rotation_vector::<K>(dq.q, v)
        };
    assert(dq == turn);
}

/// A quaternion and its opposite stand for one rotation, and have the same
/// rotation vectors where the scalar part is neither zero nor a NaN.
pub proof fn law_opposites_turn_alike<K: Numerics>(q: Quaternion, v: Vector3)
    requires
        !is_nan(q.w),
        rank(q.w) != 0,
    ensures
        is_rotation_vector::<K>(q, v) == is_rotation_vector::<K>(
            Quaternion { w: negated(q.w), i: negated(q.i), j: negated(q.j), k: negated(q.k) },
            v,
        ),
{
    let p = Quaternion { w: negated(q.w), i: negated(q.i), j: negated(q.j), k: negated(q.k) };
    assert(canonical_axis(p) == canonical_axis(q));
    assert(absolute(p.w) == absolute(q.w));
}

/// `m` times the vector with the coordinates of `v`, in row `r`.
pub open spec fn row_times(val: Reading, m: Matrix4, v: Quaternion, r: int) -> real {
    val(m.at(r, 0)) * val(v.w) + val(m.at(r, 1)) * val(v.i) + val(m.at(r, 2)) * val(v.j) + val(
        m.at(r, 3),
    ) * val(v.k)
}

/// `v` is an eigenvector of `m` for the eigenvalue `x`.
pub open spec fn is_eigenvector(val: Reading, m: Matrix4, x: real, v: Quaternion) -> bool {
    forall|r: int| 0 <= r < 4 ==> #[trigger] row_times(val, m, v, r) == x * val(v.coord(r))
}

/// The eigenvalues and eigenvectors of symmetric matrices are found exactly.
pub open spec fn eigen_is_exact<K: Numerics>(val: Reading) -> bool {
    forall|m: Matrix4, es: ([Num; 4], Matrix4)| #[trigger]
        is_eigen::<K>(m, es) && is_symmetric(val, m) ==> forall|c: int|
            0 <= c < 4 ==> !is_nan(es.0@[c]) && #[trigger] is_eigenvector(
                val,
                m,
                val(es.0@[c]),
                Quaternion { w: es.1.at(0, c), i: es.1.at(1, c), j: es.1.at(2, c), k: es.1.at(3, c) },
            )
}

pub open spec fn is_symmetric(val: Reading, m: Matrix4) -> bool {
    forall|r: int, c: int|
        0 <= r < 4 && 0 <= c < 4 ==> val(#[trigger] m.at(r, c)) == val(m.at(c, r))
}

/// The mean that a moment matrix gives is the unit quaternion along an
/// eigenvector of the matrix' symmetric part, one whose eigenvalue is not below
/// any other. Where its scalar part would be negative, the opposite one is
/// taken.
pub proof fn law_mean_attitude<K: Numerics>(val: Reading, m: Matrix4, r: UnitQuaternion)
    requires
        scalars_are_exact::<K>(val),
        eigen_is_exact::<K>(val),
        is_quat_mean::<K>(m, r),
    ensures
        exists|s: Matrix4, es: ([Num; 4], Matrix4), v: Quaternion, x: Num|
            {
                &&& forall|i: int, j: int|
                    0 <= i < 4 && 0 <= j < 4 ==> val(#[trigger] s.at(i, j)) == (val(m.at(i, j))
                        + val(m.at(j, i))) / 2real
                &&& #[trigger] is_eigen::<K>(s, es)
                &&& #[trigger] is_eigenvector(val, s, val(x), v)
                &&& forall|c: int| 0 <= c < 4 ==> val(#[trigger] es.0@[c]) <= val(x)
                &&& exists|u: UnitQuaternion| #[trigger]
                    is_q_unit::<K>(v, u) && if less(u.q.w, num(ZERO)) {
                        is_q_unit::<K>(
                            Quaternion {
                                w: negated(v.w),
                                i: negated(v.i),
                                j: negated(v.j),
                                k: negated(v.k),
                            },
                            r,
                        )
                    } else {
                        r == u
                    }
            },
{
    let (s, es) = choose|sym: Matrix4, es: ([Num; 4], Matrix4)|
        {
            &&& is_symmetrized::<K>(m, sym)
            &&& #[trigger] is_eigen::<K>(sym, es)
            &&& is_upper_unit::<K>(column(es.1, largest_at(es.0@, 4)), r)
        };
    assert forall|i: int, j: int| 0 <= i < 4 && 0 <= j < 4 implies val(#[trigger] s.at(i, j)) == (
    val(m.at(i, j)) + val(m.at(j, i))) / 2real by {
        assert(is_midpoint::<K>(m.at(j, i), m.at(i, j), s.at(i, j)));
        let (a, b) = (val(m.at(j, i)), val(m.at(i, j)));
        assert(a * (1real / 2real) + b * (1real / 2real) == (b + a) / 2real) by (nonlinear_arith);
    }
    assert(is_symmetric(val, s));
    let c = largest_at(es.0@, 4);
    let v = column(es.1, c);
    assert forall|k: int| 0 <= k < 4 implies !is_nan(#[trigger] es.0@[k]) by {
        assert(is_eigenvector(
            val,
            s,
            val(es.0@[k]),
            Quaternion { w: es.1.at(0, k), i: es.1.at(1, k), j: es.1.at(2, k), k: es.1.at(3, k) },
        ));
    }
    law_largest(es.0@, 4);
    let x = es.0@[c];
    assert(is_eigenvector(val, s, val(x), v));
    assert forall|k: int| 0 <= k < 4 implies val(#[trigger] es.0@[k]) <= val(x) by {
        assert(at_most(es.0@[k], x));
    }
}

} // verus!
