//! What follows where equal arguments give equal results.
//!
//! Contracts relate arguments to results, whatever the arithmetic does. Where
//! it also answers equal arguments alike, as binary64 arithmetic does, each
//! operation of the library is a function: two runs that start alike and make
//! the same calls end alike.
use rand::rngs::SmallRng;
use vstd::prelude::*;

use crate::config::PfConfig;
use crate::cpu::{law_resampling_keeps_the_cloud, law_weighting_ignores_unknown, Cloud};
use crate::likelihood::{
    any_known, is_added_term, is_cartesian_penalty, is_cartesian_term, is_gate_limit, is_gated,
    is_half_precision, is_log_likelihood, is_model, is_observed, is_penalty, is_predicted,
    is_product3, is_range_bearing_residual, is_residual_term, known, ObsModel,
};
use crate::moments::{
    are_offsets, are_tangents, canonical_axis, is_covariance, is_ess, is_estimate, is_moment,
    is_outer_step, is_position_total, is_rotation_vector, is_square_total, is_tangent,
    is_turned_axis,
};
use crate::motion::{
    is_displaced, is_moved, is_noise, is_scaled, is_small_turn, is_spread, is_triple_draw,
    is_turned,
};
use crate::num::{
    absolute, larger, less, negated, num, Num, MICRO, MINUS_HALF, NANO, ONE, THREE, TWO, ZERO,
};
use crate::numerics::{
    is_acos, is_atan2, is_composed, is_difference, is_draw_between, is_eigen, is_exp,
    is_from_single, is_from_u64, is_inverse, is_normal_draw, is_parse_of, is_product, is_q_unit,
    is_quotient, is_rotated, is_sin_cos, is_sum, is_to_id, is_to_index, is_to_single, is_turn,
    is_uniform_draw, is_unrotated, is_v_difference, is_v_dot, is_v_norm, is_v_norm_squared,
    is_v_product, is_v_quotient, is_v_sum, is_v_unit, Numerics,
};
use crate::resampling::{
    are_picks, are_prefix_sums, chosen, is_comb, is_drawn, is_injected, is_injection,
    is_injection_count, is_jitter, is_jittered, is_moved_at, is_pick, is_prefix_sum, is_redrawn,
    is_resampled, is_selection, is_target, law_injections_move_as_many, settle, swapped, Injecting,
    RESAMPLE_STREAM,
};
use crate::rng::{is_index_draw, is_seeded, stream_seed};
use crate::types::{
    column, is_accumulated, is_midpoint, is_moment_step, is_quat_mean, is_symmetrized,
    is_upper_unit, largest_at, Estimate, Matrix3, Matrix4, ObsMode, Observation, OdomDelta,
    Particle, Pose, Quaternion, UnitQuaternion, Vector3,
};
use crate::weights::{
    are_normalized, are_normalized_by, are_uniform, is_degenerate, is_share, is_shifted, is_stored,
    is_total, is_uniform_weight, peak,
};

verus! {

/// Equal numbers give equal results.
pub open spec fn scalars_repeat<K: Numerics>() -> bool {
    &&& forall|a: Num, b: Num, r: Num, s: Num|
        #[trigger] is_sum::<K>(a, b, r) && #[trigger] is_sum::<K>(a, b, s) ==> r == s
    &&& forall|a: Num, b: Num, r: Num, s: Num|
        #[trigger] is_difference::<K>(a, b, r) && #[trigger] is_difference::<K>(a, b, s) ==> r == s
    &&& forall|a: Num, b: Num, r: Num, s: Num|
        #[trigger] is_product::<K>(a, b, r) && #[trigger] is_product::<K>(a, b, s) ==> r == s
    &&& forall|a: Num, b: Num, r: Num, s: Num|
        #[trigger] is_quotient::<K>(a, b, r) && #[trigger] is_quotient::<K>(a, b, s) ==> r == s
    &&& forall|a: Num, r: Num, s: Num|
        #[trigger] is_exp::<K>(a, r) && #[trigger] is_exp::<K>(a, s) ==> r == s
    &&& forall|a: Num, r: Num, s: Num|
        #[trigger] is_acos::<K>(a, r) && #[trigger] is_acos::<K>(a, s) ==> r == s
    &&& forall|a: Num, r: (Num, Num), s: (Num, Num)|
        #[trigger] is_sin_cos::<K>(a, r) && #[trigger] is_sin_cos::<K>(a, s) ==> r == s
    &&& forall|a: Num, b: Num, r: Num, s: Num|
        #[trigger] is_atan2::<K>(a, b, r) && #[trigger] is_atan2::<K>(a, b, s) ==> r == s
    &&& forall|a: u64, r: Num, s: Num|
        #[trigger] is_from_u64::<K>(a, r) && #[trigger] is_from_u64::<K>(a, s) ==> r == s
    &&& forall|a: Num, r: usize, s: usize|
        #[trigger] is_to_index::<K>(a, r) && #[trigger] is_to_index::<K>(a, s) ==> r == s
    &&& forall|a: Num, r: i32, s: i32|
        #[trigger] is_to_id::<K>(a, r) && #[trigger] is_to_id::<K>(a, s) ==> r == s
    &&& forall|a: Num, r: u32, s: u32|
        #[trigger] is_to_single::<K>(a, r) && #[trigger] is_to_single::<K>(a, s) ==> r == s
    &&& forall|a: u32, r: Num, s: Num|
        #[trigger] is_from_single::<K>(a, r) && #[trigger] is_from_single::<K>(a, s) ==> r == s
    &&& forall|a: Seq<char>, r: Result<Num, String>, s: Result<Num, String>|
        #[trigger] is_parse_of::<K>(a, r) && #[trigger] is_parse_of::<K>(a, s) ==> same_parse(r, s)
}

/// Two parses agree: on the number, or on the message.
pub open spec fn same_parse(r: Result<Num, String>, s: Result<Num, String>) -> bool {
    match (r, s) {
        (Ok(x), Ok(y)) => x == y,
        (Err(d), Err(e)) => d@ == e@,
        _ => false,
    }
}

/// Equal vectors and rotations give equal results.
pub open spec fn vectors_repeat<K: Numerics>() -> bool {
    &&& forall|a: Vector3, b: Vector3, r: Vector3, s: Vector3|
        #[trigger] is_v_sum::<K>(a, b, r) && #[trigger] is_v_sum::<K>(a, b, s) ==> r == s
    &&& forall|a: Vector3, b: Vector3, r: Vector3, s: Vector3|
        #[trigger] is_v_difference::<K>(a, b, r) && #[trigger] is_v_difference::<K>(a, b, s) ==> r == s
    &&& forall|a: Vector3, b: Num, r: Vector3, s: Vector3|
        #[trigger] is_v_product::<K>(a, b, r) && #[trigger] is_v_product::<K>(a, b, s) ==> r == s
    &&& forall|a: Vector3, b: Num, r: Vector3, s: Vector3|
        #[trigger] is_v_quotient::<K>(a, b, r) && #[trigger] is_v_quotient::<K>(a, b, s) ==> r == s
    &&& forall|a: Vector3, b: Vector3, r: Num, s: Num|
        #[trigger] is_v_dot::<K>(a, b, r) && #[trigger] is_v_dot::<K>(a, b, s) ==> r == s
    &&& forall|a: Vector3, r: Num, s: Num|
        #[trigger] is_v_norm::<K>(a, r) && #[trigger] is_v_norm::<K>(a, s) ==> r == s
    &&& forall|a: Vector3, r: Num, s: Num|
        #[trigger] is_v_norm_squared::<K>(a, r) && #[trigger] is_v_norm_squared::<K>(a, s) ==> r == s
    &&& forall|a: Vector3, r: Vector3, s: Vector3|
        #[trigger] is_v_unit::<K>(a, r) && #[trigger] is_v_unit::<K>(a, s) ==> r == s
    &&& forall|a: UnitQuaternion, b: Vector3, r: Vector3, s: Vector3|
        #[trigger] is_rotated::<K>(a, b, r) && #[trigger] is_rotated::<K>(a, b, s) ==> r == s
    &&& forall|a: UnitQuaternion, b: Vector3, r: Vector3, s: Vector3|
        #[trigger] is_unrotated::<K>(a, b, r) && #[trigger] is_unrotated::<K>(a, b, s) ==> r == s
    &&& forall|a: UnitQuaternion, b: UnitQuaternion, r: UnitQuaternion, s: UnitQuaternion|
        #[trigger] is_composed::<K>(a, b, r) && #[trigger] is_composed::<K>(a, b, s) ==> r == s
    &&& forall|a: UnitQuaternion, r: UnitQuaternion, s: UnitQuaternion|
        #[trigger] is_inverse::<K>(a, r) && #[trigger] is_inverse::<K>(a, s) ==> r == s
    &&& forall|a: Vector3, b: Num, r: UnitQuaternion, s: UnitQuaternion|
        #[trigger] is_turn::<K>(a, b, r) && #[trigger] is_turn::<K>(a, b, s) ==> r == s
    &&& forall|a: Quaternion, r: UnitQuaternion, s: UnitQuaternion|
        #[trigger] is_q_unit::<K>(a, r) && #[trigger] is_q_unit::<K>(a, s) ==> r == s
}

/// Equal matrices give equal results.
pub open spec fn matrices_repeat<K: Numerics>() -> bool {
    forall|a: Matrix4, r: ([Num; 4], Matrix4), s: ([Num; 4], Matrix4)|
        #[trigger] is_eigen::<K>(a, r) && #[trigger] is_eigen::<K>(a, s) ==> r == s
}

/// Equal generators give equal draws, and equal seeds equal generators.
pub open spec fn draws_repeat<K: Numerics>() -> bool {
    &&& forall|a: SmallRng, r: (Num, SmallRng), s: (Num, SmallRng)|
        #[trigger] is_normal_draw::<K>(a, r) && #[trigger] is_normal_draw::<K>(a, s) ==> r == s
    &&& forall|a: SmallRng, r: (Num, SmallRng), s: (Num, SmallRng)|
        #[trigger] is_uniform_draw::<K>(a, r) && #[trigger] is_uniform_draw::<K>(a, s) ==> r == s
    &&& forall|a: SmallRng, lo: Num, hi: Num, r: (Num, SmallRng), s: (Num, SmallRng)|
        #[trigger] is_draw_between::<K>(a, lo, hi, r) && #[trigger] is_draw_between::<K>(
            a,
            lo,
            hi,
            s,
        ) ==> r == s
    &&& forall|a: u64, r: SmallRng, s: SmallRng|
        #[trigger] is_seeded(a, r) && #[trigger] is_seeded(a, s) ==> r == s
    &&& forall|a: SmallRng, n: usize, i: usize, r: SmallRng, j: usize, s: SmallRng|
        #[trigger] is_index_draw(a, n, i, r) && #[trigger] is_index_draw(a, n, j, s) ==> i == j && r
            == s
}

/// Equal arguments give equal results.
pub open spec fn repeats<K: Numerics>() -> bool {
    &&& scalars_repeat::<K>()
    &&& vectors_repeat::<K>()
    &&& matrices_repeat::<K>()
    &&& draws_repeat::<K>()
}

// ------------------------------------------------------------------- motion

proof fn lemma_triple_draw<K: Numerics>(rng: SmallRng, v: Vector3, a: SmallRng, w: Vector3, b: SmallRng)
    requires
        draws_repeat::<K>(),
        is_triple_draw::<K>(rng, v, a),
        is_triple_draw::<K>(rng, w, b),
    ensures
        v == w && a == b,
{
}

proof fn lemma_noise<K: Numerics>(seed: u64, n: Vector3, w: Vector3, n2: Vector3, w2: Vector3)
    requires
        draws_repeat::<K>(),
        is_noise::<K>(seed, n, w),
        is_noise::<K>(seed, n2, w2),
    ensures
        n == n2 && w == w2,
{
    let (rng, mid, end) = choose|rng: SmallRng, mid: SmallRng, end: SmallRng|
        {
            &&& is_seeded(seed, rng)
            &&& #[trigger] is_triple_draw::<K>(rng, n, mid)
            &&& #[trigger] is_triple_draw::<K>(mid, w, end)
        };
    let (rng2, mid2, end2) = choose|rng: SmallRng, mid: SmallRng, end: SmallRng|
        {
            &&& is_seeded(seed, rng)
            &&& #[trigger] is_triple_draw::<K>(rng, n2, mid)
            &&& #[trigger] is_triple_draw::<K>(mid, w2, end)
        };
    lemma_triple_draw::<K>(rng, n, mid, n2, mid2);
    lemma_triple_draw::<K>(mid, w, end, w2, end2);
}

proof fn lemma_small_turn<K: Numerics>(axis: Vector3, p: UnitQuaternion, q: UnitQuaternion)
    requires
        vectors_repeat::<K>(),
        is_small_turn::<K>(axis, p),
        is_small_turn::<K>(axis, q),
    ensures
        p == q,
{
}

proof fn lemma_spread<K: Numerics>(
    seed: u64,
    pose: Pose,
    pos_std: Vector3,
    rot_std: Vector3,
    p: Vector3,
    a: UnitQuaternion,
    q: Vector3,
    b: UnitQuaternion,
)
    requires
        repeats::<K>(),
        is_spread::<K>(seed, pose, pos_std, rot_std, p, a),
        is_spread::<K>(seed, pose, pos_std, rot_std, q, b),
    ensures
        p == q && a == b,
{
    let (n, w, off, axis, dq) = choose|
        n: Vector3,
        w: Vector3,
        off: Vector3,
        axis: Vector3,
        dq: UnitQuaternion,
    |
        {
            &&& #[trigger] is_noise::<K>(seed, n, w)
            &&& #[trigger] is_scaled::<K>(pos_std, n, off)
            &&& is_v_sum::<K>(pose.position, off, p)
            &&& #[trigger] is_scaled::<K>(rot_std, w, axis)
            &&& #[trigger] is_small_turn::<K>(axis, dq)
            &&& is_composed::<K>(pose.attitude, dq, a)
        };
    let (n2, w2, off2, axis2, dq2) = choose|
        n: Vector3,
        w: Vector3,
        off: Vector3,
        axis: Vector3,
        dq: UnitQuaternion,
    |
        {
            &&& #[trigger] is_noise::<K>(seed, n, w)
            &&& #[trigger] is_scaled::<K>(pos_std, n, off)
            &&& is_v_sum::<K>(pose.position, off, q)
            &&& #[trigger] is_scaled::<K>(rot_std, w, axis)
            &&& #[trigger] is_small_turn::<K>(axis, dq)
            &&& is_composed::<K>(pose.attitude, dq, b)
        };
    lemma_noise::<K>(seed, n, w, n2, w2);
    lemma_small_turn::<K>(axis, dq, dq2);
}

proof fn lemma_moved<K: Numerics>(
    seed: u64,
    odom: OdomDelta,
    pos: Vector3,
    att: UnitQuaternion,
    p: Vector3,
    a: UnitQuaternion,
    q: Vector3,
    b: UnitQuaternion,
)
    requires
        repeats::<K>(),
        is_moved::<K>(seed, odom, pos, att, p, a),
        is_moved::<K>(seed, odom, pos, att, q, b),
    ensures
        p == q && a == b,
{
    let (n, w, off, axis, dq) = choose|
        n: Vector3,
        w: Vector3,
        off: Vector3,
        axis: Vector3,
        dq: UnitQuaternion,
    |
        {
            &&& #[trigger] is_noise::<K>(seed, n, w)
            &&& #[trigger] is_scaled::<K>(odom.trans_noise, n, off)
            &&& is_displaced::<K>(pos, att, odom.translation, off, p)
            &&& #[trigger] is_scaled::<K>(odom.rot_noise, w, axis)
            &&& #[trigger] is_small_turn::<K>(axis, dq)
            &&& is_turned::<K>(att, odom.rotation, dq, a)
        };
    let (n2, w2, off2, axis2, dq2) = choose|
        n: Vector3,
        w: Vector3,
        off: Vector3,
        axis: Vector3,
        dq: UnitQuaternion,
    |
        {
            &&& #[trigger] is_noise::<K>(seed, n, w)
            &&& #[trigger] is_scaled::<K>(odom.trans_noise, n, off)
            &&& is_displaced::<K>(pos, att, odom.translation, off, q)
            &&& #[trigger] is_scaled::<K>(odom.rot_noise, w, axis)
            &&& #[trigger] is_small_turn::<K>(axis, dq)
            &&& is_turned::<K>(att, odom.rotation, dq, b)
        };
    lemma_noise::<K>(seed, n, w, n2, w2);
    lemma_small_turn::<K>(axis, dq, dq2);
}

// --------------------------------------------------------------- likelihood

pub(crate) proof fn lemma_product3<K: Numerics>(
    a: Num,
    b: Num,
    c: Num,
    r: Num,
    r2: Num,
)
    requires
        repeats::<K>(),
        is_product3::<K>(a, b, c, r),
        is_product3::<K>(a, b, c, r2),
    ensures
        r == r2,
{
}

proof fn lemma_half_precision<K: Numerics>(
    s: Num,
    r: Num,
    r2: Num,
)
    requires
        repeats::<K>(),
        is_half_precision::<K>(s, r),
        is_half_precision::<K>(s, r2),
    ensures
        r == r2,
{
    let d = choose|d: Num| #[trigger]
        is_product3::<K>(num(TWO), s, s, d) && is_quotient::<K>(num(ONE), d, r);
    let d2 = choose|d: Num| #[trigger]
        is_product3::<K>(num(TWO), s, s, d) && is_quotient::<K>(num(ONE), d, r2);
    lemma_product3::<K>(num(TWO), s, s, d, d2);
}

proof fn lemma_gate_limit<K: Numerics>(
    g: Num,
    s: Num,
    r: Num,
    r2: Num,
)
    requires
        repeats::<K>(),
        is_gate_limit::<K>(g, s, r),
        is_gate_limit::<K>(g, s, r2),
    ensures
        r == r2,
{
    let d = choose|d: Num| #[trigger] is_product::<K>(g, g, d) && is_product3::<K>(d, s, s, r);
    lemma_product3::<K>(d, s, s, r, r2);
}

pub(crate) proof fn lemma_model<K: Numerics>(
    cfg: PfConfig,
    m: ObsModel,
    m2: ObsModel,
)
    requires
        repeats::<K>(),
        is_model::<K>(cfg, m),
        is_model::<K>(cfg, m2),
    ensures
        m == m2,
{
    let sr = larger(cfg.range_noise, num(MICRO));
    let sb = larger(cfg.bearing_noise, num(MICRO));
    lemma_half_precision::<K>(sr, m.inv2rr, m2.inv2rr);
    lemma_half_precision::<K>(sb, m.inv2bb, m2.inv2bb);
    lemma_gate_limit::<K>(m.gate, sr, m.rng_gate2, m2.rng_gate2);
    lemma_gate_limit::<K>(m.gate, sb, m.brg_gate2, m2.brg_gate2);
}

pub(crate) proof fn lemma_residual_term<K: Numerics>(
    e: Num,
    inv2: Num,
    g: Num,
    limit: Num,
    t: Num,
    t2: Num,
)
    requires
        repeats::<K>(),
        is_residual_term::<K>(e, inv2, g, limit, t),
        is_residual_term::<K>(e, inv2, g, limit, t2),
    ensures
        t == t2,
{
    let sq = choose|sq: Num| #[trigger]
        is_product::<K>(e, e, sq) && if is_gated(g, sq, limit) {
            is_penalty::<K>(g, t)
        } else {
            is_product3::<K>(negated(e), e, inv2, t)
        };
    if is_gated(g, sq, limit) {
        lemma_product3::<K>(num(MINUS_HALF), g, g, t, t2);
    } else {
        lemma_product3::<K>(negated(e), e, inv2, t, t2);
    }
}

proof fn lemma_cartesian_penalty<K: Numerics>(g: Num, t: Num, t2: Num)
    requires
        repeats::<K>(),
        is_cartesian_penalty::<K>(g, t),
        is_cartesian_penalty::<K>(g, t2),
    ensures
        t == t2,
{
    let one = choose|one: Num| #[trigger]
        is_penalty::<K>(g, one) && is_product::<K>(one, num(THREE), t);
    let one2 = choose|one: Num| #[trigger]
        is_penalty::<K>(g, one) && is_product::<K>(one, num(THREE), t2);
    lemma_product3::<K>(num(MINUS_HALF), g, g, one, one2);
}

pub(crate) proof fn lemma_cartesian_term<K: Numerics>(
    m: ObsModel,
    pred: Vector3,
    seen: Vector3,
    t: Num,
    t2: Num,
)
    requires
        repeats::<K>(),
        is_cartesian_term::<K>(m, pred, seen, t),
        is_cartesian_term::<K>(m, pred, seen, t2),
    ensures
        t == t2,
{
    let (e, r2) = choose|e: Vector3, r2: Num|
        {
            &&& is_v_difference::<K>(pred, seen, e)
            &&& #[trigger] is_v_norm_squared::<K>(e, r2)
            &&& if is_gated(m.gate, r2, m.rng_gate2) {
                is_cartesian_penalty::<K>(m.gate, t)
            } else {
                is_product::<K>(negated(r2), m.inv2rr, t)
            }
        };
    if is_gated(m.gate, r2, m.rng_gate2) {
        lemma_cartesian_penalty::<K>(m.gate, t, t2);
    }
}

pub(crate) proof fn lemma_rb_residual<K: Numerics>(
    pred: Vector3,
    o: Observation,
    er: Num,
    eb: Num,
    er2: Num,
    eb2: Num,
)
    requires
        repeats::<K>(),
        is_range_bearing_residual::<K>(pred, o, er, eb),
        is_range_bearing_residual::<K>(pred, o, er2, eb2),
    ensures
        er == er2 && eb == eb2,
{
}

proof fn lemma_added_term<K: Numerics>(
    ll: Num,
    e: Num,
    inv2: Num,
    g: Num,
    limit: Num,
    next: Num,
    next2: Num,
)
    requires
        repeats::<K>(),
        is_added_term::<K>(ll, e, inv2, g, limit, next),
        is_added_term::<K>(ll, e, inv2, g, limit, next2),
    ensures
        next == next2,
{
    let t = choose|t: Num| #[trigger]
        is_residual_term::<K>(e, inv2, g, limit, t) && is_sum::<K>(ll, t, next);
    let t2 = choose|t: Num| #[trigger]
        is_residual_term::<K>(e, inv2, g, limit, t) && is_sum::<K>(ll, t, next2);
    lemma_residual_term::<K>(e, inv2, g, limit, t, t2);
}

proof fn lemma_observed<K: Numerics>(
    m: ObsModel,
    pred: Vector3,
    o: Observation,
    ll: Num,
    next: Num,
    next2: Num,
)
    requires
        repeats::<K>(),
        is_observed::<K>(m, pred, o, ll, next),
        is_observed::<K>(m, pred, o, ll, next2),
    ensures
        next == next2,
{
    match o.mode {
        ObsMode::Cartesian => {
            let t = choose|t: Num| #[trigger]
                is_cartesian_term::<K>(m, pred, o.vector, t) && is_sum::<K>(ll, t, next);
            let t2 = choose|t: Num| #[trigger]
                is_cartesian_term::<K>(m, pred, o.vector, t) && is_sum::<K>(ll, t, next2);
            lemma_cartesian_term::<K>(m, pred, o.vector, t, t2);
        },
        ObsMode::RangeBearing => {
            let (er, eb, mid) = choose|er: Num, eb: Num, mid: Num|
                {
                    &&& #[trigger] is_range_bearing_residual::<K>(pred, o, er, eb)
                    &&& #[trigger] is_added_term::<K>(ll, er, m.inv2rr, m.gate, m.rng_gate2, mid)
                    &&& is_added_term::<K>(mid, eb, m.inv2bb, m.gate, m.brg_gate2, next)
                };
            let (er2, eb2, mid2) = choose|er: Num, eb: Num, mid: Num|
                {
                    &&& #[trigger] is_range_bearing_residual::<K>(pred, o, er, eb)
                    &&& #[trigger] is_added_term::<K>(ll, er, m.inv2rr, m.gate, m.rng_gate2, mid)
                    &&& is_added_term::<K>(mid, eb, m.inv2bb, m.gate, m.brg_gate2, next2)
                };
            lemma_rb_residual::<K>(pred, o, er, eb, er2, eb2);
            lemma_added_term::<K>(ll, er, m.inv2rr, m.gate, m.rng_gate2, mid, mid2);
            lemma_added_term::<K>(mid, eb, m.inv2bb, m.gate, m.brg_gate2, next, next2);
        },
    }
}

pub(crate) proof fn lemma_predicted<K: Numerics>(
    pos: Vector3,
    att: UnitQuaternion,
    at: Vector3,
    pred: Vector3,
    pred2: Vector3,
)
    requires
        repeats::<K>(),
        is_predicted::<K>(pos, att, at, pred),
        is_predicted::<K>(pos, att, at, pred2),
    ensures
        pred == pred2,
{
}

pub(crate) proof fn lemma_log_likelihood<K: Numerics>(
    m: ObsModel,
    obs: Seq<Observation>,
    map: Map<int, Vector3>,
    pos: Vector3,
    att: UnitQuaternion,
    n: nat,
    ll: Num,
    ll2: Num,
)
    requires
        repeats::<K>(),
        is_log_likelihood::<K>(m, obs, map, pos, att, n, ll),
        is_log_likelihood::<K>(m, obs, map, pos, att, n, ll2),
    ensures
        ll == ll2,
    decreases n,
{
    if n > 0 {
        let o = obs[n - 1];
        let before = (n - 1) as nat;
        if map.contains_key(o.landmark_id as int) {
            let (prev, pred) = choose|prev: Num, pred: Vector3|
                {
                    &&& is_log_likelihood::<K>(m, obs, map, pos, att, before, prev)
                    &&& is_predicted::<K>(pos, att, map[o.landmark_id as int], pred)
                    &&& #[trigger] is_observed::<K>(m, pred, o, prev, ll)
                };
            let (prev2, pred2) = choose|prev: Num, pred: Vector3|
                {
                    &&& is_log_likelihood::<K>(m, obs, map, pos, att, before, prev)
                    &&& is_predicted::<K>(pos, att, map[o.landmark_id as int], pred)
                    &&& #[trigger] is_observed::<K>(m, pred, o, prev, ll2)
                };
            lemma_log_likelihood::<K>(m, obs, map, pos, att, before, prev, prev2);
            lemma_predicted::<K>(pos, att, map[o.landmark_id as int], pred, pred2);
            lemma_observed::<K>(m, pred, o, prev, ll, ll2);
        } else {
            lemma_log_likelihood::<K>(m, obs, map, pos, att, before, ll, ll2);
        }
    }
}

// ------------------------------------------------------------------- weights

proof fn lemma_stored<K: Numerics>(
    x: Num,
    w: Num,
    w2: Num,
)
    requires
        repeats::<K>(),
        is_stored::<K>(x, w),
        is_stored::<K>(x, w2),
    ensures
        w == w2,
{
}

proof fn lemma_uniform_weight<K: Numerics>(
    n: nat,
    w: Num,
    w2: Num,
)
    requires
        repeats::<K>(),
        is_uniform_weight::<K>(n, w),
        is_uniform_weight::<K>(n, w2),
    ensures
        w == w2,
{
    let (c, q) = choose|c: Num, q: Num|
        {
            &&& #[trigger] is_from_u64::<K>(n as u64, c)
            &&& #[trigger] is_quotient::<K>(num(ONE), c, q)
            &&& is_stored::<K>(q, w)
        };
    lemma_stored::<K>(q, w, w2);
}

proof fn lemma_uniform<K: Numerics>(ws: Seq<Num>, ws2: Seq<Num>)
    requires
        repeats::<K>(),
        ws.len() == ws2.len(),
        are_uniform::<K>(ws),
        are_uniform::<K>(ws2),
    ensures
        ws == ws2,
{
    let w = choose|w: Num| #[trigger]
        is_uniform_weight::<K>(ws.len(), w) && forall|i: int|
            0 <= i < ws.len() ==> #[trigger] ws[i] == w;
    let w2 = choose|w: Num| #[trigger]
        is_uniform_weight::<K>(ws2.len(), w) && forall|i: int|
            0 <= i < ws2.len() ==> #[trigger] ws2[i] == w;
    lemma_uniform_weight::<K>(ws.len(), w, w2);
    assert(ws =~= ws2);
}

proof fn lemma_shifted<K: Numerics>(
    ll: Num,
    top: Num,
    e: Num,
    e2: Num,
)
    requires
        repeats::<K>(),
        is_shifted::<K>(ll, top, e),
        is_shifted::<K>(ll, top, e2),
    ensures
        e == e2,
{
}

proof fn lemma_share<K: Numerics>(
    e: Num,
    total: Num,
    w: Num,
    w2: Num,
)
    requires
        repeats::<K>(),
        is_share::<K>(e, total, w),
        is_share::<K>(e, total, w2),
    ensures
        w == w2,
{
    let q = choose|q: Num| #[trigger] is_quotient::<K>(e, total, q) && is_stored::<K>(q, w);
    lemma_stored::<K>(q, w, w2);
}

proof fn lemma_total<K: Numerics>(es: Seq<Num>, n: nat, s: Num, s2: Num)
    requires
        repeats::<K>(),
        is_total::<K>(es, n, s),
        is_total::<K>(es, n, s2),
    ensures
        s == s2,
    decreases n,
{
    if n > 0 {
        let p = choose|p: Num|
            is_total::<K>(es, (n - 1) as nat, p) && #[trigger] is_sum::<K>(p, es[n - 1], s);
        let p2 = choose|p: Num|
            is_total::<K>(es, (n - 1) as nat, p) && #[trigger] is_sum::<K>(p, es[n - 1], s2);
        lemma_total::<K>(es, (n - 1) as nat, p, p2);
    }
}

proof fn lemma_normalized<K: Numerics>(lls: Seq<Num>, ws: Seq<Num>, ws2: Seq<Num>)
    requires
        repeats::<K>(),
        are_normalized::<K>(lls, ws),
        are_normalized::<K>(lls, ws2),
    ensures
        ws == ws2,
{
    let (es, total) = choose|es: Seq<Num>, total: Num| #[trigger]
        are_normalized_by::<K>(lls, es, total, ws);
    let (es2, total2) = choose|es: Seq<Num>, total: Num| #[trigger]
        are_normalized_by::<K>(lls, es, total, ws2);
    assert forall|i: int| 0 <= i < es.len() implies es[i] == es2[i] by {
        lemma_shifted::<K>(lls[i], peak(lls, lls.len()), es[i], es2[i]);
    }
    assert(es =~= es2);
    lemma_total::<K>(es, es.len(), total, total2);
    if is_degenerate(total) {
        lemma_uniform::<K>(ws, ws2);
    } else {
        assert forall|i: int| 0 <= i < ws.len() implies ws[i] == ws2[i] by {
            lemma_share::<K>(es[i], total, ws[i], ws2[i]);
        }
        assert(ws =~= ws2);
    }
}

// ---------------------------------------------------------------- resampling

proof fn lemma_prefix_sum<K: Numerics>(ws: Seq<Num>, cum: Seq<Num>, cum2: Seq<Num>, i: int)
    requires
        repeats::<K>(),
        are_prefix_sums::<K>(ws, cum),
        are_prefix_sums::<K>(ws, cum2),
        0 <= i < ws.len(),
    ensures
        cum[i] == cum2[i],
    decreases i,
{
    assert(is_prefix_sum::<K>(ws, cum, i) && is_prefix_sum::<K>(ws, cum2, i));
    if i > 0 {
        lemma_prefix_sum::<K>(ws, cum, cum2, i - 1);
    }
}

proof fn lemma_prefix_sums<K: Numerics>(ws: Seq<Num>, cum: Seq<Num>, cum2: Seq<Num>)
    requires
        repeats::<K>(),
        are_prefix_sums::<K>(ws, cum),
        are_prefix_sums::<K>(ws, cum2),
    ensures
        cum == cum2,
{
    assert forall|i: int| 0 <= i < ws.len() implies cum[i] == cum2[i] by {
        lemma_prefix_sum::<K>(ws, cum, cum2, i);
    }
    assert(cum =~= cum2);
}

proof fn lemma_target<K: Numerics>(
    u0: Num,
    step: Num,
    i: int,
    t: Num,
    t2: Num,
)
    requires
        repeats::<K>(),
        is_target::<K>(u0, step, i, t),
        is_target::<K>(u0, step, i, t2),
    ensures
        t == t2,
{
}

proof fn lemma_pick<K: Numerics>(
    cum: Seq<Num>,
    u0: Num,
    step: Num,
    picks: Seq<int>,
    picks2: Seq<int>,
    i: int,
)
    requires
        repeats::<K>(),
        are_picks::<K>(cum, u0, step, picks),
        are_picks::<K>(cum, u0, step, picks2),
        0 <= i < picks.len(),
    ensures
        picks[i] == picks2[i],
    decreases i,
{
    assert(is_pick::<K>(cum, u0, step, picks, i) && is_pick::<K>(cum, u0, step, picks2, i));
    if i > 0 {
        lemma_pick::<K>(cum, u0, step, picks, picks2, i - 1);
    }
    let from = if i == 0 {
        0
    } else {
        picks[i - 1]
    };
    let t = choose|t: Num| #[trigger]
        is_target::<K>(u0, step, i, t) && picks[i] == settle(cum, from, t);
    let t2 = choose|t: Num| #[trigger]
        is_target::<K>(u0, step, i, t) && picks2[i] == settle(cum, from, t);
    lemma_target::<K>(u0, step, i, t, t2);
}

proof fn lemma_comb<K: Numerics>(
    rng: SmallRng,
    total: Num,
    n: nat,
    u0: Num,
    step: Num,
    next: SmallRng,
    u02: Num,
    step2: Num,
    next2: SmallRng,
)
    requires
        repeats::<K>(),
        is_comb::<K>(rng, total, n, u0, step, next),
        is_comb::<K>(rng, total, n, u02, step2, next2),
    ensures
        u0 == u02 && step == step2 && next == next2,
{
}

proof fn lemma_jitter<K: Numerics>(
    rng: SmallRng,
    v: Vector3,
    next: SmallRng,
    v2: Vector3,
    next2: SmallRng,
)
    requires
        repeats::<K>(),
        is_jitter::<K>(rng, v, next),
        is_jitter::<K>(rng, v2, next2),
    ensures
        v == v2 && next == next2,
{
}

proof fn lemma_injection<K: Numerics>(pre: Injecting, d: nat, a: Injecting, b: Injecting)
    requires
        repeats::<K>(),
        is_injection::<K>(pre, d, a),
        is_injection::<K>(pre, d, b),
    ensures
        a == b,
{
    let (j, mid, jit, p) = choose|j: usize, mid: SmallRng, jit: Vector3, p: Vector3|
        {
            &&& d + j < pre.pos.len()
            &&& #[trigger] is_index_draw(pre.rng, (pre.pos.len() - d) as usize, j, mid)
            &&& a.order == swapped(pre.order, d as int, d + j)
            &&& #[trigger] is_jitter::<K>(mid, jit, a.rng)
            &&& #[trigger] is_v_sum::<K>(pre.pos[a.order[d as int]], jit, p)
            &&& a.pos == pre.pos.update(a.order[d as int], p)
        };
    let (j2, mid2, jit2, p2) = choose|j: usize, mid: SmallRng, jit: Vector3, p: Vector3|
        {
            &&& d + j < pre.pos.len()
            &&& #[trigger] is_index_draw(pre.rng, (pre.pos.len() - d) as usize, j, mid)
            &&& b.order == swapped(pre.order, d as int, d + j)
            &&& #[trigger] is_jitter::<K>(mid, jit, b.rng)
            &&& #[trigger] is_v_sum::<K>(pre.pos[b.order[d as int]], jit, p)
            &&& b.pos == pre.pos.update(b.order[d as int], p)
        };
    lemma_jitter::<K>(mid, jit, a.rng, jit2, b.rng);
}

proof fn lemma_injected<K: Numerics>(
    rng: SmallRng,
    pos: Seq<Vector3>,
    k: nat,
    a: Injecting,
    b: Injecting,
)
    requires
        repeats::<K>(),
        is_injected::<K>(rng, pos, k, a),
        is_injected::<K>(rng, pos, k, b),
    ensures
        a == b,
    decreases k,
{
    if k > 0 {
        let d = (k - 1) as nat;
        let mid = choose|mid: Injecting|
            is_injected::<K>(rng, pos, d, mid) && #[trigger] is_injection::<K>(mid, d, a);
        let mid2 = choose|mid: Injecting|
            is_injected::<K>(rng, pos, d, mid) && #[trigger] is_injection::<K>(mid, d, b);
        lemma_injected::<K>(rng, pos, d, mid, mid2);
        lemma_injection::<K>(mid, d, a, b);
    }
}

proof fn lemma_injection_count<K: Numerics>(
    ratio: Num,
    n: nat,
    k: nat,
    k2: nat,
)
    requires
        repeats::<K>(),
        is_injection_count::<K>(ratio, n, k),
        is_injection_count::<K>(ratio, n, k2),
    ensures
        k == k2,
{
}

proof fn lemma_drawn<K: Numerics>(
    seed: u64,
    pos: Seq<Vector3>,
    att: Seq<UnitQuaternion>,
    cum: Seq<Num>,
    ratio: Num,
    p: Seq<Vector3>,
    a: Seq<UnitQuaternion>,
    p2: Seq<Vector3>,
    a2: Seq<UnitQuaternion>,
)
    requires
        repeats::<K>(),
        is_drawn::<K>(seed, pos, att, cum, ratio, p, a),
        is_drawn::<K>(seed, pos, att, cum, ratio, p2, a2),
    ensures
        p == p2 && a == a2,
{
    let (picks, rng, k) = choose|picks: Seq<int>, rng: SmallRng, k: nat|
        {
            &&& #[trigger] is_selection::<K>(seed, cum, picks, rng)
            &&& is_injection_count::<K>(ratio, cum.len(), k)
            &&& #[trigger] is_redrawn::<K>(pos, att, picks, rng, k, p, a)
        };
    let (picks2, rng2, k2) = choose|picks: Seq<int>, rng: SmallRng, k: nat|
        {
            &&& #[trigger] is_selection::<K>(seed, cum, picks, rng)
            &&& is_injection_count::<K>(ratio, cum.len(), k)
            &&& #[trigger] is_redrawn::<K>(pos, att, picks, rng, k, p2, a2)
        };
    lemma_selection::<K>(seed, cum, picks, rng, picks2, rng2);
    lemma_injection_count::<K>(ratio, cum.len(), k, k2);
    let copied = chosen(pos, picks);
    let end = choose|end: Injecting| #[trigger]
        is_injected::<K>(rng, copied, k, end) && end.pos == p;
    let end2 = choose|end: Injecting| #[trigger]
        is_injected::<K>(rng, copied, k, end) && end.pos == p2;
    lemma_injected::<K>(rng, copied, k, end, end2);
}

proof fn lemma_resampled<K: Numerics>(
    seed: u64,
    pos: Seq<Vector3>,
    att: Seq<UnitQuaternion>,
    ws: Seq<Num>,
    ratio: Num,
    out: Option<(Seq<Vector3>, Seq<UnitQuaternion>)>,
    out2: Option<(Seq<Vector3>, Seq<UnitQuaternion>)>,
)
    requires
        repeats::<K>(),
        is_resampled::<K>(seed, pos, att, ws, ratio, out),
        is_resampled::<K>(seed, pos, att, ws, ratio, out2),
    ensures
        out == out2,
{
    if ws.len() > 0 {
        let cum = choose|cum: Seq<Num>| #[trigger]
            are_prefix_sums::<K>(ws, cum) && if is_degenerate(cum.last()) {
                out is None
            } else {
                out matches Some(o) && is_drawn::<K>(seed, pos, att, cum, ratio, o.0, o.1)
            };
        let cum2 = choose|cum: Seq<Num>| #[trigger]
            are_prefix_sums::<K>(ws, cum) && if is_degenerate(cum.last()) {
                out2 is None
            } else {
                out2 matches Some(o) && is_drawn::<K>(seed, pos, att, cum, ratio, o.0, o.1)
            };
        lemma_prefix_sums::<K>(ws, cum, cum2);
        if let (Some(o), Some(q)) = (out, out2) {
            lemma_drawn::<K>(seed, pos, att, cum, ratio, o.0, o.1, q.0, q.1);
        }
    }
}

// ------------------------------------------------------------------- moments

proof fn lemma_square_total<K: Numerics>(ws: Seq<Num>, n: nat, s: Num, s2: Num)
    requires
        repeats::<K>(),
        is_square_total::<K>(ws, n, s),
        is_square_total::<K>(ws, n, s2),
    ensures
        s == s2,
    decreases n,
{
    if n > 0 {
        let (p, q) = choose|p: Num, q: Num|
            {
                &&& is_square_total::<K>(ws, (n - 1) as nat, p)
                &&& is_product::<K>(ws[n - 1], ws[n - 1], q)
                &&& #[trigger] is_sum::<K>(p, q, s)
            };
        let (p2, q2) = choose|p: Num, q: Num|
            {
                &&& is_square_total::<K>(ws, (n - 1) as nat, p)
                &&& is_product::<K>(ws[n - 1], ws[n - 1], q)
                &&& #[trigger] is_sum::<K>(p, q, s2)
            };
        lemma_square_total::<K>(ws, (n - 1) as nat, p, p2);
    }
}

proof fn lemma_ess<K: Numerics>(
    ws: Seq<Num>,
    ess: Num,
    ess2: Num,
)
    requires
        repeats::<K>(),
        is_ess::<K>(ws, ess),
        is_ess::<K>(ws, ess2),
    ensures
        ess == ess2,
{
    let s = choose|s: Num| #[trigger]
        is_square_total::<K>(ws, ws.len(), s) && if less(num(ZERO), s) {
            is_quotient::<K>(num(ONE), s, ess)
        } else {
            ess == num(ZERO)
        };
    let s2 = choose|s: Num| #[trigger]
        is_square_total::<K>(ws, ws.len(), s) && if less(num(ZERO), s) {
            is_quotient::<K>(num(ONE), s, ess2)
        } else {
            ess2 == num(ZERO)
        };
    lemma_square_total::<K>(ws, ws.len(), s, s2);
}

proof fn lemma_position_total<K: Numerics>(
    pos: Seq<Vector3>,
    ws: Seq<Num>,
    n: nat,
    m: Vector3,
    m2: Vector3,
)
    requires
        repeats::<K>(),
        is_position_total::<K>(pos, ws, n, m),
        is_position_total::<K>(pos, ws, n, m2),
    ensures
        m == m2,
    decreases n,
{
    if n > 0 {
        let (v, p) = choose|v: Vector3, p: Vector3|
            {
                &&& is_position_total::<K>(pos, ws, (n - 1) as nat, v)
                &&& is_v_product::<K>(pos[n - 1], ws[n - 1], p)
                &&& #[trigger] is_v_sum::<K>(v, p, m)
            };
        let (v2, p2) = choose|v: Vector3, p: Vector3|
            {
                &&& is_position_total::<K>(pos, ws, (n - 1) as nat, v)
                &&& is_v_product::<K>(pos[n - 1], ws[n - 1], p)
                &&& #[trigger] is_v_sum::<K>(v, p, m2)
            };
        lemma_position_total::<K>(pos, ws, (n - 1) as nat, v, v2);
    }
}

proof fn lemma_accumulated<K: Numerics>(v: Num, w: Num, a: Num, b: Num, r: Num, r2: Num)
    requires
        repeats::<K>(),
        is_accumulated::<K>(v, w, a, b, r),
        is_accumulated::<K>(v, w, a, b, r2),
    ensures
        r == r2,
{
}

proof fn lemma_matrix4(a: Matrix4, b: Matrix4)
    requires
        forall|r: int, c: int| 0 <= r < 4 && 0 <= c < 4 ==> #[trigger] a.at(r, c) == b.at(r, c),
    ensures
        a == b,
{
    assert forall|r: int| 0 <= r < 4 implies a.rows[r] == b.rows[r] by {
        assert forall|c: int| 0 <= c < 4 implies a.rows[r][c] == b.rows[r][c] by {
            assert(a.at(r, c) == b.at(r, c));
        }
        assert(a.rows[r] =~= b.rows[r]);
    }
    assert(a.rows =~= b.rows);
}

proof fn lemma_matrix3(a: Matrix3, b: Matrix3)
    requires
        forall|r: int, c: int| 0 <= r < 3 && 0 <= c < 3 ==> #[trigger] a.at(r, c) == b.at(r, c),
    ensures
        a == b,
{
    assert forall|r: int| 0 <= r < 3 implies a.rows[r] == b.rows[r] by {
        assert forall|c: int| 0 <= c < 3 implies a.rows[r][c] == b.rows[r][c] by {
            assert(a.at(r, c) == b.at(r, c));
        }
        assert(a.rows[r] =~= b.rows[r]);
    }
    assert(a.rows =~= b.rows);
}

proof fn lemma_moment<K: Numerics>(
    att: Seq<UnitQuaternion>,
    ws: Seq<Num>,
    n: nat,
    m: Matrix4,
    m2: Matrix4,
)
    requires
        repeats::<K>(),
        is_moment::<K>(att, ws, n, m),
        is_moment::<K>(att, ws, n, m2),
    ensures
        m == m2,
    decreases n,
{
    if n > 0 {
        let p = choose|p: Matrix4|
            is_moment::<K>(att, ws, (n - 1) as nat, p) && #[trigger] is_moment_step::<K>(
                att[n - 1].q,
                ws[n - 1],
                p,
                m,
            );
        let p2 = choose|p: Matrix4|
            is_moment::<K>(att, ws, (n - 1) as nat, p) && #[trigger] is_moment_step::<K>(
                att[n - 1].q,
                ws[n - 1],
                p,
                m2,
            );
        lemma_moment::<K>(att, ws, (n - 1) as nat, p, p2);
        let q = att[n - 1].q;
        assert forall|r: int, c: int| 0 <= r < 4 && 0 <= c < 4 implies #[trigger] m.at(r, c)
            == m2.at(r, c) by {
            lemma_accumulated::<K>(
                p.at(r, c),
                ws[n - 1],
                q.coord(r),
                q.coord(c),
                m.at(r, c),
                m2.at(r, c),
            );
        }
    }
    lemma_matrix4(m, m2);
}

proof fn lemma_covariance<K: Numerics>(
    ds: Seq<Vector3>,
    ws: Seq<Num>,
    n: nat,
    m: Matrix3,
    m2: Matrix3,
)
    requires
        repeats::<K>(),
        is_covariance::<K>(ds, ws, n, m),
        is_covariance::<K>(ds, ws, n, m2),
    ensures
        m == m2,
    decreases n,
{
    if n > 0 {
        let p = choose|p: Matrix3|
            is_covariance::<K>(ds, ws, (n - 1) as nat, p) && #[trigger] is_outer_step::<K>(
                ds[n - 1],
                ws[n - 1],
                p,
                m,
            );
        let p2 = choose|p: Matrix3|
            is_covariance::<K>(ds, ws, (n - 1) as nat, p) && #[trigger] is_outer_step::<K>(
                ds[n - 1],
                ws[n - 1],
                p,
                m2,
            );
        lemma_covariance::<K>(ds, ws, (n - 1) as nat, p, p2);
        let d = ds[n - 1];
        assert forall|r: int, c: int| 0 <= r < 3 && 0 <= c < 3 implies #[trigger] m.at(r, c)
            == m2.at(r, c) by {
            lemma_accumulated::<K>(
                p.at(r, c),
                ws[n - 1],
                d.coord(r),
                d.coord(c),
                m.at(r, c),
                m2.at(r, c),
            );
        }
    }
    lemma_matrix3(m, m2);
}

proof fn lemma_upper_unit<K: Numerics>(
    q: Quaternion,
    r: UnitQuaternion,
    r2: UnitQuaternion,
)
    requires
        repeats::<K>(),
        is_upper_unit::<K>(q, r),
        is_upper_unit::<K>(q, r2),
    ensures
        r == r2,
{
}

proof fn lemma_symmetrized<K: Numerics>(m: Matrix4, r: Matrix4, r2: Matrix4)
    requires
        repeats::<K>(),
        is_symmetrized::<K>(m, r),
        is_symmetrized::<K>(m, r2),
    ensures
        r == r2,
{
    assert forall|i: int, j: int| 0 <= i < 4 && 0 <= j < 4 implies #[trigger] r.at(i, j) == r2.at(
        i,
        j,
    ) by {
        assert(is_midpoint::<K>(m.at(j, i), m.at(i, j), r.at(i, j)));
        assert(is_midpoint::<K>(m.at(j, i), m.at(i, j), r2.at(i, j)));
    }
    lemma_matrix4(r, r2);
}

proof fn lemma_quat_mean<K: Numerics>(
    m: Matrix4,
    r: UnitQuaternion,
    r2: UnitQuaternion,
)
    requires
        repeats::<K>(),
        is_quat_mean::<K>(m, r),
        is_quat_mean::<K>(m, r2),
    ensures
        r == r2,
{
    let (sym, es) = choose|sym: Matrix4, es: ([Num; 4], Matrix4)|
        {
            &&& is_symmetrized::<K>(m, sym)
            &&& #[trigger] is_eigen::<K>(sym, es)
            &&& is_upper_unit::<K>(column(es.1, largest_at(es.0@, 4)), r)
        };
    let (sym2, es2) = choose|sym: Matrix4, es: ([Num; 4], Matrix4)|
        {
            &&& is_symmetrized::<K>(m, sym)
            &&& #[trigger] is_eigen::<K>(sym, es)
            &&& is_upper_unit::<K>(column(es.1, largest_at(es.0@, 4)), r2)
        };
    lemma_symmetrized::<K>(m, sym, sym2);
    lemma_upper_unit::<K>(column(es.1, largest_at(es.0@, 4)), r, r2);
}

proof fn lemma_turned_axis<K: Numerics>(
    axis: Vector3,
    norm: Num,
    w: Num,
    v: Vector3,
    v2: Vector3,
)
    requires
        repeats::<K>(),
        is_turned_axis::<K>(axis, norm, w, v),
        is_turned_axis::<K>(axis, norm, w, v2),
    ensures
        v == v2,
{
}

proof fn lemma_rotation_vector<K: Numerics>(
    q: Quaternion,
    v: Vector3,
    v2: Vector3,
)
    requires
        repeats::<K>(),
        is_rotation_vector::<K>(q, v),
        is_rotation_vector::<K>(q, v2),
    ensures
        v == v2,
{
    let norm = choose|norm: Num| #[trigger]
        is_v_norm::<K>(canonical_axis(q), norm) && if less(num(NANO), norm) {
            is_turned_axis::<K>(canonical_axis(q), norm, absolute(q.w), v)
        } else {
            v == Vector3::zeros()
        };
    if less(num(NANO), norm) {
        lemma_turned_axis::<K>(canonical_axis(q), norm, absolute(q.w), v, v2);
    }
}

proof fn lemma_tangent<K: Numerics>(
    mean: UnitQuaternion,
    att: UnitQuaternion,
    v: Vector3,
    v2: Vector3,
)
    requires
        repeats::<K>(),
        is_tangent::<K>(mean, att, v),
        is_tangent::<K>(mean, att, v2),
    ensures
        v == v2,
{
    let (inv, dq) = choose|inv: UnitQuaternion, dq: UnitQuaternion|
        {
            &&& is_inverse::<K>(mean, inv)
            &&& #[trigger] is_composed::<K>(inv, att, dq)
            &&& is_rotation_vector::<K>(dq.q, v)
        };
    lemma_rotation_vector::<K>(dq.q, v, v2);
}

proof fn lemma_estimate<K: Numerics>(
    pos: Seq<Vector3>,
    att: Seq<UnitQuaternion>,
    ws: Seq<Num>,
    e: Estimate,
    e2: Estimate,
)
    requires
        repeats::<K>(),
        is_estimate::<K>(pos, att, ws, e),
        is_estimate::<K>(pos, att, ws, e2),
    ensures
        e == e2,
{
    lemma_position_total::<K>(pos, ws, pos.len(), e.mean.position, e2.mean.position);
    let m = choose|m: Matrix4| #[trigger]
        is_moment::<K>(att, ws, att.len(), m) && is_quat_mean::<K>(m, e.mean.attitude);
    let m2 = choose|m: Matrix4| #[trigger]
        is_moment::<K>(att, ws, att.len(), m) && is_quat_mean::<K>(m, e2.mean.attitude);
    lemma_moment::<K>(att, ws, att.len(), m, m2);
    lemma_quat_mean::<K>(m, e.mean.attitude, e2.mean.attitude);
    lemma_ess::<K>(ws, e.ess, e2.ess);
    let at = e.mean.position;
    let ds = choose|ds: Seq<Vector3>| #[trigger]
        are_offsets::<K>(pos, at, ds) && is_covariance::<K>(ds, ws, ds.len(), e.pos_cov);
    let ds2 = choose|ds: Seq<Vector3>| #[trigger]
        are_offsets::<K>(pos, at, ds) && is_covariance::<K>(ds, ws, ds.len(), e2.pos_cov);
    assert(ds =~= ds2);
    lemma_covariance::<K>(ds, ws, ds.len(), e.pos_cov, e2.pos_cov);
    let q = e.mean.attitude;
    let ts = choose|ds: Seq<Vector3>| #[trigger]
        are_tangents::<K>(att, q, ds) && is_covariance::<K>(ds, ws, ds.len(), e.att_cov);
    let ts2 = choose|ds: Seq<Vector3>| #[trigger]
        are_tangents::<K>(att, q, ds) && is_covariance::<K>(ds, ws, ds.len(), e2.att_cov);
    assert forall|i: int| 0 <= i < ts.len() implies ts[i] == ts2[i] by {
        lemma_tangent::<K>(q, att[i], ts[i], ts2[i]);
    }
    assert(ts =~= ts2);
    lemma_covariance::<K>(ts, ws, ts.len(), e.att_cov, e2.att_cov);
}

// -------------------------------------------------------------------- clouds

/// A call on a CPU backend.
pub enum Call {
    Reinit { pose: Pose, pos_std: Vector3, rot_std: Vector3 },
    Predict { odom: OdomDelta },
    Weight { obs: Seq<Observation>, map: Map<int, Vector3> },
    Resample { ratio: Num },
}

/// The call takes the cloud `pre` to `post`.
pub open spec fn is_call<K: Numerics>(pre: Cloud, call: Call, post: Cloud) -> bool {
    match call {
        Call::Reinit { pose, pos_std, rot_std } => pre.is_reseeded::<K>(
            pose,
            pos_std,
            rot_std,
            post,
        ),
        Call::Predict { odom } => pre.is_advanced::<K>(odom, post),
        Call::Weight { obs, map } => pre.is_weighted::<K>(obs, map, post),
        Call::Resample { ratio } => pre.is_redistributed::<K>(ratio, post),
    }
}

/// The calls, one after another, take the cloud `pre` to `post`.
pub open spec fn is_run<K: Numerics>(pre: Cloud, calls: Seq<Call>, post: Cloud) -> bool
    decreases calls.len(),
{
    if calls.len() == 0 {
        post == pre
    } else {
        exists|mid: Cloud|
            is_run::<K>(pre, calls.drop_last(), mid) && #[trigger] is_call::<K>(
                mid,
                calls.last(),
                post,
            )
    }
}

/// Two backends in the same state that get the same call end in the same
/// state.
pub proof fn law_call_repeats<K: Numerics>(pre: Cloud, call: Call, a: Cloud, b: Cloud)
    requires
        repeats::<K>(),
        pre.pos.len() == pre.att.len(),
        pre.pos.len() == pre.weight.len(),
        is_call::<K>(pre, call, a),
        is_call::<K>(pre, call, b),
    ensures
        a == b,
{
    match call {
        Call::Reinit { pose, pos_std, rot_std } => {
            assert forall|i: int| 0 <= i < a.pos.len() implies a.pos[i] == b.pos[i] && a.att[i]
                == b.att[i] by {
                lemma_spread::<K>(
                    stream_seed(a.seed, i as u64),
                    pose,
                    pos_std,
                    rot_std,
                    a.pos[i],
                    a.att[i],
                    b.pos[i],
                    b.att[i],
                );
            }
            lemma_uniform::<K>(a.weight, b.weight);
            assert(a =~= b);
        },
        Call::Predict { odom } => {
            assert forall|i: int| 0 <= i < a.pos.len() implies a.pos[i] == b.pos[i] && a.att[i]
                == b.att[i] by {
                lemma_moved::<K>(
                    stream_seed(a.seed, i as u64),
                    odom,
                    pre.pos[i],
                    pre.att[i],
                    a.pos[i],
                    a.att[i],
                    b.pos[i],
                    b.att[i],
                );
            }
            assert(a =~= b);
        },
        Call::Weight { obs, map } => {
            if any_known(obs, map) {
                let (m, lls) = choose|m: ObsModel, lls: Seq<Num>|
                    {
                        &&& is_model::<K>(pre.cfg, m)
                        &&& #[trigger] pre.are_log_likelihoods::<K>(m, obs, map, lls)
                        &&& are_normalized::<K>(lls, a.weight)
                    };
                let (m2, lls2) = choose|m: ObsModel, lls: Seq<Num>|
                    {
                        &&& is_model::<K>(pre.cfg, m)
                        &&& #[trigger] pre.are_log_likelihoods::<K>(m, obs, map, lls)
                        &&& are_normalized::<K>(lls, b.weight)
                    };
                lemma_model::<K>(pre.cfg, m, m2);
                assert forall|i: int| 0 <= i < lls.len() implies lls[i] == lls2[i] by {
                    lemma_log_likelihood::<K>(
                        m,
                        obs,
                        map,
                        pre.pos[i],
                        pre.att[i],
                        obs.len(),
                        lls[i],
                        lls2[i],
                    );
                }
                assert(lls =~= lls2);
                lemma_normalized::<K>(lls, a.weight, b.weight);
            } else {
                lemma_uniform::<K>(a.weight, b.weight);
            }
        },
        Call::Resample { ratio } => {
            if is_resampled::<K>(pre.seed, pre.pos, pre.att, pre.weight, ratio, None) {
                lemma_no_redraw::<K>(pre, ratio, a);
                lemma_no_redraw::<K>(pre, ratio, b);
            } else {
                lemma_resampled::<K>(
                    pre.seed,
                    pre.pos,
                    pre.att,
                    pre.weight,
                    ratio,
                    Some((a.pos, a.att)),
                    Some((b.pos, b.att)),
                );
                lemma_uniform::<K>(a.weight, b.weight);
            }
        },
    }
}

/// Where nothing is drawn, the cloud stays.
proof fn lemma_no_redraw<K: Numerics>(pre: Cloud, ratio: Num, post: Cloud)
    requires
        repeats::<K>(),
        pre.is_redistributed::<K>(ratio, post),
        is_resampled::<K>(pre.seed, pre.pos, pre.att, pre.weight, ratio, None),
    ensures
        post == pre,
{
    let drawn = Some((post.pos, post.att));
    if is_resampled::<K>(pre.seed, pre.pos, pre.att, pre.weight, ratio, drawn) {
        lemma_resampled::<K>(pre.seed, pre.pos, pre.att, pre.weight, ratio, None, drawn);
    }
}

proof fn lemma_call_keeps_size<K: Numerics>(pre: Cloud, call: Call, post: Cloud)
    requires
        pre.pos.len() == pre.att.len(),
        pre.pos.len() == pre.weight.len(),
        is_call::<K>(pre, call, post),
    ensures
        post.pos.len() == pre.pos.len(),
        post.att.len() == pre.pos.len(),
        post.weight.len() == pre.pos.len(),
{
    if let Call::Resample { ratio } = call {
        law_resampling_keeps_the_cloud::<K>(pre, ratio, post);
    }
}

proof fn lemma_run<K: Numerics>(pre: Cloud, calls: Seq<Call>, a: Cloud, b: Cloud)
    requires
        repeats::<K>(),
        pre.pos.len() == pre.att.len(),
        pre.pos.len() == pre.weight.len(),
        is_run::<K>(pre, calls, a),
        is_run::<K>(pre, calls, b),
    ensures
        a == b,
        a.pos.len() == a.att.len(),
        a.pos.len() == a.weight.len(),
    decreases calls.len(),
{
    if calls.len() > 0 {
        let m = choose|m: Cloud|
            is_run::<K>(pre, calls.drop_last(), m) && #[trigger] is_call::<K>(m, calls.last(), a);
        let m2 = choose|m: Cloud|
            is_run::<K>(pre, calls.drop_last(), m) && #[trigger] is_call::<K>(m, calls.last(), b);
        lemma_run::<K>(pre, calls.drop_last(), m, m2);
        law_call_repeats::<K>(m, calls.last(), a, b);
        lemma_call_keeps_size::<K>(m, calls.last(), a);
    }
}

/// A seed other than 0 fixes the run: two backends made by one configuration
/// that get the same calls hold the same cloud, give the same snapshot and
/// the same estimate.
pub proof fn law_seed_fixes_the_run<K: Numerics>(
    n: usize,
    cfg: PfConfig,
    a0: Cloud,
    b0: Cloud,
    calls: Seq<Call>,
    a: Cloud,
    b: Cloud,
)
    requires
        repeats::<K>(),
        cfg.seed != 0,
        a0.is_fresh::<K>(n, cfg),
        b0.is_fresh::<K>(n, cfg),
        is_run::<K>(a0, calls, a),
        is_run::<K>(b0, calls, b),
    ensures
        a == b,
        forall|p: Seq<Particle>, q: Seq<Particle>| #[trigger]
            a.is_copied(p) && #[trigger] b.is_copied(q) ==> p == q,
        forall|d: Estimate, e: Estimate| #[trigger]
            is_estimate::<K>(a.pos, a.att, a.weight, d) && #[trigger] is_estimate::<K>(
                b.pos,
                b.att,
                b.weight,
                e,
            ) ==> d == e,
{
    lemma_uniform::<K>(a0.weight, b0.weight);
    assert(a0 =~= b0);
    lemma_run::<K>(a0, calls, a, b);
    assert forall|p: Seq<Particle>, q: Seq<Particle>| #[trigger]
        a.is_copied(p) && #[trigger] b.is_copied(q) implies p == q by {
        assert(p =~= q);
    }
    assert forall|d: Estimate, e: Estimate| #[trigger]
        is_estimate::<K>(a.pos, a.att, a.weight, d) && #[trigger] is_estimate::<K>(
            b.pos,
            b.att,
            b.weight,
            e,
        ) implies d == e by {
        lemma_estimate::<K>(a.pos, a.att, a.weight, d, e);
    }
}

/// Observations without a landmark in the map have no influence, wherever
/// they stand: two backends in the same state, one weighted by all of them
/// and the other by the known ones, end in the same state.
pub proof fn law_unknown_have_no_influence<K: Numerics>(
    pre: Cloud,
    obs: Seq<Observation>,
    map: Map<int, Vector3>,
    a: Cloud,
    b: Cloud,
)
    requires
        repeats::<K>(),
        pre.pos.len() == pre.att.len(),
        pre.pos.len() == pre.weight.len(),
        pre.is_weighted::<K>(obs, map, a),
        pre.is_weighted::<K>(known(obs, map), map, b),
    ensures
        a == b,
        forall|p: Seq<Particle>, q: Seq<Particle>| #[trigger]
            a.is_copied(p) && #[trigger] b.is_copied(q) ==> p == q,
{
    law_weighting_ignores_unknown::<K>(pre, obs, map, b);
    law_call_repeats::<K>(pre, Call::Weight { obs, map }, a, b);
    assert forall|p: Seq<Particle>, q: Seq<Particle>| #[trigger]
        a.is_copied(p) && #[trigger] b.is_copied(q) implies p == q by {
        assert(p =~= q);
    }
}

/// The weights have a positive, finite total to draw by.
pub open spec fn has_total<K: Numerics>(ws: Seq<Num>) -> bool {
    ws.len() > 0 && forall|cum: Seq<Num>| #[trigger]
        are_prefix_sums::<K>(ws, cum) ==> !is_degenerate(cum.last())
}

/// No jitter of one of these positions is lost to rounding.
pub open spec fn jitters_show<K: Numerics>(pos: Seq<Vector3>) -> bool {
    forall|i: int, q: Vector3|
        0 <= i < pos.len() && #[trigger] is_jittered::<K>(pos[i], q) ==> q != pos[i]
}

/// Two backends in the same state, one resampled with re-injection and the
/// other without: the attitudes and the weights are equal, and of the
/// positions exactly `ratio * n`, cut to an index, were moved by a jitter.
/// Those positions differ wherever no jitter is lost to rounding.
pub proof fn law_re_injection_moves_exactly<K: Numerics>(
    pre: Cloud,
    ratio: Num,
    a: Cloud,
    b: Cloud,
)
    requires
        repeats::<K>(),
        pre.pos.len() == pre.att.len(),
        pre.pos.len() == pre.weight.len(),
        pre.is_redistributed::<K>(ratio, a),
        pre.is_redistributed::<K>(num(ZERO), b),
    ensures
        a.att == b.att,
        a.weight == b.weight,
        !has_total::<K>(pre.weight) ==> a.pos == b.pos,
        has_total::<K>(pre.weight) ==> exists|moved: Seq<int>|
            {
                &&& #[trigger] is_injection_count::<K>(ratio, pre.pos.len(), moved.len())
                &&& is_moved_at::<K>(b.pos, a.pos, moved)
                &&& jitters_show::<K>(b.pos) ==> forall|i: int|
                    0 <= i < b.pos.len() ==> (#[trigger] a.pos[i] != b.pos[i]) == moved.contains(i)
            },
{
    let none = None::<(Seq<Vector3>, Seq<UnitQuaternion>)>;
    let (seed, pos, att, ws) = (pre.seed, pre.pos, pre.att, pre.weight);
    if ws.len() == 0 || exists|cum: Seq<Num>| #[trigger]
        are_prefix_sums::<K>(ws, cum) && is_degenerate(cum.last()) {
        assert(is_resampled::<K>(seed, pos, att, ws, ratio, none));
        assert(is_resampled::<K>(seed, pos, att, ws, num(ZERO), none));
        lemma_no_redraw::<K>(pre, ratio, a);
        lemma_no_redraw::<K>(pre, num(ZERO), b);
    } else {
        assert(!is_resampled::<K>(seed, pos, att, ws, ratio, none));
        assert(!is_resampled::<K>(seed, pos, att, ws, num(ZERO), none));
        lemma_uniform::<K>(a.weight, b.weight);
        let cum = choose|cum: Seq<Num>| #[trigger]
            are_prefix_sums::<K>(ws, cum) && is_drawn::<K>(
                seed,
                pos,
                att,
                cum,
                ratio,
                a.pos,
                a.att,
            );
        let cum2 = choose|cum: Seq<Num>| #[trigger]
            are_prefix_sums::<K>(ws, cum) && is_drawn::<K>(
                seed,
                pos,
                att,
                cum,
                num(ZERO),
                b.pos,
                b.att,
            );
        lemma_prefix_sums::<K>(ws, cum, cum2);
        let (picks, rng, k) = choose|picks: Seq<int>, rng: SmallRng, k: nat|
            {
                &&& #[trigger] is_selection::<K>(seed, cum, picks, rng)
                &&& is_injection_count::<K>(ratio, cum.len(), k)
                &&& #[trigger] is_redrawn::<K>(pos, att, picks, rng, k, a.pos, a.att)
            };
        let (picks2, rng2, k2) = choose|picks: Seq<int>, rng: SmallRng, k: nat|
            {
                &&& #[trigger] is_selection::<K>(seed, cum, picks, rng)
                &&& is_injection_count::<K>(num(ZERO), cum.len(), k)
                &&& #[trigger] is_redrawn::<K>(pos, att, picks, rng, k, b.pos, b.att)
            };
        lemma_selection::<K>(seed, cum, picks, rng, picks2, rng2);
        let copied = chosen(pos, picks);
        let end = choose|end: Injecting| #[trigger]
            is_injected::<K>(rng, copied, k, end) && end.pos == a.pos;
        law_injections_move_as_many::<K>(rng, copied, k, end);
        assert(b.pos == copied);
        let moved = end.order.take(k as int);
        assert(is_injection_count::<K>(ratio, pre.pos.len(), moved.len()));
        if jitters_show::<K>(b.pos) {
            assert forall|i: int| 0 <= i < b.pos.len() implies (#[trigger] a.pos[i] != b.pos[i])
                == moved.contains(i) by {
                if moved.contains(i) {
                    let q = choose|q: int| 0 <= q < moved.len() && moved[q] == i;
                    assert(is_jittered::<K>(b.pos[moved[q]], a.pos[moved[q]]));
                }
            }
        }
    }
}

proof fn lemma_selection<K: Numerics>(
    seed: u64,
    cum: Seq<Num>,
    picks: Seq<int>,
    rng: SmallRng,
    picks2: Seq<int>,
    rng2: SmallRng,
)
    requires
        repeats::<K>(),
        is_selection::<K>(seed, cum, picks, rng),
        is_selection::<K>(seed, cum, picks2, rng2),
    ensures
        picks == picks2 && rng == rng2,
{
    let (g, u0, step) = choose|g: SmallRng, u0: Num, step: Num|
        {
            &&& is_seeded(seed ^ RESAMPLE_STREAM, g)
            &&& #[trigger] is_comb::<K>(g, cum.last(), cum.len(), u0, step, rng)
            &&& are_picks::<K>(cum, u0, step, picks)
        };
    let (g2, u02, step2) = choose|g: SmallRng, u0: Num, step: Num|
        {
            &&& is_seeded(seed ^ RESAMPLE_STREAM, g)
            &&& #[trigger] is_comb::<K>(g, cum.last(), cum.len(), u0, step, rng2)
            &&& are_picks::<K>(cum, u0, step, picks2)
        };
    lemma_comb::<K>(g, cum.last(), cum.len(), u0, step, rng, u02, step2, rng2);
    assert forall|i: int| 0 <= i < picks.len() implies picks[i] == picks2[i] by {
        lemma_pick::<K>(cum, u0, step, picks, picks2, i);
    }
    assert(picks =~= picks2);
}

/// At this pose the cartesian observation is beyond the cutoff of `m`.
pub open spec fn is_rejected<K: Numerics>(
    m: ObsModel,
    pos: Vector3,
    att: UnitQuaternion,
    at: Vector3,
    o: Observation,
) -> bool {
    forall|pred: Vector3, e: Vector3, r2: Num|
        is_predicted::<K>(pos, att, at, pred) && #[trigger] is_v_difference::<K>(pred, o.vector, e)
            && #[trigger] is_v_norm_squared::<K>(e, r2) ==> is_gated(m.gate, r2, m.rng_gate2)
}

/// What a rejected observation adds.
proof fn lemma_rejected<K: Numerics>(
    m: ObsModel,
    o: Observation,
    map: Map<int, Vector3>,
    pos: Vector3,
    att: UnitQuaternion,
    ll: Num,
) -> (t: Num)
    requires
        o.mode == ObsMode::Cartesian,
        map.contains_key(o.landmark_id as int),
        is_rejected::<K>(m, pos, att, map[o.landmark_id as int], o),
        is_log_likelihood::<K>(m, seq![o], map, pos, att, 1, ll),
    ensures
        is_cartesian_penalty::<K>(m.gate, t),
        is_sum::<K>(num(ZERO), t, ll),
{
    reveal_with_fuel(is_log_likelihood, 2);
    let obs = seq![o];
    assert(obs[0] == o);
    let (prev, pred) = choose|prev: Num, pred: Vector3|
        {
            &&& is_log_likelihood::<K>(m, obs, map, pos, att, 0, prev)
            &&& is_predicted::<K>(pos, att, map[o.landmark_id as int], pred)
            &&& #[trigger] is_observed::<K>(m, pred, o, prev, ll)
        };
    let t = choose|t: Num| #[trigger]
        is_cartesian_term::<K>(m, pred, o.vector, t) && is_sum::<K>(prev, t, ll);
    t
}

/// An observation that is beyond the cutoff for two particles makes no
/// difference between them, however far beyond it is.
pub proof fn law_rejected_weigh_alike<K: Numerics>(
    pre: Cloud,
    o: Observation,
    map: Map<int, Vector3>,
    post: Cloud,
    i: int,
    j: int,
)
    requires
        repeats::<K>(),
        pre.pos.len() == pre.att.len(),
        pre.pos.len() == pre.weight.len(),
        o.mode == ObsMode::Cartesian,
        map.contains_key(o.landmark_id as int),
        0 <= i < pre.pos.len(),
        0 <= j < pre.pos.len(),
        forall|m: ObsModel| #[trigger]
            is_model::<K>(pre.cfg, m) ==> is_rejected::<K>(
                m,
                pre.pos[i],
                pre.att[i],
                map[o.landmark_id as int],
                o,
            ) && is_rejected::<K>(m, pre.pos[j], pre.att[j], map[o.landmark_id as int], o),
        pre.is_weighted::<K>(seq![o], map, post),
    ensures
        post.weight[i] == post.weight[j],
{
    let obs = seq![o];
    assert(map.contains_key(obs[0].landmark_id as int));
    assert(any_known(obs, map));
    let (m, lls) = choose|m: ObsModel, lls: Seq<Num>|
        {
            &&& is_model::<K>(pre.cfg, m)
            &&& #[trigger] pre.are_log_likelihoods::<K>(m, obs, map, lls)
            &&& are_normalized::<K>(lls, post.weight)
        };
    assert(is_log_likelihood::<K>(m, obs, map, pre.pos[i], pre.att[i], 1, lls[i]));
    assert(is_log_likelihood::<K>(m, obs, map, pre.pos[j], pre.att[j], 1, lls[j]));
    let t = lemma_rejected::<K>(m, o, map, pre.pos[i], pre.att[i], lls[i]);
    let u = lemma_rejected::<K>(m, o, map, pre.pos[j], pre.att[j], lls[j]);
    lemma_cartesian_penalty::<K>(m.gate, t, u);
    let ws = post.weight;
    let (es, total) = choose|es: Seq<Num>, total: Num| #[trigger]
        are_normalized_by::<K>(lls, es, total, ws);
    lemma_shifted::<K>(lls[i], peak(lls, lls.len()), es[i], es[j]);
    if !is_degenerate(total) {
        lemma_share::<K>(es[i], total, ws[i], ws[j]);
    }
}

} // verus!
