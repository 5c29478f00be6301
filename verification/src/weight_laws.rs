//! What observations do to weights, where no operation rounds.
use vstd::prelude::*;

use crate::config::PfConfig;
use crate::cpu::Cloud;
use crate::exact::{
    lemma_total_is_low, reads_numbers, scalars_are_exact, total, turns_are_undone,
    vectors_are_exact, Reading,
};
use crate::likelihood::{
    any_known, is_added_term, is_cartesian_penalty, is_cartesian_term, is_gate_limit, is_gated,
    is_half_precision, is_log_likelihood, is_model, is_observed, is_penalty, is_predicted,
    is_product3, is_range_bearing_residual, is_residual_term, ObsModel,
};
use crate::num::{
    clamped, is_finite, is_nan, larger, less, negated, num, Num, MICRO, MINUS_ONE, NANO,
    NEG_INFINITY, ONE, THREE, TWO, ZERO,
};
use crate::numerics::{
    is_acos, is_difference, is_exp, is_from_single, is_from_u64, is_product, is_quotient, is_rotated, is_to_single, is_sum,
    is_unrotated, is_v_difference, is_v_dot, is_v_norm, is_v_norm_squared, is_v_quotient, is_v_sum,
    Numerics,
};
use crate::repeat::{
    lemma_cartesian_term, lemma_log_likelihood, lemma_model, lemma_predicted, lemma_rb_residual,
    lemma_residual_term, repeats,
};
use crate::types::{ObsMode, Observation, UnitQuaternion, Vector3};
use crate::weights::{
    are_normalized, are_normalized_by, are_uniform, is_degenerate, is_share, is_shifted, is_stored,
    is_total, is_uniform_weight, peak,
};

verus! {

/// The deviation that a noise setting stands for: at least 1e-6.
pub open spec fn deviation(val: Reading, noise: Num) -> real {
    if val(noise) < val(num(MICRO)) {
        val(num(MICRO))
    } else {
        val(noise)
    }
}

/// The settings are numbers.
pub open spec fn has_numbers(val: Reading, cfg: PfConfig) -> bool {
    &&& !is_nan(cfg.range_noise)
    &&& !is_nan(cfg.bearing_noise)
    &&& !is_nan(cfg.gate_sigma)
    &&& 0real < val(num(MICRO))
    &&& 0real < val(num(NANO))
}

/// What a squared residual costs at a deviation `s`: the square over twice the
/// variance; beyond `g` deviations, where `g` is positive, the `fine` instead.
pub open spec fn cost(g: real, s: real, square: real, fine: real) -> real {
    if 0real < g && g * g * s * s < square {
        fine
    } else {
        square / (2real * s * s)
    }
}

proof fn lemma_deviation(val: Reading, noise: Num)
    requires
        reads_numbers(val),
        !is_nan(noise),
        0real < val(num(MICRO)),
    ensures
        val(larger(noise, num(MICRO))) == deviation(val, noise),
        0real < deviation(val, noise),
{
}

proof fn lemma_precision<K: Numerics>(val: Reading, s: Num, r: Num)
    requires
        scalars_are_exact::<K>(val),
        0real < val(s),
        is_half_precision::<K>(s, r),
    ensures
        val(r) == 1real / (2real * val(s) * val(s)),
        0real < 2real * val(s) * val(s),
{
    let d = choose|d: Num| #[trigger]
        is_product3::<K>(num(TWO), s, s, d) && is_quotient::<K>(num(ONE), d, r);
    let v = val(s);
    assert(0real < 2real * v * v) by (nonlinear_arith)
        requires
            0real < v,
    ;
}

proof fn lemma_limit<K: Numerics>(val: Reading, g: Num, s: Num, r: Num)
    requires
        scalars_are_exact::<K>(val),
        is_gate_limit::<K>(g, s, r),
    ensures
        !is_nan(r),
        val(r) == val(g) * val(g) * val(s) * val(s),
{
}

proof fn lemma_penalty<K: Numerics>(val: Reading, g: Num, r: Num)
    requires
        scalars_are_exact::<K>(val),
        is_penalty::<K>(g, r),
    ensures
        val(r) == -(val(g) * val(g) / 2real),
{
    let v = val(g);
    assert(-1real / 2real * v * v == -(v * v / 2real)) by (nonlinear_arith);
}

proof fn lemma_over(x: real, d: real)
    requires
        0real < d,
    ensures
        -x * (1real / d) == -(x / d),
{
    assert(-x * (1real / d) == -(x / d)) by (nonlinear_arith)
        requires
            0real < d,
    ;
}

/// What a residual of one dimension adds.
proof fn lemma_residual<K: Numerics>(
    val: Reading,
    e: Num,
    s: Num,
    inv2: Num,
    gate: Num,
    limit: Num,
    t: Num,
)
    requires
        scalars_are_exact::<K>(val),
        0real < val(s),
        !is_nan(gate),
        is_half_precision::<K>(s, inv2),
        is_gate_limit::<K>(gate, s, limit),
        is_residual_term::<K>(e, inv2, gate, limit, t),
    ensures
        val(t) == -cost(val(gate), val(s), val(e) * val(e), val(gate) * val(gate) / 2real),
{
    lemma_precision::<K>(val, s, inv2);
    lemma_limit::<K>(val, gate, s, limit);
    let square = choose|square: Num| #[trigger]
        is_product::<K>(e, e, square) && if is_gated(gate, square, limit) {
            is_penalty::<K>(gate, t)
        } else {
            is_product3::<K>(negated(e), e, inv2, t)
        };
    let (v, d) = (val(e), 2real * val(s) * val(s));
    if is_gated(gate, square, limit) {
        lemma_penalty::<K>(val, gate, t);
    } else {
        assert(-v * v == -(v * v)) by (nonlinear_arith);
        lemma_over(v * v, d);
        assert(val(t) == -v * v * (1real / d));
    }
}

/// A landmark at `at` is predicted where the pose sees it: turned by the
/// attitude and put at the position, the prediction is the landmark.
pub proof fn law_prediction_is_where_it_is_seen<K: Numerics>(
    val: Reading,
    pos: Vector3,
    att: UnitQuaternion,
    at: Vector3,
    pred: Vector3,
    turned: Vector3,
    back: Vector3,
)
    requires
        vectors_are_exact::<K>(val),
        turns_are_undone::<K>(),
        is_predicted::<K>(pos, att, at, pred),
        is_rotated::<K>(att, pred, turned),
        is_v_sum::<K>(pos, turned, back),
    ensures
        val(back.x) == val(at.x) && val(back.y) == val(at.y) && val(back.z) == val(at.z),
{
    let d = choose|d: Vector3| #[trigger]
        is_v_difference::<K>(at, pos, d) && is_unrotated::<K>(att, d, pred);
    assert(turned == d);
}

/// How the log-likelihood of a lone known observation comes about.
proof fn lemma_lone<K: Numerics>(
    m: ObsModel,
    o: Observation,
    map: Map<int, Vector3>,
    pos: Vector3,
    att: UnitQuaternion,
    pred: Vector3,
    ll: Num,
)
    requires
        repeats::<K>(),
        map.contains_key(o.landmark_id as int),
        is_predicted::<K>(pos, att, map[o.landmark_id as int], pred),
        is_log_likelihood::<K>(m, seq![o], map, pos, att, 1, ll),
    ensures
        is_observed::<K>(m, pred, o, num(ZERO), ll),
{
    reveal_with_fuel(is_log_likelihood, 2);
    let obs = seq![o];
    assert(obs[0] == o);
    let (prev, p) = choose|prev: Num, p: Vector3|
        {
            &&& is_log_likelihood::<K>(m, obs, map, pos, att, 0, prev)
            &&& is_predicted::<K>(pos, att, map[o.landmark_id as int], p)
            &&& #[trigger] is_observed::<K>(m, p, o, prev, ll)
        };
    lemma_predicted::<K>(pos, att, map[o.landmark_id as int], pred, p);
}

/// A lone cartesian observation of a landmark predicted at `pred` costs the
/// squared distance between the two at the range deviation; beyond the cutoff
/// `3 / 2` of its square.
pub proof fn law_cost_of_an_offset<K: Numerics>(
    val: Reading,
    cfg: PfConfig,
    m: ObsModel,
    o: Observation,
    map: Map<int, Vector3>,
    pos: Vector3,
    att: UnitQuaternion,
    pred: Vector3,
    ll: Num,
)
    requires
        repeats::<K>(),
        scalars_are_exact::<K>(val),
        vectors_are_exact::<K>(val),
        has_numbers(val, cfg),
        is_model::<K>(cfg, m),
        o.mode == ObsMode::Cartesian,
        map.contains_key(o.landmark_id as int),
        is_predicted::<K>(pos, att, map[o.landmark_id as int], pred),
        is_log_likelihood::<K>(m, seq![o], map, pos, att, 1, ll),
    ensures
        ({
            let x = val(pred.x) - val(o.vector.x);
            let y = val(pred.y) - val(o.vector.y);
            let z = val(pred.z) - val(o.vector.z);
            let g = val(cfg.gate_sigma);
            val(ll) == -cost(
                g,
                deviation(val, cfg.range_noise),
                x * x + y * y + z * z,
                g * g / 2real * 3real,
            )
        }),
{
    lemma_lone::<K>(m, o, map, pos, att, pred, ll);
    let s = larger(cfg.range_noise, num(MICRO));
    lemma_deviation(val, cfg.range_noise);
    lemma_precision::<K>(val, s, m.inv2rr);
    lemma_limit::<K>(val, m.gate, s, m.rng_gate2);
    let t = choose|t: Num| #[trigger]
        is_cartesian_term::<K>(m, pred, o.vector, t) && is_sum::<K>(num(ZERO), t, ll);
    let (e, r2) = choose|e: Vector3, r2: Num|
        {
            &&& is_v_difference::<K>(pred, o.vector, e)
            &&& #[trigger] is_v_norm_squared::<K>(e, r2)
            &&& if is_gated(m.gate, r2, m.rng_gate2) {
                is_cartesian_penalty::<K>(m.gate, t)
            } else {
                is_product::<K>(negated(r2), m.inv2rr, t)
            }
        };
    if is_gated(m.gate, r2, m.rng_gate2) {
        let one = choose|one: Num| #[trigger]
            is_penalty::<K>(m.gate, one) && is_product::<K>(one, num(THREE), t);
        lemma_penalty::<K>(val, m.gate, one);
        let h = val(m.gate) * val(m.gate) / 2real;
        assert(-h * 3real == -(h * 3real)) by (nonlinear_arith);
    } else {
        lemma_over(val(r2), 2real * val(s) * val(s));
    }
}

/// The distance that a predicted range stands for: at least 1e-9.
pub open spec fn distance(val: Reading, range: Num) -> real {
    if val(range) < val(num(NANO)) {
        val(num(NANO))
    } else {
        val(range)
    }
}

/// The real number `x` held between -1 and 1.
pub open spec fn held(x: real) -> real {
    if x < -1real {
        -1real
    } else if 1real < x {
        1real
    } else {
        x
    }
}

/// A lone range and bearing observation costs what its range is off by, at the
/// range deviation, and the angle between the direction predicted and the one
/// observed, at the bearing deviation; of each, beyond the cutoff, half of the
/// cutoff's square.
pub proof fn law_cost_of_a_bearing<K: Numerics>(
    val: Reading,
    cfg: PfConfig,
    m: ObsModel,
    o: Observation,
    map: Map<int, Vector3>,
    pos: Vector3,
    att: UnitQuaternion,
    pred: Vector3,
    range: Num,
    ll: Num,
)
    requires
        repeats::<K>(),
        scalars_are_exact::<K>(val),
        vectors_are_exact::<K>(val),
        has_numbers(val, cfg),
        is_model::<K>(cfg, m),
        o.mode == ObsMode::RangeBearing,
        map.contains_key(o.landmark_id as int),
        is_predicted::<K>(pos, att, map[o.landmark_id as int], pred),
        is_v_norm::<K>(pred, range),
        is_log_likelihood::<K>(m, seq![o], map, pos, att, 1, ll),
    ensures
        exists|cosine: Num, angle: Num|
            {
                let g = val(cfg.gate_sigma);
                let far = distance(val, range);
                let off = far - val(o.range);
                &&& #[trigger] is_acos::<K>(cosine, angle)
                &&& val(cosine) == held(
                    val(pred.x) / far * val(o.vector.x) + val(pred.y) / far * val(o.vector.y) + val(
                        pred.z,
                    ) / far * val(o.vector.z),
                )
                &&& val(ll) == -cost(
                    g,
                    deviation(val, cfg.range_noise),
                    off * off,
                    g * g / 2real,
                ) - cost(
                    g,
                    deviation(val, cfg.bearing_noise),
                    val(angle) * val(angle),
                    g * g / 2real,
                )
            },
{
    lemma_lone::<K>(m, o, map, pos, att, pred, ll);
    let sr = larger(cfg.range_noise, num(MICRO));
    let sb = larger(cfg.bearing_noise, num(MICRO));
    lemma_deviation(val, cfg.range_noise);
    lemma_deviation(val, cfg.bearing_noise);
    let (er, eb, mid) = choose|er: Num, eb: Num, mid: Num|
        {
            &&& #[trigger] is_range_bearing_residual::<K>(pred, o, er, eb)
            &&& #[trigger] is_added_term::<K>(num(ZERO), er, m.inv2rr, m.gate, m.rng_gate2, mid)
            &&& is_added_term::<K>(mid, eb, m.inv2bb, m.gate, m.brg_gate2, ll)
        };
    let t = choose|t: Num| #[trigger]
        is_residual_term::<K>(er, m.inv2rr, m.gate, m.rng_gate2, t) && is_sum::<K>(
            num(ZERO),
            t,
            mid,
        );
    let u = choose|t: Num| #[trigger]
        is_residual_term::<K>(eb, m.inv2bb, m.gate, m.brg_gate2, t) && is_sum::<K>(mid, t, ll);
    lemma_residual::<K>(val, er, sr, m.inv2rr, m.gate, m.rng_gate2, t);
    lemma_residual::<K>(val, eb, sb, m.inv2bb, m.gate, m.brg_gate2, u);
    let (norm, dir, dot) = choose|norm: Num, dir: Vector3, dot: Num|
        {
            &&& #[trigger] is_v_norm::<K>(pred, norm)
            &&& is_difference::<K>(larger(norm, num(NANO)), o.range, er)
            &&& #[trigger] is_v_quotient::<K>(pred, larger(norm, num(NANO)), dir)
            &&& #[trigger] is_v_dot::<K>(dir, o.vector, dot)
            &&& is_acos::<K>(clamped(dot, num(MINUS_ONE), num(ONE)), eb)
        };
    assert(norm == range);
    assert(!is_nan(norm));
    assert(val(larger(norm, num(NANO))) == distance(val, range));
    let cosine = clamped(dot, num(MINUS_ONE), num(ONE));
    assert(val(cosine) == held(val(dot)));
    assert(is_acos::<K>(cosine, eb));
}

/// One observation more adds what it adds by itself.
proof fn lemma_one_more<K: Numerics>(
    val: Reading,
    m: ObsModel,
    pred: Vector3,
    o: Observation,
    prev: Num,
    ll: Num,
    alone: Num,
)
    requires
        repeats::<K>(),
        scalars_are_exact::<K>(val),
        is_observed::<K>(m, pred, o, prev, ll),
        is_observed::<K>(m, pred, o, num(ZERO), alone),
    ensures
        val(ll) == val(prev) + val(alone),
{
    match o.mode {
        ObsMode::Cartesian => {
            let t = choose|t: Num| #[trigger]
                is_cartesian_term::<K>(m, pred, o.vector, t) && is_sum::<K>(prev, t, ll);
            let u = choose|t: Num| #[trigger]
                is_cartesian_term::<K>(m, pred, o.vector, t) && is_sum::<K>(num(ZERO), t, alone);
            lemma_cartesian_term::<K>(m, pred, o.vector, t, u);
        },
        ObsMode::RangeBearing => {
            let (er, eb, mid) = choose|er: Num, eb: Num, mid: Num|
                {
                    &&& #[trigger] is_range_bearing_residual::<K>(pred, o, er, eb)
                    &&& #[trigger] is_added_term::<K>(
                        prev,
                        er,
                        m.inv2rr,
                        m.gate,
                        m.rng_gate2,
                        mid,
                    )
                    &&& is_added_term::<K>(mid, eb, m.inv2bb, m.gate, m.brg_gate2, ll)
                };
            let (er2, eb2, mid2) = choose|er: Num, eb: Num, mid: Num|
                {
                    &&& #[trigger] is_range_bearing_residual::<K>(pred, o, er, eb)
                    &&& #[trigger] is_added_term::<K>(
                        num(ZERO),
                        er,
                        m.inv2rr,
                        m.gate,
                        m.rng_gate2,
                        mid,
                    )
                    &&& is_added_term::<K>(mid, eb, m.inv2bb, m.gate, m.brg_gate2, alone)
                };
            lemma_rb_residual::<K>(pred, o, er, eb, er2, eb2);
            lemma_added::<K>(val, prev, er, m.inv2rr, m.gate, m.rng_gate2, mid, num(ZERO), mid2);
            lemma_added::<K>(val, mid, eb, m.inv2bb, m.gate, m.brg_gate2, ll, mid2, alone);
        },
    }
}

proof fn lemma_added<K: Numerics>(
    val: Reading,
    a: Num,
    e: Num,
    inv2: Num,
    g: Num,
    limit: Num,
    next: Num,
    b: Num,
    next2: Num,
)
    requires
        repeats::<K>(),
        scalars_are_exact::<K>(val),
        is_added_term::<K>(a, e, inv2, g, limit, next),
        is_added_term::<K>(b, e, inv2, g, limit, next2),
    ensures
        val(next) - val(a) == val(next2) - val(b),
{
    let t = choose|t: Num| #[trigger]
        is_residual_term::<K>(e, inv2, g, limit, t) && is_sum::<K>(a, t, next);
    let u = choose|t: Num| #[trigger]
        is_residual_term::<K>(e, inv2, g, limit, t) && is_sum::<K>(b, t, next2);
    lemma_residual_term::<K>(e, inv2, g, limit, t, u);
}

/// `alone[i]` is the log-likelihood of each known observation by itself.
pub open spec fn are_lone<K: Numerics>(
    m: ObsModel,
    obs: Seq<Observation>,
    map: Map<int, Vector3>,
    pos: Vector3,
    att: UnitQuaternion,
    n: nat,
    alone: Seq<Num>,
) -> bool {
    forall|i: int|
        0 <= i < n && map.contains_key(obs[i].landmark_id as int) ==> is_log_likelihood::<K>(
            m,
            seq![obs[i]],
            map,
            pos,
            att,
            1,
            #[trigger] alone[i],
        )
}

/// Observations add up: the log-likelihood of any number of them, of either
/// kind and in any order, is the sum of what each known one has by itself.
pub proof fn law_observations_add_up<K: Numerics>(
    val: Reading,
    m: ObsModel,
    obs: Seq<Observation>,
    map: Map<int, Vector3>,
    pos: Vector3,
    att: UnitQuaternion,
    n: nat,
    alone: Seq<Num>,
    ll: Num,
)
    requires
        repeats::<K>(),
        scalars_are_exact::<K>(val),
        n <= obs.len(),
        are_lone::<K>(m, obs, map, pos, att, n, alone),
        is_log_likelihood::<K>(m, obs, map, pos, att, n, ll),
    ensures
        val(ll) == total(
            n,
            |i: int|
                if map.contains_key(obs[i].landmark_id as int) {
                    val(alone[i])
                } else {
                    0real
                },
        ),
    decreases n,
{
    let f = |i: int|
        if map.contains_key(obs[i].landmark_id as int) {
            val(alone[i])
        } else {
            0real
        };
    if n > 0 {
        let before = (n - 1) as nat;
        let o = obs[n - 1];
        if map.contains_key(o.landmark_id as int) {
            let (prev, pred) = choose|prev: Num, pred: Vector3|
                {
                    &&& is_log_likelihood::<K>(m, obs, map, pos, att, before, prev)
                    &&& is_predicted::<K>(pos, att, map[o.landmark_id as int], pred)
                    &&& #[trigger] is_observed::<K>(m, pred, o, prev, ll)
                };
            law_observations_add_up::<K>(val, m, obs, map, pos, att, before, alone, prev);
            assert(is_log_likelihood::<K>(m, seq![obs[n - 1]], map, pos, att, 1, alone[n - 1]));
            lemma_lone::<K>(m, o, map, pos, att, pred, alone[n - 1]);
            lemma_one_more::<K>(val, m, pred, o, prev, ll, alone[n - 1]);
        } else {
            law_observations_add_up::<K>(val, m, obs, map, pos, att, before, alone, ll);
        }
        assert(f(n - 1) == if map.contains_key(o.landmark_id as int) {
            val(alone[n - 1])
        } else {
            0real
        });
    }
}

/// No observation can be made good by others: where each known one costs
/// something or nothing, they are never likelier together than one of them.
pub proof fn law_no_observation_is_forgotten<K: Numerics>(
    val: Reading,
    m: ObsModel,
    obs: Seq<Observation>,
    map: Map<int, Vector3>,
    pos: Vector3,
    att: UnitQuaternion,
    alone: Seq<Num>,
    ll: Num,
    k: int,
)
    requires
        repeats::<K>(),
        scalars_are_exact::<K>(val),
        are_lone::<K>(m, obs, map, pos, att, obs.len(), alone),
        forall|i: int|
            0 <= i < obs.len() && map.contains_key(obs[i].landmark_id as int) ==> val(
                #[trigger] alone[i],
            ) <= 0real,
        is_log_likelihood::<K>(m, obs, map, pos, att, obs.len(), ll),
        0 <= k < obs.len(),
        map.contains_key(obs[k].landmark_id as int),
    ensures
        val(ll) <= val(alone[k]),
{
    let f = |i: int|
        if map.contains_key(obs[i].landmark_id as int) {
            val(alone[i])
        } else {
            0real
        };
    law_observations_add_up::<K>(val, m, obs, map, pos, att, obs.len(), alone, ll);
    assert forall|i: int| 0 <= i < obs.len() implies #[trigger] f(i) <= 0real by {
        if map.contains_key(obs[i].landmark_id as int) {
            assert(val(alone[i]) <= 0real);
        }
    }
    lemma_total_is_low(obs.len(), f);
    assert(total(obs.len(), f) <= f(k));
}

proof fn lemma_total<K: Numerics>(val: Reading, es: Seq<Num>, n: nat, s: Num)
    requires
        scalars_are_exact::<K>(val),
        is_total::<K>(es, n, s),
    ensures
        !is_nan(s),
        val(s) == total(n, |i: int| val(es[i])),
    decreases n,
{
    let f = |i: int| val(es[i]);
    if n > 0 {
        let prev = choose|prev: Num|
            is_total::<K>(es, (n - 1) as nat, prev) && #[trigger] is_sum::<K>(prev, es[n - 1], s);
        lemma_total::<K>(val, es, (n - 1) as nat, prev);
        assert(f(n - 1) == val(es[n - 1]));
    }
}

proof fn lemma_quotients_add(n: nat, f: spec_fn(int) -> real, g: spec_fn(int) -> real, d: real)
    requires
        0real < d,
        forall|i: int| 0 <= i < n ==> #[trigger] g(i) == f(i) / d,
    ensures
        total(n, g) == total(n, f) / d,
    decreases n,
{
    if n > 0 {
        lemma_quotients_add((n - 1) as nat, f, g, d);
        let (a, b) = (total((n - 1) as nat, f), f(n - 1));
        assert(g(n - 1) == f(n - 1) / d);
        assert(a / d + b / d == (a + b) / d) by (nonlinear_arith)
            requires
                0real < d,
        ;
    } else {
        assert(0real / d == 0real) by (nonlinear_arith)
            requires
                0real < d,
        ;
    }
}

/// `e` is the exponential of `x`.
pub open spec fn is_exponential<K: Numerics>(val: Reading, x: real, e: Num) -> bool {
    exists|d: Num| #[trigger] is_exp::<K>(d, e) && val(d) == x
}

/// `es` is the exponential of each log-likelihood less `top`.
pub open spec fn are_exponentials<K: Numerics>(
    val: Reading,
    lls: Seq<Num>,
    top: real,
    es: Seq<Num>,
) -> bool {
    forall|i: int|
        0 <= i < lls.len() ==> is_exponential::<K>(val, val(lls[i]) - top, #[trigger] es[i])
}

/// Weights are the likelihoods over their sum: they add up to 1, and each is
/// to another as the exponentials of the two log-likelihoods, both less the
/// same number.
pub proof fn law_weights_are_shares<K: Numerics>(
    val: Reading,
    lls: Seq<Num>,
    es: Seq<Num>,
    sum: Num,
    ws: Seq<Num>,
)
    requires
        scalars_are_exact::<K>(val),
        are_normalized_by::<K>(lls, es, sum, ws),
        0real < val(sum),
        !is_degenerate(sum),
    ensures
        ws.len() == lls.len(),
        total(ws.len(), |i: int| val(ws[i])) == 1real,
        forall|i: int| 0 <= i < ws.len() ==> #[trigger] val(ws[i]) * val(sum) == val(es[i]),
        exists|top: real| #[trigger] are_exponentials::<K>(val, lls, top, es),
{
    let n = ws.len();
    lemma_total::<K>(val, es, es.len(), sum);
    let f = |i: int| val(es[i]);
    let g = |i: int| val(ws[i]);
    let d = val(sum);
    assert forall|i: int| 0 <= i < n implies #[trigger] g(i) == f(i) / d by {
        assert(is_share::<K>(es[i], sum, ws[i]));
        let q = choose|q: Num| #[trigger]
            is_quotient::<K>(es[i], sum, q) && is_stored::<K>(q, ws[i]);
    }
    lemma_quotients_add(n, f, g, d);
    assert(d / d == 1real) by (nonlinear_arith)
        requires
            0real < d,
    ;
    assert forall|i: int| 0 <= i < n implies #[trigger] val(ws[i]) * val(sum) == val(es[i]) by {
        assert(g(i) == f(i) / d);
        let x = f(i);
        assert(x / d * d == x) by (nonlinear_arith)
            requires
                0real < d,
        ;
    }
    let top = val(peak(lls, lls.len()));
    assert forall|i: int| 0 <= i < lls.len() implies is_exponential::<K>(
        val,
        val(lls[i]) - top,
        #[trigger] es[i],
    ) by {
        assert(is_shifted::<K>(lls[i], peak(lls, lls.len()), es[i]));
        let d = choose|d: Num| #[trigger]
            is_difference::<K>(lls[i], peak(lls, lls.len()), d) && is_exp::<K>(d, es[i]);
        assert(is_exp::<K>(d, es[i]));
    }
    assert(are_exponentials::<K>(val, lls, top, es));
}

proof fn lemma_peak(val: Reading, lls: Seq<Num>, n: nat)
    requires
        reads_numbers(val),
        n <= lls.len(),
        forall|i: int| 0 <= i < n ==> !is_nan(#[trigger] lls[i]),
    ensures
        !is_nan(peak(lls, n)),
        forall|i: int| 0 <= i < n ==> val(#[trigger] lls[i]) <= val(peak(lls, n)),
        peak(lls, n) == num(NEG_INFINITY) || exists|i: int|
            0 <= i < n && #[trigger] lls[i] == peak(lls, n),
    decreases n,
{
    if n > 0 {
        lemma_peak(val, lls, (n - 1) as nat);
    }
}

/// `top` is the largest of the log-likelihoods, `es` the exponential of each
/// less `top`, and `sum` their sum: the weights are the shares of that, and
/// equal where it is not positive or not finite.
pub open spec fn are_shares_by<K: Numerics>(
    val: Reading,
    lls: Seq<Num>,
    top: Num,
    es: Seq<Num>,
    sum: Num,
    ws: Seq<Num>,
) -> bool {
    &&& forall|i: int| 0 <= i < lls.len() ==> val(#[trigger] lls[i]) <= val(top)
    &&& top == num(NEG_INFINITY) || lls.contains(top)
    &&& are_exponentials::<K>(val, lls, val(top), es)
    &&& val(sum) == total(lls.len(), |i: int| val(es[i]))
    &&& if 0real < val(sum) && is_finite(sum) {
        &&& total(lls.len(), |i: int| val(ws[i])) == 1real
        &&& forall|i: int| 0 <= i < lls.len() ==> #[trigger] val(ws[i]) * val(sum) == val(es[i])
    } else {
        are_uniform::<K>(ws)
    }
}

/// The weights of a cloud, given what each particle's own pose makes of the
/// observations. They add up to 1 and are to each other as the exponentials of
/// the log-likelihoods, all less the largest one; all are equal where those
/// have no positive, finite sum.
pub proof fn law_particles_weigh_by_their_poses<K: Numerics>(
    val: Reading,
    pre: Cloud,
    m: ObsModel,
    obs: Seq<Observation>,
    map: Map<int, Vector3>,
    post: Cloud,
    own: Seq<Num>,
)
    requires
        repeats::<K>(),
        scalars_are_exact::<K>(val),
        pre.pos.len() == pre.weight.len(),
        any_known(obs, map),
        is_model::<K>(pre.cfg, m),
        pre.is_weighted::<K>(obs, map, post),
        own.len() == pre.pos.len(),
        forall|i: int|
            0 <= i < own.len() ==> !is_nan(#[trigger] own[i]) && is_log_likelihood::<K>(
                m,
                obs,
                map,
                pre.pos[i],
                pre.att[i],
                obs.len(),
                own[i],
            ),
    ensures
        post == (Cloud { weight: post.weight, ..pre }),
        post.weight.len() == own.len(),
        exists|top: Num, es: Seq<Num>, sum: Num| #[trigger]
            are_shares_by::<K>(val, own, top, es, sum, post.weight),
{
    let (model, lls) = choose|m: ObsModel, lls: Seq<Num>|
        {
            &&& is_model::<K>(pre.cfg, m)
            &&& #[trigger] pre.are_log_likelihoods::<K>(m, obs, map, lls)
            &&& are_normalized::<K>(lls, post.weight)
        };
    lemma_model::<K>(pre.cfg, m, model);
    assert forall|i: int| 0 <= i < own.len() implies own[i] == lls[i] by {
        assert(!is_nan(own[i]));
        assert(is_log_likelihood::<K>(m, obs, map, pre.pos[i], pre.att[i], obs.len(), lls[i]));
        lemma_log_likelihood::<K>(m, obs, map, pre.pos[i], pre.att[i], obs.len(), own[i], lls[i]);
    }
    assert(own =~= lls);
    let ws = post.weight;
    let (es, sum) = choose|es: Seq<Num>, total: Num| #[trigger]
        are_normalized_by::<K>(lls, es, total, ws);
    let top = peak(lls, lls.len());
    lemma_peak(val, lls, lls.len());
    lemma_total::<K>(val, es, es.len(), sum);
    assert forall|i: int| 0 <= i < lls.len() implies is_exponential::<K>(
        val,
        val(lls[i]) - val(top),
        #[trigger] es[i],
    ) by {
        assert(is_shifted::<K>(lls[i], top, es[i]));
        let d = choose|d: Num| #[trigger]
            is_difference::<K>(lls[i], top, d) && is_exp::<K>(d, es[i]);
        assert(is_exp::<K>(d, es[i]));
    }
    assert(are_exponentials::<K>(val, own, val(top), es));
    if 0real < val(sum) && is_finite(sum) {
        assert(!is_degenerate(sum));
        law_weights_are_shares::<K>(val, lls, es, sum, ws);
    } else {
        assert(is_degenerate(sum));
    }
    assert(are_shares_by::<K>(val, own, top, es, sum, ws));
}

/// Every weight that likelihoods give is held in single precision.
pub proof fn law_weights_are_singles<K: Numerics>(lls: Seq<Num>, ws: Seq<Num>, i: int)
    requires
        are_normalized::<K>(lls, ws),
        0 <= i < ws.len(),
    ensures
        exists|x: Num, bits: u32|
            #[trigger] call_ensures(K::to_single, (x,), bits) && #[trigger] call_ensures(
                K::from_single,
                (bits,),
                ws[i],
            ),
{
    let (es, sum) = choose|es: Seq<Num>, total: Num| #[trigger]
        are_normalized_by::<K>(lls, es, total, ws);
    let x = if is_degenerate(sum) {
        let w = choose|w: Num| #[trigger]
            is_uniform_weight::<K>(ws.len(), w) && forall|i: int|
                0 <= i < ws.len() ==> #[trigger] ws[i] == w;
        let (count, q) = choose|count: Num, q: Num|
            {
                &&& #[trigger] is_from_u64::<K>(ws.len() as u64, count)
                &&& #[trigger] is_quotient::<K>(num(ONE), count, q)
                &&& is_stored::<K>(q, w)
            };
        assert(ws[i] == w);
        q
    } else {
        assert(is_share::<K>(es[i], sum, ws[i]));
        choose|q: Num| #[trigger] is_quotient::<K>(es[i], sum, q) && is_stored::<K>(q, ws[i])
    };
    assert(is_stored::<K>(x, ws[i]));
    let bits = choose|s: u32| #[trigger]
        is_to_single::<K>(x, s) && is_from_single::<K>(s, ws[i]);
    assert(call_ensures(K::to_single, (x,), bits));
}

/// Equal weights of `n` particles are `1 / n` each.
pub proof fn law_equal_weights<K: Numerics>(val: Reading, ws: Seq<Num>, i: int)
    requires
        scalars_are_exact::<K>(val),
        ws.len() <= u64::MAX,
        are_uniform::<K>(ws),
        0 <= i < ws.len(),
    ensures
        val(ws[i]) == 1real / ws.len() as real,
{
    let w = choose|w: Num| #[trigger]
        is_uniform_weight::<K>(ws.len(), w) && forall|i: int|
            0 <= i < ws.len() ==> #[trigger] ws[i] == w;
    let (count, q) = choose|count: Num, q: Num|
        {
            &&& #[trigger] is_from_u64::<K>(ws.len() as u64, count)
            &&& #[trigger] is_quotient::<K>(num(ONE), count, q)
            &&& is_stored::<K>(q, w)
        };
    assert(ws.len() as u64 as real == ws.len() as real);
}

} // verus!
