//! How well a pose explains a set of landmark observations.
use vstd::prelude::*;

use crate::config::PfConfig;
use crate::landmark_map::LandmarkMap;
use crate::num::{
    clamped, larger, less, negated, num, Num, MICRO, MINUS_HALF, MINUS_ONE, NANO, ONE, THREE, TWO,
    ZERO,
};
use crate::numerics::{
    acos, difference, is_acos, is_difference, is_product, is_quotient, is_sum, is_unrotated,
    is_v_difference, is_v_dot, is_v_norm, is_v_norm_squared, is_v_quotient, product, quotient, sum,
    unrotate, v_difference, v_dot, v_norm, v_norm_squared, v_quotient, Numerics,
};
use crate::types::{ObsMode, Observation, UnitQuaternion, Vector3};

verus! {

/// `r` is `(a * b) * c`.
pub open spec fn is_product3<K: Numerics>(a: Num, b: Num, c: Num, r: Num) -> bool {
    exists|ab: Num| #[trigger] is_product::<K>(a, b, ab) && is_product::<K>(ab, c, r)
}

pub(crate) fn product3<K: Numerics>(a: Num, b: Num, c: Num) -> (r: Num)
    ensures
        is_product3::<K>(a, b, c, r),
{
    let ab = product::<K>(a, b);
    product::<K>(ab, c)
}

/// The numbers that a configuration gives to the observation model.
#[derive(Clone, Copy)]
pub struct ObsModel {
    /// `1 / (2 sr^2)`.
    pub inv2rr: Num,
    /// `1 / (2 sb^2)`.
    pub inv2bb: Num,
    /// The cutoff in sigmas, 0 for none.
    pub gate: Num,
    /// The squared range or cartesian residual that the cutoff lets pass.
    pub rng_gate2: Num,
    /// The squared bearing residual that the cutoff lets pass.
    pub brg_gate2: Num,
}

/// `r` is `1 / (2 * s * s)`.
pub open spec fn is_half_precision<K: Numerics>(s: Num, r: Num) -> bool {
    exists|d: Num| #[trigger] is_product3::<K>(num(TWO), s, s, d) && is_quotient::<K>(num(ONE), d, r)
}

fn half_precision<K: Numerics>(s: Num) -> (r: Num)
    ensures
        is_half_precision::<K>(s, r),
{
    let d = product3::<K>(num(TWO), s, s);
    assert(is_product3::<K>(num(TWO), s, s, d));
    quotient::<K>(num(ONE), d)
}

/// `r` is `gate * gate * s * s`.
pub open spec fn is_gate_limit<K: Numerics>(gate: Num, s: Num, r: Num) -> bool {
    exists|g2: Num| #[trigger] is_product::<K>(gate, gate, g2) && is_product3::<K>(g2, s, s, r)
}

/// `m` is the observation model of `cfg`; both sigmas are at least 1e-6.
pub open spec fn is_model<K: Numerics>(cfg: PfConfig, m: ObsModel) -> bool {
    let sr = larger(cfg.range_noise, num(MICRO));
    let sb = larger(cfg.bearing_noise, num(MICRO));
    &&& is_half_precision::<K>(sr, m.inv2rr)
    &&& is_half_precision::<K>(sb, m.inv2bb)
    &&& m.gate == cfg.gate_sigma
    &&& is_gate_limit::<K>(m.gate, sr, m.rng_gate2)
    &&& is_gate_limit::<K>(m.gate, sb, m.brg_gate2)
}

pub(crate) fn model<K: Numerics>(cfg: &PfConfig) -> (m: ObsModel)
    ensures
        is_model::<K>(*cfg, m),
{
    let sr = cfg.range_noise.max(num(MICRO));
    let sb = cfg.bearing_noise.max(num(MICRO));
    let gate = cfg.gate_sigma;
    let g2 = product::<K>(gate, gate);
    ObsModel {
        inv2rr: half_precision::<K>(sr),
        inv2bb: half_precision::<K>(sb),
        gate,
        rng_gate2: product3::<K>(g2, sr, sr),
        brg_gate2: product3::<K>(g2, sb, sb),
    }
}

/// The cutoff is on and `square` is beyond `limit`.
pub open spec fn is_gated(gate: Num, square: Num, limit: Num) -> bool {
    less(num(ZERO), gate) && less(limit, square)
}

fn gated(gate: Num, square: Num, limit: Num) -> (r: bool)
    ensures
        r == is_gated(gate, square, limit),
{
    num(ZERO).less(gate) && limit.less(square)
}

/// `r` is `-0.5 * gate * gate`, the share of a residual beyond the cutoff.
pub open spec fn is_penalty<K: Numerics>(gate: Num, r: Num) -> bool {
    is_product3::<K>(num(MINUS_HALF), gate, gate, r)
}

/// `r` is `-0.5 * gate * gate * 3`, the share of a cartesian residual beyond
/// the cutoff: one penalty for each of its dimensions.
pub open spec fn is_cartesian_penalty<K: Numerics>(gate: Num, r: Num) -> bool {
    exists|one: Num| #[trigger] is_penalty::<K>(gate, one) && is_product::<K>(one, num(THREE), r)
}

/// `t` is the share of a residual `e` of one dimension.
pub open spec fn is_residual_term<K: Numerics>(
    e: Num,
    inv2: Num,
    gate: Num,
    limit: Num,
    t: Num,
) -> bool {
    exists|square: Num| #[trigger]
        is_product::<K>(e, e, square) && if is_gated(gate, square, limit) {
            is_penalty::<K>(gate, t)
        } else {
            is_product3::<K>(negated(e), e, inv2, t)
        }
}

fn residual_term<K: Numerics>(e: Num, inv2: Num, gate: Num, limit: Num) -> (t: Num)
    ensures
        is_residual_term::<K>(e, inv2, gate, limit, t),
{
    let square = product::<K>(e, e);
    if gated(gate, square, limit) {
        product3::<K>(num(MINUS_HALF), gate, gate)
    } else {
        product3::<K>(e.neg(), e, inv2)
    }
}

/// `t` is the share of a cartesian observation `seen` of a landmark at `pred`
/// in the body frame.
pub open spec fn is_cartesian_term<K: Numerics>(
    m: ObsModel,
    pred: Vector3,
    seen: Vector3,
    t: Num,
) -> bool {
    exists|e: Vector3, r2: Num|
        {
            &&& is_v_difference::<K>(pred, seen, e)
            &&& #[trigger] is_v_norm_squared::<K>(e, r2)
            &&& if is_gated(m.gate, r2, m.rng_gate2) {
                is_cartesian_penalty::<K>(m.gate, t)
            } else {
                is_product::<K>(negated(r2), m.inv2rr, t)
            }
        }
}

fn cartesian_term<K: Numerics>(m: ObsModel, pred: Vector3, seen: Vector3) -> (t: Num)
    ensures
        is_cartesian_term::<K>(m, pred, seen, t),
{
    let e = v_difference::<K>(pred, seen);
    let r2 = v_norm_squared::<K>(e);
    if gated(m.gate, r2, m.rng_gate2) {
        let one = product3::<K>(num(MINUS_HALF), m.gate, m.gate);
        assert(is_penalty::<K>(m.gate, one));
        product::<K>(one, num(THREE))
    } else {
        product::<K>(r2.neg(), m.inv2rr)
    }
}

/// `er` and `eb` are the range and the bearing residual of an observation of
/// a landmark at `pred` in the body frame.
pub open spec fn is_range_bearing_residual<K: Numerics>(
    pred: Vector3,
    o: Observation,
    er: Num,
    eb: Num,
) -> bool {
    exists|norm: Num, dir: Vector3, dot: Num|
        {
            &&& #[trigger] is_v_norm::<K>(pred, norm)
            &&& is_difference::<K>(larger(norm, num(NANO)), o.range, er)
            &&& #[trigger] is_v_quotient::<K>(pred, larger(norm, num(NANO)), dir)
            &&& #[trigger] is_v_dot::<K>(dir, o.vector, dot)
            &&& is_acos::<K>(clamped(dot, num(MINUS_ONE), num(ONE)), eb)
        }
}

fn range_bearing_residual<K: Numerics>(pred: Vector3, o: &Observation) -> (r: (Num, Num))
    ensures
        is_range_bearing_residual::<K>(pred, *o, r.0, r.1),
{
    let norm = v_norm::<K>(pred);
    let rn = norm.max(num(NANO));
    let er = difference::<K>(rn, o.range);
    let dir = v_quotient::<K>(pred, rn);
    let dot = v_dot::<K>(dir, o.vector);
    let eb = acos::<K>(dot.clamp(num(MINUS_ONE), num(ONE)));
    assert(is_v_quotient::<K>(pred, larger(norm, num(NANO)), dir));
    (er, eb)
}

/// `next` is `ll` with the share of one observation added to it.
pub open spec fn is_observed<K: Numerics>(
    m: ObsModel,
    pred: Vector3,
    o: Observation,
    ll: Num,
    next: Num,
) -> bool {
    match o.mode {
        ObsMode::Cartesian => exists|t: Num| #[trigger]
            is_cartesian_term::<K>(m, pred, o.vector, t) && is_sum::<K>(ll, t, next),
        ObsMode::RangeBearing => exists|er: Num, eb: Num, mid: Num|
            {
                &&& #[trigger] is_range_bearing_residual::<K>(pred, o, er, eb)
                &&& #[trigger] is_added_term::<K>(ll, er, m.inv2rr, m.gate, m.rng_gate2, mid)
                &&& is_added_term::<K>(mid, eb, m.inv2bb, m.gate, m.brg_gate2, next)
            },
    }
}

/// `next` is `ll` plus the share of a residual `e`.
pub open spec fn is_added_term<K: Numerics>(
    ll: Num,
    e: Num,
    inv2: Num,
    gate: Num,
    limit: Num,
    next: Num,
) -> bool {
    exists|t: Num| #[trigger]
        is_residual_term::<K>(e, inv2, gate, limit, t) && is_sum::<K>(ll, t, next)
}

fn observed<K: Numerics>(m: ObsModel, pred: Vector3, o: &Observation, ll: Num) -> (next: Num)
    ensures
        is_observed::<K>(m, pred, *o, ll, next),
{
    match o.mode {
        ObsMode::Cartesian => {
            let t = cartesian_term::<K>(m, pred, o.vector);
            sum::<K>(ll, t)
        },
        ObsMode::RangeBearing => {
            let (er, eb) = range_bearing_residual::<K>(pred, o);
            let t = residual_term::<K>(er, m.inv2rr, m.gate, m.rng_gate2);
            let mid = sum::<K>(ll, t);
            assert(is_added_term::<K>(ll, er, m.inv2rr, m.gate, m.rng_gate2, mid));
            let t = residual_term::<K>(eb, m.inv2bb, m.gate, m.brg_gate2);
            let next = sum::<K>(mid, t);
            assert(is_added_term::<K>(mid, eb, m.inv2bb, m.gate, m.brg_gate2, next));
            next
        },
    }
}

/// `pred` is where a landmark at `at` stands in the body frame of the pose.
pub open spec fn is_predicted<K: Numerics>(
    pos: Vector3,
    att: UnitQuaternion,
    at: Vector3,
    pred: Vector3,
) -> bool {
    exists|d: Vector3| #[trigger]
        is_v_difference::<K>(at, pos, d) && is_unrotated::<K>(att, d, pred)
}

/// `ll` is the log-likelihood of the first `n` observations at a pose, those
/// without a landmark in the map left out.
pub open spec fn is_log_likelihood<K: Numerics>(
    m: ObsModel,
    obs: Seq<Observation>,
    map: Map<int, Vector3>,
    pos: Vector3,
    att: UnitQuaternion,
    n: nat,
    ll: Num,
) -> bool
    decreases n,
{
    if n == 0 {
        ll == num(ZERO)
    } else {
        let o = obs[n - 1];
        if map.contains_key(o.landmark_id as int) {
            exists|prev: Num, pred: Vector3|
                {
                    &&& is_log_likelihood::<K>(m, obs, map, pos, att, (n - 1) as nat, prev)
                    &&& is_predicted::<K>(pos, att, map[o.landmark_id as int], pred)
                    &&& #[trigger] is_observed::<K>(m, pred, o, prev, ll)
                }
        } else {
            is_log_likelihood::<K>(m, obs, map, pos, att, (n - 1) as nat, ll)
        }
    }
}

/// The log-likelihood of a pose.
pub(crate) fn log_likelihood<K: Numerics>(
    m: ObsModel,
    obs: &[Observation],
    map: &LandmarkMap,
    pos: Vector3,
    att: UnitQuaternion,
) -> (ll: Num)
    ensures
        is_log_likelihood::<K>(m, obs@, map@, pos, att, obs@.len(), ll),
{
    let mut ll = num(ZERO);
    for i in 0..obs.len()
        invariant
            is_log_likelihood::<K>(m, obs@, map@, pos, att, i as nat, ll),
    {
        let o = &obs[i];
        if map.has(o.landmark_id) {
            let ghost prev = ll;
            let d = v_difference::<K>(map.at(o.landmark_id), pos);
            let pred = unrotate::<K>(att, d);
            assert(is_predicted::<K>(pos, att, map@[o.landmark_id as int], pred));
            ll = observed::<K>(m, pred, o, ll);
            assert(is_observed::<K>(m, pred, obs@[(i + 1) - 1], prev, ll));
        }
    }
    ll
}

/// The observations of landmarks in the map, in their order.
pub open spec fn known(obs: Seq<Observation>, map: Map<int, Vector3>) -> Seq<Observation>
    decreases obs.len(),
{
    if obs.len() == 0 {
        obs
    } else {
        let some = known(obs.drop_last(), map);
        if map.contains_key(obs.last().landmark_id as int) {
            some.push(obs.last())
        } else {
            some
        }
    }
}

/// Some observation is of a landmark in the map.
pub open spec fn any_known(obs: Seq<Observation>, map: Map<int, Vector3>) -> bool {
    exists|i: int| 0 <= i < obs.len() && map.contains_key((#[trigger] obs[i]).landmark_id as int)
}

/// Something is known exactly where a known observation remains, and all that
/// remain are known.
pub proof fn law_known(obs: Seq<Observation>, map: Map<int, Vector3>)
    ensures
        any_known(obs, map) <==> known(obs, map).len() > 0,
        forall|i: int|
            0 <= i < known(obs, map).len() ==> map.contains_key(
                (#[trigger] known(obs, map)[i]).landmark_id as int,
            ),
    decreases obs.len(),
{
    if obs.len() > 0 {
        let front = obs.drop_last();
        law_known(front, map);
        if map.contains_key(obs.last().landmark_id as int) {
            assert(map.contains_key(obs[obs.len() - 1].landmark_id as int));
        } else if any_known(obs, map) {
            let i = choose|i: int|
                0 <= i < obs.len() && map.contains_key((#[trigger] obs[i]).landmark_id as int);
            assert(front[i] == obs[i]);
        } else if any_known(front, map) {
            let i = choose|i: int|
                0 <= i < front.len() && map.contains_key((#[trigger] front[i]).landmark_id as int);
            assert(obs[i] == front[i]);
        }
    }
}

/// A log-likelihood over the first `n` observations does not depend on what
/// follows them.
proof fn lemma_log_likelihood_extends<K: Numerics>(
    m: ObsModel,
    obs: Seq<Observation>,
    others: Seq<Observation>,
    map: Map<int, Vector3>,
    pos: Vector3,
    att: UnitQuaternion,
    n: nat,
    ll: Num,
)
    requires
        n <= obs.len(),
        n <= others.len(),
        forall|i: int| 0 <= i < n ==> #[trigger] obs[i] == others[i],
    ensures
        is_log_likelihood::<K>(m, obs, map, pos, att, n, ll) ==> is_log_likelihood::<K>(
            m,
            others,
            map,
            pos,
            att,
            n,
            ll,
        ),
    decreases n,
{
    if n > 0 && is_log_likelihood::<K>(m, obs, map, pos, att, n, ll) {
        let o = obs[n - 1];
        assert(others[n - 1] == o);
        if map.contains_key(o.landmark_id as int) {
            let (prev, pred) = choose|prev: Num, pred: Vector3|
                {
                    &&& is_log_likelihood::<K>(m, obs, map, pos, att, (n - 1) as nat, prev)
                    &&& is_predicted::<K>(pos, att, map[o.landmark_id as int], pred)
                    &&& #[trigger] is_observed::<K>(m, pred, o, prev, ll)
                };
            lemma_log_likelihood_extends::<K>(
                m,
                obs,
                others,
                map,
                pos,
                att,
                (n - 1) as nat,
                prev,
            );
            assert(is_observed::<K>(m, pred, others[n - 1], prev, ll));
        } else {
            lemma_log_likelihood_extends::<K>(m, obs, others, map, pos, att, (n - 1) as nat, ll);
        }
    }
}

/// Observations without a landmark in the map change no likelihood: what the
/// known ones give is what all of them give.
pub proof fn law_unknown_are_ignored<K: Numerics>(
    m: ObsModel,
    obs: Seq<Observation>,
    map: Map<int, Vector3>,
    pos: Vector3,
    att: UnitQuaternion,
    ll: Num,
)
    ensures
        is_log_likelihood::<K>(m, obs, map, pos, att, obs.len(), ll) <==> is_log_likelihood::<K>(
            m,
            known(obs, map),
            map,
            pos,
            att,
            known(obs, map).len(),
            ll,
        ),
    decreases obs.len(),
{
    if obs.len() > 0 {
        let n = obs.len();
        let o = obs[n - 1];
        let front = obs.drop_last();
        let some = known(front, map);
        let before = (n - 1) as nat;
        if map.contains_key(o.landmark_id as int) {
            let all = some.push(o);
            assert(known(obs, map) == all && all[all.len() - 1] == o);
            if is_log_likelihood::<K>(m, obs, map, pos, att, n, ll) {
                let (prev, pred) = choose|prev: Num, pred: Vector3|
                    {
                        &&& is_log_likelihood::<K>(m, obs, map, pos, att, before, prev)
                        &&& is_predicted::<K>(pos, att, map[o.landmark_id as int], pred)
                        &&& #[trigger] is_observed::<K>(m, pred, o, prev, ll)
                    };
                lemma_log_likelihood_extends::<K>(m, obs, front, map, pos, att, before, prev);
                law_unknown_are_ignored::<K>(m, front, map, pos, att, prev);
                lemma_log_likelihood_extends::<K>(m, some, all, map, pos, att, some.len(), prev);
                assert(is_observed::<K>(m, pred, all[all.len() - 1], prev, ll));
            }
            if is_log_likelihood::<K>(m, all, map, pos, att, all.len(), ll) {
                let (prev, pred) = choose|prev: Num, pred: Vector3|
                    {
                        &&& is_log_likelihood::<K>(m, all, map, pos, att, some.len(), prev)
                        &&& is_predicted::<K>(pos, att, map[o.landmark_id as int], pred)
                        &&& #[trigger] is_observed::<K>(m, pred, o, prev, ll)
                    };
                lemma_log_likelihood_extends::<K>(m, all, some, map, pos, att, some.len(), prev);
                law_unknown_are_ignored::<K>(m, front, map, pos, att, prev);
                lemma_log_likelihood_extends::<K>(m, front, obs, map, pos, att, before, prev);
                assert(is_observed::<K>(m, pred, obs[n - 1], prev, ll));
            }
        } else {
            lemma_log_likelihood_extends::<K>(m, obs, front, map, pos, att, before, ll);
            lemma_log_likelihood_extends::<K>(m, front, obs, map, pos, att, before, ll);
            law_unknown_are_ignored::<K>(m, front, map, pos, att, ll);
        }
    }
}

/// A cutoff of 0 disables gating: every residual counts in full, however far.
pub proof fn law_no_cutoff<K: Numerics>(
    m: ObsModel,
    pred: Vector3,
    seen: Vector3,
    e: Num,
    inv2: Num,
    limit: Num,
    t: Num,
)
    requires
        !less(num(ZERO), m.gate),
    ensures
        is_residual_term::<K>(e, inv2, m.gate, limit, t) ==> is_product3::<K>(
            negated(e),
            e,
            inv2,
            t,
        ),
        is_cartesian_term::<K>(m, pred, seen, t) ==> exists|d: Vector3, r2: Num|
            {
                &&& is_v_difference::<K>(pred, seen, d)
                &&& #[trigger] is_v_norm_squared::<K>(d, r2)
                &&& is_product::<K>(negated(r2), m.inv2rr, t)
            },
{
}

} // verus!
