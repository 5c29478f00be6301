//! What a perfect fit weighs, where the arithmetic keeps signs and order.
//!
//! Sums, products, differences, quotients and roundings of binary64 numbers do;
//! of `exp` it is asked that it never falls.
use vstd::prelude::*;

use crate::config::PfConfig;
use crate::cpu::Cloud;
use crate::likelihood::{
    any_known, is_added_term, is_cartesian_term, is_log_likelihood, is_model, is_observed,
    is_predicted, is_product3, is_range_bearing_residual, is_residual_term, ObsModel,
};
use crate::num::{at_most, is_finite, is_nan, less, negated, num, rank, Num, ZERO};
use crate::numerics::{
    is_difference, is_exp, is_product, is_quotient, is_sum, is_v_difference, is_v_norm_squared,
    Numerics,
};
use crate::types::{ObsMode, Observation, UnitQuaternion, Vector3};
use crate::weights::{
    are_normalized, are_normalized_by, are_uniform, is_degenerate, is_share, is_stored,
};

verus! {

/// At most zero, or a NaN.
pub open spec fn is_no_gain(x: Num) -> bool {
    is_nan(x) || at_most(x, num(ZERO))
}

/// Signs come out of sums, products and norms as they should.
pub open spec fn signs_are_kept<K: Numerics>() -> bool {
    &&& forall|a: Num, b: Num, r: Num| #[trigger]
        is_sum::<K>(a, b, r) && is_no_gain(a) && is_no_gain(b) ==> is_no_gain(r)
    &&& forall|a: Num, b: Num, r: Num| #[trigger]
        is_sum::<K>(a, b, r) && rank(a) == 0 && rank(b) == 0 ==> rank(r) == 0
    &&& forall|e: Num, r: Num| #[trigger] is_product::<K>(negated(e), e, r) ==> is_no_gain(r)
    &&& forall|a: Num, b: Num, r: Num| #[trigger]
        is_product::<K>(a, b, r) && is_no_gain(a) && at_most(num(ZERO), b) ==> is_no_gain(r)
    &&& forall|a: Num, b: Num, r: Num| #[trigger]
        is_product::<K>(a, b, r) && rank(a) == 0 && is_finite(b) ==> rank(r) == 0
    &&& forall|e: Vector3, r2: Num| #[trigger]
        is_v_norm_squared::<K>(e, r2) ==> is_no_gain(negated(r2))
}

/// Differences from one number, `exp`, quotients by one positive number and
/// rounding to single precision keep the order, and NaNs stay NaNs.
pub open spec fn order_is_kept<K: Numerics>() -> bool {
    &&& forall|a: Num, b: Num, p: Num, r: Num, s: Num|
        #[trigger] is_difference::<K>(a, p, r) && #[trigger] is_difference::<K>(b, p, s) && !less(
            b,
            a,
        ) ==> !less(s, r)
    &&& forall|a: Num, b: Num, r: Num, s: Num|
        #[trigger] is_exp::<K>(a, r) && #[trigger] is_exp::<K>(b, s) && !less(b, a) ==> !less(s, r)
    &&& forall|a: Num, b: Num, t: Num, r: Num, s: Num|
        #[trigger] is_quotient::<K>(a, t, r) && #[trigger] is_quotient::<K>(b, t, s) && less(
            num(ZERO),
            t,
        ) && is_finite(t) && !less(b, a) ==> !less(s, r)
    &&& forall|a: Num, b: Num, r: Num, s: Num|
        #[trigger] is_stored::<K>(a, r) && #[trigger] is_stored::<K>(b, s) && !less(b, a) ==> !less(
            s,
            r,
        )
}

/// The precisions of a configuration are finite and not negative.
pub open spec fn has_precisions<K: Numerics>(cfg: PfConfig) -> bool {
    forall|m: ObsModel| #[trigger]
        is_model::<K>(cfg, m) ==> {
            &&& at_most(num(ZERO), m.inv2rr) && is_finite(m.inv2rr)
            &&& at_most(num(ZERO), m.inv2bb) && is_finite(m.inv2bb)
        }
}

/// The pose sees the landmark just as observed: every residual is zero.
pub open spec fn is_fit<K: Numerics>(
    pos: Vector3,
    att: UnitQuaternion,
    at: Vector3,
    o: Observation,
) -> bool {
    match o.mode {
        ObsMode::Cartesian => forall|pred: Vector3, e: Vector3, r2: Num|
            is_predicted::<K>(pos, att, at, pred) && #[trigger] is_v_difference::<K>(
                pred,
                o.vector,
                e,
            ) && #[trigger] is_v_norm_squared::<K>(e, r2) ==> rank(r2) == 0,
        ObsMode::RangeBearing => forall|pred: Vector3, er: Num, eb: Num|
            is_predicted::<K>(pos, att, at, pred) && #[trigger] is_range_bearing_residual::<K>(
                pred,
                o,
                er,
                eb,
            ) ==> rank(er) == 0 && rank(eb) == 0,
    }
}

proof fn lemma_residual_term<K: Numerics>(e: Num, inv2: Num, gate: Num, limit: Num, t: Num)
    requires
        signs_are_kept::<K>(),
        !less(num(ZERO), gate),
        at_most(num(ZERO), inv2),
        is_finite(inv2),
        is_residual_term::<K>(e, inv2, gate, limit, t),
    ensures
        is_no_gain(t),
        rank(e) == 0 ==> rank(t) == 0,
{
    assert(is_product3::<K>(negated(e), e, inv2, t));
    let q = choose|q: Num| #[trigger]
        is_product::<K>(negated(e), e, q) && is_product::<K>(q, inv2, t);
    if rank(e) == 0 {
        assert(rank(negated(e)) == 0);
    }
}

/// What one observation adds: nothing to a fit, and no gain to any.
proof fn lemma_likelihood<K: Numerics>(
    m: ObsModel,
    o: Observation,
    map: Map<int, Vector3>,
    pos: Vector3,
    att: UnitQuaternion,
    ll: Num,
)
    requires
        signs_are_kept::<K>(),
        !less(num(ZERO), m.gate),
        at_most(num(ZERO), m.inv2rr) && is_finite(m.inv2rr),
        at_most(num(ZERO), m.inv2bb) && is_finite(m.inv2bb),
        map.contains_key(o.landmark_id as int),
        is_log_likelihood::<K>(m, seq![o], map, pos, att, 1, ll),
    ensures
        is_no_gain(ll),
        is_fit::<K>(pos, att, map[o.landmark_id as int], o) ==> rank(ll) == 0,
{
    reveal_with_fuel(is_log_likelihood, 2);
    let obs = seq![o];
    assert(obs[0] == o);
    let at = map[o.landmark_id as int];
    let (prev, pred) = choose|prev: Num, pred: Vector3|
        {
            &&& is_log_likelihood::<K>(m, obs, map, pos, att, 0, prev)
            &&& is_predicted::<K>(pos, att, at, pred)
            &&& #[trigger] is_observed::<K>(m, pred, o, prev, ll)
        };
    assert(rank(prev) == 0);
    match o.mode {
        ObsMode::Cartesian => {
            let t = choose|t: Num| #[trigger]
                is_cartesian_term::<K>(m, pred, o.vector, t) && is_sum::<K>(prev, t, ll);
            let (e, r2) = choose|e: Vector3, r2: Num|
                {
                    &&& is_v_difference::<K>(pred, o.vector, e)
                    &&& #[trigger] is_v_norm_squared::<K>(e, r2)
                    &&& is_product::<K>(negated(r2), m.inv2rr, t)
                };
            assert(is_no_gain(negated(r2)));
            if rank(r2) == 0 {
                assert(rank(negated(r2)) == 0);
            }
        },
        ObsMode::RangeBearing => {
            let (er, eb, mid) = choose|er: Num, eb: Num, mid: Num|
                {
                    &&& #[trigger] is_range_bearing_residual::<K>(pred, o, er, eb)
                    &&& #[trigger] is_added_term::<K>(
                        prev,
                        er,
                        m.inv2rr,
                        m.gate,
                        m.rng_gate2,
                        mid,
                    )
                    &&& is_added_term::<K>(mid, eb, m.inv2bb, m.gate, m.brg_gate2, ll)
                };
            let t = choose|t: Num| #[trigger]
                is_residual_term::<K>(er, m.inv2rr, m.gate, m.rng_gate2, t) && is_sum::<K>(
                    prev,
                    t,
                    mid,
                );
            let u = choose|t: Num| #[trigger]
                is_residual_term::<K>(eb, m.inv2bb, m.gate, m.brg_gate2, t) && is_sum::<K>(
                    mid,
                    t,
                    ll,
                );
            lemma_residual_term::<K>(er, m.inv2rr, m.gate, m.rng_gate2, t);
            lemma_residual_term::<K>(eb, m.inv2bb, m.gate, m.brg_gate2, u);
        },
    }
}

/// Without a cutoff, no particle weighs more than one that fits the
/// observation perfectly.
pub proof fn law_perfect_fit_weighs_most<K: Numerics>(
    pre: Cloud,
    o: Observation,
    map: Map<int, Vector3>,
    post: Cloud,
    i: int,
    j: int,
)
    requires
        signs_are_kept::<K>(),
        order_is_kept::<K>(),
        has_precisions::<K>(pre.cfg),
        pre.pos.len() == pre.att.len(),
        pre.pos.len() == pre.weight.len(),
        !less(num(ZERO), pre.cfg.gate_sigma),
        map.contains_key(o.landmark_id as int),
        0 <= i < pre.pos.len(),
        0 <= j < pre.pos.len(),
        is_fit::<K>(pre.pos[i], pre.att[i], map[o.landmark_id as int], o),
        pre.is_weighted::<K>(seq![o], map, post),
    ensures
        !less(post.weight[i], post.weight[j]),
{
    let obs = seq![o];
    assert(map.contains_key(obs[0].landmark_id as int));
    assert(any_known(obs, map));
    let (m, lls) = choose|m: ObsModel, lls: Seq<Num>|
        {
            &&& is_model::<K>(pre.cfg, m)
            &&& #[trigger] pre.are_log_likelihoods::<K>(m, obs, map, lls)
            &&& are_normalized::<K>(lls, post.weight)
        };
    assert(is_log_likelihood::<K>(m, obs, map, pre.pos[i], pre.att[i], 1, lls[i]));
    assert(is_log_likelihood::<K>(m, obs, map, pre.pos[j], pre.att[j], 1, lls[j]));
    lemma_likelihood::<K>(m, o, map, pre.pos[i], pre.att[i], lls[i]);
    lemma_likelihood::<K>(m, o, map, pre.pos[j], pre.att[j], lls[j]);
    assert(!less(lls[i], lls[j]));
    let ws = post.weight;
    let (es, total) = choose|es: Seq<Num>, total: Num| #[trigger]
        are_normalized_by::<K>(lls, es, total, ws);
    if is_degenerate(total) {
        assert(are_uniform::<K>(ws));
    } else {
        assert(!less(es[i], es[j]));
        assert(is_share::<K>(es[i], total, ws[i]) && is_share::<K>(es[j], total, ws[j]));
    }
}

} // verus!
