//! What moves, spreads and redraws particles, where no operation rounds.
use rand::rngs::SmallRng;
use vstd::prelude::*;

use crate::cpu::{law_wf_is_even, Cloud, CpuBackend};
use crate::exact::{
    reads_numbers, scalars_are_exact, total, turns_are_undone, vectors_are_exact, Reading,
};
use crate::motion::{
    is_displaced, is_moved, is_noise, is_scaled, is_small_turn, is_spread, is_triple_draw,
    is_turned, moved, spread,
};
use crate::num::{at_most, is_finite, is_nan, less, num, Num, HALF, MINUS_HALF, TINY_ANGLE, ZERO};
use crate::numerics::{
    is_composed, is_from_u64, is_inverse, is_normal_draw, is_product, is_quotient, is_rotated,
    is_sum, is_to_index, is_turn, is_uniform_draw, is_unrotated, is_v_difference, is_v_norm,
    is_v_sum, Numerics,
};
use crate::particle_filter::Backend;
use crate::repeat::vectors_repeat;
use crate::resampling::{
    are_picks, are_prefix_sums, chosen, is_comb, is_drawn, is_injected, is_injection_count,
    is_jitter, is_jittered, is_pick, is_prefix_sum, is_redrawn, is_resampled, is_selection,
    is_shift, is_target, law_injections_move_as_many, law_picks_ascend, law_settle, settle,
    Injecting, RESAMPLE_STREAM,
};
use crate::rng::{is_seeded, next_generation, stream_seed};
use crate::types::{OdomDelta, Pose, UnitQuaternion, Vector3};
use crate::weight_laws::law_equal_weights;
use crate::weights::{are_uniform, is_degenerate};

verus! {

/// What is added to a vector is what it then differs by.
pub open spec fn steps_are_undone<K: Numerics>() -> bool {
    forall|a: Vector3, b: Vector3, s: Vector3, d: Vector3|
        #[trigger] is_v_sum::<K>(a, b, s) && #[trigger] is_v_difference::<K>(s, a, d) ==> d == b
}

/// The first six normal draws of a stream: three for a position, then three
/// for an attitude, each in the order x, y, z.
pub open spec fn are_six_draws<K: Numerics>(
    seed: u64,
    n: Vector3,
    w: Vector3,
    r: Seq<SmallRng>,
) -> bool {
    &&& r.len() == 7
    &&& is_seeded(seed, r[0])
    &&& is_normal_draw::<K>(r[0], (n.x, r[1]))
    &&& is_normal_draw::<K>(r[1], (n.y, r[2]))
    &&& is_normal_draw::<K>(r[2], (n.z, r[3]))
    &&& is_normal_draw::<K>(r[3], (w.x, r[4]))
    &&& is_normal_draw::<K>(r[4], (w.y, r[5]))
    &&& is_normal_draw::<K>(r[5], (w.z, r[6]))
}

/// `turn` is the rotation about the vector with these coordinates, by its
/// length; none where that is tiny.
pub open spec fn is_turn_about<K: Numerics>(
    val: Reading,
    x: real,
    y: real,
    z: real,
    turn: UnitQuaternion,
) -> bool {
    exists|axis: Vector3, angle: Num|
        {
            &&& val(axis.x) == x && val(axis.y) == y && val(axis.z) == z
            &&& #[trigger] is_v_norm::<K>(axis, angle)
            &&& less(num(TINY_ANGLE), angle) ==> is_turn::<K>(axis, angle, turn)
            &&& !less(num(TINY_ANGLE), angle) ==> turn == UnitQuaternion::identity()
        }
}

proof fn lemma_noise<K: Numerics>(seed: u64, n: Vector3, w: Vector3) -> (r: Seq<SmallRng>)
    requires
        is_noise::<K>(seed, n, w),
    ensures
        are_six_draws::<K>(seed, n, w, r),
{
    let (rng, mid, end) = choose|rng: SmallRng, mid: SmallRng, end: SmallRng|
        {
            &&& is_seeded(seed, rng)
            &&& #[trigger] is_triple_draw::<K>(rng, n, mid)
            &&& #[trigger] is_triple_draw::<K>(mid, w, end)
        };
    let (a, b) = choose|a: SmallRng, b: SmallRng|
        {
            &&& #[trigger] is_normal_draw::<K>(rng, (n.x, a))
            &&& #[trigger] is_normal_draw::<K>(a, (n.y, b))
            &&& is_normal_draw::<K>(b, (n.z, mid))
        };
    let (c, d) = choose|a: SmallRng, b: SmallRng|
        {
            &&& #[trigger] is_normal_draw::<K>(mid, (w.x, a))
            &&& #[trigger] is_normal_draw::<K>(a, (w.y, b))
            &&& is_normal_draw::<K>(b, (w.z, end))
        };
    seq![rng, a, b, mid, c, d, end]
}

proof fn lemma_small_turn<K: Numerics>(
    val: Reading,
    std: Vector3,
    w: Vector3,
    axis: Vector3,
    dq: UnitQuaternion,
)
    requires
        scalars_are_exact::<K>(val),
        is_scaled::<K>(std, w, axis),
        is_small_turn::<K>(axis, dq),
    ensures
        is_turn_about::<K>(
            val,
            val(std.x) * val(w.x),
            val(std.y) * val(w.y),
            val(std.z) * val(w.z),
            dq,
        ),
{
    let angle = choose|angle: Num|
        #[trigger] is_v_norm::<K>(axis, angle) && if less(num(TINY_ANGLE), angle) {
            is_turn::<K>(axis, angle, dq)
        } else {
            dq == UnitQuaternion::identity()
        };
    assert(is_v_norm::<K>(axis, angle));
}

/// A pose is spread by its stream's draws times the deviations: the position
/// along the axes of the world, the attitude about those of the body.
pub proof fn law_spread<K: Numerics>(
    val: Reading,
    seed: u64,
    pose: &Pose,
    pos_std: &Vector3,
    rot_std: &Vector3,
    r: (Vector3, UnitQuaternion),
    inv: UnitQuaternion,
    turn: UnitQuaternion,
)
    requires
        scalars_are_exact::<K>(val),
        vectors_are_exact::<K>(val),
        turns_are_undone::<K>(),
        call_ensures(spread::<K>, (seed, pose, pos_std, rot_std), r),
        is_inverse::<K>(pose.attitude, inv),
        is_composed::<K>(inv, r.1, turn),
    ensures
        exists|n: Vector3, w: Vector3, draws: Seq<SmallRng>|
            {
                &&& #[trigger] are_six_draws::<K>(seed, n, w, draws)
                &&& val(r.0.x) == val(pose.position.x) + val(pos_std.x) * val(n.x)
                &&& val(r.0.y) == val(pose.position.y) + val(pos_std.y) * val(n.y)
                &&& val(r.0.z) == val(pose.position.z) + val(pos_std.z) * val(n.z)
                &&& is_turn_about::<K>(
                    val,
                    val(rot_std.x) * val(w.x),
                    val(rot_std.y) * val(w.y),
                    val(rot_std.z) * val(w.z),
                    turn,
                )
            },
{
    let (p, a) = r;
    assert(is_spread::<K>(seed, *pose, *pos_std, *rot_std, p, a));
    let (n, w, off, axis, dq) = choose|
        n: Vector3,
        w: Vector3,
        off: Vector3,
        axis: Vector3,
        dq: UnitQuaternion,
    |
        {
            &&& #[trigger] is_noise::<K>(seed, n, w)
            &&& #[trigger] is_scaled::<K>(*pos_std, n, off)
            &&& is_v_sum::<K>(pose.position, off, p)
            &&& #[trigger] is_scaled::<K>(*rot_std, w, axis)
            &&& #[trigger] is_small_turn::<K>(axis, dq)
            &&& is_composed::<K>(pose.attitude, dq, a)
        };
    let draws = lemma_noise::<K>(seed, n, w);
    lemma_small_turn::<K>(val, *rot_std, w, axis, dq);
    assert(turn == dq);
    assert(are_six_draws::<K>(seed, n, w, draws));
}

/// A particle moves by the odometry's translation in its own body frame, off
/// by its stream's draws times the deviations; and it turns by the odometry's
/// rotation, then by a small turn of its own.
pub proof fn law_moved<K: Numerics>(
    val: Reading,
    seed: u64,
    odom: &OdomDelta,
    pos: Vector3,
    att: UnitQuaternion,
    r: (Vector3, UnitQuaternion),
    gone: Vector3,
    body: Vector3,
    turned: UnitQuaternion,
    inv: UnitQuaternion,
    turn: UnitQuaternion,
)
    requires
        scalars_are_exact::<K>(val),
        vectors_are_exact::<K>(val),
        vectors_repeat::<K>(),
        turns_are_undone::<K>(),
        steps_are_undone::<K>(),
        call_ensures(moved::<K>, (seed, odom, pos, att), r),
        is_v_difference::<K>(r.0, pos, gone),
        is_unrotated::<K>(att, gone, body),
        is_composed::<K>(att, odom.rotation, turned),
        is_inverse::<K>(turned, inv),
        is_composed::<K>(inv, r.1, turn),
    ensures
        exists|n: Vector3, w: Vector3, draws: Seq<SmallRng>|
            {
                &&& #[trigger] are_six_draws::<K>(seed, n, w, draws)
                &&& val(body.x) == val(odom.translation.x) + val(odom.trans_noise.x) * val(n.x)
                &&& val(body.y) == val(odom.translation.y) + val(odom.trans_noise.y) * val(n.y)
                &&& val(body.z) == val(odom.translation.z) + val(odom.trans_noise.z) * val(n.z)
                &&& is_turn_about::<K>(
                    val,
                    val(odom.rot_noise.x) * val(w.x),
                    val(odom.rot_noise.y) * val(w.y),
                    val(odom.rot_noise.z) * val(w.z),
                    turn,
                )
            },
{
    let (p, a) = r;
    assert(is_moved::<K>(seed, *odom, pos, att, p, a));
    let (n, w, off, axis, dq) = choose|
        n: Vector3,
        w: Vector3,
        off: Vector3,
        axis: Vector3,
        dq: UnitQuaternion,
    |
        {
            &&& #[trigger] is_noise::<K>(seed, n, w)
            &&& #[trigger] is_scaled::<K>(odom.trans_noise, n, off)
            &&& is_displaced::<K>(pos, att, odom.translation, off, p)
            &&& #[trigger] is_scaled::<K>(odom.rot_noise, w, axis)
            &&& #[trigger] is_small_turn::<K>(axis, dq)
            &&& is_turned::<K>(att, odom.rotation, dq, a)
        };
    let (b, world) = choose|b: Vector3, world: Vector3|
        {
            &&& is_v_sum::<K>(odom.translation, off, b)
            &&& #[trigger] is_rotated::<K>(att, b, world)
            &&& is_v_sum::<K>(pos, world, p)
        };
    assert(gone == world);
    assert(body == b);
    let mid = choose|mid: UnitQuaternion|
        #[trigger] is_composed::<K>(att, odom.rotation, mid) && is_composed::<K>(mid, dq, a);
    assert(mid == turned);
    assert(turn == dq);
    let draws = lemma_noise::<K>(seed, n, w);
    lemma_small_turn::<K>(val, odom.rot_noise, w, axis, dq);
    assert(are_six_draws::<K>(seed, n, w, draws));
}

/// A cloud that is spread takes each particle about the one pose, by a stream
/// of the particle's own, and keeps its size and its settings.
pub proof fn law_each_particle_is_spread<K: Numerics>(
    pre: Cloud,
    pose: Pose,
    pos_std: Vector3,
    rot_std: Vector3,
    post: Cloud,
    i: int,
)
    requires
        pre.is_reseeded::<K>(pose, pos_std, rot_std, post),
        0 <= i < pre.pos.len(),
    ensures
        is_spread::<K>(
            stream_seed(next_generation(pre.seed), i as u64),
            pose,
            pos_std,
            rot_std,
            post.pos[i],
            post.att[i],
        ),
        post.pos.len() == pre.pos.len(),
        post.weight.len() == pre.weight.len(),
        are_uniform::<K>(post.weight),
        post.cfg == pre.cfg,
        post.seed == next_generation(pre.seed),
{
    assert(is_spread::<K>(
        stream_seed(post.seed, i as u64),
        pose,
        pos_std,
        rot_std,
        post.pos[i],
        post.att[i],
    ));
}

/// A cloud that is moved takes each particle on from where it stands, by a
/// stream of the particle's own, and keeps the weights.
pub proof fn law_each_particle_is_moved<K: Numerics>(
    pre: Cloud,
    odom: OdomDelta,
    post: Cloud,
    i: int,
)
    requires
        pre.is_advanced::<K>(odom, post),
        0 <= i < pre.pos.len(),
    ensures
        is_moved::<K>(
            stream_seed(next_generation(pre.seed), i as u64),
            odom,
            pre.pos[i],
            pre.att[i],
            post.pos[i],
            post.att[i],
        ),
        post.pos.len() == pre.pos.len(),
        post.weight == pre.weight,
        post.cfg == pre.cfg,
        post.seed == next_generation(pre.seed),
{
    assert(is_moved::<K>(
        stream_seed(post.seed, i as u64),
        odom,
        pre.pos[i],
        pre.att[i],
        post.pos[i],
        post.att[i],
    ));
}

/// The sum of the weights before particle `k`.
pub open spec fn weight_before(val: Reading, ws: Seq<Num>, k: int) -> real {
    total(k as nat, |j: int| val(ws[j]))
}

proof fn lemma_prefix<K: Numerics>(val: Reading, ws: Seq<Num>, cum: Seq<Num>, k: int)
    requires
        scalars_are_exact::<K>(val),
        are_prefix_sums::<K>(ws, cum),
        0 <= k < cum.len(),
    ensures
        val(cum[k]) == weight_before(val, ws, k + 1),
    decreases k,
{
    let f = |j: int| val(ws[j]);
    assert(is_prefix_sum::<K>(ws, cum, k));
    assert(total((k + 1) as nat, f) == total(k as nat, f) + f(k));
    if k > 0 {
        lemma_prefix::<K>(val, ws, cum, k - 1);
    } else {
        assert(total(0, f) == 0real);
    }
}

/// What a walk passed falls short of the target, and what it settled on
/// reaches it unless it is the last.
proof fn lemma_pick_falls<K: Numerics>(
    val: Reading,
    cum: Seq<Num>,
    u0: Num,
    step: Num,
    picks: Seq<int>,
    i: int,
)
    requires
        scalars_are_exact::<K>(val),
        are_picks::<K>(cum, u0, step, picks),
        cum.len() <= usize::MAX,
        forall|k: int| 0 <= k < cum.len() ==> !is_nan(#[trigger] cum[k]),
        0real < val(step),
        0 <= i < picks.len(),
    ensures
        picks[i] > 0 ==> val(cum[picks[i] - 1]) < val(u0) + i as real * val(step),
        picks[i] < cum.len() - 1 ==> val(u0) + i as real * val(step) <= val(cum[picks[i]]),
    decreases i,
{
    assert(is_pick::<K>(cum, u0, step, picks, i));
    let from = if i == 0 {
        0
    } else {
        picks[i - 1]
    };
    let t = choose|t: Num| #[trigger]
        is_target::<K>(u0, step, i, t) && picks[i] == settle(
            cum,
            if i == 0 {
                0
            } else {
                picks[i - 1]
            },
            t,
        );
    if i > 0 {
        law_picks_ascend::<K>(cum, u0, step, picks, i - 1, i - 1);
        lemma_pick_falls::<K>(val, cum, u0, step, picks, i - 1);
        let (a, b, s) = ((i - 1) as real, i as real, val(step));
        assert(a + 1real == b);
        assert(a * s < b * s) by (nonlinear_arith)
            requires
                0real < s,
                a + 1real == b,
        ;
    }
    law_settle(cum, from, t);
    assert(val(t) == val(u0) + i as real * val(step));
    assert(!is_nan(t));
    let p = picks[i];
    if p > from {
        assert(less(cum[p - 1], t));
    }
}

/// `v` holds three draws between -0.5 and 0.5, in the order x, y, z.
pub open spec fn are_small_draws<K: Numerics>(
    val: Reading,
    rng: SmallRng,
    v: Vector3,
    next: SmallRng,
) -> bool {
    exists|a: SmallRng, b: SmallRng, lo: Num, hi: Num|
        {
            &&& call_ensures(K::draw_between, (rng, lo, hi), (v.x, a))
            &&& #[trigger] call_ensures(K::draw_between, (a, lo, hi), (v.y, b))
            &&& call_ensures(K::draw_between, (b, lo, hi), (v.z, next))
            &&& val(lo) == -1real / 2real && val(hi) == 1real / 2real
        }
}

/// `q` is `p`, off by three small draws.
pub open spec fn is_off_by_draws<K: Numerics>(val: Reading, p: Vector3, q: Vector3) -> bool {
    exists|rng: SmallRng, v: Vector3, next: SmallRng|
        {
            &&& #[trigger] are_small_draws::<K>(val, rng, v, next)
            &&& val(q.x) == val(p.x) + val(v.x)
            &&& val(q.y) == val(p.y) + val(v.y)
            &&& val(q.z) == val(p.z) + val(v.z)
        }
}

/// A jitter is three small draws, added to x, y and z.
pub proof fn law_jitter_is_small<K: Numerics>(val: Reading, p: Vector3, q: Vector3)
    requires
        reads_numbers(val),
        vectors_are_exact::<K>(val),
        is_jittered::<K>(p, q),
    ensures
        is_off_by_draws::<K>(val, p, q),
{
    let (rng, v, next) = choose|rng: SmallRng, v: Vector3, next: SmallRng| #[trigger]
        is_jitter::<K>(rng, v, next) && #[trigger] is_v_sum::<K>(p, v, q);
    let (a, b) = choose|a: SmallRng, b: SmallRng|
        {
            &&& #[trigger] is_shift::<K>(rng, v.x, a)
            &&& #[trigger] is_shift::<K>(a, v.y, b)
            &&& is_shift::<K>(b, v.z, next)
        };
    assert(call_ensures(K::draw_between, (a, num(MINUS_HALF), num(HALF)), (v.y, b)));
    assert(are_small_draws::<K>(val, rng, v, next));
}

/// Target `i` of a resampling, `u` the draw that places all of them: they lie
/// evenly over the total of the weights.
pub open spec fn target(val: Reading, ws: Seq<Num>, u: Num, i: int) -> real {
    let step = weight_before(val, ws, ws.len() as int) / ws.len() as real;
    val(u) * step + i as real * step
}

/// The target falls on the weight of particle `p`: all before it do not reach
/// it, and with it they do, unless it is the last.
pub open spec fn falls_on(val: Reading, ws: Seq<Num>, t: real, p: int) -> bool {
    &&& 0 <= p < ws.len()
    &&& p > 0 ==> weight_before(val, ws, p) < t
    &&& p < ws.len() - 1 ==> t <= weight_before(val, ws, p + 1)
}

/// Each of the new particles is a copy of its pick; the positions at `moved`,
/// no place twice, are off by small draws.
pub open spec fn are_copies<K: Numerics>(
    val: Reading,
    pos: Seq<Vector3>,
    att: Seq<UnitQuaternion>,
    picks: Seq<int>,
    moved: Seq<int>,
    new_pos: Seq<Vector3>,
    new_att: Seq<UnitQuaternion>,
) -> bool {
    &&& new_pos.len() == picks.len() && new_att.len() == picks.len()
    &&& moved.no_duplicates()
    &&& forall|k: int| 0 <= k < moved.len() ==> 0 <= #[trigger] moved[k] < picks.len()
    &&& forall|i: int| 0 <= i < picks.len() ==> #[trigger] new_att[i] == att[picks[i]]
    &&& forall|i: int|
        0 <= i < picks.len() ==> if moved.contains(i) {
            is_off_by_draws::<K>(val, pos[picks[i]], #[trigger] new_pos[i])
        } else {
            new_pos[i] == pos[picks[i]]
        }
}

/// Each particle of a resampled cloud is a copy of the one whose weight its
/// target falls on, position and attitude of the same one; but for as many
/// positions as the ratio asks for, which are moved by a jitter each.
pub proof fn law_resampled_by_weight<K: Numerics>(
    val: Reading,
    seed: u64,
    pos: Seq<Vector3>,
    att: Seq<UnitQuaternion>,
    ws: Seq<Num>,
    ratio: Num,
    new_pos: Seq<Vector3>,
    new_att: Seq<UnitQuaternion>,
)
    requires
        scalars_are_exact::<K>(val),
        vectors_are_exact::<K>(val),
        pos.len() == ws.len(),
        att.len() == ws.len(),
        ws.len() <= usize::MAX,
        ws.len() > 0 ==> !is_nan(ws[0]),
        is_resampled::<K>(seed, pos, att, ws, ratio, Some((new_pos, new_att))),
    ensures
        exists|picks: Seq<int>, u: Num, moved: Seq<int>|
            {
                &&& picks.len() == ws.len()
                &&& is_first_draw::<K>(seed ^ 0xDEAD_BEEF_CAFE_F00D, u)
                &&& #[trigger] are_fallen_on(val, ws, u, picks)
                &&& #[trigger] are_copies::<K>(val, pos, att, picks, moved, new_pos, new_att)
                &&& is_share(val, ratio, ws.len(), moved.len())
            },
{
    let cum = choose|cum: Seq<Num>| #[trigger]
        are_prefix_sums::<K>(ws, cum) && !is_degenerate(cum.last()) && is_drawn::<K>(
            seed,
            pos,
            att,
            cum,
            ratio,
            new_pos,
            new_att,
        );
    let (picks, rng, k) = choose|picks: Seq<int>, rng: SmallRng, k: nat|
        {
            &&& #[trigger] is_selection::<K>(seed, cum, picks, rng)
            &&& is_injection_count::<K>(ratio, cum.len(), k)
            &&& #[trigger] is_redrawn::<K>(pos, att, picks, rng, k, new_pos, new_att)
        };
    let end = choose|end: Injecting| #[trigger]
        is_injected::<K>(rng, chosen(pos, picks), k, end) && end.pos == new_pos;
    law_injections_move_as_many::<K>(rng, chosen(pos, picks), k, end);
    let moved = end.order.take(k as int);
    assert forall|j: int| 0 <= j < cum.len() implies !is_nan(#[trigger] cum[j]) by {
        assert(is_prefix_sum::<K>(ws, cum, j));
    }
    lemma_prefix::<K>(val, ws, cum, ws.len() - 1);
    assert(0real < val(cum.last())) by {
        assert(!at_most(cum.last(), num(ZERO)));
    }
    let (g, u0, step) = choose|rng0: SmallRng, u0: Num, step: Num|
        {
            &&& is_seeded(seed ^ RESAMPLE_STREAM, rng0)
            &&& #[trigger] is_comb::<K>(rng0, cum.last(), cum.len(), u0, step, rng)
            &&& are_picks::<K>(cum, u0, step, picks)
        };
    let (u, count) = choose|u: Num, count: Num|
        {
            &&& #[trigger] is_uniform_draw::<K>(g, (u, rng))
            &&& #[trigger] is_from_u64::<K>(cum.len() as u64, count)
            &&& is_quotient::<K>(cum.last(), count, step)
            &&& is_product::<K>(u, step, u0)
        };
    let (whole, nr) = (val(cum.last()), cum.len() as real);
    assert(0real < whole / nr) by (nonlinear_arith)
        requires
            0real < whole,
            0real < nr,
    ;
    assert forall|i: int| 0 <= i < ws.len() implies falls_on(
        val,
        ws,
        target(val, ws, u, i),
        #[trigger] picks[i],
    ) by {
        law_picks_ascend::<K>(cum, u0, step, picks, i, i);
        lemma_pick_falls::<K>(val, cum, u0, step, picks, i);
        if picks[i] > 0 {
            lemma_prefix::<K>(val, ws, cum, picks[i] - 1);
        }
        lemma_prefix::<K>(val, ws, cum, picks[i]);
    }
    assert(is_first_draw::<K>(seed ^ 0xDEAD_BEEF_CAFE_F00D, u));
    assert(are_fallen_on(val, ws, u, picks));
    assert forall|i: int| 0 <= i < picks.len() implies if moved.contains(i) {
        is_off_by_draws::<K>(val, pos[picks[i]], #[trigger] new_pos[i])
    } else {
        new_pos[i] == pos[picks[i]]
    } by {
        assert(chosen(pos, picks)[i] == pos[picks[i]]);
        if moved.contains(i) {
            let k0 = choose|k0: int| 0 <= k0 < moved.len() && moved[k0] == i;
            assert(is_jittered::<K>(chosen(pos, picks)[moved[k0]], new_pos[moved[k0]]));
            law_jitter_is_small::<K>(val, pos[picks[i]], new_pos[i]);
        }
    }
    assert(are_copies::<K>(val, pos, att, picks, moved, new_pos, new_att));
    law_injection_count::<K>(val, ratio, ws.len(), k);
}

/// `u` is the first uniform draw of a stream.
pub open spec fn is_first_draw<K: Numerics>(seed: u64, u: Num) -> bool {
    exists|g: SmallRng, next: SmallRng|
        is_seeded(seed, g) && #[trigger] is_uniform_draw::<K>(g, (u, next))
}

/// A resampled backend keeps its size, its settings and its seed. Where the
/// weights have no positive total it keeps the particles too; else it draws
/// them by their weights, and each then weighs as much as any other.
pub proof fn law_backend_is_resampled<K: Numerics>(
    val: Reading,
    be: &mut CpuBackend<K>,
    ess_ratio: Num,
    ratio: Num,
)
    requires
        scalars_are_exact::<K>(val),
        vectors_are_exact::<K>(val),
        forall|a: Num, b: Num, r: Num| #[trigger] is_sum::<K>(a, b, r) ==> is_finite(r),
        old(be).wf(),
        old(be)@.pos.len() <= usize::MAX,
        forall|i: int| 0 <= i < old(be)@.pos.len() ==> is_finite(#[trigger] old(be)@.weight[i]),
        call_ensures(<CpuBackend<K> as Backend>::resample, (be, ess_ratio, ratio), ()),
    ensures
        final(be)@.cfg == old(be)@.cfg,
        final(be)@.seed == old(be)@.seed,
        final(be)@.pos.len() == old(be)@.pos.len(),
        ({
            let (pre, post) = (old(be)@, final(be)@);
            let n = pre.pos.len();
            ||| {
                &&& post == pre
                &&& weight_before(val, pre.weight, n as int) <= 0real
            }
            ||| {
                &&& 0real < weight_before(val, pre.weight, n as int)
                &&& forall|i: int|
                    0 <= i < n ==> val(#[trigger] post.weight[i]) == 1real / n as real
                &&& exists|picks: Seq<int>, u: Num, moved: Seq<int>|
                    {
                        &&& picks.len() == n
                        &&& is_first_draw::<K>(pre.seed ^ 0xDEAD_BEEF_CAFE_F00D, u)
                        &&& #[trigger] are_fallen_on(val, pre.weight, u, picks)
                        &&& #[trigger] are_copies::<K>(
                            val,
                            pre.pos,
                            pre.att,
                            picks,
                            moved,
                            post.pos,
                            post.att,
                        )
                        &&& is_share(val, ratio, n, moved.len())
                    }
            }
        }),
{
    let (pre, post) = (old(be)@, final(be)@);
    law_wf_is_even(*old(be));
    let n = pre.pos.len();
    if n == 0 {
        assert(post == pre);
    } else if post == pre && is_resampled::<K>(
        pre.seed,
        pre.pos,
        pre.att,
        pre.weight,
        ratio,
        None,
    ) {
        let cum = choose|cum: Seq<Num>| #[trigger]
            are_prefix_sums::<K>(pre.weight, cum) && is_degenerate(cum.last());
        lemma_prefix::<K>(val, pre.weight, cum, n - 1);
        assert(is_prefix_sum::<K>(pre.weight, cum, n - 1));
        assert(is_finite(cum.last()));
        assert(at_most(cum.last(), num(ZERO)));
    } else {
        law_resampled_by_weight::<K>(
            val,
            pre.seed,
            pre.pos,
            pre.att,
            pre.weight,
            ratio,
            post.pos,
            post.att,
        );
        let cum = choose|cum: Seq<Num>| #[trigger]
            are_prefix_sums::<K>(pre.weight, cum) && !is_degenerate(cum.last());
        lemma_prefix::<K>(val, pre.weight, cum, n - 1);
        assert(!at_most(cum.last(), num(ZERO)));
        assert forall|i: int| 0 <= i < n implies val(#[trigger] post.weight[i]) == 1real
            / n as real by {
            law_equal_weights::<K>(val, post.weight, i);
        }
    }
}

/// Each target falls on its pick.
pub open spec fn are_fallen_on(val: Reading, ws: Seq<Num>, u: Num, picks: Seq<int>) -> bool {
    forall|i: int|
        0 <= i < ws.len() ==> falls_on(val, ws, target(val, ws, u, i), #[trigger] picks[i])
}

/// `k` is the share of `n` that `ratio` asks for, rounded down: all from 1 on,
/// none up to 0 and where the ratio is no number.
pub open spec fn is_share(val: Reading, ratio: Num, n: nat, k: nat) -> bool {
    let x = val(ratio) * n as real;
    if is_nan(ratio) || val(ratio) <= 0real {
        k == 0
    } else if n as real <= x {
        k == n
    } else {
        k as real <= x && x < k as real + 1real
    }
}

/// As many particles are re-injected as the ratio is a share of all, rounded
/// down.
pub proof fn law_injection_count<K: Numerics>(val: Reading, ratio: Num, n: nat, k: nat)
    requires
        scalars_are_exact::<K>(val),
        n <= usize::MAX,
        is_injection_count::<K>(ratio, n, k),
    ensures
        is_share(val, ratio, n, k),
{
    if less(num(ZERO), ratio) {
        let (count, x, whole) = choose|count: Num, x: Num, whole: usize|
            {
                &&& is_from_u64::<K>(n as u64, count)
                &&& #[trigger] is_product::<K>(ratio, count, x)
                &&& #[trigger] is_to_index::<K>(x, whole)
                &&& k == if whole < n {
                    whole as nat
                } else {
                    n
                }
            };
        let (r, c) = (val(ratio), n as real);
        assert(val(count) == c);
        assert(0real <= r * c) by (nonlinear_arith)
            requires
                0real <= r,
                0real <= c,
        ;
        assert(whole as real <= r * c < whole as real + 1real);
        if r * c < c {
            assert(whole < n);
        } else {
            assert((n as real) < whole as real + 1real);
            assert(n <= whole);
        }
    }
}

} // verus!
