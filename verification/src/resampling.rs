//! Systematic resampling with optional re-injection.
use rand::rngs::SmallRng;
use vstd::prelude::*;

use crate::num::{less, num, Num, HALF, MINUS_HALF, ZERO};
use crate::numerics::{
    draw_between, from_u64, is_draw_between, is_from_u64, is_product, is_quotient, is_sum,
    is_to_index, is_uniform_draw, is_v_sum, product, quotient, sum, to_index, uniform_draw, v_sum,
    Numerics,
};
use crate::rng::{index_draw, is_index_draw, is_seeded, seeded};
use crate::types::{UnitQuaternion, Vector3};
use crate::weights::{degenerate, is_degenerate};

verus! {

/// Sets the resampling stream apart from the particles' streams.
pub const RESAMPLE_STREAM: u64 = 0xDEAD_BEEF_CAFE_F00D;

/// `cum[i]` is the sum of the weights up to `i`, added from the left.
pub open spec fn is_prefix_sum<K: Numerics>(ws: Seq<Num>, cum: Seq<Num>, i: int) -> bool {
    if i == 0 {
        cum[0] == ws[0]
    } else {
        is_sum::<K>(cum[i - 1], ws[i], cum[i])
    }
}

pub open spec fn are_prefix_sums<K: Numerics>(ws: Seq<Num>, cum: Seq<Num>) -> bool {
    &&& cum.len() == ws.len()
    &&& forall|i: int| 0 <= i < cum.len() ==> #[trigger] is_prefix_sum::<K>(ws, cum, i)
}

fn prefix_sums<K: Numerics>(ws: &Vec<Num>) -> (cum: Vec<Num>)
    requires
        ws@.len() > 0,
    ensures
        are_prefix_sums::<K>(ws@, cum@),
{
    let mut cum: Vec<Num> = Vec::new();
    cum.push(ws[0]);
    for i in 1..ws.len()
        invariant
            ws@.len() > 0,
            cum@.len() == i,
            forall|k: int| 0 <= k < i ==> #[trigger] is_prefix_sum::<K>(ws@, cum@, k),
    {
        let ghost before = cum@;
        let c = sum::<K>(cum[i - 1], ws[i]);
        cum.push(c);
        assert forall|k: int| 0 <= k < i + 1 implies #[trigger] is_prefix_sum::<K>(
            ws@,
            cum@,
            k,
        ) by {
            if k < i {
                assert(is_prefix_sum::<K>(ws@, before, k));
            }
        }
    }
    cum
}

/// The first place from `j` on whose sum is not below `t`, or the last place.
pub open spec fn settle(cum: Seq<Num>, j: int, t: Num) -> int
    decreases cum.len() - j,
{
    if j < cum.len() - 1 && less(cum[j], t) {
        settle(cum, j + 1, t)
    } else {
        j
    }
}

/// `t` is `u0 + i * step`.
pub open spec fn is_target<K: Numerics>(u0: Num, step: Num, i: int, t: Num) -> bool {
    exists|count: Num, off: Num|
        {
            &&& is_from_u64::<K>(i as u64, count)
            &&& #[trigger] is_product::<K>(count, step, off)
            &&& is_sum::<K>(u0, off, t)
        }
}

/// Pick `i` is where the walk that stood at the pick before it settles for
/// target `i`.
pub open spec fn is_pick<K: Numerics>(
    cum: Seq<Num>,
    u0: Num,
    step: Num,
    picks: Seq<int>,
    i: int,
) -> bool {
    exists|t: Num| #[trigger]
        is_target::<K>(u0, step, i, t) && picks[i] == settle(
            cum,
            if i == 0 {
                0
            } else {
                picks[i - 1]
            },
            t,
        )
}

pub open spec fn are_picks<K: Numerics>(
    cum: Seq<Num>,
    u0: Num,
    step: Num,
    picks: Seq<int>,
) -> bool {
    &&& picks.len() == cum.len()
    &&& forall|i: int| 0 <= i < picks.len() ==> #[trigger] is_pick::<K>(cum, u0, step, picks, i)
}

/// A draw from `rng` places the targets: `step` apart, the first at `u0`.
pub open spec fn is_comb<K: Numerics>(
    rng: SmallRng,
    total: Num,
    n: nat,
    u0: Num,
    step: Num,
    next: SmallRng,
) -> bool {
    exists|u: Num, count: Num|
        {
            &&& #[trigger] is_uniform_draw::<K>(rng, (u, next))
            &&& #[trigger] is_from_u64::<K>(n as u64, count)
            &&& is_quotient::<K>(total, count, step)
            &&& is_product::<K>(u, step, u0)
        }
}

fn comb<K: Numerics>(rng: SmallRng, total: Num, n: usize) -> (r: (Num, Num, SmallRng))
    ensures
        is_comb::<K>(rng, total, n as nat, r.0, r.1, r.2),
{
    let (u, next) = uniform_draw::<K>(rng);
    let count = from_u64::<K>(n as u64);
    let step = quotient::<K>(total, count);
    let u0 = product::<K>(u, step);
    assert(is_uniform_draw::<K>(rng, (u, next)));
    (u0, step, next)
}

fn target<K: Numerics>(u0: Num, step: Num, i: usize) -> (t: Num)
    ensures
        is_target::<K>(u0, step, i as int, t),
{
    let count = from_u64::<K>(i as u64);
    let off = product::<K>(count, step);
    sum::<K>(u0, off)
}

/// A sequence of indices as integers.
pub open spec fn places(v: Seq<usize>) -> Seq<int> {
    v.map_values(|p: usize| p as int)
}

fn picked<K: Numerics>(cum: &Vec<Num>, u0: Num, step: Num) -> (picks: Vec<usize>)
    requires
        cum@.len() > 0,
    ensures
        are_picks::<K>(cum@, u0, step, places(picks@)),
        forall|i: int| 0 <= i < picks@.len() ==> #[trigger] picks@[i] < cum@.len(),
{
    let n = cum.len();
    let mut picks: Vec<usize> = Vec::new();
    let mut j: usize = 0;
    for i in 0..n
        invariant
            n == cum@.len(),
            j < n,
            picks@.len() == i,
            j == (if i == 0 {
                0
            } else {
                picks@[i - 1] as int
            }),
            forall|k: int|
                0 <= k < i ==> #[trigger] is_pick::<K>(cum@, u0, step, places(picks@), k),
            forall|k: int| 0 <= k < i ==> #[trigger] picks@[k] < n,
    {
        let t = target::<K>(u0, step, i);
        let ghost from = j as int;
        while j < n - 1 && cum[j].less(t)
            invariant
                n == cum@.len(),
                j < n,
                settle(cum@, j as int, t) == settle(cum@, from, t),
            decreases n - j,
        {
            j += 1;
        }
        let ghost before = picks@;
        picks.push(j);
        assert forall|k: int| 0 <= k < i + 1 implies #[trigger] is_pick::<K>(
            cum@,
            u0,
            step,
            places(picks@),
            k,
        ) by {
            if k < i {
                assert(is_pick::<K>(cum@, u0, step, places(before), k));
                let old_t = choose|t: Num| #[trigger]
                    is_target::<K>(u0, step, k, t) && places(before)[k] == settle(
                        cum@,
                        if k == 0 {
                            0
                        } else {
                            places(before)[k - 1]
                        },
                        t,
                    );
                assert(is_target::<K>(u0, step, k, old_t));
            } else {
                assert(is_target::<K>(u0, step, k, t));
            }
        }
    }
    picks
}

/// A draw between -0.5 and 0.5 gave `x` and left `next`.
pub open spec fn is_shift<K: Numerics>(rng: SmallRng, x: Num, next: SmallRng) -> bool {
    is_draw_between::<K>(rng, num(MINUS_HALF), num(HALF), (x, next))
}

/// Three draws between -0.5 and 0.5 gave `v` and left `next`.
pub open spec fn is_jitter<K: Numerics>(rng: SmallRng, v: Vector3, next: SmallRng) -> bool {
    exists|a: SmallRng, b: SmallRng|
        {
            &&& #[trigger] is_shift::<K>(rng, v.x, a)
            &&& #[trigger] is_shift::<K>(a, v.y, b)
            &&& is_shift::<K>(b, v.z, next)
        }
}

fn jitter<K: Numerics>(rng: SmallRng) -> (r: (Vector3, SmallRng))
    ensures
        is_jitter::<K>(rng, r.0, r.1),
{
    let (lo, hi) = (num(MINUS_HALF), num(HALF));
    let (x, a) = draw_between::<K>(rng, lo, hi);
    let ghost after_x = a;
    let (y, b) = draw_between::<K>(a, lo, hi);
    let ghost after_y = b;
    let (z, next) = draw_between::<K>(b, lo, hi);
    let v = Vector3 { x, y, z };
    assert(is_shift::<K>(rng, v.x, after_x));
    assert(is_shift::<K>(after_x, v.y, after_y));
    assert(is_shift::<K>(after_y, v.z, next));
    (v, next)
}

/// A re-injection under way: the generator, the places in the order in which
/// they are taken, and the positions.
pub struct Injecting {
    pub rng: SmallRng,
    pub order: Seq<int>,
    pub pos: Seq<Vector3>,
}

/// `s` with the items at two places changed over.
pub open spec fn swapped(s: Seq<int>, a: int, b: int) -> Seq<int> {
    s.update(a, s[b]).update(b, s[a])
}

/// After `d` places one more was drawn from those not yet taken, and the
/// position there was moved by a jitter.
pub open spec fn is_injection<K: Numerics>(pre: Injecting, d: nat, post: Injecting) -> bool {
    exists|j: usize, mid: SmallRng, jit: Vector3, p: Vector3|
        {
            &&& d + j < pre.pos.len()
            &&& #[trigger] is_index_draw(pre.rng, (pre.pos.len() - d) as usize, j, mid)
            &&& post.order == swapped(pre.order, d as int, d + j)
            &&& #[trigger] is_jitter::<K>(mid, jit, post.rng)
            &&& #[trigger] is_v_sum::<K>(pre.pos[post.order[d as int]], jit, p)
            &&& post.pos == pre.pos.update(post.order[d as int], p)
        }
}

/// Re-injection as it begins.
pub open spec fn uninjected(rng: SmallRng, pos: Seq<Vector3>) -> Injecting {
    Injecting { rng, order: Seq::new(pos.len(), |i: int| i), pos }
}

/// `k` injections, one after another, led to `post`.
pub open spec fn is_injected<K: Numerics>(
    rng: SmallRng,
    pos: Seq<Vector3>,
    k: nat,
    post: Injecting,
) -> bool
    decreases k,
{
    if k == 0 {
        post == uninjected(rng, pos)
    } else {
        exists|mid: Injecting|
            is_injected::<K>(rng, pos, (k - 1) as nat, mid) && #[trigger] is_injection::<K>(
                mid,
                (k - 1) as nat,
                post,
            )
    }
}

/// `k` positions of `n` are to be moved: `ratio * n`, cut to an index, and at
/// most `n`; none where the ratio is not positive.
pub open spec fn is_injection_count<K: Numerics>(ratio: Num, n: nat, k: nat) -> bool {
    if less(num(ZERO), ratio) {
        exists|count: Num, x: Num, whole: usize|
            {
                &&& is_from_u64::<K>(n as u64, count)
                &&& #[trigger] is_product::<K>(ratio, count, x)
                &&& #[trigger] is_to_index::<K>(x, whole)
                &&& k == if whole < n {
                    whole as nat
                } else {
                    n
                }
            }
    } else {
        k == 0
    }
}

fn injection_count<K: Numerics>(ratio: Num, n: usize) -> (k: usize)
    ensures
        is_injection_count::<K>(ratio, n as nat, k as nat),
        k <= n,
{
    if num(ZERO).less(ratio) {
        let count = from_u64::<K>(n as u64);
        let x = product::<K>(ratio, count);
        let whole: usize = to_index::<K>(x);
        if whole < n {
            whole
        } else {
            n
        }
    } else {
        0
    }
}

fn injected<K: Numerics>(rng: SmallRng, pos: Vec<Vector3>, k: usize) -> (moved: Vec<Vector3>)
    requires
        k <= pos@.len(),
    ensures
        moved@.len() == pos@.len(),
        exists|post: Injecting| #[trigger]
            is_injected::<K>(rng, pos@, k as nat, post) && moved@ == post.pos,
{
    let n = pos.len();
    let ghost start = rng;
    let ghost given = pos@;
    let mut pos = pos;
    let mut rng = rng;
    let mut order: Vec<usize> = Vec::new();
    for i in 0..n
        invariant
            order@.len() == i,
            forall|q: int| 0 <= q < i ==> #[trigger] order@[q] == q,
    {
        order.push(i);
    }
    let ghost mut state = uninjected(rng, pos@);
    assert(places(order@) =~= state.order);
    for done in 0..k
        invariant
            k <= n,
            n == pos@.len(),
            n == order@.len(),
            forall|q: int| 0 <= q < n ==> #[trigger] order@[q] < n,
            state == (Injecting { rng, order: places(order@), pos: pos@ }),
            is_injected::<K>(start, given, done as nat, state),
    {
        let ghost pre = state;
        let (j, mid) = index_draw(rng, n - done);
        let ghost after_index = mid;
        let (jit, next) = jitter::<K>(mid);
        let place: usize = order[done + j];
        let other: usize = order[done];
        order.set(done, place);
        order.set(done + j, other);
        let p = v_sum::<K>(pos[place], jit);
        pos.set(place, p);
        rng = next;
        proof {
            state = Injecting { rng, order: places(order@), pos: pos@ };
            assert(state.order =~= swapped(pre.order, done as int, done + j));
            assert(is_index_draw(pre.rng, (pre.pos.len() - done) as usize, j, after_index));
            assert(is_jitter::<K>(after_index, jit, state.rng));
            assert(state.order[done as int] == place);
            assert(is_v_sum::<K>(pre.pos[state.order[done as int]], jit, p));
            assert(is_injection::<K>(pre, done as nat, state));
            assert(is_injected::<K>(start, given, ((done + 1) - 1) as nat, pre));
        }
    }
    pos
}

/// The picks that a cloud's weights give, and the generator after the draw.
pub open spec fn is_selection<K: Numerics>(
    seed: u64,
    cum: Seq<Num>,
    picks: Seq<int>,
    next: SmallRng,
) -> bool {
    exists|rng: SmallRng, u0: Num, step: Num|
        {
            &&& is_seeded(seed ^ RESAMPLE_STREAM, rng)
            &&& #[trigger] is_comb::<K>(rng, cum.last(), cum.len(), u0, step, next)
            &&& are_picks::<K>(cum, u0, step, picks)
        }
}

/// The items at `picks`.
pub open spec fn chosen<T>(items: Seq<T>, picks: Seq<int>) -> Seq<T> {
    picks.map_values(|p: int| items[p])
}

/// `(pos, att)` is the picked particles of the old ones, then `k` of their
/// positions moved at random, each at another place.
pub open spec fn is_redrawn<K: Numerics>(
    old_pos: Seq<Vector3>,
    old_att: Seq<UnitQuaternion>,
    picks: Seq<int>,
    rng: SmallRng,
    k: nat,
    pos: Seq<Vector3>,
    att: Seq<UnitQuaternion>,
) -> bool {
    &&& att == chosen(old_att, picks)
    &&& exists|end: Injecting| #[trigger]
        is_injected::<K>(rng, chosen(old_pos, picks), k, end) && end.pos == pos
}

/// `out` is the particles that systematic resampling draws, or `None` where
/// the weights have no positive, finite total to draw by.
pub open spec fn is_resampled<K: Numerics>(
    seed: u64,
    pos: Seq<Vector3>,
    att: Seq<UnitQuaternion>,
    ws: Seq<Num>,
    ratio: Num,
    out: Option<(Seq<Vector3>, Seq<UnitQuaternion>)>,
) -> bool {
    if ws.len() == 0 {
        out is None
    } else {
        exists|cum: Seq<Num>| #[trigger]
            are_prefix_sums::<K>(ws, cum) && if is_degenerate(cum.last()) {
                out is None
            } else {
                out matches Some(o) && is_drawn::<K>(seed, pos, att, cum, ratio, o.0, o.1)
            }
    }
}

pub open spec fn is_drawn<K: Numerics>(
    seed: u64,
    pos: Seq<Vector3>,
    att: Seq<UnitQuaternion>,
    cum: Seq<Num>,
    ratio: Num,
    new_pos: Seq<Vector3>,
    new_att: Seq<UnitQuaternion>,
) -> bool {
    exists|picks: Seq<int>, rng: SmallRng, k: nat|
        {
            &&& #[trigger] is_selection::<K>(seed, cum, picks, rng)
            &&& is_injection_count::<K>(ratio, cum.len(), k)
            &&& #[trigger] is_redrawn::<K>(pos, att, picks, rng, k, new_pos, new_att)
        }
}

/// What the drawn vectors hold.
pub open spec fn drawn_view(out: Option<(Vec<Vector3>, Vec<UnitQuaternion>)>) -> Option<
    (Seq<Vector3>, Seq<UnitQuaternion>),
> {
    match out {
        Some(o) => Some((o.0@, o.1@)),
        None => None,
    }
}

/// Systematic resampling of a cloud.
pub fn resampled<K: Numerics>(
    seed: u64,
    pos: &Vec<Vector3>,
    att: &Vec<UnitQuaternion>,
    ws: &Vec<Num>,
    ratio: Num,
) -> (out: Option<(Vec<Vector3>, Vec<UnitQuaternion>)>)
    requires
        pos@.len() == ws@.len(),
        att@.len() == ws@.len(),
    ensures
        is_resampled::<K>(seed, pos@, att@, ws@, ratio, drawn_view(out)),
        out matches Some(o) ==> o.0@.len() == ws@.len() && o.1@.len() == ws@.len(),
{
    let n = ws.len();
    if n == 0 {
        return None;
    }
    let cum = prefix_sums::<K>(ws);
    let total = cum[n - 1];
    assert(total == cum@.last());
    if degenerate(total) {
        return None;
    }
    let rng = seeded(seed ^ RESAMPLE_STREAM);
    let ghost first = rng;
    let (u0, step, next) = comb::<K>(rng, total, n);
    let ghost after = next;
    assert(is_comb::<K>(first, cum@.last(), cum@.len(), u0, step, after));
    let picks = picked::<K>(&cum, u0, step);
    assert(is_selection::<K>(seed, cum@, places(picks@), after));
    let mut new_pos: Vec<Vector3> = Vec::new();
    let mut new_att: Vec<UnitQuaternion> = Vec::new();
    for i in 0..n
        invariant
            n == picks@.len(),
            n == pos@.len(),
            n == att@.len(),
            forall|k: int| 0 <= k < n ==> #[trigger] picks@[k] < n,
            new_pos@.len() == i,
            new_att@.len() == i,
            forall|k: int| 0 <= k < i ==> #[trigger] new_pos@[k] == pos@[places(picks@)[k]],
            forall|k: int| 0 <= k < i ==> #[trigger] new_att@[k] == att@[places(picks@)[k]],
    {
        new_pos.push(pos[picks[i]]);
        new_att.push(att[picks[i]]);
    }
    let k = injection_count::<K>(ratio, n);
    let ghost copied = new_pos@;
    proof {
        assert(copied =~= chosen(pos@, places(picks@)));
        assert(new_att@ =~= chosen(att@, places(picks@)));
    }
    let new_pos = injected::<K>(next, new_pos, k);
    proof {
        assert(is_redrawn::<K>(pos@, att@, places(picks@), after, k as nat, new_pos@, new_att@));
        assert(is_drawn::<K>(seed, pos@, att@, cum@, ratio, new_pos@, new_att@));
    }
    Some((new_pos, new_att))
}

/// A walk that starts inside the cloud settles inside it, not before where it
/// started; what it settles on reaches the target unless it is the last, and
/// all that it passed fall short.
pub proof fn law_settle(cum: Seq<Num>, j: int, t: Num)
    requires
        0 <= j < cum.len(),
    ensures
        j <= settle(cum, j, t) < cum.len(),
        settle(cum, j, t) == cum.len() - 1 || !less(cum[settle(cum, j, t)], t),
        forall|i: int| j <= i < settle(cum, j, t) ==> less(#[trigger] cum[i], t),
    decreases cum.len() - j,
{
    if j < cum.len() - 1 && less(cum[j], t) {
        law_settle(cum, j + 1, t);
    }
}

/// Every pick is a particle, and picks never step back.
pub proof fn law_picks_ascend<K: Numerics>(
    cum: Seq<Num>,
    u0: Num,
    step: Num,
    picks: Seq<int>,
    a: int,
    b: int,
)
    requires
        are_picks::<K>(cum, u0, step, picks),
        0 <= a <= b < picks.len(),
    ensures
        0 <= picks[a] <= picks[b] < picks.len(),
    decreases b,
{
    assert(is_pick::<K>(cum, u0, step, picks, b));
    if b > 0 {
        if a < b {
            law_picks_ascend::<K>(cum, u0, step, picks, a, b - 1);
        } else {
            law_picks_ascend::<K>(cum, u0, step, picks, b - 1, b - 1);
        }
    }
    let t = choose|t: Num| #[trigger]
        is_target::<K>(u0, step, b, t) && picks[b] == settle(
            cum,
            if b == 0 {
                0
            } else {
                picks[b - 1]
            },
            t,
        );
    law_settle(
        cum,
        if b == 0 {
            0
        } else {
            picks[b - 1]
        },
        t,
    );
}

/// Resampling keeps the number of particles, and every attitude comes from an
/// old particle; without re-injection so does every position, and from the
/// same one, those of the old particles in their old order.
pub proof fn law_resampled_are_old<K: Numerics>(
    seed: u64,
    pos: Seq<Vector3>,
    att: Seq<UnitQuaternion>,
    ws: Seq<Num>,
    ratio: Num,
    new_pos: Seq<Vector3>,
    new_att: Seq<UnitQuaternion>,
)
    requires
        pos.len() == ws.len(),
        att.len() == ws.len(),
        is_resampled::<K>(seed, pos, att, ws, ratio, Some((new_pos, new_att))),
    ensures
        exists|picks: Seq<int>| #[trigger]
            are_old(pos, att, new_pos, new_att, picks, less(num(ZERO), ratio)),
{
    let cum = choose|cum: Seq<Num>| #[trigger]
        are_prefix_sums::<K>(ws, cum) && !is_degenerate(cum.last()) && is_drawn::<K>(
            seed,
            pos,
            att,
            cum,
            ratio,
            new_pos,
            new_att,
        );
    let (picks, rng, k) = choose|picks: Seq<int>, rng: SmallRng, k: nat|
        {
            &&& #[trigger] is_selection::<K>(seed, cum, picks, rng)
            &&& is_injection_count::<K>(ratio, cum.len(), k)
            &&& #[trigger] is_redrawn::<K>(pos, att, picks, rng, k, new_pos, new_att)
        };
    let (first, u0, step) = choose|first: SmallRng, u0: Num, step: Num|
        {
            &&& is_seeded(seed ^ RESAMPLE_STREAM, first)
            &&& #[trigger] is_comb::<K>(first, cum.last(), cum.len(), u0, step, rng)
            &&& are_picks::<K>(cum, u0, step, picks)
        };
    assert forall|a: int, b: int| 0 <= a <= b < picks.len() implies 0 <= #[trigger] picks[a]
        <= #[trigger] picks[b] < pos.len() by {
        law_picks_ascend::<K>(cum, u0, step, picks, a, b);
    }
    let copied = chosen(pos, picks);
    let end = choose|end: Injecting| #[trigger]
        is_injected::<K>(rng, copied, k, end) && end.pos == new_pos;
    law_injections_move_as_many::<K>(rng, copied, k, end);
    assert(are_old(pos, att, new_pos, new_att, picks, less(num(ZERO), ratio)));
}

/// The new particles are the old ones at `picks`, which ascend; positions may
/// differ where some were `moved`.
pub open spec fn are_old(
    pos: Seq<Vector3>,
    att: Seq<UnitQuaternion>,
    new_pos: Seq<Vector3>,
    new_att: Seq<UnitQuaternion>,
    picks: Seq<int>,
    moved: bool,
) -> bool {
    &&& picks.len() == pos.len()
    &&& new_pos.len() == pos.len()
    &&& new_att.len() == pos.len()
    &&& forall|a: int, b: int|
        0 <= a <= b < picks.len() ==> 0 <= #[trigger] picks[a] <= #[trigger] picks[b] < pos.len()
    &&& forall|i: int| 0 <= i < picks.len() ==> #[trigger] new_att[i] == att[picks[i]]
    &&& !moved ==> forall|i: int| 0 <= i < picks.len() ==> #[trigger] new_pos[i] == pos[picks[i]]
}

/// `q` is `p` moved by a jitter.
pub open spec fn is_jittered<K: Numerics>(p: Vector3, q: Vector3) -> bool {
    exists|rng: SmallRng, jit: Vector3, next: SmallRng| #[trigger]
        is_jitter::<K>(rng, jit, next) && #[trigger] is_v_sum::<K>(p, jit, q)
}

/// `to` is `from` with the positions at `places`, all of them different,
/// moved by a jitter each.
pub open spec fn is_moved_at<K: Numerics>(
    from: Seq<Vector3>,
    to: Seq<Vector3>,
    places: Seq<int>,
) -> bool {
    &&& to.len() == from.len()
    &&& places.no_duplicates()
    &&& forall|i: int|
        0 <= i < places.len() ==> 0 <= #[trigger] places[i] < from.len() && is_jittered::<K>(
            from[places[i]],
            to[places[i]],
        )
    &&& forall|q: int|
        0 <= q < from.len() && !places.contains(q) ==> #[trigger] to[q] == from[q]
}

/// Everything of a permutation is in range, and nothing is in it twice.
spec fn is_permutation(order: Seq<int>, n: nat) -> bool {
    &&& order.len() == n
    &&& order.no_duplicates()
    &&& forall|i: int| 0 <= i < n ==> 0 <= #[trigger] order[i] < n
}

proof fn lemma_swap_permutes(order: Seq<int>, n: nat, a: int, b: int)
    requires
        is_permutation(order, n),
        0 <= a <= b < n,
    ensures
        is_permutation(swapped(order, a, b), n),
{
    let s = swapped(order, a, b);
    assert forall|i: int, j: int| 0 <= i < n && 0 <= j < n && i != j implies s[i] != s[j] by {
        let from = |k: int|
            if k == a {
                b
            } else if k == b {
                a
            } else {
                k
            };
        assert(s[i] == order[from(i)] && s[j] == order[from(j)]);
    }
}

/// `k` injections move exactly `k` positions: the first `k` places taken,
/// which all differ.
pub proof fn law_injections_move_as_many<K: Numerics>(
    rng: SmallRng,
    pos: Seq<Vector3>,
    k: nat,
    post: Injecting,
)
    requires
        is_injected::<K>(rng, pos, k, post),
    ensures
        k <= post.order.len() == pos.len(),
        is_moved_at::<K>(pos, post.pos, post.order.take(k as int)),
{
    lemma_injected_places::<K>(rng, pos, k, post);
}

proof fn lemma_injected_places<K: Numerics>(
    rng: SmallRng,
    pos: Seq<Vector3>,
    k: nat,
    post: Injecting,
)
    requires
        is_injected::<K>(rng, pos, k, post),
    ensures
        k <= pos.len(),
        is_permutation(post.order, pos.len()),
        is_moved_at::<K>(pos, post.pos, post.order.take(k as int)),
    decreases k,
{
    if k > 0 {
        let d = (k - 1) as nat;
        let mid = choose|mid: Injecting|
            is_injected::<K>(rng, pos, d, mid) && #[trigger] is_injection::<K>(mid, d, post);
        lemma_injected_places::<K>(rng, pos, d, mid);
        let (j, after, jit, p) = choose|j: usize, after: SmallRng, jit: Vector3, p: Vector3|
            {
                &&& d + j < mid.pos.len()
                &&& #[trigger] is_index_draw(mid.rng, (mid.pos.len() - d) as usize, j, after)
                &&& post.order == swapped(mid.order, d as int, d + j)
                &&& #[trigger] is_jitter::<K>(after, jit, post.rng)
                &&& #[trigger] is_v_sum::<K>(mid.pos[post.order[d as int]], jit, p)
                &&& post.pos == mid.pos.update(post.order[d as int], p)
            };
        lemma_swap_permutes(mid.order, pos.len(), d as int, d + j);
        let was = mid.order.take(d as int);
        let now = post.order.take(k as int);
        let place = post.order[d as int];
        assert(now =~= was.push(place));
        assert(!was.contains(place)) by {
            if was.contains(place) {
                let i = choose|i: int| 0 <= i < d && was[i] == place;
                assert(post.order[i] == was[i]);
            }
        }
        assert(mid.pos[place] == pos[place]);
        assert forall|i: int| 0 <= i < k implies 0 <= #[trigger] now[i] < pos.len()
            && is_jittered::<K>(pos[now[i]], post.pos[now[i]]) by {
            if i < d {
                assert(now[i] == was[i]);
                assert(was.contains(was[i]));
            } else {
                assert(is_jitter::<K>(after, jit, post.rng) && is_v_sum::<K>(pos[place], jit, p));
            }
        }
        assert forall|q: int| 0 <= q < pos.len() && !now.contains(q) implies #[trigger] post.pos[q]
            == pos[q] by {
            assert(now[d as int] == place);
            if was.contains(q) {
                let i = choose|i: int| 0 <= i < d && was[i] == q;
                assert(now[i] == q);
            }
        }
    }
}

/// Resampling with re-injection moves exactly `ratio * n` positions, cut to an
/// index, of the particles picked, and leaves the others and all attitudes.
pub proof fn law_re_injection_moves_its_share<K: Numerics>(
    seed: u64,
    pos: Seq<Vector3>,
    att: Seq<UnitQuaternion>,
    ws: Seq<Num>,
    ratio: Num,
    new_pos: Seq<Vector3>,
    new_att: Seq<UnitQuaternion>,
)
    requires
        is_resampled::<K>(seed, pos, att, ws, ratio, Some((new_pos, new_att))),
    ensures
        exists|picks: Seq<int>, moved: Seq<int>|
            {
                &&& #[trigger] is_injection_count::<K>(ratio, ws.len(), moved.len())
                &&& #[trigger] is_moved_at::<K>(chosen(pos, picks), new_pos, moved)
                &&& new_att == chosen(att, picks)
            },
{
    let cum = choose|cum: Seq<Num>| #[trigger]
        are_prefix_sums::<K>(ws, cum) && !is_degenerate(cum.last()) && is_drawn::<K>(
            seed,
            pos,
            att,
            cum,
            ratio,
            new_pos,
            new_att,
        );
    let (picks, rng, k) = choose|picks: Seq<int>, rng: SmallRng, k: nat|
        {
            &&& #[trigger] is_selection::<K>(seed, cum, picks, rng)
            &&& is_injection_count::<K>(ratio, cum.len(), k)
            &&& #[trigger] is_redrawn::<K>(pos, att, picks, rng, k, new_pos, new_att)
        };
    let copied = chosen(pos, picks);
    let end = choose|end: Injecting| #[trigger]
        is_injected::<K>(rng, copied, k, end) && end.pos == new_pos;
    law_injections_move_as_many::<K>(rng, copied, k, end);
    let moved = end.order.take(k as int);
    assert(is_injection_count::<K>(ratio, ws.len(), moved.len()));
    assert(is_moved_at::<K>(copied, new_pos, moved));
}

} // verus!
