//! What the fixtures are, where no operation rounds.
use vstd::prelude::*;

use crate::exact::{scalars_are_exact, turns_are_undone, vectors_are_exact, Reading};
use crate::grid::{at, OccGrid};
use crate::landmark_map::LandmarkMap;
use crate::likelihood::{is_predicted, is_product3};
use crate::num::{
    is_nan, larger, less, negated, num, Num, FIVE, MINUS_P4, ONE, P02, P03, P05, P1, P2, P3, P4,
    ROOT3, TEN_THOUSAND, THOUSAND, ZERO,
};
use crate::numerics::{
    is_atan2, is_composed, is_difference, is_from_u64, is_inverse, is_product, is_quotient,
    is_rotated, is_sin_cos, is_sum, is_turn, is_unrotated, is_v_difference, is_v_norm, is_v_product,
    is_v_sum, Numerics,
};
use crate::particle_filter::{Backend, FilterState};
use crate::repeat::vectors_repeat;
use crate::rng::xorshift_after;
use crate::sim::{
    after_normals, are_sightings, cartesian, circle_scenario, is_box_draw, is_boxed, is_course,
    is_landmark_box, is_noisy, is_odometry, is_pseudo_normal, is_room_wall, is_sighting,
    is_small_draw, is_step, is_track_error, is_tracked, is_true_motion, is_unit_value, is_velocity,
    landmark_box, pose_before, room_grid, Scenario, Step,
};
use crate::types::{ObsMode, Observation, OdomDelta, Pose, UnitQuaternion, Vector3};

verus! {

/// The constants of the fixtures that are exact, and what must be known of
/// the others.
pub open spec fn reads_fixtures(val: Reading) -> bool {
    &&& val(num(TEN_THOUSAND)) == 10_000real
    &&& val(num(FIVE)) == 5real
    &&& 0real < val(num(P1))
    &&& !is_nan(num(P1))
}

/// One ten-thousandth of the last four digits of a generator state.
pub open spec fn digits(state: u64) -> real {
    (state % 10_000) as real / 10_000real
}

/// A pseudo-normal draw from the state `s`: the sum of two uniform ones, each
/// from a state of its own, less 1 and stretched by 1.732.
pub open spec fn pseudo_normal(val: Reading, s: u64) -> real {
    (digits(xorshift_after(s, 1)) + digits(xorshift_after(s, 2)) - 1real) * val(num(ROOT3))
}

/// A pseudo-normal draw is made of two uniform ones.
pub proof fn law_pseudo_normal<K: Numerics>(val: Reading, s: u64, x: Num)
    requires
        scalars_are_exact::<K>(val),
        reads_fixtures(val),
        is_pseudo_normal::<K>(s, x),
    ensures
        val(x) == pseudo_normal(val, s),
{
    reveal_with_fuel(xorshift_after, 3);
    let (s1, s2) = (xorshift_after(s, 1), xorshift_after(s, 2));
    let (a, b, ab, c) = choose|a: Num, b: Num, ab: Num, c: Num|
        {
            &&& #[trigger] is_unit_value::<K>(s1, a)
            &&& #[trigger] is_unit_value::<K>(s2, b)
            &&& #[trigger] is_sum::<K>(a, b, ab)
            &&& #[trigger] is_difference::<K>(ab, num(ONE), c)
            &&& is_product::<K>(c, num(ROOT3), x)
        };
    assert(is_unit_value::<K>(s1, a) && is_unit_value::<K>(s2, b));
}

/// The velocity at step `t` runs round a circle at 0.4 m/s and climbs at 0.02.
pub proof fn law_velocity<K: Numerics>(val: Reading, t: int, vel: Vector3)
    requires
        scalars_are_exact::<K>(val),
        0 <= t <= u64::MAX,
        is_velocity::<K>(t, vel),
    ensures
        exists|phase: Num, sc: (Num, Num)|
            {
                &&& #[trigger] is_sin_cos::<K>(phase, sc)
                &&& val(phase) == val(num(P2)) * t as real * val(num(P1))
                &&& val(vel.x) == -(val(num(P4)) * val(sc.0))
                &&& val(vel.y) == val(num(P4)) * val(sc.1)
                &&& val(vel.z) == val(num(P02))
            },
{
    let (count, phase, sc) = choose|count: Num, phase: Num, sc: (Num, Num)|
        {
            &&& is_from_u64::<K>(t as u64, count)
            &&& #[trigger] is_product3::<K>(num(P2), count, num(P1), phase)
            &&& #[trigger] is_sin_cos::<K>(phase, sc)
            &&& is_product::<K>(num(MINUS_P4), sc.0, vel.x)
            &&& is_product::<K>(num(P4), sc.1, vel.y)
            &&& vel.z == num(P02)
        };
    assert(num(MINUS_P4) == negated(num(P4)));
    let (a, b) = (val(num(P4)), val(sc.0));
    assert(-a * b == -(a * b)) by (nonlinear_arith);
    assert(is_sin_cos::<K>(phase, sc));
}

/// A step of the truth lasts 0.1 s and ends facing along the velocity.
pub proof fn law_true_motion<K: Numerics>(val: Reading, pose: Pose, vel: Vector3, next: Pose)
    requires
        vectors_are_exact::<K>(val),
        is_true_motion::<K>(pose, vel, next),
    ensures
        val(next.position.x) == val(pose.position.x) + val(vel.x) * val(num(P1)),
        val(next.position.y) == val(pose.position.y) + val(vel.y) * val(num(P1)),
        val(next.position.z) == val(pose.position.z) + val(vel.z) * val(num(P1)),
        exists|yaw: Num| #[trigger]
            is_atan2::<K>(vel.y, vel.x, yaw) && is_turn::<K>(
                Vector3 { x: num(ZERO), y: num(ZERO), z: num(ONE) },
                yaw,
                next.attitude,
            ),
{
}

proof fn lemma_small_draw<K: Numerics>(val: Reading, s: u64, x: Num)
    requires
        scalars_are_exact::<K>(val),
        reads_fixtures(val),
        is_small_draw::<K>(s, x),
    ensures
        val(x) == pseudo_normal(val, s) * val(num(P05)),
{
    let z = choose|z: Num| #[trigger]
        is_pseudo_normal::<K>(s, z) && is_product::<K>(z, num(P05), x);
    law_pseudo_normal::<K>(val, s, z);
}

/// The odometry of a step undoes to the motion: less three small draws, each
/// from states of its own, its translation leads from the old position to the
/// new one, and its rotation takes the old attitude to the new one.
pub proof fn law_odometry_leads_there<K: Numerics>(
    val: Reading,
    pose: Pose,
    next: Pose,
    s: u64,
    odom: OdomDelta,
    attitude: UnitQuaternion,
)
    requires
        scalars_are_exact::<K>(val),
        vectors_are_exact::<K>(val),
        turns_are_undone::<K>(),
        reads_fixtures(val),
        is_odometry::<K>(pose, next, s, odom),
        is_composed::<K>(pose.attitude, odom.rotation, attitude),
    ensures
        attitude == next.attitude,
        exists|body: Vector3|
            {
                &&& #[trigger] leads::<K>(val, pose, body, next.position)
                &&& val(odom.translation.x) == val(body.x) + pseudo_normal(val, s) * val(num(P05))
                &&& val(odom.translation.y) == val(body.y) + pseudo_normal(
                    val,
                    xorshift_after(s, 2),
                ) * val(num(P05))
                &&& val(odom.translation.z) == val(body.z) + pseudo_normal(
                    val,
                    xorshift_after(s, 4),
                ) * val(num(P05))
            },
        odom.trans_noise == (Vector3 { x: num(P05), y: num(P05), z: num(P05) }),
        odom.rot_noise == (Vector3 { x: num(P02), y: num(P02), z: num(P03) }),
{
    let (d, body, off, inv) = choose|d: Vector3, exact: Vector3, off: Vector3, inv: UnitQuaternion|
        {
            &&& #[trigger] is_v_difference::<K>(next.position, pose.position, d)
            &&& is_unrotated::<K>(pose.attitude, d, exact)
            &&& is_small_draw::<K>(s, off.x)
            &&& is_small_draw::<K>(after_normals(s, 1), off.y)
            &&& is_small_draw::<K>(after_normals(s, 2), off.z)
            &&& #[trigger] is_v_sum::<K>(exact, off, odom.translation)
            &&& #[trigger] is_inverse::<K>(pose.attitude, inv)
            &&& is_composed::<K>(inv, next.attitude, odom.rotation)
            &&& odom.trans_noise == Vector3::new(num(P05), num(P05), num(P05))
            &&& odom.rot_noise == Vector3::new(num(P02), num(P02), num(P03))
        };
    lemma_small_draw::<K>(val, s, off.x);
    lemma_small_draw::<K>(val, after_normals(s, 1), off.y);
    lemma_small_draw::<K>(val, after_normals(s, 2), off.z);
    assert forall|w: Vector3| #[trigger] is_rotated::<K>(pose.attitude, body, w) implies val(
        pose.position.x,
    ) + val(w.x) == val(next.position.x) && val(pose.position.y) + val(w.y) == val(
        next.position.y,
    ) && val(pose.position.z) + val(w.z) == val(next.position.z) by {
        assert(w == d);
    }
    assert(leads::<K>(val, pose, body, next.position));
}

/// A step by `body` in the frame of `pose` leads to `to`.
pub open spec fn leads<K: Numerics>(val: Reading, pose: Pose, body: Vector3, to: Vector3) -> bool {
    forall|w: Vector3| #[trigger]
        is_rotated::<K>(pose.attitude, body, w) ==> {
            &&& val(pose.position.x) + val(w.x) == val(to.x)
            &&& val(pose.position.y) + val(w.y) == val(to.y)
            &&& val(pose.position.z) + val(w.z) == val(to.z)
        }
}

/// `o` shows a landmark that stands at `body` in the body frame, `d` away: no
/// farther than 5 m off, in the right direction, and stretched by a small draw
/// from the state `s` over the distance, which counts as 0.1 m at least.
pub open spec fn is_shown_by<K: Numerics>(
    val: Reading,
    body: Vector3,
    d: Num,
    s: u64,
    o: Observation,
) -> bool {
    let far = if val(d) < val(num(P1)) {
        val(num(P1))
    } else {
        val(d)
    };
    let stretch = 1real + pseudo_normal(val, s) * val(num(P05)) / far;
    &&& is_v_norm::<K>(body, d)
    &&& val(d) <= 5real
    &&& val(o.vector.x) == val(body.x) * stretch
    &&& val(o.vector.y) == val(body.y) * stretch
    &&& val(o.vector.z) == val(body.z) * stretch
    &&& o.mode == ObsMode::Cartesian
}

/// `o` shows the landmark at `at` as it is seen from `pose`.
pub open spec fn is_shown<K: Numerics>(
    val: Reading,
    pose: Pose,
    at: Vector3,
    s: u64,
    o: Observation,
) -> bool {
    exists|body: Vector3, d: Num|
        is_predicted::<K>(pose.position, pose.attitude, at, body) && #[trigger] is_shown_by::<K>(
            val,
            body,
            d,
            s,
            o,
        )
}

proof fn lemma_after(s: u64, a: nat, b: nat)
    ensures
        xorshift_after(s, a + b) == xorshift_after(xorshift_after(s, a), b),
    decreases b,
{
    if b > 0 {
        lemma_after(s, a, (b - 1) as nat);
    }
}

/// What is seen from a pose: of each landmark that is shown, its own position,
/// by two draws of its own; the ids ascend, and every landmark within 5 m is
/// among them.
pub proof fn law_sightings<K: Numerics>(
    val: Reading,
    map: Map<int, Vector3>,
    pose: Pose,
    n: nat,
    s: u64,
    t: u64,
    obs: Seq<Observation>,
)
    requires
        scalars_are_exact::<K>(val),
        vectors_are_exact::<K>(val),
        vectors_repeat::<K>(),
        reads_fixtures(val),
        n <= 0x8000_0000,
        are_sightings::<K>(map, pose, n, s, t, obs),
    ensures
        forall|k: int|
            0 <= k < obs.len() ==> 0 <= (#[trigger] obs[k]).landmark_id < n && is_shown::<K>(
                val,
                pose,
                map[obs[k].landmark_id as int],
                xorshift_after(s, (2 * k) as nat),
                obs[k],
            ),
        t == xorshift_after(s, 2 * obs.len()),
        forall|k: int, l: int|
            0 <= k < l < obs.len() ==> (#[trigger] obs[k]).landmark_id < (
            #[trigger] obs[l]).landmark_id,
        forall|id: int, body: Vector3, d: Num|
            0 <= id < n && #[trigger] is_predicted::<K>(pose.position, pose.attitude, map[id], body)
                && #[trigger] is_v_norm::<K>(body, d) && val(d) <= 5real ==> exists|k: int|
                0 <= k < obs.len() && (#[trigger] obs[k]).landmark_id == id,
    decreases n,
{
    if n > 0 {
        let id = n - 1;
        let (mid, some) = choose|mid: u64, some: Seq<Observation>|
            are_sightings::<K>(map, pose, (n - 1) as nat, s, mid, some)
                && #[trigger] is_sighting::<K>(map, pose, n - 1, mid, some, t, obs);
        law_sightings::<K>(val, map, pose, (n - 1) as nat, s, mid, some);
        let (body, d) = choose|body: Vector3, d: Num|
            {
                &&& is_predicted::<K>(pose.position, pose.attitude, map[id], body)
                &&& #[trigger] is_v_norm::<K>(body, d)
                &&& if less(num(FIVE), d) {
                    t == mid && obs == some
                } else {
                    &&& t == after_normals(mid, 1)
                    &&& exists|noisy: Vector3| #[trigger]
                        is_noisy::<K>(body, d, mid, noisy) && obs == some.push(cartesian(id, noisy))
                }
            };
        if !less(num(FIVE), d) {
            let noisy = choose|noisy: Vector3| #[trigger]
                is_noisy::<K>(body, d, mid, noisy) && obs == some.push(cartesian(id, noisy));
            let (x, q, factor) = choose|x: Num, q: Num, factor: Num|
                {
                    &&& #[trigger] is_small_draw::<K>(mid, x)
                    &&& #[trigger] is_quotient::<K>(x, larger(d, num(P1)), q)
                    &&& #[trigger] is_sum::<K>(num(ONE), q, factor)
                    &&& is_v_product::<K>(body, factor, noisy)
                };
            lemma_small_draw::<K>(val, mid, x);
            assert(is_shown_by::<K>(val, body, d, mid, cartesian(id, noisy)));
            assert(is_shown::<K>(val, pose, map[id], mid, cartesian(id, noisy)));
            lemma_after(s, 2 * some.len(), 2);
            let last = some.len() as int;
            assert(obs[last] == cartesian(id, noisy));
        }
        assert forall|k: int| 0 <= k < obs.len() implies 0 <= (#[trigger] obs[k]).landmark_id < n
            && is_shown::<K>(
            val,
            pose,
            map[obs[k].landmark_id as int],
            xorshift_after(s, (2 * k) as nat),
            obs[k],
        ) by {
            if k < some.len() {
                assert(obs[k] == some[k]);
            }
        }
        assert forall|j: int, b: Vector3, e: Num|
            0 <= j < n && #[trigger] is_predicted::<K>(pose.position, pose.attitude, map[j], b)
                && #[trigger] is_v_norm::<K>(b, e) && val(e) <= 5real implies exists|k: int|
            0 <= k < obs.len() && (#[trigger] obs[k]).landmark_id == j by {
            if j < n - 1 {
                let k = choose|k: int|
                    0 <= k < some.len() && (#[trigger] some[k]).landmark_id == j;
                assert(obs[k] == some[k]);
            } else {
                assert(b == body && e == d);
                assert(obs[some.len() as int].landmark_id == j);
            }
        }
    }
}

/// Step `i` from `from`: its truth is the motion of its own time, its odometry
/// tells of that motion by the six states after `s`, and its observations are
/// of the landmarks as seen from where it ends, by the states from there to `t`.
pub open spec fn follows<K: Numerics>(
    map: Map<int, Vector3>,
    landmarks: nat,
    from: Pose,
    i: int,
    s: u64,
    step: Step,
    t: u64,
) -> bool {
    &&& exists|vel: Vector3| #[trigger]
        is_velocity::<K>(i, vel) && is_true_motion::<K>(from, vel, step.truth)
    &&& is_odometry::<K>(from, step.truth, s, step.odom)
    &&& are_sightings::<K>(map, step.truth, landmarks, xorshift_after(s, 6), t, step.obs@)
}

/// Step `i` of some steps, from the end of the one before it.
pub open spec fn follows_at<K: Numerics>(
    map: Map<int, Vector3>,
    landmarks: nat,
    prior: Pose,
    steps: Seq<Step>,
    states: Seq<u64>,
    i: int,
) -> bool {
    let from = if i == 0 {
        prior
    } else {
        steps[i - 1].truth
    };
    follows::<K>(map, landmarks, from, i, states[i], steps[i], states[i + 1])
}

/// Each step of a scenario starts where the one before it ended, in the world
/// and in the sequence of draws; the first one at the prior and the seed.
pub proof fn law_steps_follow_one_another<K: Numerics>(
    map: Map<int, Vector3>,
    landmarks: nat,
    prior: Pose,
    seed: u64,
    steps: Seq<Step>,
    n: nat,
    end: u64,
) -> (states: Seq<u64>)
    requires
        is_course::<K>(map, landmarks, prior, seed, steps, n, end),
    ensures
        states.len() == n + 1,
        states[0] == seed,
        states[n as int] == end,
        forall|i: int|
            0 <= i < n ==> #[trigger] follows_at::<K>(map, landmarks, prior, steps, states, i),
    decreases n,
{
    if n == 0 {
        seq![seed]
    } else {
        let s = choose|s: u64|
            is_course::<K>(map, landmarks, prior, seed, steps, (n - 1) as nat, s)
                && #[trigger] is_step::<K>(
                map,
                landmarks,
                n - 1,
                pose_before(prior, steps, n - 1),
                s,
                steps[n - 1],
                end,
            );
        let before = law_steps_follow_one_another::<K>(
            map,
            landmarks,
            prior,
            seed,
            steps,
            (n - 1) as nat,
            s,
        );
        let states = before.push(end);
        assert forall|i: int| 0 <= i < n implies #[trigger] follows_at::<K>(
            map,
            landmarks,
            prior,
            steps,
            states,
            i,
        ) by {
            if i < n - 1 {
                assert(follows_at::<K>(map, landmarks, prior, steps, before, i));
                assert(states[i] == before[i] && states[i + 1] == before[i + 1]);
            } else {
                assert(after_normals(s, 3) == xorshift_after(s, 6));
            }
        }
        states
    }
}

/// A scenario has as many steps as asked for, 12 landmarks, and starts level
/// at (5, 5, 0.5).
pub proof fn law_scenario<K: Numerics>(val: Reading, n: usize, seed: u64, sc: Scenario)
    requires
        scalars_are_exact::<K>(val),
        reads_fixtures(val),
        call_ensures(circle_scenario::<K>, (n, seed), sc),
    ensures
        sc.steps@.len() == n,
        forall|id: int| #[trigger] sc.map@.contains_key(id) <==> 0 <= id < 12,
        val(sc.prior.position.x) == 5real && val(sc.prior.position.y) == 5real,
        val(sc.prior.position.z) == 1real / 2real,
        sc.prior.attitude == UnitQuaternion::identity(),
        is_landmark_box::<K>(99, 12, sc.map@),
        exists|end: u64| #[trigger]
            is_course::<K>(sc.map@, 12, sc.prior, seed, sc.steps@, n as nat, end),
{
}

/// A draw for the box from a generator state: its last digits below 8000 in
/// thousandths, and 1.
pub open spec fn box_draw(state: u64) -> real {
    (state % 8_000) as real / 1_000real + 1real
}

/// A box holds the landmarks `0..n` and no others: each has three draws of its
/// own, for x, for y, and for its height, which is scaled by 0.3.
pub proof fn law_landmark_box<K: Numerics>(
    val: Reading,
    n: usize,
    seed: u64,
    map: LandmarkMap,
    i: int,
)
    requires
        scalars_are_exact::<K>(val),
        val(num(THOUSAND)) == 1_000real,
        call_ensures(landmark_box::<K>, (n, seed), map),
    ensures
        map@.contains_key(i) <==> 0 <= i < n,
        0 <= i < n ==> {
            &&& val(map@[i].x) == box_draw(xorshift_after(seed, (3 * i + 1) as nat))
            &&& val(map@[i].y) == box_draw(xorshift_after(seed, (3 * i + 2) as nat))
            &&& val(map@[i].z) == box_draw(xorshift_after(seed, (3 * i + 3) as nat)) * val(num(P3))
        },
{
    if 0 <= i < n {
        let p = map@[i];
        assert(is_boxed::<K>(seed, i, p));
        let high = choose|high: Num|
            {
                &&& is_box_draw::<K>(xorshift_after(seed, (3 * i + 1) as nat), p.x)
                &&& is_box_draw::<K>(xorshift_after(seed, (3 * i + 2) as nat), p.y)
                &&& is_box_draw::<K>(xorshift_after(seed, (3 * i + 3) as nat), high)
                &&& #[trigger] is_product::<K>(high, num(P3), p.z)
            };
        lemma_box_draw::<K>(val, xorshift_after(seed, (3 * i + 1) as nat), p.x);
        lemma_box_draw::<K>(val, xorshift_after(seed, (3 * i + 2) as nat), p.y);
        lemma_box_draw::<K>(val, xorshift_after(seed, (3 * i + 3) as nat), high);
    }
}

proof fn lemma_box_draw<K: Numerics>(val: Reading, s: u64, x: Num)
    requires
        scalars_are_exact::<K>(val),
        val(num(THOUSAND)) == 1_000real,
        is_box_draw::<K>(s, x),
    ensures
        val(x) == box_draw(s),
{
    let (k, q) = choose|k: Num, q: Num|
        {
            &&& is_from_u64::<K>((s % 8000) as u64, k)
            &&& #[trigger] is_quotient::<K>(k, num(THOUSAND), q)
            &&& is_sum::<K>(q, num(ONE), x)
        };
}

/// The room is 200 cells wide and high, 0.05 m each, from the origin on. Its
/// border is a wall, and so is what lies within five cells of column 80 and row
/// 100; all else is free.
pub proof fn law_room(g: OccGrid, x: int, y: int)
    requires
        call_ensures(room_grid, (), g),
        0 <= x < 200,
        0 <= y < 200,
    ensures
        g.w == 200 && g.h == 200 && g.cells@.len() == 40_000,
        g.res == num(P05) && g.origin.x == num(ZERO) && g.origin.y == num(ZERO),
        g.cells@[200 * y + x] == (if x == 0 || y == 0 || x == 199 || y == 199 || (-5 <= x - 80 <= 5
            && -5 <= y - 100 <= 5) {
            1u8
        } else {
            0u8
        }),
{
    assert(at(200, y, x) == 200 * y + x);
    assert(is_room_wall(y, x) || !is_room_wall(y, x));
}

/// A run over a trajectory makes one cycle for each step, with its odometry and
/// its observations, and adds up how far each estimate is from the truth.
pub proof fn law_tracking<B: Backend>(
    val: Reading,
    pre: FilterState<B>,
    steps: Seq<Step>,
    n: nat,
    post: FilterState<B>,
    sum: Num,
)
    requires
        scalars_are_exact::<B::Arithmetic>(val),
        vectors_are_exact::<B::Arithmetic>(val),
        is_tracked::<B>(pre, steps, n, post, sum),
    ensures
        n == 0 ==> post == pre && val(sum) == 0real,
        n > 0 ==> exists|mid: FilterState<B>, prev: Num|
            {
                let step = steps[n - 1];
                let x = val(post.last.mean.position.x) - val(step.truth.position.x);
                let y = val(post.last.mean.position.y) - val(step.truth.position.y);
                let z = val(post.last.mean.position.z) - val(step.truth.position.z);
                let err = val(sum) - val(prev);
                &&& #[trigger] is_tracked::<B>(pre, steps, (n - 1) as nat, mid, prev)
                &&& mid.is_updated(step.odom, step.obs@, post)
                &&& 0real <= err
                &&& err * err == x * x + y * y + z * z
            },
{
    if n > 0 {
        let (mid, prev, err) = choose|mid: FilterState<B>, prev: Num, err: Num|
            {
                &&& is_tracked::<B>(pre, steps, (n - 1) as nat, mid, prev)
                &&& #[trigger] mid.is_updated(steps[n - 1].odom, steps[n - 1].obs@, post)
                &&& is_track_error::<B>(post, steps[n - 1].truth, err)
                &&& #[trigger] is_sum::<B::Arithmetic>(prev, err, sum)
            };
        let d = choose|d: Vector3| #[trigger]
            is_v_difference::<B::Arithmetic>(
                post.last.mean.position,
                steps[n - 1].truth.position,
                d,
            ) && is_v_norm::<B::Arithmetic>(d, err);
        assert(is_tracked::<B>(pre, steps, (n - 1) as nat, mid, prev));
        assert(val(sum) - val(prev) == val(err));
    }
}

} // verus!
