//! Deterministic simulation fixtures shared by tests and the benchmark binary.
//!
//! The draw order of the generators defines the scenarios: each contract says
//! which state of the xorshift sequence every number comes from.
use vstd::prelude::*;

use crate::global_loc::OccGrid;
use crate::grid::{at, lemma_at};
use crate::landmark_map::LandmarkMap;
use crate::likelihood::{is_predicted, is_product3, product3};
use crate::num::{
    at_most, is_finite, larger, less, num, Num, FIVE, HALF, MINUS_P4, NINE, ONE, P02, P03, P05, P1,
    P2, P3, P4, ROOT3, TEN_THOUSAND, THOUSAND, TWO7, ZERO,
};
use crate::numerics::{
    atan2, compose, difference, from_u64, inverse, is_atan2, is_composed, is_difference,
    is_from_u64, is_inverse, is_product, is_quotient, is_sin_cos, is_sum, is_turn, is_unrotated,
    is_v_difference, is_v_norm, is_v_product, is_v_sum, product, quotient, sin_cos, sum, turn,
    unrotate, v_difference, v_norm, v_product, v_sum, Numerics,
};
use crate::particle_filter::{Backend, FilterState, ParticleFilter};
use crate::repeat::{scalars_repeat, vectors_repeat};
use crate::rng::{xorshift, xorshift_after, xorshift_step};
use crate::types::{ObsMode, Observation, OdomDelta, Pose, UnitQuaternion, Vector2, Vector3};

verus! {

/// Deterministic xorshift64 noise source.
pub struct Gauss {
    state: u64,
}

/// `x` is `(s % 8000) / 1000 + 1`.
pub open spec fn is_box_draw<K: Numerics>(s: u64, x: Num) -> bool {
    exists|k: Num, q: Num|
        {
            &&& is_from_u64::<K>((s % 8000) as u64, k)
            &&& #[trigger] is_quotient::<K>(k, num(THOUSAND), q)
            &&& is_sum::<K>(q, num(ONE), x)
        }
}

/// `x` is `(s % 10000) / 10000`.
pub open spec fn is_unit_value<K: Numerics>(s: u64, x: Num) -> bool {
    exists|k: Num| #[trigger]
        is_from_u64::<K>((s % 10000) as u64, k) && is_quotient::<K>(k, num(TEN_THOUSAND), x)
}

/// `x` is `(a + b - 1) * 1.732`, with `a` and `b` from the two states after `s`.
pub open spec fn is_pseudo_normal<K: Numerics>(s: u64, x: Num) -> bool {
    exists|a: Num, b: Num, ab: Num, c: Num|
        {
            &&& #[trigger] is_unit_value::<K>(xorshift(s), a)
            &&& #[trigger] is_unit_value::<K>(xorshift(xorshift(s)), b)
            &&& #[trigger] is_sum::<K>(a, b, ab)
            &&& #[trigger] is_difference::<K>(ab, num(ONE), c)
            &&& is_product::<K>(c, num(ROOT3), x)
        }
}

impl Gauss {
    /// The state that the next draw starts from.
    pub closed spec fn state(&self) -> u64 {
        self.state
    }

    pub fn new(seed: u64) -> (r: Self)
        ensures
            r.state() == seed,
    {
        Gauss { state: seed }
    }

    /// One uniform draw in [0, 8) shifted by +1 (the landmark-box draw).
    fn next_box<K: Numerics>(&mut self) -> (x: Num)
        ensures
            final(self).state() == xorshift(old(self).state()),
            is_box_draw::<K>(final(self).state(), x),
    {
        self.state = xorshift_step(self.state);
        let k = from_u64::<K>(self.state % 8000);
        let q = quotient::<K>(k, num(THOUSAND));
        assert(is_quotient::<K>(k, num(THOUSAND), q));
        sum::<K>(q, num(ONE))
    }

    /// One uniform draw in [0, 1).
    fn next01<K: Numerics>(&mut self) -> (x: Num)
        ensures
            final(self).state() == xorshift(old(self).state()),
            is_unit_value::<K>(final(self).state(), x),
    {
        self.state = xorshift_step(self.state);
        let k = from_u64::<K>(self.state % 10000);
        quotient::<K>(k, num(TEN_THOUSAND))
    }

    /// Approximate standard normal (sum of two uniforms, scaled).
    pub fn normal<K: Numerics>(&mut self) -> (x: Num)
        ensures
            final(self).state() == xorshift(xorshift(old(self).state())),
            is_pseudo_normal::<K>(old(self).state(), x),
    {
        let a = self.next01::<K>();
        let b = self.next01::<K>();
        let ab = sum::<K>(a, b);
        let c = difference::<K>(ab, num(ONE));
        assert(is_difference::<K>(ab, num(ONE), c));
        product::<K>(c, num(ROOT3))
    }
}

/// `p` is landmark `i` of the box that `seed` gives: three draws each, the
/// height scaled by 0.3.
pub open spec fn is_boxed<K: Numerics>(seed: u64, i: int, p: Vector3) -> bool {
    exists|high: Num|
        {
            &&& is_box_draw::<K>(xorshift_after(seed, (3 * i + 1) as nat), p.x)
            &&& is_box_draw::<K>(xorshift_after(seed, (3 * i + 2) as nat), p.y)
            &&& is_box_draw::<K>(xorshift_after(seed, (3 * i + 3) as nat), high)
            &&& #[trigger] is_product::<K>(high, num(P3), p.z)
        }
}

/// `map` holds the landmarks `0..n` of the box that `seed` gives.
pub open spec fn is_landmark_box<K: Numerics>(seed: u64, n: int, map: Map<int, Vector3>) -> bool {
    &&& forall|i: int| #[trigger] map.contains_key(i) <==> 0 <= i < n
    &&& forall|i: int| 0 <= i < n ==> is_boxed::<K>(seed, i, #[trigger] map[i])
}

/// `n` pseudo-random landmarks in an ~8 x 8 x 2.4 m box.
pub fn landmark_box<K: Numerics>(n: usize, seed: u64) -> (map: LandmarkMap)
    requires
        n <= 0x8000_0000,
    ensures
        map.wf(),
        is_landmark_box::<K>(seed, n as int, map@),
{
    let mut g = Gauss::new(seed);
    let mut map = LandmarkMap::new();
    for i in 0..n
        invariant
            n <= 0x8000_0000,
            map.wf(),
            is_landmark_box::<K>(seed, i as int, map@),
            g.state() == xorshift_after(seed, (3 * i) as nat),
    {
        let x = g.next_box::<K>();
        let y = g.next_box::<K>();
        let high = g.next_box::<K>();
        let z = product::<K>(high, num(P3));
        let p = Vector3 { x, y, z };
        proof {
            let s = xorshift_after(seed, (3 * i) as nat);
            assert(xorshift_after(seed, (3 * i + 1) as nat) == xorshift(s));
            assert(xorshift_after(seed, (3 * i + 2) as nat) == xorshift(xorshift(s)));
            assert(xorshift_after(seed, (3 * i + 3) as nat) == xorshift(xorshift(xorshift(s))));
            assert(is_product::<K>(high, num(P3), p.z));
            assert(is_boxed::<K>(seed, i as int, p));
        }
        map.add(i as i32, p);
    }
    map
}

/// One trajectory step: noisy odometry + observations, plus the true pose
/// AFTER the motion.
pub struct Step {
    pub odom: OdomDelta,
    pub obs: Vec<Observation>,
    pub truth: Pose,
}

/// A complete deterministic localization scenario.
pub struct Scenario {
    pub map: LandmarkMap,
    pub prior: Pose,
    pub steps: Vec<Step>,
}

/// The state after `n` normal draws from the state `s`.
pub open spec fn after_normals(s: u64, n: nat) -> u64 {
    xorshift_after(s, 2 * n)
}

/// `vel` is the velocity at step `t`: on a circle, with a constant climb.
pub open spec fn is_velocity<K: Numerics>(t: int, vel: Vector3) -> bool {
    exists|count: Num, phase: Num, sc: (Num, Num)|
        {
            &&& is_from_u64::<K>(t as u64, count)
            &&& #[trigger] is_product3::<K>(num(P2), count, num(P1), phase)
            &&& #[trigger] is_sin_cos::<K>(phase, sc)
            &&& is_product::<K>(num(MINUS_P4), sc.0, vel.x)
            &&& is_product::<K>(num(P4), sc.1, vel.y)
            &&& vel.z == num(P02)
        }
}

fn velocity<K: Numerics>(t: usize) -> (vel: Vector3)
    ensures
        is_velocity::<K>(t as int, vel),
{
    let count = from_u64::<K>(t as u64);
    let phase = product3::<K>(num(P2), count, num(P1));
    assert(is_product3::<K>(num(P2), count, num(P1), phase));
    let sc = sin_cos::<K>(phase);
    Vector3 {
        x: product::<K>(num(MINUS_P4), sc.0),
        y: product::<K>(num(P4), sc.1),
        z: num(P02),
    }
}

/// `next` is `pose` moved for 0.1 s at `vel`, and turned to face along it.
pub open spec fn is_true_motion<K: Numerics>(pose: Pose, vel: Vector3, next: Pose) -> bool {
    exists|yaw: Num, step: Vector3|
        {
            &&& #[trigger] is_atan2::<K>(vel.y, vel.x, yaw)
            &&& is_turn::<K>(Vector3::new(num(ZERO), num(ZERO), num(ONE)), yaw, next.attitude)
            &&& #[trigger] is_v_product::<K>(vel, num(P1), step)
            &&& is_v_sum::<K>(pose.position, step, next.position)
        }
}

fn true_motion<K: Numerics>(pose: Pose, vel: Vector3) -> (next: Pose)
    ensures
        is_true_motion::<K>(pose, vel, next),
{
    let yaw = atan2::<K>(vel.y, vel.x);
    let attitude = turn::<K>(Vector3::new(num(ZERO), num(ZERO), num(ONE)), yaw);
    let step = v_product::<K>(vel, num(P1));
    assert(is_v_product::<K>(vel, num(P1), step));
    let position = v_sum::<K>(pose.position, step);
    Pose { position, attitude }
}

/// `x` is 0.05 times the normal draw from the state `s`.
pub open spec fn is_small_draw<K: Numerics>(s: u64, x: Num) -> bool {
    exists|z: Num| #[trigger] is_pseudo_normal::<K>(s, z) && is_product::<K>(z, num(P05), x)
}

fn small_draw<K: Numerics>(g: &mut Gauss) -> (x: Num)
    ensures
        final(g).state() == xorshift(xorshift(old(g).state())),
        is_small_draw::<K>(old(g).state(), x),
{
    let z = g.normal::<K>();
    product::<K>(z, num(P05))
}

/// `odom` is the motion from `pose` to `next` as the body sees it, its
/// translation off by three small draws from the state `s`.
pub open spec fn is_odometry<K: Numerics>(pose: Pose, next: Pose, s: u64, odom: OdomDelta) -> bool {
    exists|d: Vector3, exact: Vector3, off: Vector3, inv: UnitQuaternion|
        {
            &&& #[trigger] is_v_difference::<K>(next.position, pose.position, d)
            &&& is_unrotated::<K>(pose.attitude, d, exact)
            &&& is_small_draw::<K>(s, off.x)
            &&& is_small_draw::<K>(after_normals(s, 1), off.y)
            &&& is_small_draw::<K>(after_normals(s, 2), off.z)
            &&& #[trigger] is_v_sum::<K>(exact, off, odom.translation)
            &&& #[trigger] is_inverse::<K>(pose.attitude, inv)
            &&& is_composed::<K>(inv, next.attitude, odom.rotation)
            &&& odom.trans_noise == Vector3::new(num(P05), num(P05), num(P05))
            &&& odom.rot_noise == Vector3::new(num(P02), num(P02), num(P03))
        }
}

proof fn lemma_after_normals(s: u64)
    ensures
        after_normals(s, 0) == s,
        after_normals(s, 1) == xorshift(xorshift(s)),
        after_normals(s, 2) == xorshift(xorshift(xorshift(xorshift(s)))),
        after_normals(s, 3) == xorshift(xorshift(xorshift(xorshift(xorshift(xorshift(s)))))),
{
    reveal_with_fuel(xorshift_after, 7);
}

fn odometry<K: Numerics>(pose: Pose, next: Pose, g: &mut Gauss) -> (odom: OdomDelta)
    ensures
        final(g).state() == after_normals(old(g).state(), 3),
        is_odometry::<K>(pose, next, old(g).state(), odom),
{
    let ghost s = g.state();
    proof {
        lemma_after_normals(s);
    }
    let d = v_difference::<K>(next.position, pose.position);
    let exact = unrotate::<K>(pose.attitude, d);
    let inv = inverse::<K>(pose.attitude);
    let rotation = compose::<K>(inv, next.attitude);
    let x = small_draw::<K>(g);
    let y = small_draw::<K>(g);
    let z = small_draw::<K>(g);
    let off = Vector3 { x, y, z };
    let translation = v_sum::<K>(exact, off);
    let mut odom = OdomDelta::default();
    odom.translation = translation;
    odom.rotation = rotation;
    assert(is_v_sum::<K>(exact, off, odom.translation));
    odom
}

/// `noisy` is `body` stretched by a small draw from the state `s` over the
/// distance `d`, that at least 0.1.
pub open spec fn is_noisy<K: Numerics>(body: Vector3, d: Num, s: u64, noisy: Vector3) -> bool {
    exists|x: Num, q: Num, factor: Num|
        {
            &&& #[trigger] is_small_draw::<K>(s, x)
            &&& #[trigger] is_quotient::<K>(x, larger(d, num(P1)), q)
            &&& #[trigger] is_sum::<K>(num(ONE), q, factor)
            &&& is_v_product::<K>(body, factor, noisy)
        }
}

fn noisy_offset<K: Numerics>(body: Vector3, d: Num, g: &mut Gauss) -> (noisy: Vector3)
    ensures
        final(g).state() == xorshift(xorshift(old(g).state())),
        is_noisy::<K>(body, d, old(g).state(), noisy),
{
    let x = small_draw::<K>(g);
    let q = quotient::<K>(x, d.max(num(P1)));
    let factor = sum::<K>(num(ONE), q);
    assert(is_sum::<K>(num(ONE), q, factor));
    assert(is_quotient::<K>(x, larger(d, num(P1)), q));
    v_product::<K>(body, factor)
}

/// A cartesian observation of landmark `id`.
pub open spec fn cartesian(id: int, vector: Vector3) -> Observation {
    Observation { landmark_id: id as i32, mode: ObsMode::Cartesian, vector, range: num(ZERO) }
}

/// `next` is `obs` and then what is seen of landmark `id` from `pose`: nothing
/// beyond 5 m, and then no draw is made.
pub open spec fn is_sighting<K: Numerics>(
    map: Map<int, Vector3>,
    pose: Pose,
    id: int,
    s: u64,
    obs: Seq<Observation>,
    t: u64,
    next: Seq<Observation>,
) -> bool {
    exists|body: Vector3, d: Num|
        {
            &&& is_predicted::<K>(pose.position, pose.attitude, map[id], body)
            &&& #[trigger] is_v_norm::<K>(body, d)
            &&& if less(num(FIVE), d) {
                t == s && next == obs
            } else {
                &&& t == after_normals(s, 1)
                &&& exists|noisy: Vector3| #[trigger]
                    is_noisy::<K>(body, d, s, noisy) && next == obs.push(cartesian(id, noisy))
            }
        }
}

/// `obs` is what is seen of the landmarks `0..n` from `pose`, with draws from
/// the state `s` on, which ends at `t`.
pub open spec fn are_sightings<K: Numerics>(
    map: Map<int, Vector3>,
    pose: Pose,
    n: nat,
    s: u64,
    t: u64,
    obs: Seq<Observation>,
) -> bool
    decreases n,
{
    if n == 0 {
        t == s && obs.len() == 0
    } else {
        exists|mid: u64, some: Seq<Observation>|
            are_sightings::<K>(map, pose, (n - 1) as nat, s, mid, some)
                && #[trigger] is_sighting::<K>(map, pose, n - 1, mid, some, t, obs)
    }
}

fn sightings<K: Numerics>(map: &LandmarkMap, n: usize, pose: Pose, g: &mut Gauss) -> (obs: Vec<
    Observation,
>)
    requires
        n <= 0x8000_0000,
        forall|i: int| 0 <= i < n ==> #[trigger] map@.contains_key(i),
    ensures
        are_sightings::<K>(map@, pose, n as nat, old(g).state(), final(g).state(), obs@),
{
    let ghost s = g.state();
    let mut obs: Vec<Observation> = Vec::new();
    for i in 0..n
        invariant
            n <= 0x8000_0000,
            forall|i: int| 0 <= i < n ==> #[trigger] map@.contains_key(i),
            are_sightings::<K>(map@, pose, i as nat, s, g.state(), obs@),
    {
        let ghost mid = g.state();
        let ghost some = obs@;
        let id: i32 = i as i32;
        assert(map@.contains_key(i as int));
        let d = v_difference::<K>(map.at(id), pose.position);
        let body = unrotate::<K>(pose.attitude, d);
        assert(is_predicted::<K>(pose.position, pose.attitude, map@[i as int], body));
        let d = v_norm::<K>(body);
        if !num(FIVE).less(d) {
            let noisy = noisy_offset::<K>(body, d, g);
            obs.push(
                Observation {
                    landmark_id: id,
                    mode: ObsMode::Cartesian,
                    vector: noisy,
                    range: num(ZERO),
                },
            );
            proof {
                lemma_after_normals(mid);
                assert(is_noisy::<K>(body, d, mid, noisy));
                assert(obs@ == some.push(cartesian(i as int, noisy)));
            }
        }
        assert(is_v_norm::<K>(body, d));
        assert(is_sighting::<K>(map@, pose, (i + 1) - 1, mid, some, g.state(), obs@));
    }
    obs
}

/// `step` is the step from `pose` at the time `t`, with draws from the state
/// `s` on, which ends at `end`.
pub open spec fn is_step<K: Numerics>(
    map: Map<int, Vector3>,
    n: nat,
    t: int,
    pose: Pose,
    s: u64,
    step: Step,
    end: u64,
) -> bool {
    exists|vel: Vector3|
        {
            &&& #[trigger] is_velocity::<K>(t, vel)
            &&& is_true_motion::<K>(pose, vel, step.truth)
            &&& is_odometry::<K>(pose, step.truth, s, step.odom)
            &&& are_sightings::<K>(map, step.truth, n, after_normals(s, 3), end, step.obs@)
        }
}

/// Where the true pose stands before step `n`.
pub open spec fn pose_before(prior: Pose, steps: Seq<Step>, n: int) -> Pose {
    if n == 0 {
        prior
    } else {
        steps[n - 1].truth
    }
}

/// The first `n` steps are those of a circle from `prior`, with draws from the
/// state `seed` on, which ends at `end`.
pub open spec fn is_course<K: Numerics>(
    map: Map<int, Vector3>,
    landmarks: nat,
    prior: Pose,
    seed: u64,
    steps: Seq<Step>,
    n: nat,
    end: u64,
) -> bool
    decreases n,
{
    if n == 0 {
        end == seed
    } else {
        exists|s: u64|
            is_course::<K>(map, landmarks, prior, seed, steps, (n - 1) as nat, s)
                && #[trigger] is_step::<K>(
                map,
                landmarks,
                n - 1,
                pose_before(prior, steps, n - 1),
                s,
                steps[n - 1],
                end,
            )
    }
}

/// What a scenario holds: the box of 12 landmarks, the prior, and the course.
pub open spec fn is_circle_scenario<K: Numerics>(steps_n: nat, seed: u64, sc: Scenario) -> bool {
    &&& is_landmark_box::<K>(99, 12, sc.map@)
    &&& sc.prior == circle_prior()
    &&& sc.steps@.len() == steps_n
    &&& exists|end: u64| #[trigger]
        is_course::<K>(sc.map@, 12, sc.prior, seed, sc.steps@, steps_n, end)
}

/// Where the circle starts.
pub open spec fn circle_prior() -> Pose {
    Pose {
        position: Vector3::new(num(FIVE), num(FIVE), num(HALF)),
        attitude: UnitQuaternion::identity(),
    }
}

/// Circular 2D trajectory with constant climb (`dt` = 0.1 s), noisy
/// odometry, and Cartesian observations of landmarks within 5 m.
pub fn circle_scenario<K: Numerics>(steps_n: usize, seed: u64) -> (sc: Scenario)
    ensures
        sc.map.wf(),
        is_circle_scenario::<K>(steps_n as nat, seed, sc),
{
    let map = landmark_box::<K>(12, 99);
    let prior = Pose {
        position: Vector3::new(num(FIVE), num(FIVE), num(HALF)),
        attitude: UnitQuaternion::identity(),
    };
    let mut g = Gauss::new(seed);
    let mut truth = prior;
    let mut steps: Vec<Step> = Vec::new();
    for t in 0..steps_n
        invariant
            is_landmark_box::<K>(99, 12, map@),
            steps@.len() == t,
            truth == pose_before(prior, steps@, t as int),
            is_course::<K>(map@, 12, prior, seed, steps@, t as nat, g.state()),
    {
        let ghost s = g.state();
        let ghost before = steps@;
        let vel = velocity::<K>(t);
        let next = true_motion::<K>(truth, vel);
        let odom = odometry::<K>(truth, next, &mut g);
        let obs = sightings::<K>(&map, 12, next, &mut g);
        let ghost pose = truth;
        truth = next;
        steps.push(Step { odom, obs, truth });
        proof {
            lemma_course_extends::<K>(map@, 12, prior, seed, before, steps@, t as nat, s);
            assert(pose == pose_before(prior, steps@, (t + 1) - 1));
            assert(is_velocity::<K>((t + 1) - 1, vel));
            assert(is_step::<K>(
                map@,
                12,
                (t + 1) - 1,
                pose_before(prior, steps@, (t + 1) - 1),
                s,
                steps@[(t + 1) - 1],
                g.state(),
            ));
        }
    }
    let sc = Scenario { map, prior, steps };
    assert(is_course::<K>(sc.map@, 12, sc.prior, seed, sc.steps@, steps_n as nat, g.state()));
    sc
}

/// A course over the first `n` steps does not depend on what follows them.
proof fn lemma_course_extends<K: Numerics>(
    map: Map<int, Vector3>,
    landmarks: nat,
    prior: Pose,
    seed: u64,
    steps: Seq<Step>,
    others: Seq<Step>,
    n: nat,
    end: u64,
)
    requires
        n <= steps.len(),
        n <= others.len(),
        forall|i: int| 0 <= i < n ==> #[trigger] steps[i] == others[i],
        is_course::<K>(map, landmarks, prior, seed, steps, n, end),
    ensures
        is_course::<K>(map, landmarks, prior, seed, others, n, end),
    decreases n,
{
    if n > 0 {
        let s = choose|s: u64|
            is_course::<K>(map, landmarks, prior, seed, steps, (n - 1) as nat, s)
                && #[trigger] is_step::<K>(
                map,
                landmarks,
                n - 1,
                pose_before(prior, steps, n - 1),
                s,
                steps[n - 1],
                end,
            );
        lemma_course_extends::<K>(
            map,
            landmarks,
            prior,
            seed,
            steps,
            others,
            (n - 1) as nat,
            s,
        );
        assert(pose_before(prior, steps, n - 1) == pose_before(prior, others, n - 1));
        assert(is_step::<K>(
            map,
            landmarks,
            n - 1,
            pose_before(prior, others, n - 1),
            s,
            others[n - 1],
            end,
        ));
    }
}

/// A longer scenario starts with a shorter one: the first `k` steps of a
/// course are a course of `k` steps from the same seed.
pub proof fn law_course_prefix<K: Numerics>(
    map: Map<int, Vector3>,
    landmarks: nat,
    prior: Pose,
    seed: u64,
    steps: Seq<Step>,
    k: nat,
    end: u64,
)
    requires
        k <= steps.len(),
        is_course::<K>(map, landmarks, prior, seed, steps, steps.len(), end),
    ensures
        exists|s: u64| #[trigger]
            is_course::<K>(map, landmarks, prior, seed, steps.take(k as int), k, s),
{
    let s = lemma_course_reaches::<K>(map, landmarks, prior, seed, steps, k, steps.len(), end);
    lemma_course_extends::<K>(map, landmarks, prior, seed, steps, steps.take(k as int), k, s);
}

proof fn lemma_course_reaches<K: Numerics>(
    map: Map<int, Vector3>,
    landmarks: nat,
    prior: Pose,
    seed: u64,
    steps: Seq<Step>,
    k: nat,
    n: nat,
    end: u64,
) -> (s: u64)
    requires
        k <= n,
        is_course::<K>(map, landmarks, prior, seed, steps, n, end),
    ensures
        is_course::<K>(map, landmarks, prior, seed, steps, k, s),
    decreases n,
{
    if k == n {
        end
    } else {
        let s = choose|s: u64|
            is_course::<K>(map, landmarks, prior, seed, steps, (n - 1) as nat, s)
                && #[trigger] is_step::<K>(
                map,
                landmarks,
                n - 1,
                pose_before(prior, steps, n - 1),
                s,
                steps[n - 1],
                end,
            );
        lemma_course_reaches::<K>(
            map,
            landmarks,
            prior,
            seed,
            steps,
            k,
            (n - 1) as nat,
            s,
        )
    }
}

/// Two draws from one state are equal.
proof fn lemma_normal_repeats<K: Numerics>(s: u64, x: Num, y: Num)
    requires
        scalars_repeat::<K>(),
    ensures
        is_box_draw::<K>(s, x) && is_box_draw::<K>(s, y) ==> x == y,
        is_unit_value::<K>(s, x) && is_unit_value::<K>(s, y) ==> x == y,
{
}

proof fn lemma_small_draw_repeats<K: Numerics>(s: u64, x: Num, y: Num)
    requires
        scalars_repeat::<K>(),
        is_small_draw::<K>(s, x),
        is_small_draw::<K>(s, y),
    ensures
        x == y,
{
    let z = choose|z: Num| #[trigger] is_pseudo_normal::<K>(s, z) && is_product::<K>(z, num(P05), x);
    let w = choose|z: Num| #[trigger] is_pseudo_normal::<K>(s, z) && is_product::<K>(z, num(P05), y);
    assert(z == w) by {
        let (a, b, ab, c) = choose|a: Num, b: Num, ab: Num, c: Num|
            {
                &&& #[trigger] is_unit_value::<K>(xorshift(s), a)
                &&& #[trigger] is_unit_value::<K>(xorshift(xorshift(s)), b)
                &&& #[trigger] is_sum::<K>(a, b, ab)
                &&& #[trigger] is_difference::<K>(ab, num(ONE), c)
                &&& is_product::<K>(c, num(ROOT3), z)
            };
        let (a2, b2, ab2, c2) = choose|a: Num, b: Num, ab: Num, c: Num|
            {
                &&& #[trigger] is_unit_value::<K>(xorshift(s), a)
                &&& #[trigger] is_unit_value::<K>(xorshift(xorshift(s)), b)
                &&& #[trigger] is_sum::<K>(a, b, ab)
                &&& #[trigger] is_difference::<K>(ab, num(ONE), c)
                &&& is_product::<K>(c, num(ROOT3), w)
            };
        lemma_normal_repeats::<K>(xorshift(s), a, a2);
        lemma_normal_repeats::<K>(xorshift(xorshift(s)), b, b2);
    }
}

/// Where equal arguments give equal results, a smaller landmark box agrees
/// with a larger one from the same seed.
pub proof fn law_smaller_box_agrees<K: Numerics>(
    seed: u64,
    n: int,
    m: int,
    a: Map<int, Vector3>,
    b: Map<int, Vector3>,
)
    requires
        scalars_repeat::<K>(),
        n <= m,
        is_landmark_box::<K>(seed, n, a),
        is_landmark_box::<K>(seed, m, b),
    ensures
        forall|i: int| 0 <= i < n ==> #[trigger] a[i] == b[i],
{
    assert forall|i: int| 0 <= i < n implies #[trigger] a[i] == b[i] by {
        let (p, q) = (a[i], b[i]);
        assert(is_boxed::<K>(seed, i, p) && is_boxed::<K>(seed, i, q));
        let (s1, s2, s3) = (
            xorshift_after(seed, (3 * i + 1) as nat),
            xorshift_after(seed, (3 * i + 2) as nat),
            xorshift_after(seed, (3 * i + 3) as nat),
        );
        let h = choose|h: Num|
            is_box_draw::<K>(s3, h) && #[trigger] is_product::<K>(h, num(P3), p.z);
        let h2 = choose|h: Num|
            is_box_draw::<K>(s3, h) && #[trigger] is_product::<K>(h, num(P3), q.z);
        lemma_normal_repeats::<K>(s1, p.x, q.x);
        lemma_normal_repeats::<K>(s2, p.y, q.y);
        lemma_normal_repeats::<K>(s3, h, h2);
    }
}

/// 7999, the largest draw of a box.
pub const BOX_TOP: u64 = 0x40BF_3F00_0000_0000;

/// 7.999, the largest draw in metres.
pub const BOX_SIDE: u64 = 0x401F_FEF9_DB22_D0E5;

/// 8.999, the largest coordinate.
pub const BOX_FAR: u64 = 0x4021_FF7C_ED91_6872;

/// 0.3 times the largest coordinate.
pub const BOX_HIGH: u64 = 0x4005_98FC_5048_16EF;

/// Conversions, quotients, sums and products of finite numbers keep the order.
pub open spec fn steps_keep_order<K: Numerics>() -> bool {
    &&& forall|k: u64, m: u64, r: Num, s: Num|
        #[trigger] is_from_u64::<K>(k, r) && #[trigger] is_from_u64::<K>(m, s) && k <= m ==> at_most(
            r,
            s,
        )
    &&& forall|a: Num, b: Num, t: Num, r: Num, s: Num|
        #[trigger] is_quotient::<K>(a, t, r) && #[trigger] is_quotient::<K>(b, t, s) && at_most(
            a,
            b,
        ) && is_finite(a) && is_finite(b) && less(num(ZERO), t) && is_finite(t) ==> at_most(r, s)
    &&& forall|a: Num, b: Num, c: Num, r: Num, s: Num|
        #[trigger] is_sum::<K>(a, c, r) && #[trigger] is_sum::<K>(b, c, s) && at_most(a, b)
            && is_finite(a) && is_finite(b) && is_finite(c) ==> at_most(r, s)
    &&& forall|a: Num, b: Num, c: Num, r: Num, s: Num|
        #[trigger] is_product::<K>(a, c, r) && #[trigger] is_product::<K>(b, c, s) && at_most(a, b)
            && is_finite(a) && is_finite(b) && at_most(num(ZERO), c) && is_finite(c) ==> at_most(r, s)
}

/// The smallest and the largest draw of a box come out as in binary64.
pub open spec fn ends_come_out<K: Numerics>() -> bool {
    &&& is_from_u64::<K>(0, num(ZERO))
    &&& is_quotient::<K>(num(ZERO), num(THOUSAND), num(ZERO))
    &&& is_sum::<K>(num(ZERO), num(ONE), num(ONE))
    &&& is_product::<K>(num(ONE), num(P3), num(P3))
    &&& is_from_u64::<K>(7999, num(BOX_TOP))
    &&& is_quotient::<K>(num(BOX_TOP), num(THOUSAND), num(BOX_SIDE))
    &&& is_sum::<K>(num(BOX_SIDE), num(ONE), num(BOX_FAR))
    &&& is_product::<K>(num(BOX_FAR), num(P3), num(BOX_HIGH))
}

proof fn lemma_box_draw<K: Numerics>(s: u64, x: Num)
    requires
        steps_keep_order::<K>(),
        ends_come_out::<K>(),
        is_box_draw::<K>(s, x),
    ensures
        at_most(num(ONE), x),
        at_most(x, num(BOX_FAR)),
{
    let (k, q) = choose|k: Num, q: Num|
        {
            &&& is_from_u64::<K>((s % 8000) as u64, k)
            &&& #[trigger] is_quotient::<K>(k, num(THOUSAND), q)
            &&& is_sum::<K>(q, num(ONE), x)
        };
    assert(at_most(num(ZERO), k) && at_most(k, num(BOX_TOP)));
    assert(at_most(num(ZERO), q) && at_most(q, num(BOX_SIDE)));
}

/// Every landmark lies in its box: from 1 up to, not at, 9 metres along and
/// across, and from 0.3 up to, not at, 2.7 metres high.
pub proof fn law_box_is_bounded<K: Numerics>(seed: u64, n: int, map: Map<int, Vector3>, id: int)
    requires
        steps_keep_order::<K>(),
        ends_come_out::<K>(),
        is_landmark_box::<K>(seed, n, map),
        map.contains_key(id),
    ensures
        at_most(num(ONE), map[id].x) && less(map[id].x, num(NINE)),
        at_most(num(ONE), map[id].y) && less(map[id].y, num(NINE)),
        at_most(num(P3), map[id].z) && less(map[id].z, num(TWO7)),
{
    let p = map[id];
    assert(is_boxed::<K>(seed, id, p));
    let high = choose|high: Num|
        {
            &&& is_box_draw::<K>(xorshift_after(seed, (3 * id + 3) as nat), high)
            &&& #[trigger] is_product::<K>(high, num(P3), p.z)
        };
    lemma_box_draw::<K>(xorshift_after(seed, (3 * id + 1) as nat), p.x);
    lemma_box_draw::<K>(xorshift_after(seed, (3 * id + 2) as nat), p.y);
    lemma_box_draw::<K>(xorshift_after(seed, (3 * id + 3) as nat), high);
}

proof fn lemma_motion_repeats<K: Numerics>(t: int, pose: Pose, v: Vector3, p: Pose, w: Vector3, q: Pose)
    requires
        scalars_repeat::<K>(),
        vectors_repeat::<K>(),
        is_velocity::<K>(t, v),
        is_true_motion::<K>(pose, v, p),
        is_velocity::<K>(t, w),
        is_true_motion::<K>(pose, w, q),
    ensures
        v == w && p == q,
{
    let (k, ph, sc) = choose|k: Num, ph: Num, sc: (Num, Num)|
        {
            &&& is_from_u64::<K>(t as u64, k)
            &&& #[trigger] is_product3::<K>(num(P2), k, num(P1), ph)
            &&& #[trigger] is_sin_cos::<K>(ph, sc)
            &&& is_product::<K>(num(MINUS_P4), sc.0, v.x)
            &&& is_product::<K>(num(P4), sc.1, v.y)
            &&& v.z == num(P02)
        };
    let (k2, ph2, sc2) = choose|k: Num, ph: Num, sc: (Num, Num)|
        {
            &&& is_from_u64::<K>(t as u64, k)
            &&& #[trigger] is_product3::<K>(num(P2), k, num(P1), ph)
            &&& #[trigger] is_sin_cos::<K>(ph, sc)
            &&& is_product::<K>(num(MINUS_P4), sc.0, w.x)
            &&& is_product::<K>(num(P4), sc.1, w.y)
            &&& w.z == num(P02)
        };
    assert(ph == ph2);
}

proof fn lemma_odometry_repeats<K: Numerics>(pose: Pose, next: Pose, s: u64, a: OdomDelta, b: OdomDelta)
    requires
        scalars_repeat::<K>(),
        vectors_repeat::<K>(),
        is_odometry::<K>(pose, next, s, a),
        is_odometry::<K>(pose, next, s, b),
    ensures
        a == b,
{
    let (d, exact, off, inv) = choose|d: Vector3, exact: Vector3, off: Vector3, inv: UnitQuaternion|
        {
            &&& #[trigger] is_v_difference::<K>(next.position, pose.position, d)
            &&& is_unrotated::<K>(pose.attitude, d, exact)
            &&& is_small_draw::<K>(s, off.x)
            &&& is_small_draw::<K>(after_normals(s, 1), off.y)
            &&& is_small_draw::<K>(after_normals(s, 2), off.z)
            &&& #[trigger] is_v_sum::<K>(exact, off, a.translation)
            &&& #[trigger] is_inverse::<K>(pose.attitude, inv)
            &&& is_composed::<K>(inv, next.attitude, a.rotation)
            &&& a.trans_noise == Vector3::new(num(P05), num(P05), num(P05))
            &&& a.rot_noise == Vector3::new(num(P02), num(P02), num(P03))
        };
    let (d2, exact2, off2, inv2) = choose|
        d: Vector3,
        exact: Vector3,
        off: Vector3,
        inv: UnitQuaternion,
    |
        {
            &&& #[trigger] is_v_difference::<K>(next.position, pose.position, d)
            &&& is_unrotated::<K>(pose.attitude, d, exact)
            &&& is_small_draw::<K>(s, off.x)
            &&& is_small_draw::<K>(after_normals(s, 1), off.y)
            &&& is_small_draw::<K>(after_normals(s, 2), off.z)
            &&& #[trigger] is_v_sum::<K>(exact, off, b.translation)
            &&& #[trigger] is_inverse::<K>(pose.attitude, inv)
            &&& is_composed::<K>(inv, next.attitude, b.rotation)
            &&& b.trans_noise == Vector3::new(num(P05), num(P05), num(P05))
            &&& b.rot_noise == Vector3::new(num(P02), num(P02), num(P03))
        };
    lemma_small_draw_repeats::<K>(s, off.x, off2.x);
    lemma_small_draw_repeats::<K>(after_normals(s, 1), off.y, off2.y);
    lemma_small_draw_repeats::<K>(after_normals(s, 2), off.z, off2.z);
}

/// The odometry of one motion differs between two states in nothing but its
/// translation.
proof fn lemma_odometry_varies<K: Numerics>(
    pose: Pose,
    next: Pose,
    s: u64,
    a: OdomDelta,
    s2: u64,
    b: OdomDelta,
)
    requires
        vectors_repeat::<K>(),
        is_odometry::<K>(pose, next, s, a),
        is_odometry::<K>(pose, next, s2, b),
    ensures
        same_but_translation(a, b),
{
}

proof fn lemma_noisy_repeats<K: Numerics>(body: Vector3, d: Num, s: u64, a: Vector3, b: Vector3)
    requires
        scalars_repeat::<K>(),
        vectors_repeat::<K>(),
        is_noisy::<K>(body, d, s, a),
        is_noisy::<K>(body, d, s, b),
    ensures
        a == b,
{
    let (x, q, f) = choose|x: Num, q: Num, f: Num|
        {
            &&& #[trigger] is_small_draw::<K>(s, x)
            &&& #[trigger] is_quotient::<K>(x, larger(d, num(P1)), q)
            &&& #[trigger] is_sum::<K>(num(ONE), q, f)
            &&& is_v_product::<K>(body, f, a)
        };
    let (x2, q2, f2) = choose|x: Num, q: Num, f: Num|
        {
            &&& #[trigger] is_small_draw::<K>(s, x)
            &&& #[trigger] is_quotient::<K>(x, larger(d, num(P1)), q)
            &&& #[trigger] is_sum::<K>(num(ONE), q, f)
            &&& is_v_product::<K>(body, f, b)
        };
    lemma_small_draw_repeats::<K>(s, x, x2);
}

/// The landmarks that are seen.
pub open spec fn ids(obs: Seq<Observation>) -> Seq<i32> {
    obs.map_values(|o: Observation| o.landmark_id)
}

/// The two agree in all but their translations.
pub open spec fn same_but_translation(a: OdomDelta, b: OdomDelta) -> bool {
    a == (OdomDelta { translation: a.translation, ..b })
}

/// What is seen of one landmark: the ids whatever the states, and all of it
/// from equal states.
proof fn lemma_sighting_repeats<K: Numerics>(
    map: Map<int, Vector3>,
    pose: Pose,
    id: int,
    s: u64,
    obs: Seq<Observation>,
    t: u64,
    next: Seq<Observation>,
    s2: u64,
    obs2: Seq<Observation>,
    t2: u64,
    next2: Seq<Observation>,
)
    requires
        scalars_repeat::<K>(),
        vectors_repeat::<K>(),
        is_sighting::<K>(map, pose, id, s, obs, t, next),
        is_sighting::<K>(map, pose, id, s2, obs2, t2, next2),
        ids(obs) == ids(obs2),
    ensures
        ids(next) == ids(next2),
        s == s2 && obs == obs2 ==> t == t2 && next == next2,
{
    let (body, d) = choose|body: Vector3, d: Num|
        {
            &&& is_predicted::<K>(pose.position, pose.attitude, map[id], body)
            &&& #[trigger] is_v_norm::<K>(body, d)
            &&& if less(num(FIVE), d) {
                t == s && next == obs
            } else {
                &&& t == after_normals(s, 1)
                &&& exists|noisy: Vector3| #[trigger]
                    is_noisy::<K>(body, d, s, noisy) && next == obs.push(cartesian(id, noisy))
            }
        };
    let (body2, d2) = choose|body: Vector3, d: Num|
        {
            &&& is_predicted::<K>(pose.position, pose.attitude, map[id], body)
            &&& #[trigger] is_v_norm::<K>(body, d)
            &&& if less(num(FIVE), d) {
                t2 == s2 && next2 == obs2
            } else {
                &&& t2 == after_normals(s2, 1)
                &&& exists|noisy: Vector3| #[trigger]
                    is_noisy::<K>(body, d, s2, noisy) && next2 == obs2.push(cartesian(id, noisy))
            }
        };
    assert(body == body2 && d == d2);
    if !less(num(FIVE), d) {
        let v = choose|noisy: Vector3| #[trigger]
            is_noisy::<K>(body, d, s, noisy) && next == obs.push(cartesian(id, noisy));
        let v2 = choose|noisy: Vector3| #[trigger]
            is_noisy::<K>(body, d, s2, noisy) && next2 == obs2.push(cartesian(id, noisy));
        assert(ids(next) =~= ids(obs).push(id as i32));
        assert(ids(next2) =~= ids(obs2).push(id as i32));
        if s == s2 && obs == obs2 {
            lemma_noisy_repeats::<K>(body, d, s, v, v2);
        }
    }
}

proof fn lemma_sightings_repeat<K: Numerics>(
    map: Map<int, Vector3>,
    pose: Pose,
    n: nat,
    s: u64,
    t: u64,
    obs: Seq<Observation>,
    s2: u64,
    t2: u64,
    obs2: Seq<Observation>,
)
    requires
        scalars_repeat::<K>(),
        vectors_repeat::<K>(),
        are_sightings::<K>(map, pose, n, s, t, obs),
        are_sightings::<K>(map, pose, n, s2, t2, obs2),
    ensures
        ids(obs) == ids(obs2),
        s == s2 ==> t == t2 && obs == obs2,
    decreases n,
{
    if n == 0 {
        assert(obs =~= obs2);
    } else {
        let (m, some) = choose|m: u64, some: Seq<Observation>|
            are_sightings::<K>(map, pose, (n - 1) as nat, s, m, some)
                && #[trigger] is_sighting::<K>(map, pose, n - 1, m, some, t, obs);
        let (m2, some2) = choose|m: u64, some: Seq<Observation>|
            are_sightings::<K>(map, pose, (n - 1) as nat, s2, m, some)
                && #[trigger] is_sighting::<K>(map, pose, n - 1, m, some, t2, obs2);
        lemma_sightings_repeat::<K>(map, pose, (n - 1) as nat, s, m, some, s2, m2, some2);
        lemma_sighting_repeats::<K>(map, pose, n - 1, m, some, t, obs, m2, some2, t2, obs2);
    }
}

/// Two steps hold the same.
pub open spec fn same_step(a: Step, b: Step) -> bool {
    &&& a.odom == b.odom
    &&& a.obs@ == b.obs@
    &&& a.truth == b.truth
}

proof fn lemma_course_repeats<K: Numerics>(
    map: Map<int, Vector3>,
    landmarks: nat,
    prior: Pose,
    seed: u64,
    a: Seq<Step>,
    end: u64,
    seed2: u64,
    b: Seq<Step>,
    end2: u64,
    n: nat,
)
    requires
        scalars_repeat::<K>(),
        vectors_repeat::<K>(),
        is_course::<K>(map, landmarks, prior, seed, a, n, end),
        is_course::<K>(map, landmarks, prior, seed2, b, n, end2),
    ensures
        forall|i: int|
            0 <= i < n ==> (#[trigger] a[i]).truth == b[i].truth && ids(a[i].obs@) == ids(b[i].obs@)
                && same_but_translation(a[i].odom, b[i].odom),
        seed == seed2 ==> end == end2 && forall|i: int|
            0 <= i < n ==> same_step(#[trigger] a[i], b[i]),
    decreases n,
{
    if n > 0 {
        let t = n - 1;
        let s = choose|s: u64|
            is_course::<K>(map, landmarks, prior, seed, a, t as nat, s) && #[trigger] is_step::<K>(
                map,
                landmarks,
                t,
                pose_before(prior, a, t),
                s,
                a[t],
                end,
            );
        let s2 = choose|s: u64|
            is_course::<K>(map, landmarks, prior, seed2, b, t as nat, s) && #[trigger] is_step::<K>(
                map,
                landmarks,
                t,
                pose_before(prior, b, t),
                s,
                b[t],
                end2,
            );
        lemma_course_repeats::<K>(map, landmarks, prior, seed, a, s, seed2, b, s2, t as nat);
        let pose = pose_before(prior, a, t);
        if t > 0 {
            assert(a[t - 1].truth == b[t - 1].truth);
        }
        assert(pose == pose_before(prior, b, t));
        let v = choose|v: Vector3|
            {
                &&& #[trigger] is_velocity::<K>(t, v)
                &&& is_true_motion::<K>(pose, v, a[t].truth)
                &&& is_odometry::<K>(pose, a[t].truth, s, a[t].odom)
                &&& are_sightings::<K>(
                    map,
                    a[t].truth,
                    landmarks,
                    after_normals(s, 3),
                    end,
                    a[t].obs@,
                )
            };
        let v2 = choose|v: Vector3|
            {
                &&& #[trigger] is_velocity::<K>(t, v)
                &&& is_true_motion::<K>(pose, v, b[t].truth)
                &&& is_odometry::<K>(pose, b[t].truth, s2, b[t].odom)
                &&& are_sightings::<K>(
                    map,
                    b[t].truth,
                    landmarks,
                    after_normals(s2, 3),
                    end2,
                    b[t].obs@,
                )
            };
        lemma_motion_repeats::<K>(t, pose, v, a[t].truth, v2, b[t].truth);
        lemma_sightings_repeat::<K>(
            map,
            a[t].truth,
            landmarks,
            after_normals(s, 3),
            end,
            a[t].obs@,
            after_normals(s2, 3),
            end2,
            b[t].obs@,
        );
        lemma_odometry_varies::<K>(pose, a[t].truth, s, a[t].odom, s2, b[t].odom);
        if seed == seed2 {
            lemma_odometry_repeats::<K>(pose, a[t].truth, s, a[t].odom, b[t].odom);
            assert(same_step(a[t], b[t]));
        }
    }
}

/// Where equal arguments give equal results, a scenario is frozen: a shorter
/// one is the start of a longer one from the same seed.
pub proof fn law_scenario_is_frozen<K: Numerics>(
    n: nat,
    m: nat,
    seed: u64,
    a: Scenario,
    b: Scenario,
)
    requires
        scalars_repeat::<K>(),
        vectors_repeat::<K>(),
        n <= m,
        is_circle_scenario::<K>(n, seed, a),
        is_circle_scenario::<K>(m, seed, b),
    ensures
        a.map@ == b.map@,
        a.prior == b.prior,
        forall|i: int| 0 <= i < n ==> same_step(#[trigger] a.steps@[i], b.steps@[i]),
{
    law_smaller_box_agrees::<K>(99, 12, 12, a.map@, b.map@);
    assert(a.map@ =~= b.map@);
    let e = choose|e: u64| #[trigger]
        is_course::<K>(a.map@, 12, a.prior, seed, a.steps@, n, e);
    let f = choose|e: u64| #[trigger]
        is_course::<K>(b.map@, 12, b.prior, seed, b.steps@, m, e);
    let g = lemma_course_reaches::<K>(b.map@, 12, b.prior, seed, b.steps@, n, m, f);
    lemma_course_repeats::<K>(
        a.map@,
        12,
        a.prior,
        seed,
        a.steps@,
        e,
        seed,
        b.steps@,
        g,
        n,
    );
}

/// The map and the prior of a scenario, its true poses and which landmarks are
/// seen from them do not depend on its seed; of the odometry only the
/// translation does.
pub proof fn law_truth_ignores_the_seed<K: Numerics>(
    n: nat,
    seed: u64,
    seed2: u64,
    a: Scenario,
    b: Scenario,
)
    requires
        scalars_repeat::<K>(),
        vectors_repeat::<K>(),
        is_circle_scenario::<K>(n, seed, a),
        is_circle_scenario::<K>(n, seed2, b),
    ensures
        a.map@ == b.map@,
        a.prior == b.prior,
        a.steps@.len() == n && b.steps@.len() == n,
        forall|i: int|
            0 <= i < n ==> (#[trigger] a.steps@[i]).truth == b.steps@[i].truth && ids(
                a.steps@[i].obs@,
            ) == ids(b.steps@[i].obs@) && same_but_translation(a.steps@[i].odom, b.steps@[i].odom),
{
    law_smaller_box_agrees::<K>(99, 12, 12, a.map@, b.map@);
    assert(a.map@ =~= b.map@);
    let e = choose|e: u64| #[trigger]
        is_course::<K>(a.map@, 12, a.prior, seed, a.steps@, n, e);
    let f = choose|e: u64| #[trigger]
        is_course::<K>(b.map@, 12, b.prior, seed2, b.steps@, n, e);
    lemma_course_repeats::<K>(
        a.map@,
        12,
        a.prior,
        seed,
        a.steps@,
        e,
        seed2,
        b.steps@,
        f,
        n,
    );
}

/// The cell in column `x` of row `y` is a wall or part of the pillar.
pub open spec fn is_room_wall(y: int, x: int) -> bool {
    ||| y == 0
    ||| y == 199
    ||| x == 0
    ||| x == 199
    ||| 95 <= y <= 105 && 75 <= x <= 85
}

/// 10x10 m room at 0.05 m/cell (200x200 cells): border walls plus one
/// interior pillar centered at world (4, 5).
pub fn room_grid() -> (g: OccGrid)
    ensures
        g.wf(),
        g.w == 200,
        g.h == 200,
        g.res == num(P05),
        g.origin == (Vector2 { x: num(ZERO), y: num(ZERO) }),
        forall|y: int, x: int|
            0 <= y < 200 && 0 <= x < 200 ==> #[trigger] g.cells@[at(200, y, x)] == (
            if is_room_wall(y, x) {
                1u8
            } else {
                0u8
            }),
{
    let mut cells: Vec<u8> = Vec::new();
    for i in 0..40000usize
        invariant
            cells@.len() == i,
            forall|k: int|
                0 <= k < i ==> #[trigger] cells@[k] == (if is_room_wall(k / 200, k % 200) {
                    1u8
                } else {
                    0u8
                }),
    {
        let y = i / 200;
        let x = i % 200;
        let border = y == 0 || y == 199 || x == 0 || x == 199;
        let pillar = 95 <= y && y <= 105 && 75 <= x && x <= 85;
        cells.push(
            if border || pillar {
                1
            } else {
                0
            },
        );
    }
    let g = OccGrid {
        w: 200,
        h: 200,
        res: num(P05),
        origin: Vector2 { x: num(ZERO), y: num(ZERO) },
        cells,
    };
    assert forall|y: int, x: int| 0 <= y < 200 && 0 <= x < 200 implies #[trigger] g.cells@[at(
        200,
        y,
        x,
    )] == (if is_room_wall(y, x) {
        1u8
    } else {
        0u8
    }) by {
        lemma_at(200, 200, y, x);
    }
    g
}

/// `err` is how far the estimate of `post` is from the true position.
pub open spec fn is_track_error<B: Backend>(post: FilterState<B>, truth: Pose, err: Num) -> bool {
    exists|d: Vector3| #[trigger]
        is_v_difference::<B::Arithmetic>(post.last.mean.position, truth.position, d)
            && is_v_norm::<B::Arithmetic>(d, err)
}

/// `total` is the sum of the errors of a filter that ran the first `n` steps,
/// from `pre` to `post`.
pub open spec fn is_tracked<B: Backend>(
    pre: FilterState<B>,
    steps: Seq<Step>,
    n: nat,
    post: FilterState<B>,
    total: Num,
) -> bool
    decreases n,
{
    if n == 0 {
        post == pre && total == num(ZERO)
    } else {
        exists|mid: FilterState<B>, prev: Num, err: Num|
            {
                &&& is_tracked::<B>(pre, steps, (n - 1) as nat, mid, prev)
                &&& #[trigger] mid.is_updated(steps[n - 1].odom, steps[n - 1].obs@, post)
                &&& is_track_error::<B>(post, steps[n - 1].truth, err)
                &&& #[trigger] is_sum::<B::Arithmetic>(prev, err, total)
            }
    }
}

/// Run a filter over a trajectory and sum its position errors.
pub fn track<B: Backend>(pf: &mut ParticleFilter<B>, steps: &Vec<Step>) -> (total: Num)
    requires
        old(pf).wf(),
    ensures
        final(pf).wf(),
        is_tracked::<B>(old(pf)@, steps@, steps@.len(), final(pf)@, total),
{
    let ghost pre = pf@;
    let mut total = num(ZERO);
    for i in 0..steps.len()
        invariant
            pf.wf(),
            is_tracked::<B>(pre, steps@, i as nat, pf@, total),
    {
        let ghost mid = pf@;
        let ghost prev = total;
        let step = &steps[i];
        let est = pf.update(&step.odom, step.obs.as_slice());
        let d = v_difference::<B::Arithmetic>(est.mean.position, step.truth.position);
        let err = v_norm::<B::Arithmetic>(d);
        total = sum::<B::Arithmetic>(total, err);
        proof {
            let k = (i + 1) - 1;
            assert(mid.is_updated(steps@[k].odom, steps@[k].obs@, pf@));
            assert(is_track_error::<B>(pf@, steps@[k].truth, err));
            assert(is_sum::<B::Arithmetic>(prev, err, total));
        }
    }
    total
}

} // verus!
