//! What calls of the filter and of its parts do.
use vstd::prelude::*;

use crate::config::{BackendKind, PfConfig};
use crate::cpu::CpuBackend;
use crate::cuda::{is_available, is_new_cuda, CudaBackend, Kernels};
use crate::cuda_laws::law_room_for_observations;
use crate::device::{is_plan, plan_weight, WeightPlan};
use crate::exact::{scalars_are_exact, total, turns_are_undone, vectors_are_exact, Reading};
use crate::global_loc::{
    is_top, is_unrankable, keep_top, law_top_is_lowest, CpuGlobalLoc, GlParams, OccGrid,
    PoseHypothesis,
};
use crate::landmark_map::LandmarkMap;
use crate::moment_laws::law_estimate;
use crate::moments::{estimate_of, is_estimate};
use crate::num::{at_most, is_nan, num, Num, HALF, ONE, P02, P03, P05, TAU, TEN, ZERO};
use crate::numerics::{
    is_from_u64, is_product, is_rotated, is_unrotated, is_v_difference, is_v_sum, Numerics,
};
use crate::particle_filter::{
    is_cuda, is_made, is_new_cpu, make_backend, AnyBackend, Backend, ParticleFilter,
};
use crate::resampling::{drawn_view, is_resampled, resampled};
use crate::sim::{is_landmark_box, is_tracked, landmark_box, track, Step};
use crate::types::{
    is_blank_estimate, Estimate, Observation, OdomDelta, Particle, Pose, UnitQuaternion, Vector3,
};
use crate::weight_laws::law_equal_weights;

verus! {

/// A vector taken into the world frame and back is itself.
pub proof fn law_transforms_undo_each_other<K: Numerics>(
    val: Reading,
    pose: &Pose,
    v: &Vector3,
    w: Vector3,
    b: Vector3,
)
    requires
        vectors_are_exact::<K>(val),
        turns_are_undone::<K>(),
        forall|a: Vector3, b: Vector3, s: Vector3, d: Vector3|
            #[trigger] is_v_sum::<K>(a, b, s) && #[trigger] is_v_difference::<K>(
                s,
                b,
                d,
            ) ==> d == a,
        call_ensures(Pose::transform::<K>, (pose, v), w),
        call_ensures(Pose::inverse_transform::<K>, (pose, &w), b),
    ensures
        b == *v,
{
    let turned = choose|turned: Vector3|
        #[trigger] is_rotated::<K>(pose.attitude, *v, turned)
            && is_v_sum::<K>(turned, pose.position, w);
    let gap = choose|gap: Vector3|
        #[trigger] is_v_difference::<K>(w, pose.position, gap)
            && is_unrotated::<K>(pose.attitude, gap, b);
    assert(gap == turned);
}

/// A world point in the body frame of a pose, turned and put back, is itself.
pub proof fn law_body_frame<K: Numerics>(
    val: Reading,
    pose: &Pose,
    v: &Vector3,
    b: Vector3,
    turned: Vector3,
)
    requires
        vectors_are_exact::<K>(val),
        turns_are_undone::<K>(),
        call_ensures(Pose::inverse_transform::<K>, (pose, v), b),
        is_rotated::<K>(pose.attitude, b, turned),
    ensures
        val(turned.x) + val(pose.position.x) == val(v.x),
        val(turned.y) + val(pose.position.y) == val(v.y),
        val(turned.z) + val(pose.position.z) == val(v.z),
{
    let gap = choose|gap: Vector3|
        #[trigger] is_v_difference::<K>(*v, pose.position, gap)
            && is_unrotated::<K>(pose.attitude, gap, b);
    assert(turned == gap);
}

/// One cycle moves the backend by the odometry, then weighs it by the
/// observations and the filter's map. Where the ratio is positive and the
/// effective sample size of that is below the ratio's part of the particles,
/// it then resamples, with the configured share of re-injection. What it
/// returns is the estimate of what it leaves.
pub proof fn law_update<B: Backend>(
    val: Reading,
    pf: &mut ParticleFilter<B>,
    odom: &OdomDelta,
    obs: &[Observation],
    e: Estimate,
)
    requires
        scalars_are_exact::<B::Arithmetic>(val),
        !is_nan(old(pf)@.cfg.resample_ess_ratio),
        call_ensures(ParticleFilter::<B>::update, (pf, odom, obs), e),
    ensures
        final(pf)@.cfg == old(pf)@.cfg,
        final(pf)@.map == old(pf)@.map,
        final(pf)@.last == e,
        final(pf)@.backend.is_estimate(e),
        exists|moved: B, weighted: B, first: Estimate|
            {
                let cfg = old(pf)@.cfg;
                &&& #[trigger] old(pf)@.backend.is_predict(*odom, moved)
                &&& #[trigger] moved.is_weight(obs@, old(pf)@.map, weighted)
                &&& #[trigger] weighted.is_estimate(first)
                &&& if 0real < val(cfg.resample_ess_ratio) && !is_nan(first.ess) && val(first.ess)
                    < val(cfg.resample_ess_ratio) * cfg.particle_count as real {
                    weighted.is_resample(
                        cfg.resample_ess_ratio,
                        cfg.random_inject_ratio,
                        final(pf)@.backend,
                    )
                } else {
                    final(pf)@.backend == weighted && e == first
                }
            },
{
    let (pre, post) = (old(pf)@, final(pf)@);
    let (moved, weighted, first, t) = choose|moved: B, weighted: B, first: Estimate, t: Num|
        #[trigger]
        pre.is_cycle(*odom, obs@, moved, weighted, first, t, post);
    let count = choose|count: Num| #[trigger]
        is_from_u64::<B::Arithmetic>(pre.cfg.particle_count as u64, count) && is_product::<
            B::Arithmetic,
        >(pre.cfg.resample_ess_ratio, count, t);
    assert(val(t) == val(pre.cfg.resample_ess_ratio) * pre.cfg.particle_count as real);
    assert(pre.backend.is_predict(*odom, moved));
    assert(moved.is_weight(obs@, pre.map, weighted));
    assert(weighted.is_estimate(first));
}

/// A filter is re-seeded about the pose, by the deviations of the position and
/// those of the attitude in this order; its settings and its map stay, and its
/// last estimate is blank.
pub proof fn law_reinitialize<B: Backend>(
    pf: &mut ParticleFilter<B>,
    pose: Pose,
    pos_std: Vector3,
    rot_std: Vector3,
)
    requires
        call_ensures(ParticleFilter::<B>::reinitialize, (pf, pose, pos_std, rot_std), ()),
    ensures
        old(pf)@.backend.is_reinit(pose, pos_std, rot_std, final(pf)@.backend),
        final(pf)@.cfg == old(pf)@.cfg,
        final(pf)@.map == old(pf)@.map,
        is_blank_estimate(final(pf)@.last),
{
}

/// A new filter has the configuration it was made with, as many particles as
/// that says, no landmarks and no estimate. It can be had unless it asks for a
/// device.
pub proof fn law_new_filter<K: Numerics, D: Kernels>(
    cfg: PfConfig,
    with_cuda: bool,
    r: Result<ParticleFilter<AnyBackend<K, D>>, String>,
)
    requires
        call_ensures(ParticleFilter::<AnyBackend<K, D>>::new, (cfg, with_cuda), r),
    ensures
        r matches Ok(pf) ==> {
            &&& pf@.cfg == cfg
            &&& pf@.map.dom() == Set::<int>::empty()
            &&& is_blank_estimate(pf@.last)
            &&& match pf@.backend {
                AnyBackend::Cpu(b) => cfg.backend != BackendKind::Cuda && b@.pos.len()
                    == cfg.particle_count && b@.cfg == cfg,
                AnyBackend::Cuda(b) => cfg.backend != BackendKind::Cpu && with_cuda && b@.n
                    == cfg.particle_count && b@.cfg == cfg,
            }
        },
        cfg.backend != BackendKind::Cuda ==> r is Ok,
        cfg.backend == BackendKind::Cuda && !with_cuda ==> r is Err,
{
    let made = choose|made: Result<AnyBackend<K, D>, String>| #[trigger]
        is_made(cfg.backend, with_cuda, made) && match (made, r) {
            (Ok(b), Ok(pf)) => b.is_init(cfg.particle_count, cfg, pf@.backend),
            (Err(e), Err(f)) => e == f,
            _ => false,
        };
    if let Ok(pf) = r {
        assert(pf@.map =~= Map::<int, Vector3>::empty());
    }
}

/// Calls of the CPU backend take its cloud on: each passes its arguments as
/// they are.
pub proof fn law_cpu_calls<K: Numerics>(
    be: &mut CpuBackend<K>,
    odom: &OdomDelta,
    obs: &[Observation],
    map: &LandmarkMap,
    pose: &Pose,
    a: &Vector3,
    b: &Vector3,
    ess_ratio: Num,
    ratio: Num,
)
    ensures
        call_ensures(<CpuBackend<K> as Backend>::predict, (be, odom), ())
            ==> old(be)@.is_advanced::<K>(*odom, final(be)@),
        call_ensures(<CpuBackend<K> as Backend>::weight, (be, obs, map), ())
            ==> old(be)@.is_weighted::<K>(obs@, map@, final(be)@),
        call_ensures(<CpuBackend<K> as Backend>::reinit, (be, pose, a, b), ())
            ==> old(be)@.is_reseeded::<K>(*pose, *a, *b, final(be)@),
        call_ensures(<CpuBackend<K> as Backend>::resample, (be, ess_ratio, ratio), ())
            ==> old(be)@.is_redistributed::<K>(ratio, final(be)@),
{
}

/// What a CPU backend tells is its cloud: the estimate of it, and each
/// particle with its own position, attitude and weight.
pub proof fn law_cpu_answers<K: Numerics>(be: &CpuBackend<K>, e: Estimate, ps: Vec<Particle>)
    ensures
        call_ensures(<CpuBackend<K> as Backend>::estimate, (be,), e) ==> is_estimate::<K>(
            be@.pos,
            be@.att,
            be@.weight,
            e,
        ),
        call_ensures(<CpuBackend<K> as Backend>::snapshot, (be,), ps) ==> ps@.len() == be@.pos.len()
            && forall|i: int|
            0 <= i < ps@.len() ==> (#[trigger] ps@[i]).pose.position == be@.pos[i]
                && ps@[i].pose.attitude == be@.att[i] && ps@[i].weight == be@.weight[i],
{
}

/// A call for the estimate of some particles estimates those, each with its
/// weight.
pub proof fn law_estimate_call<K: Numerics>(
    val: Reading,
    pos: &Vec<Vector3>,
    att: &Vec<UnitQuaternion>,
    ws: &Vec<Num>,
    e: Estimate,
    r: int,
    c: int,
)
    requires
        scalars_are_exact::<K>(val),
        vectors_are_exact::<K>(val),
        call_ensures(estimate_of::<K>, (pos, att, ws), e),
        0 <= r < 3,
        0 <= c < 3,
    ensures
        is_estimate::<K>(pos@, att@, ws@, e),
        val(e.pos_cov.at(r, c)) == total(
            pos@.len(),
            |i: int|
                val(ws@[i]) * (val(pos@[i].coord(r)) - val(e.mean.position.coord(r))) * (val(
                    pos@[i].coord(c),
                ) - val(e.mean.position.coord(c))),
        ),
{
    law_estimate::<K>(val, pos@, att@, ws@, e, r, c);
}

/// Calls for scans, scores and hypotheses hand their arguments on in order.
pub proof fn law_grid_calls<K: Numerics>(
    g: &OccGrid,
    x: Num,
    y: Num,
    theta: Num,
    n: usize,
    span: Num,
    rmax: Num,
    scan: Vec<Num>,
    seen: &[Num],
    r: Num,
)
    ensures
        call_ensures(OccGrid::cast_ray::<K>, (g, x, y, theta, span, rmax), r)
            ==> g.is_cast::<K>(x, y, theta, span, rmax, r),
        call_ensures(OccGrid::map_scan::<K>, (g, x, y, theta, n, span, rmax), scan)
            ==> g.is_scan::<K>(x, y, theta, n as nat, span, rmax, scan@),
        call_ensures(OccGrid::caer_of::<K>, (g, seen, x, y, theta, span, rmax), r)
            ==> g.is_caer::<K>(seen@, x, y, theta, span, rmax, r),
{
}

/// A localization on the host returns the best of as many hypotheses as set.
pub proof fn law_localize_call<K: Numerics>(
    loc: &CpuGlobalLoc,
    scan: &[Num],
    r: Option<Vec<PoseHypothesis>>,
)
    requires
        call_ensures(CpuGlobalLoc::localize::<K>, (loc, scan), r),
    ensures
        exists|scored: Seq<PoseHypothesis>|
            {
                &&& #[trigger] loc.is_scored::<K>(scan@, scored)
                &&& scored.len() == loc.params.hypotheses
                &&& r is None <==> is_unrankable(scored)
                &&& r matches Some(top) ==> is_top(scored, loc.params.topk as nat, top@)
            },
{
}

/// Calls of the resampler, the planner, the landmark box and the tracker hand
/// their arguments on in order.
pub proof fn law_other_calls<K: Numerics, B: Backend>(
    seed: u64,
    pos: &Vec<Vector3>,
    att: &Vec<UnitQuaternion>,
    ws: &Vec<Num>,
    ratio: Num,
    out: Option<(Vec<Vector3>, Vec<UnitQuaternion>)>,
    obs: &[Observation],
    map: &LandmarkMap,
    cache: &Vec<u32>,
    plan: WeightPlan,
    n: usize,
    boxed: LandmarkMap,
    pf: &mut ParticleFilter<B>,
    steps: &Vec<Step>,
    sum: Num,
)
    ensures
        call_ensures(resampled::<K>, (seed, pos, att, ws, ratio), out) ==> is_resampled::<K>(
            seed,
            pos@,
            att@,
            ws@,
            ratio,
            drawn_view(out),
        ),
        call_ensures(plan_weight::<K>, (obs, map, cache), plan) ==> is_plan::<K>(
            obs@,
            map@,
            cache@,
            plan,
        ),
        call_ensures(landmark_box::<K>, (n, seed), boxed) ==> is_landmark_box::<K>(
            seed,
            n as int,
            boxed@,
        ),
        call_ensures(track::<B>, (pf, steps), sum) ==> is_tracked::<B>(
            old(pf)@,
            steps@,
            steps@.len(),
            final(pf)@,
            sum,
        ),
{
}

/// A backend of either kind does what its own kind does, with the arguments as
/// they are, and stays of its kind.
pub proof fn law_either_backend<K: Numerics, D: Kernels>(
    be: &mut AnyBackend<K, D>,
    odom: &OdomDelta,
    obs: &[Observation],
    map: &LandmarkMap,
    pose: &Pose,
    a: &Vector3,
    b: &Vector3,
    n: usize,
    cfg: PfConfig,
    ess_ratio: Num,
    ratio: Num,
)
    ensures
        call_ensures(<AnyBackend<K, D> as Backend>::init, (be, n, cfg), ()) ==> match (
            *old(be),
            *final(be),
        ) {
            (AnyBackend::Cpu(c), AnyBackend::Cpu(e)) => c.is_init(n, cfg, e),
            (AnyBackend::Cuda(c), AnyBackend::Cuda(e)) => c.is_init(n, cfg, e),
            _ => false,
        },
        call_ensures(<AnyBackend<K, D> as Backend>::reinit, (be, pose, a, b), ()) ==> match (
            *old(be),
            *final(be),
        ) {
            (AnyBackend::Cpu(c), AnyBackend::Cpu(e)) => c.is_reinit(*pose, *a, *b, e),
            (AnyBackend::Cuda(c), AnyBackend::Cuda(e)) => c.is_reinit(*pose, *a, *b, e),
            _ => false,
        },
        call_ensures(<AnyBackend<K, D> as Backend>::predict, (be, odom), ()) ==> match (
            *old(be),
            *final(be),
        ) {
            (AnyBackend::Cpu(c), AnyBackend::Cpu(e)) => c.is_predict(*odom, e),
            (AnyBackend::Cuda(c), AnyBackend::Cuda(e)) => c.is_predict(*odom, e),
            _ => false,
        },
        call_ensures(<AnyBackend<K, D> as Backend>::weight, (be, obs, map), ()) ==> match (
            *old(be),
            *final(be),
        ) {
            (AnyBackend::Cpu(c), AnyBackend::Cpu(e)) => c.is_weight(obs@, map@, e),
            (AnyBackend::Cuda(c), AnyBackend::Cuda(e)) => c.is_weight(obs@, map@, e),
            _ => false,
        },
        call_ensures(<AnyBackend<K, D> as Backend>::resample, (be, ess_ratio, ratio), ()) ==> match (
            *old(be),
            *final(be),
        ) {
            (AnyBackend::Cpu(c), AnyBackend::Cpu(e)) => c.is_resample(ess_ratio, ratio, e),
            (AnyBackend::Cuda(c), AnyBackend::Cuda(e)) => c.is_resample(ess_ratio, ratio, e),
            _ => false,
        },
{
}

/// A backend of either kind tells what its own kind tells.
pub proof fn law_either_backend_answers<K: Numerics, D: Kernels>(
    be: &AnyBackend<K, D>,
    e: Estimate,
    ps: Vec<Particle>,
    name: &'static str,
)
    ensures
        call_ensures(<AnyBackend<K, D> as Backend>::estimate, (be,), e) ==> match be {
            AnyBackend::Cpu(c) => c.is_estimate(e),
            AnyBackend::Cuda(c) => c.is_estimate(e),
        },
        call_ensures(<AnyBackend<K, D> as Backend>::snapshot, (be,), ps) ==> match be {
            AnyBackend::Cpu(c) => c.is_snapshot(ps@),
            AnyBackend::Cuda(c) => c.is_snapshot(ps@),
        },
        call_ensures(<AnyBackend<K, D> as Backend>::name, (be,), name) ==> name@ == (match be {
            AnyBackend::Cpu(_) => "cpu"@,
            AnyBackend::Cuda(_) => "cuda"@,
        }),
{
}

/// A backend of the kind asked for: the CPU can always be had, and so can
/// whichever is best. A device can only be had by a build that knows it, and is
/// what is best where one is there and can be had.
pub proof fn law_backend_asked_for<K: Numerics, D: Kernels>(
    with_cuda: bool,
    cpu: Result<AnyBackend<K, D>, String>,
    cuda: Result<AnyBackend<K, D>, String>,
    best: Result<AnyBackend<K, D>, String>,
)
    requires
        call_ensures(make_backend::<K, D>, (BackendKind::Cpu, with_cuda), cpu),
        call_ensures(make_backend::<K, D>, (BackendKind::Cuda, with_cuda), cuda),
        call_ensures(make_backend::<K, D>, (BackendKind::Auto, with_cuda), best),
    ensures
        cpu matches Ok(AnyBackend::Cpu(c)) && c@.pos.len() == 0,
        !with_cuda ==> cuda is Err,
        cuda matches Ok(b) ==> b is Cuda,
        cuda is Ok ==> exists|d: D| call_ensures(D::create, (256usize,), Some(d)),
        best is Ok,
        best matches Ok(AnyBackend::Cuda(_)) ==> with_cuda && call_ensures(
            D::available,
            (),
            true,
        ),
        best matches Ok(AnyBackend::Cpu(_)) && with_cuda ==> call_ensures(D::available, (), false)
            || call_ensures(D::create, (256usize,), None::<D>),
{
    if with_cuda {
        let made = choose|made: Result<CudaBackend<K, D>, String>| #[trigger]
            is_new_cuda(made) && match made {
                Ok(b) => is_cuda(cuda, b),
                Err(e) => cuda == Err::<AnyBackend<K, D>, String>(e),
            };
        if cuda is Ok {
            law_room_for_observations::<K, D>(made);
        }
        if !is_available::<D>(false) {
            let tried = choose|made: Result<CudaBackend<K, D>, String>| #[trigger]
                is_new_cuda(made) && match made {
                    Ok(b) => is_cuda(best, b),
                    Err(e) => is_new_cpu(best),
                };
        }
    }
}

/// A fresh CPU cloud: as many particles as asked for, each at the origin,
/// turned by nothing and of the same weight; its seed is the configured one
/// unless that is 0.
pub proof fn law_fresh_cloud<K: Numerics>(
    val: Reading,
    be: &mut CpuBackend<K>,
    n: usize,
    cfg: PfConfig,
    i: int,
)
    requires
        scalars_are_exact::<K>(val),
        call_ensures(<CpuBackend<K> as Backend>::init, (be, n, cfg), ()),
        0 <= i < n,
    ensures
        final(be)@.pos.len() == n && final(be)@.att.len() == n && final(be)@.weight.len() == n,
        val(final(be)@.pos[i].x) == 0real,
        val(final(be)@.pos[i].y) == 0real,
        val(final(be)@.pos[i].z) == 0real,
        val(final(be)@.att[i].q.w) == 1real,
        val(final(be)@.att[i].q.i) == 0real,
        val(final(be)@.att[i].q.j) == 0real,
        val(final(be)@.att[i].q.k) == 0real,
        val(final(be)@.weight[i]) == 1real / n as real,
        final(be)@.cfg == cfg,
        cfg.seed != 0 ==> final(be)@.seed == cfg.seed,
{
    law_equal_weights::<K>(val, final(be)@.weight, i);
}

/// What a filter was given it tells: a map that was set, the configuration,
/// its last estimate and its backend.
pub proof fn law_filter_tells<B: Backend>(
    pf: &mut ParticleFilter<B>,
    map: LandmarkMap,
    seen: &ParticleFilter<B>,
    told_map: &LandmarkMap,
    told_cfg: &PfConfig,
    told_last: &Estimate,
    told_backend: &B,
    name: &'static str,
)
    ensures
        call_ensures(ParticleFilter::<B>::set_map, (pf, map), ()) ==> {
            &&& final(pf)@.map == map@
            &&& final(pf)@.cfg == old(pf)@.cfg
            &&& final(pf)@.backend == old(pf)@.backend
            &&& final(pf)@.last == old(pf)@.last
        },
        call_ensures(ParticleFilter::<B>::map, (seen,), told_map) ==> told_map@ == seen@.map,
        call_ensures(ParticleFilter::<B>::config, (seen,), told_cfg) ==> *told_cfg == seen@.cfg,
        call_ensures(ParticleFilter::<B>::last_estimate, (seen,), told_last) ==> *told_last
            == seen@.last,
        call_ensures(ParticleFilter::<B>::backend, (seen,), told_backend) ==> *told_backend
            == seen@.backend,
        call_ensures(ParticleFilter::<B>::backend_name, (seen,), name) ==> name@
            == seen@.backend.label(),
{
}

/// What is set where nothing is said.
pub proof fn law_defaults(cfg: PfConfig, odom: OdomDelta, params: GlParams, e: Estimate)
    ensures
        call_ensures(<PfConfig as Default>::default, (), cfg) ==> {
            &&& cfg.particle_count == 4096
            &&& cfg.trans_noise@ == seq![num(P05), num(P05), num(P02)]
            &&& cfg.rot_noise@ == seq![num(P02), num(P02), num(P03)]
            &&& cfg.range_noise == num(P05) && cfg.bearing_noise == num(P02)
            &&& cfg.resample_ess_ratio == num(HALF)
            &&& cfg.random_inject_ratio == num(ZERO) && cfg.gate_sigma == num(ZERO)
            &&& cfg.backend == BackendKind::Auto
            &&& cfg.seed == 42
        },
        call_ensures(<OdomDelta as Default>::default, (), odom) ==> {
            &&& odom.translation == Vector3::zeros()
            &&& odom.rotation == UnitQuaternion::identity()
            &&& odom.trans_noise == (Vector3 { x: num(P05), y: num(P05), z: num(P05) })
            &&& odom.rot_noise == (Vector3 { x: num(P02), y: num(P02), z: num(P03) })
        },
        call_ensures(<GlParams as Default>::default, (), params) ==> {
            &&& params.hypotheses == 50_000 && params.rays == 360 && params.topk == 10
            &&& params.rmax == num(TEN) && params.ang_span == num(TAU)
            &&& params.seed == 42
        },
        call_ensures(<Estimate as Default>::default, (), e) ==> {
            &&& e.mean.position == Vector3::zeros()
            &&& e.mean.attitude == UnitQuaternion::identity()
            &&& forall|r: int, c: int|
                0 <= r < 3 && 0 <= c < 3 ==> #[trigger] e.pos_cov.at(r, c) == num(ONE)
            &&& forall|r: int, c: int|
                0 <= r < 3 && 0 <= c < 3 ==> #[trigger] e.att_cov.at(r, c) == num(ONE)
            &&& e.ess == num(ZERO) && !e.valid
        },
{
}

/// A backend is asked for by its name, and any other word leaves the choice
/// open; a localizer keeps the grid and the parameters it is made with.
pub proof fn law_asked_by_name(
    word: &str,
    kind: BackendKind,
    grid: OccGrid,
    params: GlParams,
    loc: CpuGlobalLoc,
)
    ensures
        call_ensures(BackendKind::parse, (word,), kind) ==> {
            &&& kind == BackendKind::Cuda <==> word@ == "cuda"@
            &&& kind == BackendKind::Cpu <==> word@ == "cpu"@ && word@ != "cuda"@
        },
        call_ensures(CpuGlobalLoc::new, (grid, params), loc) ==> loc.grid == grid && loc.params
            == params,
{
}

/// What is kept of some scored hypotheses is the best of them, as many as asked
/// for, from the best on; none where a score is no number and there are others.
pub proof fn law_best_are_kept(
    scored: &Vec<PoseHypothesis>,
    k: usize,
    r: Option<Vec<PoseHypothesis>>,
    i: int,
    j: int,
)
    requires
        call_ensures(keep_top, (scored, k), r),
        forall|n: int| 0 <= n < scored@.len() ==> !is_nan(#[trigger] scored@[n].caer),
    ensures
        r matches Some(top) && {
            &&& top@.len() == (if k < scored@.len() {
                k as nat
            } else {
                scored@.len()
            })
            &&& 0 <= i < j < top@.len() ==> at_most(top@[i].caer, top@[j].caer)
            &&& 0 <= i < top@.len() ==> scored@.contains(top@[i])
        },
{
    assert(!is_unrankable(scored@));
    assert(scored@.len() == scored.len());
    let top = r->0;
    law_top_is_lowest(scored@, k as nat, top@);
    if 0 <= i < j < top@.len() {
        assert(at_most(top@[i].caer, top@[j].caer));
    }
    if 0 <= i < top@.len() {
        assert(scored@.contains(top@[i]));
    }
}

} // verus!
