//! What the kernels of a device are called with.
use vstd::prelude::*;

use crate::config::PfConfig;
use crate::cuda::{
    are_arrays, is_blank_cuda, is_creation, is_new_cuda, is_upload_run, is_weight_run, CudaBackend,
    DevicePose, DeviceStd, Kernels,
};
use crate::device::{
    held, is_device_mean, is_device_obs, is_device_particle, is_device_snapshot, is_table,
    is_table_entry, is_unpacked3, is_unpacked4, lemma_packed, packed_sym, same_table, DeviceObs,
    WeightPlan, OBS_CAP,
};
use crate::exact::{scalars_are_exact, Reading};
use crate::global_loc::{
    are_rescored, is_answer, is_device_grid, is_device_run, is_generation, is_grid_creation,
    is_ranked, is_rescored, is_scored_run, is_scoring, is_selected_run, is_selection, is_unrankable,
    is_widened, score_ranks, CudaGlobalLoc, DeviceGrid, GlKernels, GlParams, OccGrid,
    PoseHypothesis,
};
use crate::landmark_map::LandmarkMap;
use crate::likelihood::known;
use crate::num::{at_most, is_nan, less, num, Num, ONE, ZERO};
use crate::numerics::{is_from_single, is_from_u64, is_q_unit, is_quotient, is_to_single, Numerics};
use crate::particle_filter::Backend;
use crate::ranking::{is_order, precedes};
use crate::repeat::scalars_repeat;
use crate::types::{
    is_quat_mean, Estimate, Matrix3, Matrix4, ObsMode, Observation, OdomDelta, Particle, Pose,
    Quaternion, UnitQuaternion, Vector3,
};

verus! {

/// A new backend asked a device that is there for room for 256 observations.
pub proof fn law_room_for_observations<K: Numerics, D: Kernels>(
    r: Result<CudaBackend<K, D>, String>,
)
    requires
        is_new_cuda(r),
    ensures
        r is Ok ==> exists|d: D| #[trigger]
            call_ensures(D::create, (256usize,), Some(d)) && r->Ok_0@.device == d,
{
    if r is Ok {
        let c = choose|c: Option<D>| #[trigger]
            is_creation::<D>(OBS_CAP, c) && match c {
                None => r matches Err(e) && e@ == "pfc_create failed"@,
                Some(d) => r matches Ok(b) && b.wf() && is_blank_cuda(b@, d),
            };
    }
}

/// The device is initialized for as many particles as asked for, with the low
/// half of the seed.
pub proof fn law_device_is_seeded<K: Numerics, D: Kernels>(
    be: CudaBackend<K, D>,
    n: usize,
    cfg: PfConfig,
    post: CudaBackend<K, D>,
)
    requires
        be.is_init(n, cfg, post),
    ensures
        exists|seed: u32| #[trigger]
            call_ensures(D::init, (be@.device, n, seed), post@.device) && seed == cfg.seed
                % 0x1_0000_0000,
        post@.n == n,
        post@.cfg == cfg,
        post@.cache == be@.cache,
{
}

/// The cloud of a device is spread about the pose, by the deviations of the
/// position and those of the attitude: each number rounded to single precision.
pub proof fn law_device_is_spread_about_the_pose<K: Numerics, D: Kernels>(
    be: CudaBackend<K, D>,
    pose: Pose,
    pos_std: Vector3,
    rot_std: Vector3,
    post: CudaBackend<K, D>,
)
    requires
        be.is_reinit(pose, pos_std, rot_std, post),
    ensures
        exists|p: DevicePose, s: DeviceStd, r: DeviceStd|
            {
                &&& #[trigger] call_ensures(D::reinit, (be@.device, p, s, r), post@.device)
                &&& is_to_single::<K>(pose.position.x, p.x)
                &&& is_to_single::<K>(pose.position.y, p.y)
                &&& is_to_single::<K>(pose.position.z, p.z)
                &&& is_to_single::<K>(pose.attitude.q.w, p.qw)
                &&& is_to_single::<K>(pose.attitude.q.i, p.qx)
                &&& is_to_single::<K>(pose.attitude.q.j, p.qy)
                &&& is_to_single::<K>(pose.attitude.q.k, p.qz)
                &&& is_to_single::<K>(pos_std.x, s.x)
                &&& is_to_single::<K>(pos_std.y, s.y)
                &&& is_to_single::<K>(pos_std.z, s.z)
                &&& is_to_single::<K>(rot_std.x, r.x)
                &&& is_to_single::<K>(rot_std.y, r.y)
                &&& is_to_single::<K>(rot_std.z, r.z)
            },
        post@.n == be@.n && post@.cfg == be@.cfg && post@.cache == be@.cache,
{
}

/// The cloud of a device is moved by the odometry: its translation, its
/// rotation in the order w, i, j, k, and the deviations of both, each number
/// rounded to single precision.
pub proof fn law_device_is_moved_by_the_odometry<K: Numerics, D: Kernels>(
    be: CudaBackend<K, D>,
    odom: OdomDelta,
    post: CudaBackend<K, D>,
)
    requires
        be.is_predict(odom, post),
    ensures
        exists|p: DevicePose, s: DeviceStd, r: DeviceStd|
            {
                &&& #[trigger] call_ensures(D::predict, (be@.device, p, s, r), post@.device)
                &&& is_to_single::<K>(odom.translation.x, p.x)
                &&& is_to_single::<K>(odom.translation.y, p.y)
                &&& is_to_single::<K>(odom.translation.z, p.z)
                &&& is_to_single::<K>(odom.rotation.q.w, p.qw)
                &&& is_to_single::<K>(odom.rotation.q.i, p.qx)
                &&& is_to_single::<K>(odom.rotation.q.j, p.qy)
                &&& is_to_single::<K>(odom.rotation.q.k, p.qz)
                &&& is_to_single::<K>(odom.trans_noise.x, s.x)
                &&& is_to_single::<K>(odom.trans_noise.y, s.y)
                &&& is_to_single::<K>(odom.trans_noise.z, s.z)
                &&& is_to_single::<K>(odom.rot_noise.x, r.x)
                &&& is_to_single::<K>(odom.rot_noise.y, r.y)
                &&& is_to_single::<K>(odom.rot_noise.z, r.z)
            },
        post@.n == be@.n && post@.cfg == be@.cfg && post@.cache == be@.cache,
{
}

/// The quaternion parts of a motion, scalar part first.
pub open spec fn motion_part(p: DevicePose, c: int) -> u32 {
    if c == 0 {
        p.qw
    } else if c == 1 {
        p.qx
    } else if c == 2 {
        p.qy
    } else {
        p.qz
    }
}

/// Two odometry steps whose rotations differ in single precision start the
/// kernel with different motions.
pub proof fn law_rotations_are_told_apart<K: Numerics, D: Kernels>(
    be: CudaBackend<K, D>,
    a: OdomDelta,
    post: CudaBackend<K, D>,
    b: OdomDelta,
    post2: CudaBackend<K, D>,
    c: int,
    x: u32,
    y: u32,
)
    requires
        scalars_repeat::<K>(),
        be.is_predict(a, post),
        be.is_predict(b, post2),
        0 <= c < 4,
        is_to_single::<K>(a.rotation.q.coord(c), x),
        is_to_single::<K>(b.rotation.q.coord(c), y),
        x != y,
    ensures
        exists|p: DevicePose, s: DeviceStd, r: DeviceStd, q: DevicePose, t: DeviceStd, u: DeviceStd|
            {
                &&& #[trigger] call_ensures(D::predict, (be@.device, p, s, r), post@.device)
                &&& #[trigger] call_ensures(D::predict, (be@.device, q, t, u), post2@.device)
                &&& p != q && motion_part(p, c) != motion_part(q, c)
            },
{
    law_device_is_moved_by_the_odometry::<K, D>(be, a, post);
    law_device_is_moved_by_the_odometry::<K, D>(be, b, post2);
    let (p, s, r) = choose|p: DevicePose, s: DeviceStd, r: DeviceStd|
        {
            &&& #[trigger] call_ensures(D::predict, (be@.device, p, s, r), post@.device)
            &&& is_to_single::<K>(a.rotation.q.w, p.qw)
            &&& is_to_single::<K>(a.rotation.q.i, p.qx)
            &&& is_to_single::<K>(a.rotation.q.j, p.qy)
            &&& is_to_single::<K>(a.rotation.q.k, p.qz)
        };
    let (q, t, u) = choose|p: DevicePose, s: DeviceStd, r: DeviceStd|
        {
            &&& #[trigger] call_ensures(D::predict, (be@.device, p, s, r), post2@.device)
            &&& is_to_single::<K>(b.rotation.q.w, p.qw)
            &&& is_to_single::<K>(b.rotation.q.i, p.qx)
            &&& is_to_single::<K>(b.rotation.q.j, p.qy)
            &&& is_to_single::<K>(b.rotation.q.k, p.qz)
        };
    assert(is_to_single::<K>(a.rotation.q.coord(c), motion_part(p, c)));
    assert(is_to_single::<K>(b.rotation.q.coord(c), motion_part(q, c)));
}

/// The weight kernel runs once, and last: on the known observations in their
/// order, 256 at most, with the three settings. Before it the landmark table is
/// uploaded, in which each landmark stands at its own id, and remembered;
/// unless nothing is known, or the table holds the numbers of the last one.
pub proof fn law_device_weighs_what_is_known<K: Numerics, D: Kernels>(
    be: CudaBackend<K, D>,
    obs: Seq<Observation>,
    map: Map<int, Vector3>,
    post: CudaBackend<K, D>,
)
    requires
        be.is_weight(obs, map, post),
    ensures
        exists|d: D, sent: Vec<DeviceObs>, sr: u32, sb: u32, cut: u32|
            {
                &&& #[trigger] call_ensures(D::weight, (d, &sent, sr, sb, cut), post@.device)
                &&& is_to_single::<K>(be@.cfg.range_noise, sr)
                &&& is_to_single::<K>(be@.cfg.bearing_noise, sb)
                &&& is_to_single::<K>(be@.cfg.gate_sigma, cut)
                &&& are_carried::<K>(known(obs, map), sent@)
                &&& {
                    ||| {
                        &&& d == be@.device && post@.cache == be@.cache
                        &&& known(obs, map).len() == 0 || is_remembered::<K>(map, be@.cache)
                    }
                    ||| exists|table: Vec<u32>, count: usize|
                        {
                            &&& #[trigger] call_ensures(
                                D::upload_landmarks,
                                (be@.device, &table, count),
                                d,
                            )
                            &&& stands_at_ids::<K>(map, table@, count as int)
                            &&& post@.cache == table@
                        }
                }
            },
        post@.n == be@.n && post@.cfg == be@.cfg,
{
    let (plan, sr, sb, cut) = choose|plan: WeightPlan, sr: u32, sb: u32, cut: u32| #[trigger]
        be@.is_weighed::<K>(obs, map, plan, sr, sb, cut, post@);
    assert forall|i: int| 0 <= i < plan.obs@.len() implies is_carried::<K>(
        known(obs, map)[i],
        #[trigger] plan.obs@[i],
    ) by {
        assert(is_device_obs::<K>(known(obs, map)[i], plan.obs@[i]));
    }
    assert(are_carried::<K>(known(obs, map), plan.obs@));
    match plan.upload {
        None => {
            if known(obs, map).len() > 0 {
                let (flat, cap) = choose|flat: Seq<u32>, cap: int| #[trigger]
                    is_table::<K>(map, flat, cap) && same_table(flat, be@.cache);
                lemma_stands::<K>(map, flat, cap);
                assert(hold_alike(flat, be@.cache));
                assert(is_remembered::<K>(map, be@.cache));
            }
            assert(call_ensures(D::weight, (be@.device, &plan.obs, sr, sb, cut), post@.device));
        },
        Some(t) => {
            let d = choose|mid: D| #[trigger]
                is_upload_run(be@.device, t.0, t.1, mid) && is_weight_run(
                    mid,
                    plan.obs,
                    sr,
                    sb,
                    cut,
                    post@.device,
                );
            let (flat, cap) = choose|flat: Seq<u32>, cap: int| #[trigger]
                is_table::<K>(map, flat, cap) && if same_table(flat, be@.cache) {
                    plan.upload is None
                } else {
                    plan.upload matches Some(t) && t.0@ == flat && t.1 == cap
                };
            lemma_stands::<K>(map, flat, cap);
            assert(call_ensures(D::upload_landmarks, (be@.device, &t.0, t.1), d));
            assert(call_ensures(D::weight, (d, &plan.obs, sr, sb, cut), post@.device));
        },
    }
}

/// `sent` carries the first of `seen`, 256 at most.
pub open spec fn are_carried<K: Numerics>(seen: Seq<Observation>, sent: Seq<DeviceObs>) -> bool {
    &&& sent.len() == (if seen.len() < 256 {
        seen.len()
    } else {
        256
    })
    &&& forall|i: int| 0 <= i < sent.len() ==> is_carried::<K>(seen[i], #[trigger] sent[i])
}

/// `d` carries the id, the kind, the vector and the range of `o`.
pub open spec fn is_carried<K: Numerics>(o: Observation, d: DeviceObs) -> bool {
    &&& d.id == o.landmark_id
    &&& d.mode == 0 <==> o.mode == ObsMode::Cartesian
    &&& d.mode == 1 <==> o.mode == ObsMode::RangeBearing
    &&& is_to_single::<K>(o.vector.x, d.dx)
    &&& is_to_single::<K>(o.vector.y, d.dy)
    &&& is_to_single::<K>(o.vector.z, d.dz)
    &&& is_to_single::<K>(o.range, d.range)
}

proof fn lemma_stands<K: Numerics>(map: Map<int, Vector3>, flat: Seq<u32>, cap: int)
    requires
        is_table::<K>(map, flat, cap),
    ensures
        stands_at_ids::<K>(map, flat, cap),
{
    assert forall|id: int| 0 <= id < cap implies if #[trigger] map.contains_key(id) {
        &&& is_to_single::<K>(map[id].x, flat[3 * id])
        &&& is_to_single::<K>(map[id].y, flat[3 * id + 1])
        &&& is_to_single::<K>(map[id].z, flat[3 * id + 2])
    } else {
        flat[3 * id] == 0 && flat[3 * id + 1] == 0 && flat[3 * id + 2] == 0
    } by {
        assert(is_table_entry::<K>(map, id, flat[3 * id], flat[3 * id + 1], flat[3 * id + 2]));
    }
}

/// Two tables hold the same numbers, the two zeros told apart or not.
pub open spec fn hold_alike(a: Seq<u32>, b: Seq<u32>) -> bool {
    &&& a.len() == b.len()
    &&& forall|i: int|
        0 <= i < a.len() ==> #[trigger] a[i] == b[i] || (a[i] % 0x8000_0000 == 0 && b[i]
            % 0x8000_0000 == 0)
}

/// The table of the map holds what `cache` holds.
pub open spec fn is_remembered<K: Numerics>(map: Map<int, Vector3>, cache: Seq<u32>) -> bool {
    exists|table: Seq<u32>, count: int|
        #[trigger] stands_at_ids::<K>(map, table, count) && hold_alike(table, cache)
}

/// Each landmark of the map stands in the table at three times its id, zeros
/// stand for the ids between, and the largest id comes last.
pub open spec fn stands_at_ids<K: Numerics>(
    map: Map<int, Vector3>,
    table: Seq<u32>,
    count: int,
) -> bool {
    &&& table.len() == 3 * count && count >= 1
    &&& count > 1 ==> map.contains_key(count - 1)
    &&& forall|id: int| #[trigger] map.contains_key(id) ==> 0 <= id < count
    &&& forall|id: int|
        0 <= id < count ==> if #[trigger] map.contains_key(id) {
            &&& is_to_single::<K>(map[id].x, table[3 * id])
            &&& is_to_single::<K>(map[id].y, table[3 * id + 1])
            &&& is_to_single::<K>(map[id].z, table[3 * id + 2])
        } else {
            table[3 * id] == 0 && table[3 * id + 1] == 0 && table[3 * id + 2] == 0
        }
}

/// The device is resampled with the ratio in single precision.
pub proof fn law_device_is_resampled<K: Numerics, D: Kernels>(
    be: CudaBackend<K, D>,
    ess_ratio: Num,
    ratio: Num,
    post: CudaBackend<K, D>,
)
    requires
        be.is_resample(ess_ratio, ratio, post),
    ensures
        exists|r: u32| #[trigger]
            call_ensures(D::resample, (be@.device, r), post@.device) && is_to_single::<K>(ratio, r),
        post@.n == be@.n && post@.cfg == be@.cfg && post@.cache == be@.cache,
{
}

/// The estimate of a cloud that is there: the position that the sums begin
/// with, and the covariances that the device gives about that position and the
/// estimated attitude. Each matrix is symmetric and read row by row. The
/// effective sample size is one over the last sum.
pub proof fn law_device_estimate<K: Numerics, D: Kernels>(
    val: Reading,
    be: CudaBackend<K, D>,
    e: Estimate,
)
    requires
        scalars_are_exact::<K>(val),
        be@.n > 0,
        be.is_estimate(e),
    ensures
        e.valid,
        exists|sums: [u32; 14], about: DevicePose, covs: [u32; 12]|
            {
                &&& #[trigger] call_ensures(D::est_sums, (&be@.device,), sums)
                &&& #[trigger] call_ensures(D::covs, (&be@.device, about), covs)
                &&& is_from_single::<K>(sums@[0], e.mean.position.x)
                &&& is_from_single::<K>(sums@[1], e.mean.position.y)
                &&& is_from_single::<K>(sums@[2], e.mean.position.z)
                &&& about.x == sums@[0] && about.y == sums@[1] && about.z == sums@[2]
                &&& is_to_single::<K>(e.mean.attitude.q.w, about.qw)
                &&& is_to_single::<K>(e.mean.attitude.q.i, about.qx)
                &&& is_to_single::<K>(e.mean.attitude.q.j, about.qy)
                &&& is_to_single::<K>(e.mean.attitude.q.k, about.qz)
                &&& is_read_by_rows::<K>(covs@, 0, e.pos_cov)
                &&& is_read_by_rows::<K>(covs@, 6, e.att_cov)
                &&& is_mean_of_sums::<K>(sums@, e.mean.attitude)
                &&& is_one_over::<K>(val, sums@[13], e.ess)
            },
{
    let (sums, mean, about, covs) = choose|
        sums: [u32; 14],
        mean: UnitQuaternion,
        about: DevicePose,
        covs: [u32; 12],
    | #[trigger]
        be@.is_estimated::<K>(sums, mean, about, covs, e);
    assert(call_ensures(D::est_sums, (&be@.device,), sums));
    assert(call_ensures(D::covs, (&be@.device, about), covs));
    lemma_rows::<K>(covs@, 0, e.pos_cov);
    lemma_rows::<K>(covs@, 6, e.att_cov);
    lemma_rows4::<K>(sums@, mean);
    let sq = choose|sq: Num| #[trigger]
        is_from_single::<K>(sums@[13], sq) && if less(num(ZERO), sq) {
            is_quotient::<K>(num(ONE), sq, e.ess)
        } else {
            e.ess == num(ZERO)
        };
    let (a, b) = (val(sq), val(e.ess));
    if less(num(ZERO), sq) {
        assert(b * a == 1real) by (nonlinear_arith)
            requires
                b == 1real / a,
                0real < a,
        ;
    }
    assert(is_one_over::<K>(val, sums@[13], e.ess));
}

/// `ess` is one over the number in `bits`, and 0 where that is not positive.
pub open spec fn is_one_over<K: Numerics>(val: Reading, bits: u32, ess: Num) -> bool {
    exists|sq: Num| #[trigger]
        is_from_single::<K>(bits, sq) && if !is_nan(sq) && 0real < val(sq) {
            val(ess) * val(sq) == 1real
        } else {
            val(ess) == 0real
        }
}

/// `q` is the mean attitude of the moment matrix that stands in the sums from
/// place 3 on: the first row, then of each further row what is not below the
/// diagonal.
pub open spec fn is_mean_of_sums<K: Numerics>(sums: Seq<u32>, q: UnitQuaternion) -> bool {
    exists|m: Matrix4|
        {
            &&& #[trigger] is_quat_mean::<K>(m, q)
            &&& is_pair::<K>(sums[3], m.at(0, 0), m.at(0, 0))
            &&& is_pair::<K>(sums[4], m.at(0, 1), m.at(1, 0))
            &&& is_pair::<K>(sums[5], m.at(0, 2), m.at(2, 0))
            &&& is_pair::<K>(sums[6], m.at(0, 3), m.at(3, 0))
            &&& is_pair::<K>(sums[7], m.at(1, 1), m.at(1, 1))
            &&& is_pair::<K>(sums[8], m.at(1, 2), m.at(2, 1))
            &&& is_pair::<K>(sums[9], m.at(1, 3), m.at(3, 1))
            &&& is_pair::<K>(sums[10], m.at(2, 2), m.at(2, 2))
            &&& is_pair::<K>(sums[11], m.at(2, 3), m.at(3, 2))
            &&& is_pair::<K>(sums[12], m.at(3, 3), m.at(3, 3))
        }
}

/// Both numbers are read from the same single.
pub open spec fn is_pair<K: Numerics>(bits: u32, a: Num, b: Num) -> bool {
    is_from_single::<K>(bits, a) && is_from_single::<K>(bits, b)
}

proof fn lemma_rows4<K: Numerics>(sums: Seq<u32>, q: UnitQuaternion)
    requires
        is_device_mean::<K>(sums, q),
    ensures
        is_mean_of_sums::<K>(sums, q),
{
    let m = choose|m: Matrix4| #[trigger] is_unpacked4::<K>(sums, m) && is_quat_mean::<K>(m, q);
    lemma_packed(4, 0, 0);
    lemma_packed(4, 0, 1);
    lemma_packed(4, 0, 2);
    lemma_packed(4, 0, 3);
    lemma_packed(4, 1, 1);
    lemma_packed(4, 1, 2);
    lemma_packed(4, 1, 3);
    lemma_packed(4, 2, 2);
    lemma_packed(4, 2, 3);
    lemma_packed(4, 3, 3);
    assert(is_pair::<K>(sums[3 + packed_sym(4, 0, 0)], m.at(0, 0), m.at(0, 0)));
    assert(is_pair::<K>(sums[3 + packed_sym(4, 0, 1)], m.at(0, 1), m.at(1, 0)));
    assert(is_pair::<K>(sums[3 + packed_sym(4, 0, 2)], m.at(0, 2), m.at(2, 0)));
    assert(is_pair::<K>(sums[3 + packed_sym(4, 0, 3)], m.at(0, 3), m.at(3, 0)));
    assert(is_pair::<K>(sums[3 + packed_sym(4, 1, 1)], m.at(1, 1), m.at(1, 1)));
    assert(is_pair::<K>(sums[3 + packed_sym(4, 1, 2)], m.at(1, 2), m.at(2, 1)));
    assert(is_pair::<K>(sums[3 + packed_sym(4, 1, 3)], m.at(1, 3), m.at(3, 1)));
    assert(is_pair::<K>(sums[3 + packed_sym(4, 2, 2)], m.at(2, 2), m.at(2, 2)));
    assert(is_pair::<K>(sums[3 + packed_sym(4, 2, 3)], m.at(2, 3), m.at(3, 2)));
    assert(is_pair::<K>(sums[3 + packed_sym(4, 3, 3)], m.at(3, 3), m.at(3, 3)));
}

/// An empty cloud on a device has no estimate.
pub proof fn law_empty_device<K: Numerics, D: Kernels>(be: CudaBackend<K, D>, e: Estimate)
    requires
        be@.n == 0,
        be.is_estimate(e),
    ensures
        !e.valid,
        e.ess == num(ZERO),
        e.mean.position == Vector3::zeros() && e.mean.attitude == UnitQuaternion::identity(),
{
}

/// The particles of a device are read from its arrays: three coordinates and
/// four parts of a quaternion for each, the real part first. Each weighs as
/// much as any other of the cloud.
pub proof fn law_device_snapshot<K: Numerics, D: Kernels>(
    val: Reading,
    be: CudaBackend<K, D>,
    ps: Seq<Particle>,
)
    requires
        scalars_are_exact::<K>(val),
        be@.n > 0,
        be.is_snapshot(ps),
    ensures
        exists|r: (Vec<u32>, Vec<u32>)|
            {
                &&& #[trigger] call_ensures(D::snapshot, (&be@.device, be@.n), r)
                &&& 3 * be@.n <= r.0@.len() && 4 * be@.n <= r.1@.len() ==> ps.len() == be@.n
                &&& forall|i: int|
                    0 <= i < ps.len() ==> is_read_at::<K>(r.0@, r.1@, i, #[trigger] ps[i])
                &&& forall|i: int|
                    0 <= i < ps.len() ==> val((#[trigger] ps[i]).weight) == 1real / be@.n as real
            },
{
    let r = choose|r: (Vec<u32>, Vec<u32>)| #[trigger]
        are_arrays(be@.device, be@.n, r) && is_device_snapshot::<K>(
            be@.n as nat,
            r.0@,
            r.1@,
            ps,
        );
    let (n, pos, quat) = (be@.n as nat, r.0@, r.1@);
    let (count, w) = choose|count: Num, w: Num|
        {
            &&& #[trigger] is_from_u64::<K>(n as u64, count)
            &&& #[trigger] is_quotient::<K>(num(ONE), count, w)
            &&& ps.len() == held(n, pos.len(), quat.len())
            &&& forall|i: int|
                0 <= i < ps.len() ==> is_device_particle::<K>(pos, quat, i, w, #[trigger] ps[i])
        };
    assert(call_ensures(D::snapshot, (&be@.device, be@.n), r));
    assert forall|i: int| 0 <= i < ps.len() implies is_read_at::<K>(pos, quat, i, #[trigger] ps[i])
        && val(ps[i].weight) == 1real / n as real by {
        assert(is_device_particle::<K>(pos, quat, i, w, ps[i]));
        let q = choose|q: Quaternion|
            {
                &&& is_from_single::<K>(quat[4 * i], q.w)
                &&& is_from_single::<K>(quat[4 * i + 1], q.i)
                &&& is_from_single::<K>(quat[4 * i + 2], q.j)
                &&& is_from_single::<K>(quat[4 * i + 3], q.k)
                &&& #[trigger] is_q_unit::<K>(q, ps[i].pose.attitude)
            };
        assert(is_q_unit::<K>(q, ps[i].pose.attitude));
    }
}

/// `p` stands at place `i` of the arrays.
pub open spec fn is_read_at<K: Numerics>(
    pos: Seq<u32>,
    quat: Seq<u32>,
    i: int,
    p: Particle,
) -> bool {
    &&& is_from_single::<K>(pos[3 * i], p.pose.position.x)
    &&& is_from_single::<K>(pos[3 * i + 1], p.pose.position.y)
    &&& is_from_single::<K>(pos[3 * i + 2], p.pose.position.z)
    &&& exists|q: Quaternion|
        {
            &&& #[trigger] is_q_unit::<K>(q, p.pose.attitude)
            &&& is_from_single::<K>(quat[4 * i], q.w)
            &&& is_from_single::<K>(quat[4 * i + 1], q.i)
            &&& is_from_single::<K>(quat[4 * i + 2], q.j)
            &&& is_from_single::<K>(quat[4 * i + 3], q.k)
        }
}

/// `m` is read from six numbers: the first row, the rest of the second, and
/// the end of the third; below the diagonal stands what is above it.
pub open spec fn is_read_by_rows<K: Numerics>(
    v: Seq<u32>,
    o: int,
    m: Matrix3,
) -> bool {
    &&& is_from_single::<K>(v[o], m.at(0, 0))
    &&& is_from_single::<K>(v[o + 1], m.at(0, 1)) && is_from_single::<K>(v[o + 1], m.at(1, 0))
    &&& is_from_single::<K>(v[o + 2], m.at(0, 2)) && is_from_single::<K>(v[o + 2], m.at(2, 0))
    &&& is_from_single::<K>(v[o + 3], m.at(1, 1))
    &&& is_from_single::<K>(v[o + 4], m.at(1, 2)) && is_from_single::<K>(v[o + 4], m.at(2, 1))
    &&& is_from_single::<K>(v[o + 5], m.at(2, 2))
}

proof fn lemma_rows<K: Numerics>(v: Seq<u32>, o: int, m: Matrix3)
    requires
        is_unpacked3::<K>(v, o, m),
    ensures
        is_read_by_rows::<K>(v, o, m),
{
    lemma_packed(3, 0, 0);
    lemma_packed(3, 0, 1);
    lemma_packed(3, 0, 2);
    lemma_packed(3, 1, 1);
    lemma_packed(3, 1, 2);
    lemma_packed(3, 2, 2);
    assert(is_from_single::<K>(v[o + packed_sym(3, 0, 0)], m.at(0, 0)));
    assert(is_from_single::<K>(v[o + packed_sym(3, 0, 1)], m.at(0, 1)));
    assert(is_from_single::<K>(v[o + packed_sym(3, 1, 0)], m.at(1, 0)));
    assert(is_from_single::<K>(v[o + packed_sym(3, 0, 2)], m.at(0, 2)));
    assert(is_from_single::<K>(v[o + packed_sym(3, 2, 0)], m.at(2, 0)));
    assert(is_from_single::<K>(v[o + packed_sym(3, 1, 1)], m.at(1, 1)));
    assert(is_from_single::<K>(v[o + packed_sym(3, 1, 2)], m.at(1, 2)));
    assert(is_from_single::<K>(v[o + packed_sym(3, 2, 1)], m.at(2, 1)));
    assert(is_from_single::<K>(v[o + packed_sym(3, 2, 2)], m.at(2, 2)));
}

/// A localizer's device is made for its grid: the size, and the resolution and
/// the origin in single precision, x before y.
pub proof fn law_device_gets_the_grid<K: Numerics, D: GlKernels>(
    grid: &OccGrid,
    params: GlParams,
    r: Result<CudaGlobalLoc<D>, String>,
)
    requires
        call_ensures(CudaGlobalLoc::<D>::new::<K>, (grid, params), r),
    ensures
        exists|t: DeviceGrid, c: Option<D>|
            {
                &&& #[trigger] call_ensures(D::create, (t, &grid.cells, params.hypotheses), c)
                &&& t.w == grid.w && t.h == grid.h
                &&& is_to_single::<K>(grid.res, t.res)
                &&& is_to_single::<K>(grid.origin.x, t.ox)
                &&& is_to_single::<K>(grid.origin.y, t.oy)
                &&& c is Some <==> r is Ok
                &&& r is Ok ==> r->Ok_0.device == c && r->Ok_0.grid.cells@ == grid.cells@
                    && r->Ok_0.grid.origin == grid.origin && r->Ok_0.grid.res == grid.res
                    && r->Ok_0.grid.w == grid.w && r->Ok_0.grid.h == grid.h && r->Ok_0.params
                    == params
            },
{
    let (t, c) = choose|t: DeviceGrid, c: Option<D>|
        {
            &&& is_device_grid::<K>(*grid, t)
            &&& #[trigger] is_grid_creation(t, grid.cells, params.hypotheses, c)
            &&& match c {
                None => r matches Err(e) && e@ == "pfgl_create failed"@,
                Some(d) => r matches Ok(loc) && loc.wf() && loc.device == Some(d)
                    && loc.grid.is_copy(grid) && loc.grid_w == grid.w && loc.grid_h == grid.h
                    && loc.params == params,
            }
        };
    assert(call_ensures(D::create, (t, &grid.cells, params.hypotheses), c));
}

/// A localization that succeeds dispersed as many hypotheses as set, by the
/// set seed, scored them against the scan within the set range and span, and
/// asked for as many of the best as set. What it returns is the poses that the
/// device gave, none of them twice, each with its error against the scan on the
/// localizer's own grid.
pub proof fn law_device_localizes_as_set<K: Numerics, D: GlKernels>(
    d: D,
    grid: &OccGrid,
    params: GlParams,
    scan: &[u32],
    after: D,
    r: Result<Vec<PoseHypothesis>, String>,
)
    requires
        is_device_run::<K, D>(d, grid, params, scan, after, r),
        r is Ok,
    ensures
        exists|mid: D, rmax: u32, span: u32, t: (i32, Vec<u32>)|
            {
                &&& #[trigger] call_ensures(
                    D::generate,
                    (d, params.hypotheses, params.seed),
                    (0i32, mid),
                )
                &&& #[trigger] call_ensures(D::score, (mid, scan, rmax, span), (0i32, after))
                &&& #[trigger] call_ensures(D::topk, (&after, params.topk), t)
                &&& is_to_single::<K>(params.rmax, rmax)
                &&& is_to_single::<K>(params.ang_span, span)
                &&& t.0 > 0
                &&& t.0 * 3 <= t.1@.len() ==> r->Ok_0@.len() == t.0
                &&& exists|places: Seq<int>, wide: Seq<Num>|
                    {
                        &&& places.len() == r->Ok_0@.len() && places.no_duplicates()
                        &&& wide.len() == scan@.len()
                        &&& forall|i: int|
                            0 <= i < wide.len() ==> is_from_single::<K>(
                                scan@[i],
                                #[trigger] wide[i],
                            )
                        &&& #[trigger] are_poses_at::<K>(
                            grid,
                            params,
                            wide,
                            t.1@,
                            places,
                            r->Ok_0@,
                        )
                    }
            },
{
    let g = choose|g: (i32, D)| #[trigger]
        is_generation(d, params.hypotheses, params.seed, g) && if g.0 != 0 {
            after == g.1 && (r matches Err(e) && e@ == "pfgl_generate failed"@)
        } else {
            is_scored_run::<K, D>(g.1, grid, params, scan, after, r)
        };
    let (rmax, span, code) = choose|rmax: u32, span: u32, code: i32|
        {
            &&& is_to_single::<K>(params.rmax, rmax)
            &&& is_to_single::<K>(params.ang_span, span)
            &&& #[trigger] is_scoring(g.1, scan, rmax, span, (code, after))
            &&& if code != 0 {
                r matches Err(e) && e@ == "pfgl_score failed"@
            } else {
                is_selected_run::<K, D>(after, grid, params, scan, r)
            }
        };
    let t = choose|t: (i32, Vec<u32>)| #[trigger]
        is_selection(after, params.topk, t) && if t.0 <= 0 {
            r matches Err(e) && e@ == "pfgl_topk failed"@
        } else {
            r matches Ok(hs) && is_answer::<K>(grid, params, scan@, t.0, t.1@, hs@)
        };
    assert(call_ensures(D::generate, (d, params.hypotheses, params.seed), (0i32, g.1)));
    assert(call_ensures(D::score, (g.1, scan, rmax, span), (0i32, after)));
    assert(call_ensures(D::topk, (&after, params.topk), t));
    let hs = r->Ok_0@;
    let (wide, raw) = choose|wide: Seq<Num>, raw: Seq<PoseHypothesis>|
        {
            &&& #[trigger] is_widened::<K>(scan@, wide)
            &&& are_rescored::<K>(grid, params, wide, t.0, t.1@, raw)
            &&& #[trigger] is_ranked(raw, hs)
        };
    let places = if is_unrankable(raw) {
        Seq::new(raw.len(), |i: int| i)
    } else {
        let order = choose|order: Seq<usize>|
            {
                &&& #[trigger] is_order(score_ranks(raw), 0, raw.len() as int, order)
                &&& hs.len() == raw.len()
                &&& forall|i: int| 0 <= i < hs.len() ==> #[trigger] hs[i] == raw[order[i] as int]
            };
        assert(forall|i: int| 0 <= i < order.len() ==> 0 <= #[trigger] order[i] < raw.len());
        assert forall|i: int, j: int| 0 <= i < j < order.len() implies order[i] != order[j] by {
            assert(precedes(score_ranks(raw), order[i], order[j]));
        }
        Seq::new(raw.len(), |i: int| order[i] as int)
    };
    assert(places.len() == raw.len());
    assert forall|i: int| 0 <= i < hs.len() implies 0 <= places[i] < raw.len() && #[trigger] hs[i]
        == raw[places[i]] by {}
    assert forall|i: int| 0 <= i < hs.len() implies is_pose_at::<K>(
        grid,
        params,
        wide,
        t.1@,
        places[i],
        #[trigger] hs[i],
    ) by {
        assert(is_rescored::<K>(grid, params, wide, t.1@, places[i], raw[places[i]]));
    }
    assert(are_poses_at::<K>(grid, params, wide, t.1@, places, hs));
}

/// `h` is the triple at place `i`, with its error against the scan.
pub open spec fn is_pose_at<K: Numerics>(
    grid: &OccGrid,
    params: GlParams,
    scan: Seq<Num>,
    out: Seq<u32>,
    i: int,
    h: PoseHypothesis,
) -> bool {
    &&& 0 <= i && 3 * i + 2 < out.len()
    &&& is_from_single::<K>(out[3 * i], h.x)
    &&& is_from_single::<K>(out[3 * i + 1], h.y)
    &&& is_from_single::<K>(out[3 * i + 2], h.theta)
    &&& grid.is_caer::<K>(scan, h.x, h.y, h.theta, params.ang_span, params.rmax, h.caer)
}

/// Each of `hs` is the triple at its place.
pub open spec fn are_poses_at<K: Numerics>(
    grid: &OccGrid,
    params: GlParams,
    scan: Seq<Num>,
    out: Seq<u32>,
    places: Seq<int>,
    hs: Seq<PoseHypothesis>,
) -> bool {
    forall|i: int|
        0 <= i < hs.len() ==> is_pose_at::<K>(grid, params, scan, out, places[i], #[trigger] hs[i])
}

/// Calls of the device's backend hand their arguments on as they are.
pub proof fn law_device_calls<K: Numerics, D: Kernels>(
    be: &mut CudaBackend<K, D>,
    n: usize,
    cfg: PfConfig,
    odom: &OdomDelta,
    obs: &[Observation],
    map: &LandmarkMap,
    pose: &Pose,
    a: &Vector3,
    b: &Vector3,
    ess_ratio: Num,
    ratio: Num,
)
    ensures
        call_ensures(<CudaBackend<K, D> as Backend>::init, (be, n, cfg), ()) ==> old(be).is_init(
            n,
            cfg,
            *final(be),
        ),
        call_ensures(<CudaBackend<K, D> as Backend>::reinit, (be, pose, a, b), ())
            ==> old(be).is_reinit(*pose, *a, *b, *final(be)),
        call_ensures(<CudaBackend<K, D> as Backend>::predict, (be, odom), ())
            ==> old(be).is_predict(*odom, *final(be)),
        call_ensures(<CudaBackend<K, D> as Backend>::weight, (be, obs, map), ())
            ==> old(be).is_weight(obs@, map@, *final(be)),
        call_ensures(<CudaBackend<K, D> as Backend>::resample, (be, ess_ratio, ratio), ())
            ==> old(be).is_resample(ess_ratio, ratio, *final(be)),
{
}

/// A localization on a device runs on the localizer's own grid with its own
/// parameters, which stay, and answers in ascending order.
pub proof fn law_device_localize_call<K: Numerics, D: GlKernels>(
    loc: &mut CudaGlobalLoc<D>,
    scan: &[u32],
    r: Result<Vec<PoseHypothesis>, String>,
    i: int,
    j: int,
)
    requires
        call_ensures(CudaGlobalLoc::<D>::localize::<K>, (loc, scan), r),
    ensures
        is_device_run::<K, D>(
            old(loc).device->0,
            &old(loc).grid,
            old(loc).params,
            scan,
            final(loc).device->0,
            r,
        ),
        final(loc).device is Some,
        final(loc).grid == old(loc).grid && final(loc).params == old(loc).params,
        r matches Ok(hs) ==> 0 <= i < j < hs@.len() && (forall|k: int|
            0 <= k < hs@.len() ==> !is_nan(#[trigger] hs@[k].caer)) ==> at_most(
            hs@[i].caer,
            hs@[j].caer,
        ),
{
    if let Ok(hs) = r {
        if 0 <= i < j < hs@.len() && (forall|k: int|
            0 <= k < hs@.len() ==> !is_nan(#[trigger] hs@[k].caer)) {
            assert(at_most(hs@[i].caer, hs@[j].caer));
        }
    }
}

} // verus!
