//! CUDA backend: the filter's operations as calls of a device's kernels.
use core::marker::PhantomData;

use vstd::prelude::*;

use crate::config::PfConfig;
use crate::device::{
    device_estimate, device_mean, device_snapshot, has_no_nan, is_device_estimate, is_device_mean,
    is_device_snapshot, is_plan, is_table, law_unchanged_map_is_not_sent, plan_weight, same_table,
    DeviceObs, WeightPlan, OBS_CAP,
};
use crate::landmark_map::LandmarkMap;
use crate::likelihood::{any_known, law_known};
use crate::num::Num;
use crate::numerics::{is_to_single, to_single, Numerics};
use crate::particle_filter::Backend;
use crate::repeat::scalars_repeat;
use crate::types::{
    is_blank_estimate, Estimate, Observation, OdomDelta, Particle, Pose, UnitQuaternion, Vector3,
};

verus! {

/// A pose or a motion as the device takes it: single-precision bits.
#[derive(Clone, Copy, Debug, PartialEq, Eq, Structural)]
pub struct DevicePose {
    pub x: u32,
    pub y: u32,
    pub z: u32,
    pub qw: u32,
    pub qx: u32,
    pub qy: u32,
    pub qz: u32,
}

/// Three standard deviations as the device takes them.
#[derive(Clone, Copy, Debug, PartialEq, Eq, Structural)]
pub struct DeviceStd {
    pub x: u32,
    pub y: u32,
    pub z: u32,
}

/// The kernels of a device and the memory that they work on. A kernel that
/// changes the memory takes the device and gives it back, so that what ran
/// before what can be told. Nothing is assumed of what the kernels do.
pub trait Kernels: Send + Sized {
    /// A device is present.
    fn available() -> bool;

    /// Device memory for `cap_obs` observations per weighting, `None` where it
    /// cannot be had.
    fn create(cap_obs: usize) -> Option<Self>;

    /// Allocate for `n` particles and seed their streams.
    fn init(self, n: usize, seed: u32) -> Self;

    /// Replace the landmark table: three singles per entry, dense by id.
    fn upload_landmarks(self, table: &Vec<u32>, count: usize) -> Self;

    /// Spread the cloud around a pose.
    fn reinit(self, pose: DevicePose, pos_std: DeviceStd, rot_std: DeviceStd) -> Self;

    /// Move the cloud.
    fn predict(self, motion: DevicePose, trans_std: DeviceStd, rot_std: DeviceStd) -> Self;

    /// Weigh the cloud; without observations, reset the weights to uniform.
    fn weight(self, obs: &Vec<DeviceObs>, sigma_r: u32, sigma_b: u32, cutoff: u32) -> Self;

    /// Resample the cloud.
    fn resample(self, random_inject_ratio: u32) -> Self;

    /// The weighted sums: position, the packed moment of the attitudes, and
    /// the squares of the weights.
    fn est_sums(&self) -> [u32; 14];

    /// The packed covariances about a mean: position, then attitude.
    fn covs(&self, mean: DevicePose) -> [u32; 12];

    /// The coordinates and the quaternion parts of `n` particles.
    fn snapshot(&self, n: usize) -> (Vec<u32>, Vec<u32>);
}

/// `r` is an answer of [`Kernels::available`].
pub open spec fn is_available<D: Kernels>(r: bool) -> bool {
    call_ensures(D::available, (), r)
}

/// A CUDA device is present.
pub fn device_available<D: Kernels>() -> (r: bool)
    ensures
        is_available::<D>(r),
{
    D::available()
}

/// `r` is an answer of [`Kernels::create`].
pub open spec fn is_creation<D: Kernels>(cap_obs: usize, r: Option<D>) -> bool {
    call_ensures(D::create, (cap_obs,), r)
}

fn create<D: Kernels>(cap_obs: usize) -> (r: Option<D>)
    ensures
        is_creation::<D>(cap_obs, r),
{
    D::create(cap_obs)
}

/// [`Kernels::init`] takes the device `d` to `e`.
pub open spec fn is_init_run<D: Kernels>(d: D, n: usize, seed: u32, e: D) -> bool {
    call_ensures(D::init, (d, n, seed), e)
}

/// [`Kernels::upload_landmarks`] takes the device `d` to `e`.
pub open spec fn is_upload_run<D: Kernels>(d: D, table: Vec<u32>, count: usize, e: D) -> bool {
    call_ensures(D::upload_landmarks, (d, &table, count), e)
}

/// [`Kernels::reinit`] takes the device `d` to `e`.
pub open spec fn is_reinit_run<D: Kernels>(
    d: D,
    pose: DevicePose,
    pos_std: DeviceStd,
    rot_std: DeviceStd,
    e: D,
) -> bool {
    call_ensures(D::reinit, (d, pose, pos_std, rot_std), e)
}

/// [`Kernels::predict`] takes the device `d` to `e`.
pub open spec fn is_predict_run<D: Kernels>(
    d: D,
    motion: DevicePose,
    trans_std: DeviceStd,
    rot_std: DeviceStd,
    e: D,
) -> bool {
    call_ensures(D::predict, (d, motion, trans_std, rot_std), e)
}

/// [`Kernels::weight`] takes the device `d` to `e`.
pub open spec fn is_weight_run<D: Kernels>(
    d: D,
    obs: Vec<DeviceObs>,
    sigma_r: u32,
    sigma_b: u32,
    cutoff: u32,
    e: D,
) -> bool {
    call_ensures(D::weight, (d, &obs, sigma_r, sigma_b, cutoff), e)
}

/// [`Kernels::resample`] takes the device `d` to `e`.
pub open spec fn is_resample_run<D: Kernels>(d: D, ratio: u32, e: D) -> bool {
    call_ensures(D::resample, (d, ratio), e)
}

/// `r` is an answer of [`Kernels::est_sums`].
pub open spec fn are_sums<D: Kernels>(d: D, r: [u32; 14]) -> bool {
    call_ensures(D::est_sums, (&d,), r)
}

/// `r` is an answer of [`Kernels::covs`].
pub open spec fn are_covs<D: Kernels>(d: D, mean: DevicePose, r: [u32; 12]) -> bool {
    call_ensures(D::covs, (&d, mean), r)
}

/// `r` is an answer of [`Kernels::snapshot`].
pub open spec fn are_arrays<D: Kernels>(d: D, n: usize, r: (Vec<u32>, Vec<u32>)) -> bool {
    call_ensures(D::snapshot, (&d, n), r)
}

fn init<D: Kernels>(d: D, n: usize, seed: u32) -> (e: D)
    ensures
        is_init_run(d, n, seed, e),
{
    d.init(n, seed)
}

fn upload<D: Kernels>(d: D, table: &Vec<u32>, count: usize) -> (e: D)
    ensures
        is_upload_run(d, *table, count, e),
{
    d.upload_landmarks(table, count)
}

fn reinit<D: Kernels>(d: D, pose: DevicePose, pos_std: DeviceStd, rot_std: DeviceStd) -> (e: D)
    ensures
        is_reinit_run(d, pose, pos_std, rot_std, e),
{
    d.reinit(pose, pos_std, rot_std)
}

fn predict<D: Kernels>(d: D, motion: DevicePose, trans_std: DeviceStd, rot_std: DeviceStd) -> (e: D)
    ensures
        is_predict_run(d, motion, trans_std, rot_std, e),
{
    d.predict(motion, trans_std, rot_std)
}

fn weigh<D: Kernels>(d: D, obs: &Vec<DeviceObs>, sigma_r: u32, sigma_b: u32, cutoff: u32) -> (e: D)
    ensures
        is_weight_run(d, *obs, sigma_r, sigma_b, cutoff, e),
{
    d.weight(obs, sigma_r, sigma_b, cutoff)
}

fn resample<D: Kernels>(d: D, ratio: u32) -> (e: D)
    ensures
        is_resample_run(d, ratio, e),
{
    d.resample(ratio)
}

fn sums_of<D: Kernels>(d: &D) -> (r: [u32; 14])
    ensures
        are_sums(*d, r),
{
    d.est_sums()
}

fn covs_of<D: Kernels>(d: &D, mean: DevicePose) -> (r: [u32; 12])
    ensures
        are_covs(*d, mean, r),
{
    d.covs(mean)
}

fn arrays_of<D: Kernels>(d: &D, n: usize) -> (r: (Vec<u32>, Vec<u32>))
    ensures
        are_arrays(*d, n, r),
{
    d.snapshot(n)
}

/// `p` is the position and the attitude in singles.
pub open spec fn is_device_pose<K: Numerics>(
    at: Vector3,
    att: UnitQuaternion,
    p: DevicePose,
) -> bool {
    &&& is_to_single::<K>(at.x, p.x)
    &&& is_to_single::<K>(at.y, p.y)
    &&& is_to_single::<K>(at.z, p.z)
    &&& is_device_attitude::<K>(att, p)
}

pub open spec fn is_device_attitude<K: Numerics>(att: UnitQuaternion, p: DevicePose) -> bool {
    &&& is_to_single::<K>(att.q.w, p.qw)
    &&& is_to_single::<K>(att.q.i, p.qx)
    &&& is_to_single::<K>(att.q.j, p.qy)
    &&& is_to_single::<K>(att.q.k, p.qz)
}

fn device_pose<K: Numerics>(at: Vector3, att: UnitQuaternion) -> (p: DevicePose)
    ensures
        is_device_pose::<K>(at, att, p),
{
    DevicePose {
        x: to_single::<K>(at.x),
        y: to_single::<K>(at.y),
        z: to_single::<K>(at.z),
        qw: to_single::<K>(att.q.w),
        qx: to_single::<K>(att.q.i),
        qy: to_single::<K>(att.q.j),
        qz: to_single::<K>(att.q.k),
    }
}

/// `s` is the deviations in singles.
pub open spec fn is_device_std<K: Numerics>(std: Vector3, s: DeviceStd) -> bool {
    &&& is_to_single::<K>(std.x, s.x)
    &&& is_to_single::<K>(std.y, s.y)
    &&& is_to_single::<K>(std.z, s.z)
}

fn device_std<K: Numerics>(std: Vector3) -> (s: DeviceStd)
    ensures
        is_device_std::<K>(std, s),
{
    DeviceStd {
        x: to_single::<K>(std.x),
        y: to_single::<K>(std.y),
        z: to_single::<K>(std.z),
    }
}

/// The particles of a device, driven from the host. The device is only away
/// while one of its kernels runs.
pub struct CudaBackend<K: Numerics, D: Kernels> {
    device: Option<D>,
    n: usize,
    cfg: PfConfig,
    /// Last landmark table uploaded to the device; skips redundant transfers
    /// when the map is unchanged between cycles.
    lm_cache: Vec<u32>,
    numerics: PhantomData<K>,
}

/// What the host holds of a CUDA backend.
#[verifier::ext_equal]
pub struct DeviceState<D> {
    pub device: D,
    pub n: usize,
    pub cfg: PfConfig,
    pub cache: Seq<u32>,
}

impl<K: Numerics, D: Kernels> View for CudaBackend<K, D> {
    type V = DeviceState<D>;

    closed spec fn view(&self) -> DeviceState<D> {
        DeviceState {
            device: self.device->0,
            n: self.n,
            cfg: self.cfg,
            cache: self.lm_cache@,
        }
    }
}

/// `r` is the backend that a device gives, or why there is none.
pub open spec fn is_new_cuda<K: Numerics, D: Kernels>(
    r: Result<CudaBackend<K, D>, String>,
) -> bool {
    ||| {
        &&& is_available::<D>(false)
        &&& r matches Err(e) && e@ == "no CUDA device"@
    }
    ||| {
        &&& is_available::<D>(true)
        &&& exists|c: Option<D>| #[trigger]
            is_creation::<D>(OBS_CAP, c) && match c {
                None => r matches Err(e) && e@ == "pfc_create failed"@,
                Some(d) => r matches Ok(b) && b.wf() && is_blank_cuda(b@, d),
            }
    }
}

/// A backend that nothing has been done with yet.
pub open spec fn is_blank_cuda<D>(s: DeviceState<D>, device: D) -> bool {
    &&& s.device == device
    &&& s.n == 0
    &&& s.cfg.is_default()
    &&& s.cache.len() == 0
}

impl<K: Numerics, D: Kernels> CudaBackend<K, D> {
    pub fn new() -> (r: Result<Self, String>)
        ensures
            is_new_cuda(r),
    {
        if !device_available::<D>() {
            return Err("no CUDA device".to_owned());
        }
        let c = create::<D>(OBS_CAP);
        let ghost created = c;
        assert(is_creation::<D>(OBS_CAP, created));
        match c {
            None => Err("pfc_create failed".to_owned()),
            Some(device) => Ok(
                CudaBackend {
                    device: Some(device),
                    n: 0,
                    cfg: PfConfig::default(),
                    lm_cache: Vec::new(),
                    numerics: PhantomData,
                },
            ),
        }
    }
}

impl<D: Kernels> DeviceState<D> {
    /// A weighting that leads to `post`: the plan's table, if it has one, is
    /// uploaded and remembered, then the plan's observations are weighed, and
    /// no other kernel runs.
    pub open spec fn is_weighed<K: Numerics>(
        self,
        obs: Seq<Observation>,
        map: Map<int, Vector3>,
        plan: WeightPlan,
        sigma_r: u32,
        sigma_b: u32,
        cutoff: u32,
        post: DeviceState<D>,
    ) -> bool {
        &&& is_plan::<K>(obs, map, self.cache, plan)
        &&& is_to_single::<K>(self.cfg.range_noise, sigma_r)
        &&& is_to_single::<K>(self.cfg.bearing_noise, sigma_b)
        &&& is_to_single::<K>(self.cfg.gate_sigma, cutoff)
        &&& post.n == self.n
        &&& post.cfg == self.cfg
        &&& match plan.upload {
            None => {
                &&& is_weight_run(self.device, plan.obs, sigma_r, sigma_b, cutoff, post.device)
                &&& post.cache == self.cache
            },
            Some(t) => {
                &&& exists|mid: D| #[trigger]
                    is_upload_run(self.device, t.0, t.1, mid) && is_weight_run(
                        mid,
                        plan.obs,
                        sigma_r,
                        sigma_b,
                        cutoff,
                        post.device,
                    )
                &&& post.cache == t.0@
            },
        }
    }

    /// `e` is the estimate that two passes over the device give: the sums, and
    /// the covariances about their means.
    pub open spec fn is_estimated<K: Numerics>(
        self,
        sums: [u32; 14],
        mean: UnitQuaternion,
        about: DevicePose,
        covs: [u32; 12],
        e: Estimate,
    ) -> bool {
        &&& are_sums(self.device, sums)
        &&& is_device_mean::<K>(sums@, mean)
        &&& is_device_attitude::<K>(mean, about)
        &&& about.x == sums@[0] && about.y == sums@[1] && about.z == sums@[2]
        &&& are_covs(self.device, about, covs)
        &&& is_device_estimate::<K>(sums@, mean, covs@, e)
    }
}

impl<K: Numerics, D: Kernels> Backend for CudaBackend<K, D> {
    type Arithmetic = K;

    closed spec fn wf(&self) -> bool {
        self.device is Some
    }

    open spec fn label(&self) -> Seq<char> {
        "cuda"@
    }

    open spec fn is_init(self, n: usize, cfg: PfConfig, post: Self) -> bool {
        &&& post@ == (DeviceState { device: post@.device, n, cfg, ..self@ })
        &&& is_init_run(self@.device, n, (cfg.seed % 0x1_0000_0000) as u32, post@.device)
    }

    open spec fn is_reinit(
        self,
        pose: Pose,
        pos_std: Vector3,
        rot_std: Vector3,
        post: Self,
    ) -> bool {
        &&& post@ == (DeviceState { device: post@.device, ..self@ })
        &&& exists|p: DevicePose, s: DeviceStd, r: DeviceStd|
            {
                &&& is_device_pose::<K>(pose.position, pose.attitude, p)
                &&& is_device_std::<K>(pos_std, s)
                &&& is_device_std::<K>(rot_std, r)
                &&& #[trigger] is_reinit_run(self@.device, p, s, r, post@.device)
            }
    }

    open spec fn is_predict(self, odom: OdomDelta, post: Self) -> bool {
        &&& post@ == (DeviceState { device: post@.device, ..self@ })
        &&& exists|p: DevicePose, s: DeviceStd, r: DeviceStd|
            {
                &&& is_device_pose::<K>(odom.translation, odom.rotation, p)
                &&& is_device_std::<K>(odom.trans_noise, s)
                &&& is_device_std::<K>(odom.rot_noise, r)
                &&& #[trigger] is_predict_run(self@.device, p, s, r, post@.device)
            }
    }

    open spec fn is_weight(
        self,
        obs: Seq<Observation>,
        map: Map<int, Vector3>,
        post: Self,
    ) -> bool {
        exists|plan: WeightPlan, sigma_r: u32, sigma_b: u32, cutoff: u32| #[trigger]
            self@.is_weighed::<K>(obs, map, plan, sigma_r, sigma_b, cutoff, post@)
    }

    open spec fn is_resample(self, ess_ratio: Num, random_inject_ratio: Num, post: Self) -> bool {
        &&& post@ == (DeviceState { device: post@.device, ..self@ })
        &&& exists|ratio: u32|
            is_to_single::<K>(random_inject_ratio, ratio) && #[trigger] is_resample_run(
                self@.device,
                ratio,
                post@.device,
            )
    }

    open spec fn is_estimate(self, e: Estimate) -> bool {
        if self@.n == 0 {
            is_blank_estimate(e)
        } else {
            exists|sums: [u32; 14], mean: UnitQuaternion, about: DevicePose, covs: [u32; 12]|
                #[trigger]
                self@.is_estimated::<K>(sums, mean, about, covs, e)
        }
    }

    open spec fn is_snapshot(self, ps: Seq<Particle>) -> bool {
        exists|r: (Vec<u32>, Vec<u32>)| #[trigger]
            are_arrays(self@.device, self@.n, r) && is_device_snapshot::<K>(
                self@.n as nat,
                r.0@,
                r.1@,
                ps,
            )
    }

    fn name(&self) -> (r: &'static str) {
        "cuda"
    }

    fn init(&mut self, n: usize, cfg: PfConfig) {
        let d = self.device.take().unwrap();
        self.n = n;
        self.cfg = cfg;
        self.device = Some(init(d, n, (cfg.seed % 0x1_0000_0000) as u32));
    }

    fn reinit(&mut self, pose: &Pose, pos_std: &Vector3, rot_std: &Vector3) {
        let p = device_pose::<K>(pose.position, pose.attitude);
        let s = device_std::<K>(*pos_std);
        let r = device_std::<K>(*rot_std);
        let d = self.device.take().unwrap();
        self.device = Some(reinit(d, p, s, r));
        assert(is_reinit_run(old(self)@.device, p, s, r, self@.device));
    }

    fn predict(&mut self, odom: &OdomDelta) {
        let p = device_pose::<K>(odom.translation, odom.rotation);
        let s = device_std::<K>(odom.trans_noise);
        let r = device_std::<K>(odom.rot_noise);
        let d = self.device.take().unwrap();
        self.device = Some(predict(d, p, s, r));
        assert(is_predict_run(old(self)@.device, p, s, r, self@.device));
    }

    fn weight(&mut self, obs: &[Observation], map: &LandmarkMap) {
        let plan = plan_weight::<K>(obs, map, &self.lm_cache);
        let ghost planned = plan;
        let sigma_r: u32 = to_single::<K>(self.cfg.range_noise);
        let sigma_b: u32 = to_single::<K>(self.cfg.bearing_noise);
        let cutoff: u32 = to_single::<K>(self.cfg.gate_sigma);
        let WeightPlan { upload: table, obs: sent } = plan;
        let mut d = self.device.take().unwrap();
        if let Some((flat, count)) = table {
            d = upload(d, &flat, count);
            assert(is_upload_run(old(self)@.device, flat, count, d));
            self.lm_cache = flat;
        }
        let d = weigh(d, &sent, sigma_r, sigma_b, cutoff);
        self.device = Some(d);
        assert(old(self)@.is_weighed::<K>(
            obs@,
            map@,
            planned,
            sigma_r,
            sigma_b,
            cutoff,
            self@,
        ));
    }

    fn resample(&mut self, _ess_ratio: Num, random_inject_ratio: Num) {
        let ratio: u32 = to_single::<K>(random_inject_ratio);
        let d = self.device.take().unwrap();
        self.device = Some(resample(d, ratio));
        assert(is_resample_run(old(self)@.device, ratio, self@.device));
    }

    fn estimate(&self) -> (e: Estimate) {
        if self.n == 0 {
            return Estimate::default();
        }
        let d = self.device.as_ref().unwrap();
        let sums = sums_of(d);
        let mean = device_mean::<K>(&sums);
        let about = DevicePose {
            x: sums[0],
            y: sums[1],
            z: sums[2],
            qw: to_single::<K>(mean.q.w),
            qx: to_single::<K>(mean.q.i),
            qy: to_single::<K>(mean.q.j),
            qz: to_single::<K>(mean.q.k),
        };
        let covs = covs_of(d, about);
        let e = device_estimate::<K>(&sums, mean, &covs);
        assert(self@.is_estimated::<K>(sums, mean, about, covs, e));
        e
    }

    fn snapshot(&self) -> (ps: Vec<Particle>) {
        let d = self.device.as_ref().unwrap();
        let r = arrays_of(d, self.n);
        assert(are_arrays(self@.device, self@.n, r));
        device_snapshot::<K>(self.n, &r.0, &r.1)
    }
}

/// The second of two weightings against one map uploads nothing, where the
/// first one weighed by something known: equal numbers round alike, and no
/// landmark has a NaN for a coordinate.
pub proof fn law_second_weighting_uploads_nothing<K: Numerics, D: Kernels>(
    pre: DeviceState<D>,
    obs: Seq<Observation>,
    map: Map<int, Vector3>,
    plan: WeightPlan,
    args: (u32, u32, u32),
    mid: DeviceState<D>,
    obs2: Seq<Observation>,
    plan2: WeightPlan,
    args2: (u32, u32, u32),
    post: DeviceState<D>,
)
    requires
        scalars_repeat::<K>(),
        any_known(obs, map),
        forall|table: Seq<u32>, cap: int| #[trigger]
            is_table::<K>(map, table, cap) ==> has_no_nan(table),
        pre.is_weighed::<K>(obs, map, plan, args.0, args.1, args.2, mid),
        mid.is_weighed::<K>(obs2, map, plan2, args2.0, args2.1, args2.2, post),
    ensures
        plan2.upload is None,
        post.cache == mid.cache,
        is_weight_run(mid.device, plan2.obs, args2.0, args2.1, args2.2, post.device),
{
    law_known(obs, map);
    let (flat, cap) = choose|flat: Seq<u32>, cap: int| #[trigger]
        is_table::<K>(map, flat, cap) && if same_table(flat, pre.cache) {
            plan.upload is None
        } else {
            plan.upload matches Some(t) && t.0@ == flat && t.1 == cap
        };
    law_unchanged_map_is_not_sent::<K>(obs2, map, flat, cap, mid.cache, plan2);
}

} // verus!
