//! Backend trait, filter driver and factory.
use vstd::prelude::*;

use crate::config::{BackendKind, PfConfig};
use crate::cpu::CpuBackend;
use crate::cuda::{device_available, is_available, is_new_cuda, CudaBackend, Kernels};
use crate::landmark_map::LandmarkMap;
use crate::num::{less, num, Num, ZERO};
use crate::numerics::{from_u64, is_from_u64, is_product, product, Numerics};
use crate::types::{
    is_blank_estimate, Estimate, Observation, OdomDelta, Particle, Pose, Vector3,
};

verus! {

/// Abstract filter backend. Its spec functions relate the backend before an
/// operation to the backend after it.
pub trait Backend: Send + Sized {
    /// The arithmetic that the backend computes with.
    type Arithmetic: Numerics;

    /// The backend's own invariant.
    spec fn wf(&self) -> bool;

    /// The backend's name.
    spec fn label(&self) -> Seq<char>;

    /// Allocation for `n` particles leads to `post`.
    spec fn is_init(self, n: usize, cfg: PfConfig, post: Self) -> bool;

    /// Seeding the cloud around `pose` leads to `post`.
    spec fn is_reinit(self, pose: Pose, pos_std: Vector3, rot_std: Vector3, post: Self) -> bool;

    /// An odometry step leads to `post`.
    spec fn is_predict(self, odom: OdomDelta, post: Self) -> bool;

    /// Weighting against observations leads to `post`.
    spec fn is_weight(self, obs: Seq<Observation>, map: Map<int, Vector3>, post: Self) -> bool;

    /// Resampling leads to `post`.
    spec fn is_resample(self, ess_ratio: Num, random_inject_ratio: Num, post: Self) -> bool;

    /// `e` is an estimate of this cloud.
    spec fn is_estimate(self, e: Estimate) -> bool;

    /// `ps` is a copy of this cloud: its poses, and its weights as far as the
    /// backend can read them. A device hands out none, and each is `1 / n`.
    spec fn is_snapshot(self, ps: Seq<Particle>) -> bool;

    fn name(&self) -> (r: &'static str)
        ensures
            r@ == self.label(),
    ;

    /// Allocate for N particles.
    fn init(&mut self, n: usize, cfg: PfConfig)
        requires
            old(self).wf(),
        ensures
            final(self).wf(),
            old(self).is_init(n, cfg, *final(self)),
    ;

    /// Overwrite the cloud with pose + Gaussian spread (the prior).
    fn reinit(&mut self, pose: &Pose, pos_std: &Vector3, rot_std: &Vector3)
        requires
            old(self).wf(),
        ensures
            final(self).wf(),
            old(self).is_reinit(*pose, *pos_std, *rot_std, *final(self)),
    ;

    /// Apply an odometry delta + process noise.
    fn predict(&mut self, odom: &OdomDelta)
        requires
            old(self).wf(),
        ensures
            final(self).wf(),
            old(self).is_predict(*odom, *final(self)),
    ;

    /// Weight all particles against observations (replaces weights).
    fn weight(&mut self, obs: &[Observation], map: &LandmarkMap)
        requires
            old(self).wf(),
            map.wf(),
        ensures
            final(self).wf(),
            old(self).is_weight(obs@, map@, *final(self)),
    ;

    /// Resample (systematic). Called by the driver when ESS is low.
    fn resample(&mut self, ess_ratio: Num, random_inject_ratio: Num)
        requires
            old(self).wf(),
        ensures
            final(self).wf(),
            old(self).is_resample(ess_ratio, random_inject_ratio, *final(self)),
    ;

    /// Weighted mean + covariances + ESS.
    fn estimate(&self) -> (e: Estimate)
        requires
            self.wf(),
        ensures
            self.is_estimate(e),
    ;

    /// Copy out the particle set (viz, tests).
    fn snapshot(&self) -> (ps: Vec<Particle>)
        requires
            self.wf(),
        ensures
            self.is_snapshot(ps@),
    ;
}

/// The backend that a filter runs on: the CPU's, or a CUDA device's.
pub enum AnyBackend<K: Numerics, D: Kernels> {
    Cpu(CpuBackend<K>),
    Cuda(CudaBackend<K, D>),
}

impl<K: Numerics, D: Kernels> Backend for AnyBackend<K, D> {
    type Arithmetic = K;

    open spec fn wf(&self) -> bool {
        match self {
            AnyBackend::Cpu(b) => b.wf(),
            AnyBackend::Cuda(d) => d.wf(),
        }
    }

    open spec fn label(&self) -> Seq<char> {
        match self {
            AnyBackend::Cpu(b) => b.label(),
            AnyBackend::Cuda(d) => d.label(),
        }
    }

    open spec fn is_init(self, n: usize, cfg: PfConfig, post: Self) -> bool {
        match (self, post) {
            (AnyBackend::Cpu(b), AnyBackend::Cpu(c)) => b.is_init(n, cfg, c),
            (AnyBackend::Cuda(d), AnyBackend::Cuda(e)) => d.is_init(n, cfg, e),
            _ => false,
        }
    }

    open spec fn is_reinit(
        self,
        pose: Pose,
        pos_std: Vector3,
        rot_std: Vector3,
        post: Self,
    ) -> bool {
        match (self, post) {
            (AnyBackend::Cpu(b), AnyBackend::Cpu(c)) => b.is_reinit(pose, pos_std, rot_std, c),
            (AnyBackend::Cuda(d), AnyBackend::Cuda(e)) => d.is_reinit(
                pose,
                pos_std,
                rot_std,
                e,
            ),
            _ => false,
        }
    }

    open spec fn is_predict(self, odom: OdomDelta, post: Self) -> bool {
        match (self, post) {
            (AnyBackend::Cpu(b), AnyBackend::Cpu(c)) => b.is_predict(odom, c),
            (AnyBackend::Cuda(d), AnyBackend::Cuda(e)) => d.is_predict(odom, e),
            _ => false,
        }
    }

    open spec fn is_weight(
        self,
        obs: Seq<Observation>,
        map: Map<int, Vector3>,
        post: Self,
    ) -> bool {
        match (self, post) {
            (AnyBackend::Cpu(b), AnyBackend::Cpu(c)) => b.is_weight(obs, map, c),
            (AnyBackend::Cuda(d), AnyBackend::Cuda(e)) => d.is_weight(obs, map, e),
            _ => false,
        }
    }

    open spec fn is_resample(self, ess_ratio: Num, random_inject_ratio: Num, post: Self) -> bool {
        match (self, post) {
            (AnyBackend::Cpu(b), AnyBackend::Cpu(c)) => b.is_resample(
                ess_ratio,
                random_inject_ratio,
                c,
            ),
            (AnyBackend::Cuda(d), AnyBackend::Cuda(e)) => d.is_resample(
                ess_ratio,
                random_inject_ratio,
                e,
            ),
            _ => false,
        }
    }

    open spec fn is_estimate(self, e: Estimate) -> bool {
        match self {
            AnyBackend::Cpu(b) => b.is_estimate(e),
            AnyBackend::Cuda(d) => d.is_estimate(e),
        }
    }

    open spec fn is_snapshot(self, ps: Seq<Particle>) -> bool {
        match self {
            AnyBackend::Cpu(b) => b.is_snapshot(ps),
            AnyBackend::Cuda(d) => d.is_snapshot(ps),
        }
    }

    fn name(&self) -> (r: &'static str) {
        match self {
            AnyBackend::Cpu(b) => b.name(),
            AnyBackend::Cuda(d) => d.name(),
        }
    }

    fn init(&mut self, n: usize, cfg: PfConfig) {
        match self {
            AnyBackend::Cpu(b) => b.init(n, cfg),
            AnyBackend::Cuda(d) => d.init(n, cfg),
        }
    }

    fn reinit(&mut self, pose: &Pose, pos_std: &Vector3, rot_std: &Vector3) {
        match self {
            AnyBackend::Cpu(b) => b.reinit(pose, pos_std, rot_std),
            AnyBackend::Cuda(d) => d.reinit(pose, pos_std, rot_std),
        }
    }

    fn predict(&mut self, odom: &OdomDelta) {
        match self {
            AnyBackend::Cpu(b) => b.predict(odom),
            AnyBackend::Cuda(d) => d.predict(odom),
        }
    }

    fn weight(&mut self, obs: &[Observation], map: &LandmarkMap) {
        match self {
            AnyBackend::Cpu(b) => b.weight(obs, map),
            AnyBackend::Cuda(d) => d.weight(obs, map),
        }
    }

    fn resample(&mut self, ess_ratio: Num, random_inject_ratio: Num) {
        match self {
            AnyBackend::Cpu(b) => b.resample(ess_ratio, random_inject_ratio),
            AnyBackend::Cuda(d) => d.resample(ess_ratio, random_inject_ratio),
        }
    }

    fn estimate(&self) -> (e: Estimate) {
        match self {
            AnyBackend::Cpu(b) => b.estimate(),
            AnyBackend::Cuda(d) => d.estimate(),
        }
    }

    fn snapshot(&self) -> (ps: Vec<Particle>) {
        match self {
            AnyBackend::Cpu(b) => b.snapshot(),
            AnyBackend::Cuda(d) => d.snapshot(),
        }
    }
}

/// A CPU backend as it is created.
pub open spec fn is_new_cpu<K: Numerics, D: Kernels>(r: Result<AnyBackend<K, D>, String>) -> bool {
    r matches Ok(AnyBackend::Cpu(c)) && c.wf() && c@.cfg.is_default() && c@.seed == 42
        && c@.pos.len() == 0
}

/// `r` is the CUDA backend `b`.
pub open spec fn is_cuda<K: Numerics, D: Kernels>(
    r: Result<AnyBackend<K, D>, String>,
    b: CudaBackend<K, D>,
) -> bool {
    r matches Ok(AnyBackend::Cuda(c)) && c == b
}

/// `r` is the backend made for `kind`, by a build that has CUDA or has it not.
pub open spec fn is_made<K: Numerics, D: Kernels>(
    kind: BackendKind,
    with_cuda: bool,
    r: Result<AnyBackend<K, D>, String>,
) -> bool {
    match kind {
        BackendKind::Cpu => is_new_cpu(r),
        BackendKind::Cuda => if with_cuda {
            exists|made: Result<CudaBackend<K, D>, String>| #[trigger]
                is_new_cuda(made) && match made {
                    Ok(b) => is_cuda(r, b),
                    Err(e) => r == Err::<AnyBackend<K, D>, String>(e),
                }
        } else {
            r matches Err(e) && e@ == "built without the `cuda` feature"@
        },
        BackendKind::Auto => {
            ||| !with_cuda && is_new_cpu(r)
            ||| with_cuda && is_available::<D>(false) && is_new_cpu(r)
            ||| {
                &&& with_cuda && is_available::<D>(true)
                &&& exists|made: Result<CudaBackend<K, D>, String>| #[trigger]
                    is_new_cuda(made) && match made {
                        Ok(b) => is_cuda(r, b),
                        Err(e) => is_new_cpu(r),
                    }
            }
        },
    }
}

/// Create the backend requested by the config. `with_cuda` tells whether the
/// build has the CUDA kernels; without them `Auto` is the CPU.
pub fn make_backend<K: Numerics, D: Kernels>(kind: BackendKind, with_cuda: bool) -> (r: Result<
    AnyBackend<K, D>,
    String,
>)
    ensures
        is_made(kind, with_cuda, r),
        r matches Ok(b) ==> b.wf(),
{
    match kind {
        BackendKind::Cpu => Ok(AnyBackend::Cpu(CpuBackend::new())),
        BackendKind::Cuda => {
            if !with_cuda {
                return Err("built without the `cuda` feature".to_owned());
            }
            let made = CudaBackend::<K, D>::new();
            let ghost tried = made;
            assert(is_new_cuda(tried));
            match made {
                Ok(b) => Ok(AnyBackend::Cuda(b)),
                Err(e) => Err(e),
            }
        },
        BackendKind::Auto => {
            if with_cuda && device_available::<D>() {
                let made = CudaBackend::<K, D>::new();
                let ghost tried = made;
                assert(is_new_cuda(tried));
                if let Ok(b) = made {
                    return Ok(AnyBackend::Cuda(b));
                }
            }
            Ok(AnyBackend::Cpu(CpuBackend::new()))
        },
    }
}

/// High-level driver: owns config, map, backend; one-call update cycle.
pub struct ParticleFilter<B: Backend> {
    cfg: PfConfig,
    map: LandmarkMap,
    backend: B,
    last: Estimate,
}

/// What a filter holds.
pub struct FilterState<B: Backend> {
    pub cfg: PfConfig,
    pub map: Map<int, Vector3>,
    pub backend: B,
    pub last: Estimate,
}

impl<B: Backend> View for ParticleFilter<B> {
    type V = FilterState<B>;

    closed spec fn view(&self) -> FilterState<B> {
        FilterState {
            cfg: self.cfg,
            map: self.map@,
            backend: self.backend,
            last: self.last,
        }
    }
}

impl<B: Backend> FilterState<B> {
    /// The threshold that an effective sample size is held against.
    pub open spec fn is_threshold(self, t: Num) -> bool {
        exists|count: Num| #[trigger]
            is_from_u64::<B::Arithmetic>(self.cfg.particle_count as u64, count) && is_product::<
                B::Arithmetic,
            >(
                self.cfg.resample_ess_ratio,
                count,
                t,
            )
    }

    /// The ratio asks for resampling, and `ess` is below the threshold.
    pub open spec fn is_low(self, ess: Num, t: Num) -> bool {
        less(num(ZERO), self.cfg.resample_ess_ratio) && less(ess, t)
    }

    /// One cycle through the backends `moved` and `weighted`, whose estimate
    /// is `first`, leads to `post`.
    pub open spec fn is_cycle(
        self,
        odom: OdomDelta,
        obs: Seq<Observation>,
        moved: B,
        weighted: B,
        first: Estimate,
        t: Num,
        post: FilterState<B>,
    ) -> bool {
        &&& self.backend.is_predict(odom, moved)
        &&& moved.is_weight(obs, self.map, weighted)
        &&& weighted.is_estimate(first)
        &&& self.is_threshold(t)
        &&& post.cfg == self.cfg
        &&& post.map == self.map
        &&& if self.is_low(first.ess, t) {
            &&& weighted.is_resample(
                self.cfg.resample_ess_ratio,
                self.cfg.random_inject_ratio,
                post.backend,
            )
            &&& post.backend.is_estimate(post.last)
        } else {
            &&& post.backend == weighted
            &&& post.last == first
        }
    }

    /// One cycle leads to `post`.
    pub open spec fn is_updated(
        self,
        odom: OdomDelta,
        obs: Seq<Observation>,
        post: FilterState<B>,
    ) -> bool {
        exists|moved: B, weighted: B, first: Estimate, t: Num| #[trigger]
            self.is_cycle(odom, obs, moved, weighted, first, t, post)
    }
}

impl<K: Numerics, D: Kernels> ParticleFilter<AnyBackend<K, D>> {
    /// A filter on the backend that the configuration asks for.
    pub fn new(cfg: PfConfig, with_cuda: bool) -> (r: Result<Self, String>)
        ensures
            r matches Ok(pf) ==> pf.wf() && pf@.cfg == cfg && pf@.map == Map::<
                int,
                Vector3,
            >::empty() && is_blank_estimate(pf@.last),
            exists|made: Result<AnyBackend<K, D>, String>| #[trigger]
                is_made(cfg.backend, with_cuda, made) && match (made, r) {
                    (Ok(b), Ok(pf)) => b.is_init(cfg.particle_count, cfg, pf@.backend),
                    (Err(e), Err(f)) => e == f,
                    _ => false,
                },
    {
        let made = make_backend::<K, D>(cfg.backend, with_cuda);
        let ghost tried = made;
        assert(is_made(cfg.backend, with_cuda, tried));
        match made {
            Err(e) => Err(e),
            Ok(b) => {
                let mut backend = b;
                backend.init(cfg.particle_count, cfg);
                Ok(
                    ParticleFilter {
                        backend,
                        cfg,
                        map: LandmarkMap::new(),
                        last: Estimate::default(),
                    },
                )
            },
        }
    }
}

impl<B: Backend> ParticleFilter<B> {
    /// The map and the backend are in order.
    pub closed spec fn wf(&self) -> bool {
        self.map.wf() && self.backend.wf()
    }

    pub fn set_map(&mut self, map: LandmarkMap)
        requires
            old(self).wf(),
            map.wf(),
        ensures
            final(self).wf(),
            final(self)@ == (FilterState { map: map@, ..old(self)@ }),
    {
        self.map = map;
    }

    pub fn map(&self) -> (r: &LandmarkMap)
        requires
            self.wf(),
        ensures
            r.wf(),
            r@ == self@.map,
    {
        &self.map
    }

    pub fn config(&self) -> (r: &PfConfig)
        ensures
            *r == self@.cfg,
    {
        &self.cfg
    }

    pub fn backend_name(&self) -> (r: &'static str)
        ensures
            r@ == self@.backend.label(),
    {
        self.backend.name()
    }

    /// Re-seed the cloud around a pose (Gaussian prior).
    pub fn reinitialize(&mut self, pose: Pose, pos_std: Vector3, rot_std: Vector3)
        requires
            old(self).wf(),
        ensures
            final(self).wf(),
            final(self)@ == (FilterState {
                backend: final(self)@.backend,
                last: final(self)@.last,
                ..old(self)@
            }),
            old(self)@.backend.is_reinit(pose, pos_std, rot_std, final(self)@.backend),
            is_blank_estimate(final(self)@.last),
    {
        self.backend.reinit(&pose, &pos_std, &rot_std);
        self.last = Estimate::default();
    }

    /// One full cycle: predict -> weight -> (maybe) resample -> estimate.
    pub fn update(&mut self, odom: &OdomDelta, obs: &[Observation]) -> (e: Estimate)
        requires
            old(self).wf(),
        ensures
            final(self).wf(),
            old(self)@.is_updated(*odom, obs@, final(self)@),
            e == final(self)@.last,
    {
        self.backend.predict(odom);
        let ghost moved = self.backend;
        self.backend.weight(obs, &self.map);
        let ghost weighted = self.backend;
        let mut est = self.backend.estimate();
        let ghost first = est;
        let count = from_u64::<B::Arithmetic>(self.cfg.particle_count as u64);
        let threshold = product::<B::Arithmetic>(self.cfg.resample_ess_ratio, count);
        assert(old(self)@.is_threshold(threshold));
        if num(ZERO).less(self.cfg.resample_ess_ratio) && est.ess.less(threshold) {
            self.backend.resample(self.cfg.resample_ess_ratio, self.cfg.random_inject_ratio);
            est = self.backend.estimate();
        }
        self.last = est;
        assert(old(self)@.is_cycle(*odom, obs@, moved, weighted, first, threshold, self@));
        est
    }

    pub fn last_estimate(&self) -> (r: &Estimate)
        ensures
            *r == self@.last,
    {
        &self.last
    }

    pub fn backend(&self) -> (r: &B)
        requires
            self.wf(),
        ensures
            r.wf(),
            *r == self@.backend,
    {
        &self.backend
    }
}

/// With a ratio that is not positive, a cycle never resamples: what it leaves
/// is the weighted cloud, and the estimate of that.
pub proof fn law_no_ratio_no_resampling<B: Backend>(
    pre: FilterState<B>,
    odom: OdomDelta,
    obs: Seq<Observation>,
    post: FilterState<B>,
)
    requires
        pre.is_updated(odom, obs, post),
        !less(num(ZERO), pre.cfg.resample_ess_ratio),
    ensures
        exists|moved: B| #[trigger]
            pre.backend.is_predict(odom, moved) && moved.is_weight(obs, pre.map, post.backend),
        post.backend.is_estimate(post.last),
{
    let (moved, weighted, first, t) = choose|moved: B, weighted: B, first: Estimate, t: Num|
        #[trigger]
        pre.is_cycle(odom, obs, moved, weighted, first, t, post);
    assert(pre.backend.is_predict(odom, moved));
}

/// A cycle reports the estimate of the cloud that it leaves behind, and keeps
/// the configuration and the map.
pub proof fn law_update_reports_its_cloud<B: Backend>(
    pre: FilterState<B>,
    odom: OdomDelta,
    obs: Seq<Observation>,
    post: FilterState<B>,
)
    requires
        pre.is_updated(odom, obs, post),
    ensures
        post.backend.is_estimate(post.last),
        post.cfg == pre.cfg,
        post.map == pre.map,
{
    let (moved, weighted, first, t) = choose|moved: B, weighted: B, first: Estimate, t: Num|
        #[trigger]
        pre.is_cycle(odom, obs, moved, weighted, first, t, post);
}

} // verus!
