//! Parallel CPU backend.
use core::marker::PhantomData;

use vstd::prelude::*;

use crate::config::PfConfig;
use crate::landmark_map::LandmarkMap;
use crate::likelihood::{
    any_known, is_log_likelihood, is_model, known, law_known, law_unknown_are_ignored,
    log_likelihood, model, ObsModel,
};
use crate::moments::{estimate_of, is_estimate};
use crate::motion::{is_moved, is_spread, moved, spread};
use crate::num::{less, num, Num, ZERO};
use crate::numerics::Numerics;
use crate::par::par_map;
use crate::particle_filter::{law_no_ratio_no_resampling, Backend, FilterState};
use crate::resampling::{are_old, is_resampled, law_resampled_are_old, resampled};
use crate::rng::{
    entropy, law_next_generation, next_generation, next_generation_of, stream_seed, stream_seed_of,
};
use crate::types::{Estimate, Observation, OdomDelta, Particle, Pose, UnitQuaternion, Vector3};
use crate::weights::{are_normalized, are_uniform, normalized, uniform};

verus! {

/// What a CPU backend holds: a weighted cloud, the seed of its current
/// generation, and the configuration.
#[verifier::ext_equal]
pub struct Cloud {
    pub cfg: PfConfig,
    pub seed: u64,
    pub pos: Seq<Vector3>,
    pub att: Seq<UnitQuaternion>,
    pub weight: Seq<Num>,
}

impl Cloud {
    /// A fresh cloud of `n` particles at the origin, of equal weight. A seed
    /// of 0 stands for any seed.
    pub open spec fn is_fresh<K: Numerics>(self, n: usize, cfg: PfConfig) -> bool {
        &&& self.cfg == cfg
        &&& cfg.seed != 0 ==> self.seed == cfg.seed
        &&& self.pos == Seq::new(n as nat, |i: int| Vector3::zeros())
        &&& self.att == Seq::new(n as nat, |i: int| UnitQuaternion::identity())
        &&& self.weight.len() == n
        &&& are_uniform::<K>(self.weight)
    }

    /// `post` is as large, with the same configuration, one generation on.
    pub open spec fn is_next(self, post: Cloud) -> bool {
        &&& post.cfg == self.cfg
        &&& post.seed == next_generation(self.seed)
        &&& post.pos.len() == self.pos.len()
        &&& post.att.len() == self.att.len()
        &&& post.weight.len() == self.weight.len()
    }

    /// `post` is the cloud spread anew around `pose`, each particle by its own
    /// stream, with equal weights.
    pub open spec fn is_reseeded<K: Numerics>(
        self,
        pose: Pose,
        pos_std: Vector3,
        rot_std: Vector3,
        post: Cloud,
    ) -> bool {
        &&& self.is_next(post)
        &&& forall|i: int|
            0 <= i < post.pos.len() ==> is_spread::<K>(
                stream_seed(post.seed, i as u64),
                pose,
                pos_std,
                rot_std,
                #[trigger] post.pos[i],
                post.att[i],
            )
        &&& are_uniform::<K>(post.weight)
    }

    /// `post` is the cloud after an odometry step, each particle by its own
    /// stream; the weights stay.
    pub open spec fn is_advanced<K: Numerics>(self, odom: OdomDelta, post: Cloud) -> bool {
        &&& self.is_next(post)
        &&& forall|i: int|
            0 <= i < post.pos.len() ==> is_moved::<K>(
                stream_seed(post.seed, i as u64),
                odom,
                self.pos[i],
                self.att[i],
                #[trigger] post.pos[i],
                post.att[i],
            )
        &&& post.weight == self.weight
    }

    /// `lls` is each particle's log-likelihood.
    pub open spec fn are_log_likelihoods<K: Numerics>(
        self,
        m: ObsModel,
        obs: Seq<Observation>,
        map: Map<int, Vector3>,
        lls: Seq<Num>,
    ) -> bool {
        &&& lls.len() == self.pos.len()
        &&& forall|i: int|
            0 <= i < lls.len() ==> is_log_likelihood::<K>(
                m,
                obs,
                map,
                self.pos[i],
                self.att[i],
                obs.len(),
                #[trigger] lls[i],
            )
    }

    /// `post` is the cloud weighted by the observations that have a landmark
    /// in the map; with equal weights where none has.
    pub open spec fn is_weighted<K: Numerics>(
        self,
        obs: Seq<Observation>,
        map: Map<int, Vector3>,
        post: Cloud,
    ) -> bool {
        &&& post == (Cloud { weight: post.weight, ..self })
        &&& post.weight.len() == self.weight.len()
        &&& if any_known(obs, map) {
            exists|m: ObsModel, lls: Seq<Num>|
                {
                    &&& is_model::<K>(self.cfg, m)
                    &&& #[trigger] self.are_log_likelihoods::<K>(m, obs, map, lls)
                    &&& are_normalized::<K>(lls, post.weight)
                }
        } else {
            are_uniform::<K>(post.weight)
        }
    }

    /// `post` is the cloud drawn anew by its weights, which are equal then; or
    /// the cloud itself, where they have no total to draw by.
    pub open spec fn is_redistributed<K: Numerics>(self, ratio: Num, post: Cloud) -> bool {
        ||| post == self && is_resampled::<K>(
            self.seed,
            self.pos,
            self.att,
            self.weight,
            ratio,
            None,
        )
        ||| {
            &&& post == (Cloud { pos: post.pos, att: post.att, weight: post.weight, ..self })
            &&& post.weight.len() == self.weight.len()
            &&& are_uniform::<K>(post.weight)
            &&& is_resampled::<K>(
                self.seed,
                self.pos,
                self.att,
                self.weight,
                ratio,
                Some((post.pos, post.att)),
            )
        }
    }

    /// `ps` is the cloud, particle by particle.
    pub open spec fn is_copied(self, ps: Seq<Particle>) -> bool {
        &&& ps.len() == self.pos.len()
        &&& forall|i: int|
            0 <= i < ps.len() ==> #[trigger] ps[i] == (Particle {
                pose: Pose { position: self.pos[i], attitude: self.att[i] },
                weight: self.weight[i],
            })
    }
}

fn has_known(obs: &[Observation], map: &LandmarkMap) -> (r: bool)
    ensures
        r == any_known(obs@, map@),
{
    for i in 0..obs.len()
        invariant
            forall|k: int|
                0 <= k < i ==> !map@.contains_key((#[trigger] obs@[k]).landmark_id as int),
    {
        if map.has(obs[i].landmark_id) {
            assert(map@.contains_key(obs@[i as int].landmark_id as int));
            return true;
        }
    }
    false
}

/// CPU particle set with SoA layout for cache-friendly parallel passes.
pub struct CpuBackend<K: Numerics> {
    n: usize,
    cfg: PfConfig,
    pos: Vec<Vector3>,
    att: Vec<UnitQuaternion>,
    weight: Vec<Num>,
    global_seed: u64,
    numerics: PhantomData<K>,
}

impl<K: Numerics> View for CpuBackend<K> {
    type V = Cloud;

    closed spec fn view(&self) -> Cloud {
        Cloud {
            cfg: self.cfg,
            seed: self.global_seed,
            pos: self.pos@,
            att: self.att@,
            weight: self.weight@,
        }
    }
}

impl<K: Numerics> CpuBackend<K> {
    /// An empty cloud.
    pub fn new() -> (r: Self)
        ensures
            r.wf(),
            r@.cfg.is_default(),
            r@.seed == 42,
            r@.pos.len() == 0,
    {
        CpuBackend {
            n: 0,
            cfg: PfConfig::default(),
            pos: Vec::new(),
            att: Vec::new(),
            weight: Vec::new(),
            global_seed: 42,
            numerics: PhantomData,
        }
    }
}

/// A valid backend holds one position, one attitude and one weight for each
/// particle.
pub proof fn law_wf_is_even<K: Numerics>(be: CpuBackend<K>)
    requires
        be.wf(),
    ensures
        be@.pos.len() == be@.att.len(),
        be@.pos.len() == be@.weight.len(),
{
}

impl<K: Numerics> Backend for CpuBackend<K> {
    type Arithmetic = K;

    closed spec fn wf(&self) -> bool {
        &&& self.pos@.len() == self.n
        &&& self.att@.len() == self.n
        &&& self.weight@.len() == self.n
    }

    open spec fn label(&self) -> Seq<char> {
        "cpu"@
    }

    open spec fn is_init(self, n: usize, cfg: PfConfig, post: Self) -> bool {
        post@.is_fresh::<K>(n, cfg)
    }

    open spec fn is_reinit(
        self,
        pose: Pose,
        pos_std: Vector3,
        rot_std: Vector3,
        post: Self,
    ) -> bool {
        self@.is_reseeded::<K>(pose, pos_std, rot_std, post@)
    }

    open spec fn is_predict(self, odom: OdomDelta, post: Self) -> bool {
        self@.is_advanced::<K>(odom, post@)
    }

    open spec fn is_weight(
        self,
        obs: Seq<Observation>,
        map: Map<int, Vector3>,
        post: Self,
    ) -> bool {
        self@.is_weighted::<K>(obs, map, post@)
    }

    open spec fn is_resample(self, ess_ratio: Num, random_inject_ratio: Num, post: Self) -> bool {
        self@.is_redistributed::<K>(random_inject_ratio, post@)
    }

    open spec fn is_estimate(self, e: Estimate) -> bool {
        is_estimate::<K>(self@.pos, self@.att, self@.weight, e)
    }

    open spec fn is_snapshot(self, ps: Seq<Particle>) -> bool {
        self@.is_copied(ps)
    }

    fn name(&self) -> (r: &'static str) {
        "cpu"
    }

    fn init(&mut self, n: usize, cfg: PfConfig) {
        let mut pos: Vec<Vector3> = Vec::new();
        let mut att: Vec<UnitQuaternion> = Vec::new();
        for i in 0..n
            invariant
                pos@ == Seq::new(i as nat, |k: int| Vector3::zeros()),
                att@ == Seq::new(i as nat, |k: int| UnitQuaternion::identity()),
        {
            pos.push(Vector3::zeros());
            att.push(UnitQuaternion::identity());
        }
        self.n = n;
        self.cfg = cfg;
        self.pos = pos;
        self.att = att;
        self.weight = uniform::<K>(n);
        self.global_seed = if cfg.seed == 0 {
            entropy()
        } else {
            cfg.seed
        };
    }

    fn reinit(&mut self, pose: &Pose, pos_std: &Vector3, rot_std: &Vector3) {
        let seed: u64 = next_generation_of(self.global_seed);
        let n = self.n;
        let f = |i: usize| -> (r: (Vector3, UnitQuaternion))
            ensures
                is_spread::<K>(stream_seed(seed, i as u64), *pose, *pos_std, *rot_std, r.0, r.1),
            {
                let stream: u64 = stream_seed_of(seed, i as u64);
                spread::<K>(stream, pose, pos_std, rot_std)
            };
        let pairs = par_map(n, f);
        let (pos, att) = unzipped(&pairs);
        self.global_seed = seed;
        self.pos = pos;
        self.att = att;
        self.weight = uniform::<K>(n);
    }

    fn predict(&mut self, odom: &OdomDelta) {
        let seed: u64 = next_generation_of(self.global_seed);
        let n = self.n;
        let old_pos = &self.pos;
        let old_att = &self.att;
        let f = |i: usize| -> (r: (Vector3, UnitQuaternion))
            requires
                i < old_pos@.len(),
                old_pos@.len() == old_att@.len(),
            ensures
                is_moved::<K>(
                    stream_seed(seed, i as u64),
                    *odom,
                    old_pos@[i as int],
                    old_att@[i as int],
                    r.0,
                    r.1,
                ),
            {
                let stream: u64 = stream_seed_of(seed, i as u64);
                moved::<K>(stream, odom, old_pos[i], old_att[i])
            };
        let pairs = par_map(n, f);
        let (pos, att) = unzipped(&pairs);
        self.global_seed = seed;
        self.pos = pos;
        self.att = att;
    }

    fn weight(&mut self, obs: &[Observation], map: &LandmarkMap) {
        let n = self.n;
        if !has_known(obs, map) {
            self.weight = uniform::<K>(n);
            return;
        }
        let m = model::<K>(&self.cfg);
        let pos = &self.pos;
        let att = &self.att;
        let f = |i: usize| -> (ll: Num)
            requires
                i < pos@.len(),
                pos@.len() == att@.len(),
            ensures
                is_log_likelihood::<K>(
                    m,
                    obs@,
                    map@,
                    pos@[i as int],
                    att@[i as int],
                    obs@.len(),
                    ll,
                ),
            { log_likelihood::<K>(m, obs, map, pos[i], att[i]) };
        let lls = par_map(n, f);
        assert(old(self)@.are_log_likelihoods::<K>(m, obs@, map@, lls@));
        self.weight = normalized::<K>(&lls);
    }

    fn resample(&mut self, _ess_ratio: Num, random_inject_ratio: Num) {
        let out = resampled::<K>(
            self.global_seed,
            &self.pos,
            &self.att,
            &self.weight,
            random_inject_ratio,
        );
        match out {
            Some((pos, att)) => {
                self.pos = pos;
                self.att = att;
                self.weight = uniform::<K>(self.n);
            },
            None => {},
        }
    }

    fn estimate(&self) -> (e: Estimate) {
        estimate_of::<K>(&self.pos, &self.att, &self.weight)
    }

    fn snapshot(&self) -> (ps: Vec<Particle>) {
        let mut ps: Vec<Particle> = Vec::new();
        for i in 0..self.n
            invariant
                self.wf(),
                ps@.len() == i,
                forall|k: int|
                    0 <= k < i ==> #[trigger] ps@[k] == (Particle {
                        pose: Pose { position: self@.pos[k], attitude: self@.att[k] },
                        weight: self@.weight[k],
                    }),
        {
            ps.push(
                Particle {
                    pose: Pose { position: self.pos[i], attitude: self.att[i] },
                    weight: self.weight[i],
                },
            );
        }
        ps
    }
}

fn unzipped(pairs: &Vec<(Vector3, UnitQuaternion)>) -> (r: (Vec<Vector3>, Vec<UnitQuaternion>))
    ensures
        r.0@.len() == pairs@.len(),
        r.1@.len() == pairs@.len(),
        forall|i: int|
            0 <= i < pairs@.len() ==> (#[trigger] r.0@[i], r.1@[i]) == pairs@[i],
{
    let mut firsts: Vec<Vector3> = Vec::new();
    let mut seconds: Vec<UnitQuaternion> = Vec::new();
    for i in 0..pairs.len()
        invariant
            firsts@.len() == i,
            seconds@.len() == i,
            forall|k: int| 0 <= k < i ==> (#[trigger] firsts@[k], seconds@[k]) == pairs@[k],
    {
        let (a, b) = pairs[i];
        firsts.push(a);
        seconds.push(b);
    }
    (firsts, seconds)
}

/// Where no observation is of a landmark in the map, above all where there is
/// no observation, weighting resets the weights to uniform and nothing else.
pub proof fn law_nothing_known_resets<K: Numerics>(
    pre: Cloud,
    obs: Seq<Observation>,
    map: Map<int, Vector3>,
    post: Cloud,
)
    requires
        pre.is_weighted::<K>(obs, map, post),
        forall|i: int|
            0 <= i < obs.len() ==> !map.contains_key((#[trigger] obs[i]).landmark_id as int),
    ensures
        are_uniform::<K>(post.weight),
        post == (Cloud { weight: post.weight, ..pre }),
{
}

/// Observations without a landmark in the map do nothing: weighting by all of
/// them is weighting by the known ones.
pub proof fn law_weighting_ignores_unknown<K: Numerics>(
    pre: Cloud,
    obs: Seq<Observation>,
    map: Map<int, Vector3>,
    post: Cloud,
)
    ensures
        pre.is_weighted::<K>(obs, map, post) <==> pre.is_weighted::<K>(
            known(obs, map),
            map,
            post,
        ),
{
    let some = known(obs, map);
    law_known(obs, map);
    if some.len() > 0 {
        assert(map.contains_key(some[0].landmark_id as int));
    }
    assert forall|m: ObsModel, lls: Seq<Num>| #[trigger]
        pre.are_log_likelihoods::<K>(m, obs, map, lls) <==> pre.are_log_likelihoods::<K>(
            m,
            some,
            map,
            lls,
        ) by {
        assert forall|i: int| 0 <= i < lls.len() implies (is_log_likelihood::<K>(
            m,
            obs,
            map,
            pre.pos[i],
            pre.att[i],
            obs.len(),
            #[trigger] lls[i],
        ) <==> is_log_likelihood::<K>(
            m,
            some,
            map,
            pre.pos[i],
            pre.att[i],
            some.len(),
            lls[i],
        )) by {
            law_unknown_are_ignored::<K>(m, obs, map, pre.pos[i], pre.att[i], lls[i]);
        }
    }
    if pre.is_weighted::<K>(obs, map, post) && some.len() > 0 {
        let (m, lls) = choose|m: ObsModel, lls: Seq<Num>|
            {
                &&& is_model::<K>(pre.cfg, m)
                &&& #[trigger] pre.are_log_likelihoods::<K>(m, obs, map, lls)
                &&& are_normalized::<K>(lls, post.weight)
            };
        assert(pre.are_log_likelihoods::<K>(m, some, map, lls));
    }
    if pre.is_weighted::<K>(some, map, post) && some.len() > 0 {
        let (m, lls) = choose|m: ObsModel, lls: Seq<Num>|
            {
                &&& is_model::<K>(pre.cfg, m)
                &&& #[trigger] pre.are_log_likelihoods::<K>(m, some, map, lls)
                &&& are_normalized::<K>(lls, post.weight)
            };
        assert(pre.are_log_likelihoods::<K>(m, obs, map, lls));
    }
}

/// Resampling keeps the number of particles, the configuration and the seed;
/// it changes nothing at all, or leaves equal weights on particles that have
/// an old attitude each and, without re-injection, an old pose.
pub proof fn law_resampling_keeps_the_cloud<K: Numerics>(pre: Cloud, ratio: Num, post: Cloud)
    requires
        pre.pos.len() == pre.weight.len(),
        pre.att.len() == pre.weight.len(),
        pre.is_redistributed::<K>(ratio, post),
    ensures
        post.cfg == pre.cfg,
        post.seed == pre.seed,
        post.pos.len() == pre.pos.len(),
        post.att.len() == pre.att.len(),
        post.weight.len() == pre.weight.len(),
        post == pre || {
            &&& are_uniform::<K>(post.weight)
            &&& exists|picks: Seq<int>| #[trigger]
                are_old(pre.pos, pre.att, post.pos, post.att, picks, less(num(ZERO), ratio))
        },
{
    if post != pre {
        law_resampled_are_old::<K>(
            pre.seed,
            pre.pos,
            pre.att,
            pre.weight,
            ratio,
            post.pos,
            post.att,
        );
    }
}

/// A seed other than 0 fixes every stream: two clouds made by one
/// configuration start alike, and draw from the same streams after each
/// reseeding or odometry step that both take.
pub proof fn law_seed_fixes_streams<K: Numerics>(
    n: usize,
    cfg: PfConfig,
    a: Cloud,
    b: Cloud,
    a_next: Cloud,
    b_next: Cloud,
    i: u64,
)
    requires
        cfg.seed != 0,
        a.is_fresh::<K>(n, cfg),
        b.is_fresh::<K>(n, cfg),
        a.is_next(a_next),
        b.is_next(b_next),
    ensures
        a.seed == b.seed,
        a.pos == b.pos,
        a.att == b.att,
        stream_seed(a_next.seed, i) == stream_seed(b_next.seed, i),
        stream_seed(a_next.seed, i) != stream_seed(a.seed, i),
{
    law_next_generation(a.seed, i);
}

/// A filter that never resamples and knows none of the landmarks that it is
/// shown coasts: what a cycle leaves is the cloud after the odometry step,
/// with equal weights, and the estimate of that.
pub proof fn law_coasting<K: Numerics>(
    pre: FilterState<CpuBackend<K>>,
    odom: OdomDelta,
    obs: Seq<Observation>,
    post: FilterState<CpuBackend<K>>,
)
    requires
        pre.is_updated(odom, obs, post),
        !less(num(ZERO), pre.cfg.resample_ess_ratio),
        !any_known(obs, pre.map),
    ensures
        exists|moved: Cloud| #[trigger]
            pre.backend@.is_advanced::<K>(odom, moved) && post.backend@ == (Cloud {
                weight: post.backend@.weight,
                ..moved
            }),
        are_uniform::<K>(post.backend@.weight),
        is_estimate::<K>(
            post.backend@.pos,
            post.backend@.att,
            post.backend@.weight,
            post.last,
        ),
{
    law_no_ratio_no_resampling(pre, odom, obs, post);
    let moved = choose|moved: CpuBackend<K>| #[trigger]
        pre.backend.is_predict(odom, moved) && moved.is_weight(obs, pre.map, post.backend);
    assert(pre.backend@.is_advanced::<K>(odom, moved@));
    assert(post.backend.is_estimate(post.last));
}

} // verus!
