//! The filter and the localizer over binary64 arithmetic.
use nalgebra::{SymmetricEigen, Unit};
use pf_core::config::{BackendKind, PfConfig};
use pf_core::cpu::CpuBackend;
use pf_core::cuda::{device_available, CudaBackend, DevicePose, DeviceStd, Kernels};
use pf_core::device::{
    device_estimate, device_mean, device_snapshot, plan_weight, DeviceObs, OBS_CAP,
};
use pf_core::global_loc::{
    keep_top, CpuGlobalLoc, CudaGlobalLoc, DeviceGrid, GlKernels, GlParams, OccGrid, PoseHypothesis,
};
use pf_core::landmark_map::LandmarkMap;
use pf_core::moments::estimate_of;
use pf_core::motion::{moved, spread};
use pf_core::num::{num, Num};
use pf_core::numerics::Numerics;
use pf_core::particle_filter::{make_backend, AnyBackend, Backend, ParticleFilter};
use pf_core::resampling::resampled;
use pf_core::rng::{index_draw, next_generation_of, seeded, stream_seed_of};
use pf_core::sim::{
    circle_scenario, landmark_box, room_grid, track, Gauss, BOX_FAR, BOX_HIGH, BOX_SIDE, BOX_TOP,
};
use pf_core::types::{
    Estimate, Matrix4, ObsMode, Observation, OdomDelta, Pose, Quaternion, UnitQuaternion, Vector2,
    Vector3,
};
use rand::distributions::Distribution;
use rand::rngs::SmallRng;
use rand::{Rng, SeedableRng};
use rand_distr::StandardNormal;

fn n(x: f64) -> Num {
    Num { bits: x.to_bits() }
}

fn f(x: Num) -> f64 {
    f64::from_bits(x.bits)
}

fn v(x: f64, y: f64, z: f64) -> Vector3 {
    Vector3 { x: n(x), y: n(y), z: n(z) }
}

fn to_na(a: Vector3) -> nalgebra::Vector3<f64> {
    nalgebra::Vector3::new(f(a.x), f(a.y), f(a.z))
}

fn from_na(a: nalgebra::Vector3<f64>) -> Vector3 {
    v(a.x, a.y, a.z)
}

fn quat(w: f64, i: f64, j: f64, k: f64) -> UnitQuaternion {
    UnitQuaternion { q: Quaternion { w: n(w), i: n(i), j: n(j), k: n(k) } }
}

fn to_quat(q: UnitQuaternion) -> nalgebra::UnitQuaternion<f64> {
    let q = nalgebra::Quaternion::new(f(q.q.w), f(q.q.i), f(q.q.j), f(q.q.k));
    nalgebra::UnitQuaternion::new_unchecked(q)
}

fn from_quat(q: nalgebra::UnitQuaternion<f64>) -> UnitQuaternion {
    quat(q.w, q.i, q.j, q.k)
}

fn to_mat(m: Matrix4) -> nalgebra::Matrix4<f64> {
    nalgebra::Matrix4::from_fn(|r, c| f(m.rows[r][c]))
}

fn from_mat(m: nalgebra::Matrix4<f64>) -> Matrix4 {
    let mut rows = [[n(0.0); 4]; 4];
    for r in 0..4 {
        for c in 0..4 {
            rows[r][c] = n(m[(r, c)]);
        }
    }
    Matrix4 { rows }
}

/// Binary64 arithmetic.
struct Ieee;

impl Numerics for Ieee {
    fn plus(a: Num, b: Num) -> Num {
        n(f(a) + f(b))
    }

    fn minus(a: Num, b: Num) -> Num {
        n(f(a) - f(b))
    }

    fn times(a: Num, b: Num) -> Num {
        n(f(a) * f(b))
    }

    fn over(a: Num, b: Num) -> Num {
        n(f(a) / f(b))
    }

    fn exp(a: Num) -> Num {
        n(f(a).exp())
    }

    fn acos(a: Num) -> Num {
        n(f(a).acos())
    }

    fn sin_cos(a: Num) -> (Num, Num) {
        let (s, c) = f(a).sin_cos();
        (n(s), n(c))
    }

    fn atan2(y: Num, x: Num) -> Num {
        n(f(y).atan2(f(x)))
    }

    fn from_u64(k: u64) -> Num {
        n(k as f64)
    }

    fn to_index(a: Num) -> usize {
        f(a) as usize
    }

    fn to_id(a: Num) -> i32 {
        f(a) as i32
    }

    fn to_single(a: Num) -> u32 {
        (f(a) as f32).to_bits()
    }

    fn from_single(bits: u32) -> Num {
        n(f32::from_bits(bits) as f64)
    }

    fn parse(text: &str) -> Result<Num, String> {
        text.parse::<f64>().map(n).map_err(|e| e.to_string())
    }

    fn v_plus(a: Vector3, b: Vector3) -> Vector3 {
        from_na(to_na(a) + to_na(b))
    }

    fn v_minus(a: Vector3, b: Vector3) -> Vector3 {
        from_na(to_na(a) - to_na(b))
    }

    fn v_times(a: Vector3, s: Num) -> Vector3 {
        from_na(to_na(a) * f(s))
    }

    fn v_over(a: Vector3, s: Num) -> Vector3 {
        from_na(to_na(a) / f(s))
    }

    fn v_dot(a: Vector3, b: Vector3) -> Num {
        n(to_na(a).dot(&to_na(b)))
    }

    fn v_norm(a: Vector3) -> Num {
        n(to_na(a).norm())
    }

    fn v_norm_squared(a: Vector3) -> Num {
        n(to_na(a).norm_squared())
    }

    fn v_unit(a: Vector3) -> Vector3 {
        from_na(to_na(a).normalize())
    }

    fn q_rotate(q: UnitQuaternion, a: Vector3) -> Vector3 {
        from_na(to_quat(q).transform_vector(&to_na(a)))
    }

    fn q_unrotate(q: UnitQuaternion, a: Vector3) -> Vector3 {
        from_na(to_quat(q).inverse_transform_vector(&to_na(a)))
    }

    fn q_times(p: UnitQuaternion, q: UnitQuaternion) -> UnitQuaternion {
        from_quat(to_quat(p) * to_quat(q))
    }

    fn q_inverse(q: UnitQuaternion) -> UnitQuaternion {
        from_quat(to_quat(q).inverse())
    }

    fn q_about(axis: Vector3, angle: Num) -> UnitQuaternion {
        let axis = Unit::new_normalize(to_na(axis));
        from_quat(nalgebra::UnitQuaternion::from_axis_angle(&axis, f(angle)))
    }

    fn q_unit(q: Quaternion) -> UnitQuaternion {
        let q = nalgebra::Quaternion::new(f(q.w), f(q.i), f(q.j), f(q.k));
        from_quat(nalgebra::UnitQuaternion::from_quaternion(q))
    }

    fn eigen(m: Matrix4) -> ([Num; 4], Matrix4) {
        let e = SymmetricEigen::new(to_mat(m));
        let values = [
            n(e.eigenvalues[0]),
            n(e.eigenvalues[1]),
            n(e.eigenvalues[2]),
            n(e.eigenvalues[3]),
        ];
        (values, from_mat(e.eigenvectors))
    }

    fn draw_normal(mut rng: SmallRng) -> (Num, SmallRng) {
        let x: f64 = StandardNormal.sample(&mut rng);
        (n(x), rng)
    }

    fn draw_uniform(mut rng: SmallRng) -> (Num, SmallRng) {
        let x: f64 = rng.gen();
        (n(x), rng)
    }

    fn draw_between(mut rng: SmallRng, lo: Num, hi: Num) -> (Num, SmallRng) {
        let x: f64 = rng.gen_range(f(lo)..f(hi));
        (n(x), rng)
    }
}

type Cpu = CpuBackend<Ieee>;
type Cuda = CudaBackend<Ieee, SimDevice>;
type Any = AnyBackend<Ieee, SimDevice>;
type Filter = ParticleFilter<Any>;

/// A filter in a build without CUDA.
fn filter(cfg: PfConfig) -> Filter {
    ParticleFilter::new(cfg, false).unwrap()
}

fn close(a: Num, b: f64, epsilon: f64) -> bool {
    (f(a) - b).abs() <= epsilon
}

fn cartesian(id: i32, x: f64, y: f64, z: f64) -> Observation {
    Observation { landmark_id: id, mode: ObsMode::Cartesian, vector: v(x, y, z), range: n(0.0) }
}

/// A device that computes on the host, in double precision behind a
/// single-precision surface.
struct SimDevice {
    cloud: Cpu,
    map: LandmarkMap,
    uploads: usize,
}

fn s(bits: u32) -> f64 {
    f32::from_bits(bits) as f64
}

fn bits(x: f32) -> u32 {
    x.to_bits()
}

fn sim_pose(p: DevicePose) -> Pose {
    Pose {
        position: v(s(p.x), s(p.y), s(p.z)),
        attitude: quat(s(p.qw), s(p.qx), s(p.qy), s(p.qz)),
    }
}

fn sim_std(p: DeviceStd) -> Vector3 {
    v(s(p.x), s(p.y), s(p.z))
}

impl Kernels for SimDevice {
    fn available() -> bool {
        true
    }

    fn create(cap_obs: usize) -> Option<Self> {
        assert_eq!(cap_obs, 256);
        Some(SimDevice {
            cloud: CpuBackend::new(),
            map: LandmarkMap::new(),
            uploads: 0,
        })
    }

    fn init(mut self, count: usize, seed: u32) -> Self {
        let cfg = PfConfig { seed: seed as u64, ..Default::default() };
        self.cloud.init(count, cfg);
        self
    }

    fn upload_landmarks(mut self, table: &Vec<u32>, count: usize) -> Self {
        let mut map = LandmarkMap::new();
        for id in 0..count {
            let at = &table[3 * id..3 * id + 3];
            map.add(id as i32, v(s(at[0]), s(at[1]), s(at[2])));
        }
        self.map = map;
        self.uploads += 1;
        self
    }

    fn reinit(mut self, pose: DevicePose, pos_std: DeviceStd, rot_std: DeviceStd) -> Self {
        self.cloud.reinit(&sim_pose(pose), &sim_std(pos_std), &sim_std(rot_std));
        self
    }

    fn predict(mut self, motion: DevicePose, trans_std: DeviceStd, rot_std: DeviceStd) -> Self {
        let motion = sim_pose(motion);
        self.cloud.predict(&OdomDelta {
            translation: motion.position,
            rotation: motion.attitude,
            trans_noise: sim_std(trans_std),
            rot_noise: sim_std(rot_std),
        });
        self
    }

    fn weight(mut self, obs: &Vec<DeviceObs>, sigma_r: u32, sigma_b: u32, cutoff: u32) -> Self {
        assert_eq!((sigma_r, sigma_b, cutoff), (bits(0.05), bits(0.02), bits(0.0)));
        let seen: Vec<Observation> = obs
            .iter()
            .map(|o| Observation {
                landmark_id: o.id,
                mode: if o.mode == 0 { ObsMode::Cartesian } else { ObsMode::RangeBearing },
                vector: v(s(o.dx), s(o.dy), s(o.dz)),
                range: n(s(o.range)),
            })
            .collect();
        // whatever is weighed by has been uploaded before
        assert!(seen.iter().all(|o| self.map.has(o.landmark_id)));
        self.cloud.weight(&seen, &self.map);
        self
    }

    fn resample(mut self, random_inject_ratio: u32) -> Self {
        self.cloud.resample(n(0.0), n(s(random_inject_ratio)));
        self
    }

    fn est_sums(&self) -> [u32; 14] {
        let mut sums = [0.0f64; 14];
        for p in self.cloud.snapshot() {
            let w = f(p.weight);
            let q = p.pose.attitude.q;
            let q = [f(q.w), f(q.i), f(q.j), f(q.k)];
            sums[0] += w * f(p.pose.position.x);
            sums[1] += w * f(p.pose.position.y);
            sums[2] += w * f(p.pose.position.z);
            let mut at = 3;
            for r in 0..4 {
                for c in r..4 {
                    sums[at] += w * q[r] * q[c];
                    at += 1;
                }
            }
            sums[13] += w * w;
        }
        sums.map(|x| bits(x as f32))
    }

    fn covs(&self, mean: DevicePose) -> [u32; 12] {
        let mean = sim_pose(mean);
        let mut covs = [0.0f64; 12];
        for p in self.cloud.snapshot() {
            let w = f(p.weight);
            let dp = to_na(p.pose.position) - to_na(mean.position);
            let dq = to_quat(mean.attitude).inverse() * to_quat(p.pose.attitude);
            let axis = nalgebra::Vector3::new(dq.i, dq.j, dq.k) * dq.w.signum();
            let angle = 2.0 * axis.norm().atan2(dq.w.abs());
            let da = if axis.norm() > 1e-9 { axis.normalize() * angle } else { axis * 0.0 };
            let mut at = 0;
            for d in [dp, da] {
                for r in 0..3 {
                    for c in r..3 {
                        covs[at] += w * d[r] * d[c];
                        at += 1;
                    }
                }
            }
        }
        covs.map(|x| bits(x as f32))
    }

    fn snapshot(&self, count: usize) -> (Vec<u32>, Vec<u32>) {
        let ps = self.cloud.snapshot();
        assert_eq!(ps.len(), count);
        let mut pos = Vec::new();
        let mut parts = Vec::new();
        for p in ps {
            let (a, q) = (p.pose.position, p.pose.attitude.q);
            pos.extend([a.x, a.y, a.z].map(|x| bits(f(x) as f32)));
            parts.extend([q.w, q.i, q.j, q.k].map(|x| bits(f(x) as f32)));
        }
        (pos, parts)
    }
}

// ---------------------------------------------------------------- landmarks

#[test]
fn add_has_at() {
    let mut m = LandmarkMap::new();
    assert!(!m.has(3));
    m.add(3, v(1.0, 2.0, 3.0));
    assert!(m.has(3));
    assert_eq!(f(m.at(3).x), 1.0);
    assert_eq!(m.len_defined(), 1);
}

#[test]
fn parse_map_text() {
    let mut m = LandmarkMap::new();
    let count =
        m.load_from_str::<Ieee>("# comment\n0: [1, 2, 3]\n5: [4.0, 5.0, 6.0]\n").unwrap();
    assert_eq!(count, 2);
    assert!(m.has(0) && m.has(5));
    assert_eq!(f(m.at(5).z), 6.0);
}

#[test]
fn parse_rejects_garbage() {
    let mut m = LandmarkMap::new();
    assert!(m.load_from_str::<Ieee>("0 [1, 2]\n").is_err());
}

// ------------------------------------------------------------------ raycast

/// 10x10 m room at 0.05 m/cell = 200x200 cells, walls on the border
/// plus one interior pillar.
fn test_grid() -> OccGrid {
    let (w, h) = (200usize, 200usize);
    let mut cells = vec![0u8; w * h];
    for x in 0..w {
        cells[x] = 1; // bottom wall (y=0)
        cells[(h - 1) * w + x] = 1; // top wall
    }
    for y in 0..h {
        cells[y * w] = 1;
        cells[y * w + w - 1] = 1;
    }
    // pillar centered at world (4,5): x in [3.75,4.30], y in [4.75,5.30]
    let xr = ((4.0 - 0.25) / 0.05) as usize..=((4.0 + 0.25) / 0.05) as usize;
    let yr = ((5.0 - 0.25) / 0.05) as usize..=((5.0 + 0.25) / 0.05) as usize;
    for y in yr {
        for x in xr.clone() {
            cells[y * w + x] = 1;
        }
    }
    OccGrid { w, h, res: n(0.05), origin: Vector2 { x: n(0.0), y: n(0.0) }, cells }
}

#[test]
fn raycast_hits_walls_at_expected_distance() {
    let g = test_grid();
    let d = f(g.cast_ray::<Ieee>(n(5.0), n(5.0), n(1.0), n(0.0), n(20.0)));
    assert!((d - 4.95).abs() < 0.15, "expected ~4.95 m to east wall, got {d}");
    let d2 = f(g.cast_ray::<Ieee>(n(5.0), n(5.0), n(0.0), n(1.0), n(20.0)));
    assert!((d2 - 4.95).abs() < 0.15);
}

#[test]
fn raycast_hits_interior_pillar() {
    let g = test_grid();
    let d = f(g.cast_ray::<Ieee>(n(2.5), n(5.0), n(1.0), n(0.0), n(20.0)));
    assert!((d - 1.25).abs() < 0.12, "expected ~1.25 m to pillar, got {d}");
}

#[test]
fn raycast_respects_rmax() {
    let g = test_grid();
    let d = f(g.cast_ray::<Ieee>(n(5.0), n(5.0), n(1.0), n(0.0), n(2.0)));
    assert_eq!(d, 2.0, "no hit within rmax should return rmax");
}

#[test]
fn cpu_gl_recovers_pose_in_synthetic_room() {
    let g = test_grid();
    let truth = (6.0, 7.0, 0.8f64);
    let scan = g.map_scan::<Ieee>(
        n(truth.0),
        n(truth.1),
        n(truth.2),
        360,
        n(std::f64::consts::TAU),
        n(10.0),
    );
    let cpu = CpuGlobalLoc::new(
        g,
        GlParams {
            hypotheses: 20_000,
            rays: 360,
            rmax: n(10.0),
            ang_span: n(std::f64::consts::TAU),
            topk: 10,
            seed: 7,
        },
    );
    let top = cpu.localize::<Ieee>(&scan).unwrap();
    assert!(!top.is_empty());
    let best = &top[0];
    let (x, y, theta) = (f(best.x), f(best.y), f(best.theta));
    let dpos = ((x - truth.0).powi(2) + (y - truth.1).powi(2)).sqrt();
    assert!(
        dpos < 0.35,
        "CPU GL did not recover pose: best=({x:.2},{y:.2},{theta:.2}) err={dpos:.3} m"
    );
}

// ------------------------------------------------------------------- filter

#[test]
fn converges_on_3d_trajectory() {
    let mut cfg = PfConfig {
        particle_count: 4096,
        seed: 123,
        range_noise: n(0.05),
        ..Default::default()
    };
    cfg.backend = BackendKind::Cpu;

    let sc = circle_scenario::<Ieee>(100, 777);
    let mut pf = filter(cfg);
    pf.set_map(sc.map);
    pf.reinitialize(sc.prior, v(1.0, 1.0, 1.0), v(0.5, 0.5, 0.5));

    let mut err_sum = 0.0;
    for step in &sc.steps {
        assert!(!step.obs.is_empty());
        let est = pf.update(&step.odom, &step.obs);
        err_sum += (to_na(est.mean.position) - to_na(step.truth.position)).norm();
    }
    let mean_err = err_sum / sc.steps.len() as f64;
    assert!(mean_err < 0.25, "3D tracking failed: mean_err={mean_err}");
}

#[test]
fn coasts_without_observations() {
    let cfg = PfConfig { particle_count: 1024, seed: 5, ..Default::default() };
    let mut pf = filter(cfg);
    let p0 = Pose { position: v(1.0, 2.0, 3.0), attitude: UnitQuaternion::identity() };
    pf.reinitialize(p0, v(0.1, 0.1, 0.1), v(0.01, 0.01, 0.01));

    let odo = OdomDelta {
        translation: v(1.0, 0.0, 0.0),
        trans_noise: v(0.01, 0.01, 0.01),
        rot_noise: v(0.005, 0.005, 0.005),
        ..Default::default()
    };
    let mut e = Estimate::default();
    for _ in 0..20 {
        e = pf.update(&odo, &[]);
    }
    assert!(close(e.mean.position.x, 21.0, 0.5));
    assert!(close(e.mean.position.y, 2.0, 0.2));
    assert!(close(e.mean.position.z, 3.0, 0.2));
    assert!(e.valid);
}

#[test]
fn ess_drops_on_informative_observation() {
    let cfg = PfConfig {
        particle_count: 2048,
        seed: 77,
        resample_ess_ratio: n(0.0), // never resample: inspect weights
        ..Default::default()
    };
    let mut map = LandmarkMap::new();
    map.add(0, v(5.0, 5.0, 1.0));
    let mut pf = filter(cfg);
    pf.set_map(map);
    let p0 = Pose { position: v(5.0, 5.0, 1.0), attitude: UnitQuaternion::identity() };
    pf.reinitialize(p0, v(3.0, 3.0, 3.0), v(0.1, 0.1, 0.1));

    let obs = vec![cartesian(0, 0.0, 0.0, 0.0)]; // exactly at the landmark
    let e = pf.update(&OdomDelta::default(), &obs);
    let ess = f(e.ess);
    assert!(ess < 1024.0, "ESS should collapse on informative obs, got {ess}");
    assert!(close(e.mean.position.x, 5.0, 0.5));
}

#[test]
fn quaternion_mean_handles_sign_flip() {
    let mut be = Cpu::new();
    be.init(2, PfConfig::default());
    let p0 = Pose { position: Vector3::zeros(), attitude: UnitQuaternion::identity() };
    be.reinit(&p0, &v(1e-9, 1e-9, 1e-9), &Vector3::zeros());
    let e = be.estimate();
    assert!((f(e.mean.attitude.q.w).abs() - 1.0).abs() <= 1e-6);
}

// -------------------------------------------------- landmarks, edge by edge

#[test]
fn map_errors_name_the_line() {
    let text = "# head\n\n0: [1, 2, 3] # tail\n1 2 3\n";
    let mut m = LandmarkMap::new();
    assert_eq!(
        m.load_from_str::<Ieee>(text),
        Err("line 4: expected 'id: [x, y, z]'".to_string())
    );
    // what stood before the bad line has been taken in
    assert!(m.has(0));
    assert_eq!(m.len_defined(), 1);
    assert_eq!(
        m.load_from_str::<Ieee>("1 2 x 4"),
        Err("line 1: invalid float literal".to_string())
    );
    assert_eq!(
        m.load_from_str::<Ieee>("q 2 3 4"),
        Err("line 1: invalid float literal".to_string())
    );
    assert_eq!(
        m.load_from_str::<Ieee>("-1: [2, 3, 4]"),
        Err("line 1: landmark ids must be non-negative".to_string())
    );
    assert_eq!(m.load_from_str::<Ieee>(""), Ok(0));
}

#[test]
fn map_text_takes_loose_forms() {
    let mut m = LandmarkMap::new();
    let text = "7 1 2 3\r\n  2:[4,5,6]\n7: [9, 8, 7]";
    assert_eq!(m.load_from_str::<Ieee>(text), Ok(3));
    assert_eq!(m.len_defined(), 2);
    assert_eq!(m.at(7), v(9.0, 8.0, 7.0));
    assert_eq!(m.at(2), v(4.0, 5.0, 6.0));
    assert_eq!(m.capacity(), 8);
    assert!(!m.is_empty());
    assert_eq!(m.iter(), vec![(2, v(4.0, 5.0, 6.0)), (7, v(9.0, 8.0, 7.0))]);
    assert!(!m.has(-1) && !m.has(3) && !m.has(8));
}

#[test]
fn texts_loaded_in_turn_are_the_joined_text() {
    let (a, b) = ("# one\n3: [1, 2, 3]\n0 4 5 6\n", "3: [7, 8, 9]\n\n1: [0, 0, 1]");
    let mut turns = LandmarkMap::new();
    assert_eq!(turns.load_from_str::<Ieee>(a), Ok(2));
    assert_eq!(turns.load_from_str::<Ieee>(b), Ok(2));
    for text in [format!("{a}{b}"), format!("{a}\n{b}"), format!("{}\n{b}", a.trim())] {
        let mut joined = LandmarkMap::new();
        assert_eq!(joined.load_from_str::<Ieee>(&text), Ok(4));
        assert_eq!(joined.iter(), turns.iter());
        assert_eq!(joined.at(3), v(7.0, 8.0, 9.0));
    }
}

#[test]
fn only_the_words_of_a_text_count() {
    let load = |text: &str| {
        let mut m = LandmarkMap::new();
        let r = m.load_from_str::<Ieee>(text);
        (r, m.iter())
    };
    let plain = load("7: [1, 2, 3]\n2: [4, 5, 6]\n");
    assert_eq!(plain.0, Ok(2));
    assert_eq!(load("7 1 2 3\n2 4 5 6"), plain);
    assert_eq!(load("# a map\n\n7: [1, 2, 3] # seven\r\n \t\n2 4 5 6\r"), plain);
    assert_eq!(load("  7:[1,2,3]\n#8: [0, 0, 0]\n[2] 4,5 : 6#"), plain);
    // only a line that says something has to say it in four words
    assert_eq!(load("7 1 2 3\n[]").0, Err("line 2: expected 'id: [x, y, z]'".to_string()));
}

#[test]
fn an_added_landmark_is_found_and_others_stay() {
    let mut m = LandmarkMap::new();
    assert!(m.is_empty());
    assert_eq!(m.capacity(), 0);
    m.add(4, v(1.0, 0.0, 0.0));
    m.add(1, v(2.0, 0.0, 0.0));
    m.add(4, v(3.0, 0.0, 0.0));
    assert_eq!(m.at(4), v(3.0, 0.0, 0.0));
    assert_eq!(m.at(1), v(2.0, 0.0, 0.0));
    assert_eq!(m.len_defined(), 2);
    assert_eq!(m.capacity(), 5);
}

// ---------------------------------------------------------- grids and scans

/// A 3x2 picture: the top row 0, 255, 128, the bottom row 255, 255, 0.
fn picture() -> Vec<u8> {
    let mut b = b"P5 # a comment\n3 2\n255\n".to_vec();
    b.extend_from_slice(&[0, 255, 128, 255, 255, 0]);
    b
}

#[test]
fn map_server_pairs_load_bottom_row_first() {
    let yaml = "image: a.pgm\nresolution: 0.05 # m\norigin: [-1.5, 2, 0.0]\noccupied_thresh: 0.4\n";
    let g = OccGrid::from_pgm_yaml::<Ieee>(&picture(), yaml).unwrap();
    assert_eq!((g.w, g.h), (3, 2));
    assert_eq!(f(g.res), 0.05);
    assert_eq!(g.origin, Vector2 { x: n(-1.5), y: n(2.0) });
    // 128 gives (255 - 128) / 255 = 0.498 > 0.4
    assert_eq!(g.cells, vec![0, 0, 1, 1, 0, 1]);
    assert!(g.occupied(2, 0) && g.occupied(0, 1) && !g.occupied(1, 1));

    // without a threshold it is 0.65
    let yaml = "resolution: 0.1\nresolution: 0.2\norigin: [x, 7]\n";
    let g = OccGrid::from_pgm_yaml::<Ieee>(&picture(), yaml).unwrap();
    assert_eq!(f(g.res), 0.2);
    assert_eq!(g.origin, Vector2 { x: n(7.0), y: n(0.0) });
    assert_eq!(g.cells, vec![0, 0, 1, 1, 0, 0]);
}

#[test]
fn map_server_errors() {
    let yaml = "resolution: 0.05\norigin: [0, 0, 0]\n";
    let load = |b: &[u8], y: &str| OccGrid::from_pgm_yaml::<Ieee>(b, y).unwrap_err();
    assert_eq!(load(&picture(), "origin: [0, 0]"), "yaml: no resolution");
    assert_eq!(load(&picture(), "resolution: wide\norigin: [0, 0]"), "yaml: no resolution");
    assert_eq!(load(&picture(), "resolution: 0.05"), "yaml: no origin");
    assert_eq!(load(&picture(), "resolution: 0.05\norigin: 0, 0"), "yaml: no origin");
    assert_eq!(load(b"P2 1 1 255 \x00", yaml), "pgm: expected P5, got P2");
    assert_eq!(load(b"\xFFP 1 1 255 \x00", yaml), "pgm: expected P5, got \u{FFFD}P");
    assert_eq!(load(b"P5 3", yaml), "pgm: truncated");
    assert_eq!(load(b"P5 x 2 255 ", yaml), "pgm: bad width");
    assert_eq!(load(b"P5 2 -1 255 ", yaml), "pgm: bad height");
    assert_eq!(load(b"P5 2 2 many ", yaml), "pgm: bad maxval");
    assert_eq!(load(b"P5 2 2 255 \x01\x02\x03", yaml), "pgm: need 4 px, have 3");
}

fn empty_grid() -> OccGrid {
    OccGrid {
        w: 4,
        h: 3,
        res: n(0.5),
        origin: Vector2 { x: n(-1.0), y: n(0.0) },
        cells: vec![0; 12],
    }
}

#[test]
fn an_empty_grid_shows_the_range() {
    let g = empty_grid();
    let scan = g.map_scan::<Ieee>(n(0.2), n(0.7), n(0.3), 7, n(6.0), n(3.25));
    assert_eq!(scan, vec![n(3.25); 7]);
    // a ray that starts outside the grid sees its range too
    assert_eq!(g.cast_ray::<Ieee>(n(-1.1), n(0.7), n(1.0), n(0.0), n(3.0)), n(3.0));
    assert_eq!(g.cast_ray::<Ieee>(n(0.2), n(1.6), n(1.0), n(0.0), n(3.0)), n(3.0));
}

#[test]
fn rays_end_at_the_border_of_a_cell() {
    let mut g = empty_grid();
    g.cells[1 * 4 + 3] = 1; // the cell over [0.5, 1.0] x [0.5, 1.0]
    let d = g.cast_ray::<Ieee>(n(-0.75), n(0.75), n(1.0), n(0.0), n(9.0));
    assert_eq!(f(d), 1.25);
    // leftwards nothing stands in the way
    let d = g.cast_ray::<Ieee>(n(-0.75), n(0.75), n(-1.0), n(0.0), n(9.0));
    assert_eq!(f(d), 9.0);
    // a hit beyond the range counts as none
    let d = g.cast_ray::<Ieee>(n(-0.75), n(0.75), n(1.0), n(0.0), n(1.0));
    assert_eq!(f(d), 1.0);
    // the start cell is not looked at
    let d = g.cast_ray::<Ieee>(n(0.75), n(0.75), n(1.0), n(0.0), n(9.0));
    assert_eq!(f(d), 9.0);
}

#[test]
fn no_beam_is_longer_than_the_range() {
    let g = room_grid();
    let scan = g.map_scan::<Ieee>(n(6.0), n(7.0), n(0.8), 90, n(std::f64::consts::TAU), n(3.0));
    assert_eq!(scan.len(), 90);
    assert!(scan.iter().all(|d| f(*d) <= 3.0 && f(*d) > 0.0));
    assert!(scan.iter().any(|d| f(*d) < 3.0));
    // a scan of one ray looks straight ahead
    let one = g.map_scan::<Ieee>(n(5.0), n(5.0), n(0.0), 1, n(1.0), n(20.0));
    assert_eq!(one, vec![g.cast_ray::<Ieee>(n(5.0), n(5.0), n(1.0), n(0.0), n(20.0))]);
}

#[test]
fn a_shorter_range_only_clips() {
    let g = room_grid();
    for k in 0..64 {
        let (sin, cos) = (k as f64 * 0.1).sin_cos();
        let cast = |r: f64| f(g.cast_ray::<Ieee>(n(2.0), n(4.9), n(cos), n(sin), n(r)));
        let whole = cast(20.0);
        for r in [0.0, 0.3, 1.7, 1.75, 6.0, 19.0] {
            assert_eq!(cast(r), whole.min(r), "ray {k}, range {r}");
        }
    }
}

#[test]
fn obstacles_never_lengthen_a_ray() {
    let g = room_grid();
    let mut more = room_grid();
    for k in 0..40 {
        more.cells[(30 + 3 * k) * 200 + (20 + 4 * k)] = 1;
    }
    let scan = |g: &OccGrid| {
        g.map_scan::<Ieee>(n(6.0), n(7.0), n(0.8), 180, n(std::f64::consts::TAU), n(10.0))
    };
    let (long, short) = (scan(&g), scan(&more));
    assert!(long.iter().zip(&short).all(|(a, b)| f(*b) <= f(*a)));
    assert!(long.iter().zip(&short).any(|(a, b)| f(*b) < f(*a)));
}

#[test]
fn a_pose_sees_its_own_scan() {
    let g = room_grid();
    let scan = g.map_scan::<Ieee>(n(6.0), n(7.0), n(0.8), 90, n(6.0), n(10.0));
    let score = |x: f64| f(g.caer_of::<Ieee>(&scan, n(x), n(7.0), n(0.8), n(6.0), n(10.0)));
    assert_eq!(score(6.0), 0.0);
    assert!(score(6.2) > 0.0);
}

#[test]
fn rows_flipped_twice_stand_as_before() {
    let mut g = empty_grid();
    g.cells = (0..12).collect();
    g.flip_rows();
    assert_eq!(g.cells, vec![8, 9, 10, 11, 4, 5, 6, 7, 0, 1, 2, 3]);
    g.flip_rows();
    assert_eq!(g.cells, (0..12).collect::<Vec<u8>>());
}

#[test]
fn caer_adds_up_absolute_gaps() {
    let g = empty_grid();
    let at = |scan: &[Num]| {
        g.caer_of::<Ieee>(scan, n(0.0), n(0.75), n(0.0), n(6.0), n(2.0))
    };
    assert_eq!(f(at(&[n(2.0), n(2.0), n(2.0)])), 0.0);
    assert_eq!(f(at(&[n(1.5), n(2.25), n(4.0)])), 2.75);
    assert_eq!(f(at(&[])), 0.0);
}

fn hypothesis(x: f64, caer: f64) -> PoseHypothesis {
    PoseHypothesis { x: n(x), y: n(0.0), theta: n(0.0), caer: n(caer) }
}

#[test]
fn the_lowest_errors_are_kept_in_order() {
    let scored = vec![
        hypothesis(0.0, 3.0),
        hypothesis(1.0, 1.0),
        hypothesis(2.0, 2.0),
        hypothesis(3.0, 1.0),
    ];
    let top = keep_top(&scored, 3).unwrap();
    let order: Vec<f64> = top.iter().map(|h| f(h.x)).collect();
    assert_eq!(order, vec![1.0, 3.0, 2.0]);
    assert_eq!(keep_top(&scored, 9).unwrap().len(), 4);
    assert!(keep_top(&scored, 0).unwrap().is_empty());
    // a NaN leaves no order, unless it is alone
    let mut bad = scored.clone();
    bad.push(hypothesis(4.0, f64::NAN));
    assert!(keep_top(&bad, 3).is_none());
    assert_eq!(keep_top(&vec![hypothesis(4.0, f64::NAN)], 3).unwrap().len(), 1);
}

#[test]
fn localization_returns_sorted_free_poses() {
    let params = GlParams { hypotheses: 300, topk: 20, seed: 3, ..Default::default() };
    assert_eq!((params.rays, f(params.rmax)), (360, 10.0));
    let g = room_grid();
    let scan = g.map_scan::<Ieee>(n(2.0), n(3.0), n(0.1), 24, params.ang_span, params.rmax);
    let loc = CpuGlobalLoc::new(g, params);
    let top = loc.localize::<Ieee>(&scan).unwrap();
    assert_eq!(top.len(), 20);
    for k in 0..top.len() {
        let h = top[k];
        let (cx, cy) = ((f(h.x) / 0.05) as usize, (f(h.y) / 0.05) as usize);
        assert!(!loc.grid.occupied(cx, cy));
        assert!(f(h.theta).abs() <= std::f64::consts::PI);
        let caer = loc.grid.caer_of::<Ieee>(
            &scan,
            h.x,
            h.y,
            h.theta,
            loc.params.ang_span,
            loc.params.rmax,
        );
        assert_eq!(f(h.caer), f(caer));
        assert!(k == 0 || f(top[k - 1].caer) <= f(h.caer));
    }
    assert_eq!(loc.localize::<Ieee>(&scan).unwrap(), top);
    assert!(loc.localize::<Ieee>(&[n(f64::NAN)]).is_none());
}

#[test]
fn fewer_are_the_first_and_more_are_no_worse() {
    let g = room_grid();
    let scan = g.map_scan::<Ieee>(n(2.0), n(3.0), n(0.1), 24, n(6.0), n(10.0));
    let run = |hypotheses: usize, topk: usize| {
        let params =
            GlParams { hypotheses, topk, seed: 3, ang_span: n(6.0), ..Default::default() };
        CpuGlobalLoc::new(room_grid(), params).localize::<Ieee>(&scan).unwrap()
    };
    let top = run(200, 20);
    assert_eq!(run(200, 7), top[..7].to_vec());
    assert_eq!(run(200, 400)[..20].to_vec(), top);
    let mut best = f64::INFINITY;
    for count in [1, 10, 50, 200, 400] {
        let next = f(run(count, 3)[0].caer);
        assert!(next <= best);
        best = next;
    }
    assert!(best < f(run(1, 1)[0].caer));
}

// ----------------------------------------------------------------- fixtures

/// The same sequence, written out.
fn xorshift(s: &mut u64) -> u64 {
    *s ^= *s << 13;
    *s ^= *s >> 7;
    *s ^= *s << 17;
    *s
}

#[test]
fn pseudo_normals_follow_the_sequence() {
    let mut g = Gauss::new(777);
    let mut s = 777;
    for _ in 0..5 {
        let a = (xorshift(&mut s) % 10000) as f64 / 10000.0;
        let b = (xorshift(&mut s) % 10000) as f64 / 10000.0;
        assert_eq!(f(g.normal::<Ieee>()), (a + b - 1.0) * 1.732);
    }
}

#[test]
fn the_landmark_box_is_dense_and_frozen() {
    let map = landmark_box::<Ieee>(12, 99);
    assert_eq!(map.len_defined(), 12);
    assert_eq!(map.capacity(), 12);
    let mut s = 99;
    let mut next = || (xorshift(&mut s) % 8000) as f64 / 1000.0 + 1.0;
    for (id, p) in map.iter() {
        let want = v(next(), next(), next() * 0.3);
        assert_eq!(p, want, "landmark {id}");
    }
    assert!(landmark_box::<Ieee>(0, 1).is_empty());
    let first = to_na(landmark_box::<Ieee>(1, 1).at(0));
    assert!((first - nalgebra::Vector3::new(6.761, 6.505, 1.6371)).norm() < 1e-9);
    // a smaller box is the start of a larger one
    assert_eq!(landmark_box::<Ieee>(5, 99).iter(), map.iter()[..5].to_vec());
}

#[test]
fn landmarks_lie_in_their_box() {
    for (_, p) in landmark_box::<Ieee>(5000, 7).iter() {
        assert!((1.0..9.0).contains(&f(p.x)) && (1.0..9.0).contains(&f(p.y)));
        assert!((0.3..2.7).contains(&f(p.z)));
    }
    // the ends of the draws
    assert_eq!(f(num(BOX_TOP)), 7999.0);
    assert_eq!(f(num(BOX_SIDE)), 7999.0 / 1000.0);
    assert_eq!(f(num(BOX_FAR)), 7999.0 / 1000.0 + 1.0);
    assert_eq!(f(num(BOX_HIGH)), (7999.0 / 1000.0 + 1.0) * 0.3);
}

#[test]
fn the_truth_ignores_the_seed() {
    let (a, b) = (circle_scenario::<Ieee>(40, 5), circle_scenario::<Ieee>(40, 6));
    assert_eq!(a.map.iter(), b.map.iter());
    let mut seen = 0;
    for (s, t) in a.steps.iter().zip(&b.steps) {
        assert_eq!(s.truth, t.truth);
        assert_ne!(s.odom.translation, t.odom.translation);
        assert_eq!(s.odom.rotation, t.odom.rotation);
        let ids = |obs: &[Observation]| obs.iter().map(|o| o.landmark_id).collect::<Vec<i32>>();
        assert_eq!(ids(&s.obs), ids(&t.obs));
        seen += s.obs.len();
    }
    assert!(seen > 0);
}

#[test]
fn a_longer_circle_starts_with_a_shorter_one() {
    let long = circle_scenario::<Ieee>(8, 5);
    let short = circle_scenario::<Ieee>(3, 5);
    assert_eq!(long.steps.len(), 8);
    assert_eq!(long.prior.position, v(5.0, 5.0, 0.5));
    for (a, b) in long.steps.iter().zip(&short.steps) {
        assert_eq!(a.odom.translation, b.odom.translation);
        assert_eq!(a.truth, b.truth);
        assert_eq!(a.obs.len(), b.obs.len());
    }
    // the first step goes along +y, for 0.1 s at 0.4 m/s, and climbs
    assert_eq!(long.steps[0].truth.position, v(5.0 + -0.0, 5.0 + 0.4 * 0.1, 0.5 + 0.02 * 0.1));
    // nothing farther than 5 m is seen
    for step in &long.steps {
        for o in &step.obs {
            assert!(to_na(o.vector).norm() < 5.5);
            assert_eq!(o.mode, ObsMode::Cartesian);
        }
    }
}

#[test]
fn the_room_has_walls_and_a_pillar() {
    let g = room_grid();
    assert_eq!((g.w, g.h, f(g.res)), (200, 200, 0.05));
    let occupied = g.cells.iter().filter(|c| **c == 1).count();
    assert_eq!(occupied, 4 * 199 + 11 * 11);
    for k in 0..200 {
        assert!(g.occupied(k, 0) && g.occupied(k, 199) && g.occupied(0, k) && g.occupied(199, k));
    }
    assert!(g.occupied(75, 95) && g.occupied(85, 105));
    assert!(!g.occupied(74, 95) && !g.occupied(86, 105) && !g.occupied(80, 94));
    assert_eq!(g.cells, test_grid().cells);
}

#[test]
fn tracking_sums_the_errors_of_each_cycle() {
    let cfg = PfConfig { particle_count: 256, seed: 9, ..Default::default() };
    let sc = circle_scenario::<Ieee>(10, 777);
    let run = || {
        let mut pf = filter(cfg);
        pf.set_map(landmark_box::<Ieee>(12, 99));
        pf.reinitialize(sc.prior, v(1.0, 1.0, 1.0), v(0.5, 0.5, 0.5));
        pf
    };
    let mut a = run();
    let total = track(&mut a, &sc.steps);
    let mut b = run();
    let mut want = 0.0;
    for step in &sc.steps {
        let e = b.update(&step.odom, &step.obs);
        want += (to_na(e.mean.position) - to_na(step.truth.position)).norm();
    }
    assert_eq!(f(total), want);
}

// -------------------------------------------------------------- CPU backend

/// `x` as it is stored in a weight.
fn single(x: f64) -> f64 {
    x as f32 as f64
}

fn normals(seed: u64) -> [f64; 6] {
    let mut rng = SmallRng::seed_from_u64(seed);
    let mut out = [0.0; 6];
    for x in out.iter_mut() {
        *x = StandardNormal.sample(&mut rng);
    }
    out
}

fn small_turn(axis: nalgebra::Vector3<f64>) -> nalgebra::UnitQuaternion<f64> {
    if axis.norm() > 1e-12 {
        nalgebra::UnitQuaternion::from_axis_angle(&Unit::new_normalize(axis), axis.norm())
    } else {
        nalgebra::UnitQuaternion::identity()
    }
}

#[test]
fn a_fresh_cloud_is_at_the_origin() {
    let mut be = Cpu::new();
    assert!(be.snapshot().is_empty());
    assert_eq!(be.name(), "cpu");
    be.init(3, PfConfig::default());
    let ps = be.snapshot();
    assert_eq!(ps.len(), 3);
    for p in ps {
        assert_eq!(p.pose, Pose::default());
        assert_eq!(f(p.weight), single(1.0 / 3.0));
    }
}

#[test]
fn the_prior_is_spread_by_each_particles_stream() {
    let cfg = PfConfig { seed: 123, ..Default::default() };
    let mut be = Cpu::new();
    be.init(4, cfg);
    let pose = Pose { position: v(1.0, -2.0, 3.0), attitude: quat(0.6, 0.0, 0.8, 0.0) };
    be.reinit(&pose, &v(0.5, 1.0, 2.0), &v(0.1, 0.2, 0.3));
    let generation = next_generation_of(123);
    assert_eq!(generation, 123u64.wrapping_add(0x9E37_7979_7979_7979));
    for (i, p) in be.snapshot().iter().enumerate() {
        let z = normals(stream_seed_of(generation, i as u64));
        let position = nalgebra::Vector3::new(1.0, -2.0, 3.0)
            + nalgebra::Vector3::new(0.5 * z[0], 1.0 * z[1], 2.0 * z[2]);
        let axis = nalgebra::Vector3::new(0.1 * z[3], 0.2 * z[4], 0.3 * z[5]);
        assert_eq!(p.pose.position, from_na(position));
        assert_eq!(p.pose.attitude, from_quat(to_quat(pose.attitude) * small_turn(axis)));
        assert_eq!(f(p.weight), single(0.25));
    }
    // no spread in attitude leaves the attitude as it is
    let (_, a) = spread::<Ieee>(5, &pose, &v(1.0, 1.0, 1.0), &Vector3::zeros());
    assert_eq!(a, from_quat(to_quat(pose.attitude) * small_turn(nalgebra::Vector3::zeros())));
}

#[test]
fn odometry_moves_in_the_body_frame() {
    let cfg = PfConfig { seed: 7, ..Default::default() };
    let mut be = Cpu::new();
    be.init(3, cfg);
    be.reinit(&Pose::default(), &v(1.0, 1.0, 1.0), &v(0.5, 0.5, 0.5));
    let before = be.snapshot();
    let odom = OdomDelta {
        translation: v(0.3, 0.1, -0.2),
        rotation: quat(0.8, 0.0, 0.0, 0.6),
        trans_noise: v(0.01, 0.02, 0.03),
        rot_noise: v(0.04, 0.05, 0.06),
    };
    be.predict(&odom);
    let generation = next_generation_of(next_generation_of(7));
    for (i, (p, q)) in before.iter().zip(be.snapshot()).enumerate() {
        let z = normals(stream_seed_of(generation, i as u64));
        let att = to_quat(p.pose.attitude);
        let body = nalgebra::Vector3::new(0.3, 0.1, -0.2)
            + nalgebra::Vector3::new(0.01 * z[0], 0.02 * z[1], 0.03 * z[2]);
        let axis = nalgebra::Vector3::new(0.04 * z[3], 0.05 * z[4], 0.06 * z[5]);
        let position = to_na(p.pose.position) + att.transform_vector(&body);
        assert_eq!(q.pose.position, from_na(position));
        assert_eq!(q.pose.attitude, from_quat(att * to_quat(odom.rotation) * small_turn(axis)));
        assert_eq!(q.weight, p.weight);
        let again = moved::<Ieee>(
            stream_seed_of(generation, i as u64),
            &odom,
            p.pose.position,
            p.pose.attitude,
        );
        assert_eq!(again, (q.pose.position, q.pose.attitude));
    }
}

#[test]
fn a_seed_fixes_the_run_and_zero_does_not() {
    let sc = circle_scenario::<Ieee>(3, 5);
    let run = |seed: u64| {
        let mut be = Cpu::new();
        be.init(8, PfConfig { seed, ..Default::default() });
        be.reinit(&Pose::default(), &v(1.0, 1.0, 1.0), &v(0.1, 0.1, 0.1));
        for step in &sc.steps {
            be.predict(&step.odom);
            be.weight(&step.obs, &sc.map);
            be.resample(n(0.5), n(0.25));
            be.predict(&step.odom);
        }
        be.snapshot()
    };
    assert_eq!(run(11), run(11));
    assert_ne!(run(11), run(12));
    assert_ne!(run(0), run(0));
    // all particles differ
    let ps = run(11);
    for a in 0..8 {
        for b in 0..a {
            assert_ne!(ps[a].pose.position, ps[b].pose.position);
        }
    }
}

/// Two particles, spread a little, and a landmark at (1, 2, 3).
fn two(cfg: PfConfig) -> (Cpu, LandmarkMap) {
    let mut be = Cpu::new();
    be.init(2, cfg);
    be.reinit(&Pose::default(), &v(0.1, 0.1, 0.1), &v(0.05, 0.05, 0.05));
    let mut map = LandmarkMap::new();
    map.add(4, v(1.0, 2.0, 3.0));
    (be, map)
}

fn softmax(lls: &[f64]) -> Vec<f64> {
    let top = lls.iter().cloned().fold(f64::NEG_INFINITY, f64::max);
    let sum: f64 = lls.iter().map(|l| (l - top).exp()).sum();
    lls.iter().map(|l| single((l - top).exp() / sum)).collect()
}

fn weights(be: &Cpu) -> Vec<f64> {
    be.snapshot().iter().map(|p| f(p.weight)).collect()
}

#[test]
fn cartesian_likelihoods() {
    let cfg = PfConfig { seed: 3, range_noise: n(0.2), ..Default::default() };
    let (mut be, map) = two(cfg);
    let obs = [cartesian(4, 1.1, 1.9, 3.05), cartesian(9, 0.0, 0.0, 0.0)];
    be.weight(&obs, &map);
    let lls: Vec<f64> = be
        .snapshot()
        .iter()
        .map(|p| {
            let d = to_na(v(1.0, 2.0, 3.0)) - to_na(p.pose.position);
            let pred = to_quat(p.pose.attitude).inverse_transform_vector(&d);
            let r2 = (pred - to_na(v(1.1, 1.9, 3.05))).norm_squared();
            -r2 * (1.0 / (2.0 * 0.2 * 0.2))
        })
        .collect();
    assert_eq!(weights(&be), softmax(&lls));
    assert_ne!(weights(&be)[0], weights(&be)[1]);
}

#[test]
fn range_bearing_likelihoods() {
    let cfg = PfConfig {
        seed: 3,
        range_noise: n(0.3),
        bearing_noise: n(0.4),
        ..Default::default()
    };
    let (mut be, map) = two(cfg);
    let dir = to_na(v(1.0, 2.0, 3.1)).normalize();
    let obs = [Observation {
        landmark_id: 4,
        mode: ObsMode::RangeBearing,
        vector: from_na(dir),
        range: n(3.7),
    }];
    be.weight(&obs, &map);
    let lls: Vec<f64> = be
        .snapshot()
        .iter()
        .map(|p| {
            let d = to_na(v(1.0, 2.0, 3.0)) - to_na(p.pose.position);
            let pred = to_quat(p.pose.attitude).inverse_transform_vector(&d);
            let rn = pred.norm().max(1e-9);
            let er = rn - 3.7;
            let eb = (pred / rn).dot(&dir).clamp(-1.0, 1.0).acos();
            -er * er * (1.0 / (2.0 * 0.3 * 0.3)) + -eb * eb * (1.0 / (2.0 * 0.4 * 0.4))
        })
        .collect();
    assert_eq!(weights(&be), softmax(&lls));
}

#[test]
fn a_perfect_fit_weighs_most() {
    let cfg = PfConfig { seed: 3, ..Default::default() };
    let (mut be, map) = two(cfg);
    for i in 0..2 {
        let p = be.snapshot()[i];
        let seen = p.pose.inverse_transform::<Ieee>(&map.at(4));
        let obs = Observation {
            landmark_id: 4,
            mode: ObsMode::RangeBearing,
            vector: from_na(to_na(seen).normalize()),
            range: n(to_na(seen).norm()),
        };
        be.weight(&[obs], &map);
        assert!(weights(&be)[i] > weights(&be)[1 - i]);
        be.weight(&[Observation { mode: ObsMode::Cartesian, vector: seen, ..obs }], &map);
        assert!(weights(&be)[i] > weights(&be)[1 - i]);
    }
}

#[test]
fn the_cutoff_stands_at_its_sigmas() {
    // both residual norms lie a little beyond two sigmas
    let (be, map) = two(PfConfig { seed: 3, ..Default::default() });
    let seen: Vec<nalgebra::Vector3<f64>> = be
        .snapshot()
        .iter()
        .map(|p| to_na(p.pose.inverse_transform::<Ieee>(&map.at(4))))
        .collect();
    let middle = (seen[0] + seen[1]) * 0.5;
    let obs = [Observation {
        landmark_id: 4,
        mode: ObsMode::Cartesian,
        vector: from_na(middle + (seen[1] - seen[0]) * 0.1),
        range: n(0.0),
    }];
    let near = (seen[1] - to_na(obs[0].vector)).norm();
    let far = (seen[0] - to_na(obs[0].vector)).norm();
    assert!(near < far && far < near * 3f64.sqrt());
    let run = |sigma: f64| {
        let cfg = PfConfig {
            seed: 3,
            range_noise: n(sigma),
            gate_sigma: n(2.0),
            ..Default::default()
        };
        let (mut be, map) = two(cfg);
        be.weight(&obs, &map);
        weights(&be)
    };
    assert_eq!(run(near * 0.99 / 2.0), vec![0.5, 0.5]);
    let ws = run(near * 1.01 / 2.0);
    assert!(ws[1] > ws[0]);
}

#[test]
fn a_rejected_offset_costs_a_penalty_for_each_dimension() {
    let (be, map) = two(PfConfig { seed: 3, ..Default::default() });
    let seen: Vec<nalgebra::Vector3<f64>> = be
        .snapshot()
        .iter()
        .map(|p| to_na(p.pose.inverse_transform::<Ieee>(&map.at(4))))
        .collect();
    let sigma = (seen[0] - seen[1]).norm() / 4.0;
    let gate = 1.5;
    let cfg = PfConfig {
        seed: 3,
        range_noise: n(sigma),
        gate_sigma: n(gate),
        ..Default::default()
    };
    // the second particle fits, the first is four sigmas off
    let (mut be, map) = two(cfg);
    let obs = Observation {
        landmark_id: 4,
        mode: ObsMode::Cartesian,
        vector: from_na(seen[1]),
        range: n(0.0),
    };
    be.weight(&[obs], &map);
    assert_eq!(weights(&be), softmax(&[-0.5 * gate * gate * 3.0, 0.0]));
    let far = Observation {
        mode: ObsMode::RangeBearing,
        vector: from_na(seen[1].normalize()),
        range: n(seen[1].norm() + 9.0),
        ..obs
    };
    // of a range and a bearing each is rejected by itself
    let (mut be, map) = two(PfConfig { bearing_noise: n(1e3), ..cfg });
    be.weight(&[far], &map);
    let ws = weights(&be);
    assert!((ws[0] - 0.5).abs() < 1e-6 && (ws[1] - 0.5).abs() < 1e-6);
}

#[test]
fn a_cutoff_levels_far_residuals() {
    // every residual is far beyond three sigmas: all particles weigh the same
    let cfg = PfConfig {
        seed: 3,
        range_noise: n(0.001),
        bearing_noise: n(0.001),
        gate_sigma: n(3.0),
        ..Default::default()
    };
    let (mut be, map) = two(cfg);
    be.weight(&[cartesian(4, 9.0, 9.0, 9.0)], &map);
    assert_eq!(weights(&be), vec![0.5, 0.5]);
    let obs = Observation {
        landmark_id: 4,
        mode: ObsMode::RangeBearing,
        vector: v(1.0, 0.0, 0.0),
        range: n(50.0),
    };
    be.weight(&[obs], &map);
    assert_eq!(weights(&be), vec![0.5, 0.5]);
    // without the cutoff one of them takes all
    let (mut be, map) = two(PfConfig { gate_sigma: n(0.0), ..cfg });
    be.weight(&[cartesian(4, 9.0, 9.0, 9.0)], &map);
    let ws = weights(&be);
    assert!(ws == vec![1.0, 0.0] || ws == vec![0.0, 1.0]);
}

#[test]
fn nothing_known_resets_the_weights() {
    let (mut be, map) = two(PfConfig { seed: 3, ..Default::default() });
    for obs in [vec![], vec![cartesian(0, 1.0, 1.0, 1.0), cartesian(-4, 0.0, 0.0, 0.0)]] {
        be.weight(&[cartesian(4, 1.0, 2.0, 3.0)], &map);
        assert_ne!(weights(&be), vec![0.5, 0.5]);
        let before: Vec<Pose> = be.snapshot().iter().map(|p| p.pose).collect();
        be.weight(&obs, &map);
        assert_eq!(weights(&be), vec![0.5, 0.5]);
        let after: Vec<Pose> = be.snapshot().iter().map(|p| p.pose).collect();
        assert_eq!(before, after);
    }
}

#[test]
fn unknown_observations_change_nothing() {
    let (mut a, map) = two(PfConfig { seed: 3, ..Default::default() });
    let (mut b, _) = two(PfConfig { seed: 3, ..Default::default() });
    let seen = cartesian(4, 1.0, 2.1, 3.0);
    a.weight(&[cartesian(7, 5.0, 5.0, 5.0), seen, cartesian(8, 0.0, 0.0, 0.0)], &map);
    b.weight(&[seen], &map);
    assert_eq!(a.snapshot(), b.snapshot());
}

#[test]
fn hopeless_likelihoods_fall_back_to_uniform() {
    let (mut be, map) = two(PfConfig { seed: 3, ..Default::default() });
    be.weight(&[cartesian(4, f64::NAN, 0.0, 0.0)], &map);
    assert_eq!(weights(&be), vec![0.5, 0.5]);
}

#[test]
fn resampling_draws_a_comb_of_targets() {
    let pos: Vec<Vector3> = (0..5).map(|i| v(i as f64, 0.0, 0.0)).collect();
    let att: Vec<UnitQuaternion> = (0..5).map(|i| quat(1.0, i as f64, 0.0, 0.0)).collect();
    let ws = [0.1, 0.0, 0.6, 0.25, 0.05];
    let nums: Vec<Num> = ws.iter().map(|w| n(*w)).collect();
    let seed = 99;
    let (new_pos, new_att) = resampled::<Ieee>(seed, &pos, &att, &nums, n(0.0)).unwrap();

    let mut cum = vec![ws[0]];
    for w in &ws[1..] {
        cum.push(cum[cum.len() - 1] + w);
    }
    let mut rng = SmallRng::seed_from_u64(seed ^ 0xDEAD_BEEF_CAFE_F00D);
    let step = cum[4] / 5.0;
    let u0 = rng.gen::<f64>() * step;
    let mut j = 0;
    for i in 0..5 {
        let t = u0 + i as f64 * step;
        while j < 4 && cum[j] < t {
            j += 1;
        }
        assert_eq!((new_pos[i], new_att[i]), (pos[j], att[j]));
        assert_ne!(j, 1, "no weight, no draw");
    }
    // the picks ascend
    for i in 1..5 {
        assert!(f(new_pos[i - 1].x) <= f(new_pos[i].x));
    }
}

#[test]
fn re_injection_moves_positions_only() {
    let pos: Vec<Vector3> = (0..10).map(|i| v(i as f64, 0.0, 0.0)).collect();
    let att = vec![UnitQuaternion::identity(); 10];
    let ws = vec![n(0.1); 10];
    let (plain, _) = resampled::<Ieee>(4, &pos, &att, &ws, n(0.0)).unwrap();
    let (mixed, turned) = resampled::<Ieee>(4, &pos, &att, &ws, n(0.35)).unwrap();
    assert_eq!(turned, att);

    let mut want: Vec<nalgebra::Vector3<f64>> = plain.iter().map(|p| to_na(*p)).collect();
    let mut rng = SmallRng::seed_from_u64(4 ^ 0xDEAD_BEEF_CAFE_F00D);
    let _: f64 = rng.gen();
    let mut order: Vec<usize> = (0..10).collect();
    for d in 0..3 {
        let j = rng.gen_range(0..10 - d);
        order.swap(d, d + j);
        want[order[d]] += nalgebra::Vector3::new(
            rng.gen_range(-0.5..0.5),
            rng.gen_range(-0.5..0.5),
            rng.gen_range(-0.5..0.5),
        );
    }
    let want: Vec<Vector3> = want.into_iter().map(from_na).collect();
    assert_eq!(mixed, want);
    assert_ne!(mixed, plain);
    // a ratio above one moves as many as there are
    let (all, _) = resampled::<Ieee>(4, &pos, &att, &ws, n(7.0)).unwrap();
    assert!(plain.iter().zip(&all).all(|(a, b)| a != b));
}

#[test]
fn re_injection_moves_exactly_its_share() {
    let pos: Vec<Vector3> = (0..10).map(|i| v(i as f64, 0.0, 0.0)).collect();
    let att = vec![UnitQuaternion::identity(); 10];
    let ws = vec![n(0.1); 10];
    let mut moved = [false; 10];
    for seed in 1..40 {
        let (plain, _) = resampled::<Ieee>(seed, &pos, &att, &ws, n(0.0)).unwrap();
        let (mixed, turned) = resampled::<Ieee>(seed, &pos, &att, &ws, n(0.35)).unwrap();
        assert_eq!(turned, att);
        let places: Vec<usize> = (0..10).filter(|i| plain[*i] != mixed[*i]).collect();
        assert_eq!(places.len(), 3);
        for i in places {
            moved[i] = true;
            let jit = to_na(mixed[i]) - to_na(plain[i]);
            assert!(jit.iter().all(|x| (-0.5..0.5).contains(x)));
        }
    }
    // no place is left out for good
    assert_eq!(moved, [true; 10]);
}

#[test]
fn weights_without_a_total_are_not_resampled() {
    let pos = vec![v(1.0, 0.0, 0.0), v(2.0, 0.0, 0.0)];
    let att = vec![UnitQuaternion::identity(); 2];
    for bad in [0.0, -1.0, f64::NAN, f64::INFINITY] {
        assert!(resampled::<Ieee>(1, &pos, &att, &vec![n(bad), n(0.0)], n(0.0)).is_none());
    }
    assert!(resampled::<Ieee>(1, &vec![], &vec![], &vec![], n(0.0)).is_none());
    let mut be = Cpu::new();
    be.resample(n(0.5), n(0.0));
    assert!(be.snapshot().is_empty());
}

#[test]
fn resampling_a_backend_evens_the_weights() {
    let (mut be, map) = two(PfConfig { seed: 3, ..Default::default() });
    be.weight(&[cartesian(4, 1.0, 2.0, 3.0)], &map);
    let old = be.snapshot();
    be.resample(n(0.5), n(0.0));
    for p in be.snapshot() {
        assert_eq!(f(p.weight), 0.5);
        assert!(old.iter().any(|q| q.pose == p.pose));
    }
}

#[test]
fn draws_stay_below_their_bound() {
    let mut rng = seeded(17);
    let mut seen = [false; 3];
    for _ in 0..64 {
        let (i, next) = index_draw(rng, 3);
        seen[i] = true;
        rng = next;
    }
    assert_eq!(seen, [true; 3]);
}

#[test]
fn estimates_of_a_small_cloud() {
    let half = std::f64::consts::FRAC_1_SQRT_2;
    let pos = vec![v(0.0, 0.0, 0.0), v(4.0, 2.0, 0.0)];
    // 0.1 rad about z to the left and to the right, one with its signs flipped
    let left = quat((0.05f64).cos(), 0.0, 0.0, (0.05f64).sin());
    let right = quat(-(0.05f64).cos(), 0.0, 0.0, (0.05f64).sin());
    let e = estimate_of::<Ieee>(&pos, &vec![left, right], &vec![n(0.5), n(0.5)]);
    assert_eq!(e.mean.position, v(2.0, 1.0, 0.0));
    assert_eq!(f(e.ess), 2.0);
    assert!(e.valid);
    let pc = e.pos_cov.rows;
    assert_eq!((f(pc[0][0]), f(pc[0][1]), f(pc[1][1]), f(pc[2][2])), (4.0, 2.0, 1.0, 0.0));
    assert!((f(e.mean.attitude.q.w) - 1.0).abs() < 1e-9);
    // both are 0.1 rad away from the mean
    assert!(close(e.att_cov.rows[2][2], 0.01, 1e-9));
    assert!(close(e.att_cov.rows[0][0], 0.0, 1e-12));

    // one particle has no spread, and no weight has no size
    let one = estimate_of::<Ieee>(
        &vec![v(1.0, 1.0, 1.0)],
        &vec![quat(half, half, 0.0, 0.0)],
        &vec![n(1.0)],
    );
    assert!(close(one.att_cov.rows[0][0], 0.0, 1e-12));
    assert_eq!(f(one.ess), 1.0);
    let none = estimate_of::<Ieee>(&vec![v(1.0, 1.0, 1.0)], &vec![left], &vec![n(0.0)]);
    assert_eq!(f(none.ess), 0.0);
}

#[test]
fn covariances_match_a_gaussian_prior() {
    let mut be = Cpu::new();
    let (pos_std, rot_std) = ([1.0, 2.0, 0.5], [0.05, 0.07, 0.02]);
    be.init(20_000, PfConfig { seed: 7, ..Default::default() });
    be.reinit(&Pose::default(), &v(1.0, 2.0, 0.5), &v(0.05, 0.07, 0.02));
    let e = be.estimate();
    for i in 0..3 {
        let want = pos_std[i] * pos_std[i];
        assert!(close(e.pos_cov.rows[i][i], want, 0.12 * want));
        let want = rot_std[i] * rot_std[i];
        assert!(close(e.att_cov.rows[i][i], want, 0.15 * want));
    }
}

#[test]
fn a_tight_cloud_keeps_its_accuracy() {
    let mut be = Cpu::new();
    let rot_std = [1e-3, 2e-3, 3e-3];
    be.init(20_000, PfConfig { seed: 7, ..Default::default() });
    be.reinit(&Pose::default(), &v(0.01, 0.01, 0.01), &v(1e-3, 2e-3, 3e-3));
    let e = be.estimate();
    assert!(close(e.ess, 20_000.0, 0.05));
    for i in 0..3 {
        let want = rot_std[i] * rot_std[i];
        assert!(close(e.att_cov.rows[i][i], want, 0.05 * want));
    }
}

// ------------------------------------------------------------- filter driver

/// A machine without a device, or with one that has no memory left.
struct Lacking<const PRESENT: bool>;

type NoDevice = Lacking<false>;
type FullDevice = Lacking<true>;

/// Kernels that are never reached.
fn no_kernel() -> ! {
    panic!("no kernel runs without a device")
}

impl<const PRESENT: bool> Kernels for Lacking<PRESENT> {
    fn available() -> bool {
        PRESENT
    }

    fn create(_cap_obs: usize) -> Option<Self> {
        None
    }

    fn init(self, _count: usize, _seed: u32) -> Self {
        no_kernel()
    }

    fn upload_landmarks(self, _table: &Vec<u32>, _count: usize) -> Self {
        no_kernel()
    }

    fn reinit(self, _pose: DevicePose, _pos_std: DeviceStd, _rot_std: DeviceStd) -> Self {
        no_kernel()
    }

    fn predict(self, _motion: DevicePose, _trans_std: DeviceStd, _rot_std: DeviceStd) -> Self {
        no_kernel()
    }

    fn weight(self, _obs: &Vec<DeviceObs>, _sigma_r: u32, _sigma_b: u32, _cutoff: u32) -> Self {
        no_kernel()
    }

    fn resample(self, _random_inject_ratio: u32) -> Self {
        no_kernel()
    }

    fn est_sums(&self) -> [u32; 14] {
        no_kernel()
    }

    fn covs(&self, _mean: DevicePose) -> [u32; 12] {
        no_kernel()
    }

    fn snapshot(&self, _count: usize) -> (Vec<u32>, Vec<u32>) {
        no_kernel()
    }
}

/// The name of the backend that is made, or the error.
fn made<D: Kernels>(kind: BackendKind, with_cuda: bool) -> String {
    match make_backend::<Ieee, D>(kind, with_cuda) {
        Ok(b) => b.name().to_string(),
        Err(e) => e,
    }
}

#[test]
fn backends_are_chosen_by_kind() {
    let without = "built without the `cuda` feature";
    assert_eq!(made::<SimDevice>(BackendKind::Cpu, true), "cpu");
    assert_eq!(made::<SimDevice>(BackendKind::Cpu, false), "cpu");
    assert_eq!(made::<SimDevice>(BackendKind::Cuda, true), "cuda");
    assert_eq!(made::<SimDevice>(BackendKind::Cuda, false), without);
    assert_eq!(made::<NoDevice>(BackendKind::Cuda, true), "no CUDA device");
    assert_eq!(made::<FullDevice>(BackendKind::Cuda, true), "pfc_create failed");
    assert_eq!(made::<SimDevice>(BackendKind::Auto, true), "cuda");
    assert_eq!(made::<SimDevice>(BackendKind::Auto, false), "cpu");
    assert_eq!(made::<NoDevice>(BackendKind::Auto, true), "cpu");
    assert_eq!(made::<FullDevice>(BackendKind::Auto, true), "cpu");
    assert!(device_available::<SimDevice>() && !device_available::<NoDevice>());
}

#[test]
fn a_filter_without_its_backend_is_an_error() {
    let cfg = PfConfig { backend: BackendKind::Cuda, ..Default::default() };
    let r: Result<Filter, String> = ParticleFilter::new(cfg, false);
    assert_eq!(r.err(), Some("built without the `cuda` feature".to_string()));
}

#[test]
fn a_filter_shows_what_it_holds() {
    let cfg = PfConfig { particle_count: 16, seed: 2, ..Default::default() };
    let mut pf = filter(cfg);
    assert_eq!(pf.backend_name(), "cpu");
    assert_eq!(pf.config().particle_count, 16);
    assert!(pf.map().is_empty());
    let blank = pf.last_estimate();
    assert!(!blank.valid);
    assert_eq!(f(blank.ess), 0.0);
    assert_eq!(f(blank.pos_cov.rows[2][1]), 1.0);
    assert_eq!(pf.backend().snapshot().len(), 16);

    pf.set_map(landmark_box::<Ieee>(3, 1));
    assert_eq!(pf.map().len_defined(), 3);
    let e = pf.update(&OdomDelta::default(), &[]);
    assert_eq!(pf.last_estimate().mean, e.mean);
    assert_eq!(pf.backend().estimate().mean, e.mean);
    assert!(pf.last_estimate().valid);
    pf.reinitialize(Pose::default(), v(1.0, 1.0, 1.0), v(0.1, 0.1, 0.1));
    assert!(!pf.last_estimate().valid);
    assert_eq!(pf.map().len_defined(), 3);
}

#[test]
fn resampling_waits_for_a_low_sample_size() {
    let run = |ratio: f64| {
        let cfg = PfConfig {
            particle_count: 64,
            seed: 21,
            resample_ess_ratio: n(ratio),
            ..Default::default()
        };
        let mut pf = filter(cfg);
        let mut map = LandmarkMap::new();
        map.add(0, v(5.0, 5.0, 1.0));
        pf.set_map(map);
        let p0 = Pose { position: v(5.0, 5.0, 1.0), attitude: UnitQuaternion::identity() };
        pf.reinitialize(p0, v(3.0, 3.0, 3.0), v(0.1, 0.1, 0.1));
        let e = pf.update(&OdomDelta::default(), &[cartesian(0, 0.0, 0.0, 0.0)]);
        (e, pf.backend().snapshot())
    };
    // never with a ratio of 0, nor where the size is not below ratio * N
    let (never, raw) = run(0.0);
    assert!(f(never.ess) < 32.0);
    let (high, same) = run(f(never.ess) / 64.0 * 0.5);
    assert_eq!(f(high.ess), f(never.ess));
    assert_eq!(raw, same);
    // with 0.5 the cloud is drawn anew, and the estimate is of the new cloud
    let (low, drawn) = run(0.5);
    assert!(close(low.ess, 64.0, 1e-3));
    assert!(drawn.iter().all(|p| f(p.weight) == single(1.0 / 64.0)));
    assert!(drawn.iter().all(|p| raw.iter().any(|q| q.pose == p.pose)));
}

#[test]
fn coasting_restores_the_sample_size() {
    let count = 512;
    let cfg = PfConfig {
        particle_count: count,
        seed: 11,
        resample_ess_ratio: n(0.0),
        ..Default::default()
    };
    let mut map = LandmarkMap::new();
    map.add(0, v(5.0, 5.0, 1.0));
    let mut pf = filter(cfg);
    pf.set_map(map);
    let p0 = Pose { position: v(5.0, 5.0, 1.0), attitude: UnitQuaternion::identity() };
    pf.reinitialize(p0, v(3.0, 3.0, 3.0), v(0.1, 0.1, 0.1));
    let e1 = pf.update(&OdomDelta::default(), &[cartesian(0, 0.0, 0.0, 0.0)]);
    assert!(f(e1.ess) < count as f64 * 0.5);
    let e2 = pf.update(&OdomDelta::default(), &[]);
    assert!(f(e2.ess) > count as f64 * 0.95);
    let e3 = pf.update(&OdomDelta::default(), &[cartesian(42, 0.0, 0.0, 0.0)]);
    assert!(f(e3.ess) > count as f64 * 0.95);
}

#[test]
fn injection_keeps_to_the_trajectory() {
    let cfg = PfConfig {
        particle_count: 1024,
        seed: 13,
        random_inject_ratio: n(0.1),
        ..Default::default()
    };
    let mut pf = filter(cfg);
    pf.reinitialize(Pose::default(), v(0.5, 0.5, 0.5), v(0.01, 0.01, 0.01));
    let odo = OdomDelta {
        translation: v(0.5, 0.0, 0.0),
        trans_noise: v(0.02, 0.02, 0.02),
        rot_noise: v(0.005, 0.005, 0.005),
        ..Default::default()
    };
    for k in 0..20 {
        let e = pf.update(&odo, &[]);
        assert!(close(e.mean.position.x, 0.5 * (k + 1) as f64, 0.6));
        assert!(e.valid && f(e.ess).is_finite());
    }
}

#[test]
fn poses_transform_both_ways() {
    let half = std::f64::consts::FRAC_1_SQRT_2;
    let pose = Pose { position: v(1.0, 2.0, 3.0), attitude: quat(half, 0.0, 0.0, half) };
    let w = pose.transform::<Ieee>(&v(1.0, 0.0, 0.5));
    assert!((to_na(w) - to_na(v(1.0, 3.0, 3.5))).norm() < 1e-12);
    let b = pose.inverse_transform::<Ieee>(&w);
    assert!((to_na(b) - to_na(v(1.0, 0.0, 0.5))).norm() < 1e-12);
}

// -------------------------------------------------------------------- device

#[test]
fn a_plan_sends_known_observations_and_new_tables() {
    let mut map = LandmarkMap::new();
    map.add(2, v(0.1, 0.2, 0.3));
    map.add(0, v(1.0, 2.0, 3.0));
    let obs = [
        cartesian(1, 0.0, 0.0, 0.0),
        Observation {
            landmark_id: 2,
            mode: ObsMode::RangeBearing,
            vector: v(0.0, 0.0, 1.0),
            range: n(2.5),
        },
        cartesian(0, 4.0, 5.0, 6.0),
    ];
    let plan = plan_weight::<Ieee>(&obs, &map, &vec![]);
    assert_eq!(plan.obs.len(), 2);
    assert_eq!((plan.obs[0].id, plan.obs[0].mode, plan.obs[0].range), (2, 1, bits(2.5)));
    assert_eq!((plan.obs[1].id, plan.obs[1].mode, plan.obs[1].dy), (0, 0, bits(5.0)));
    let (flat, count) = plan.upload.unwrap();
    assert_eq!(count, 3);
    let want = [1.0, 2.0, 3.0, 0.0, 0.0, 0.0, 0.1, 0.2, 0.3];
    assert_eq!(flat, want.iter().map(|x| bits(*x)).collect::<Vec<u32>>());
    // the table that is there already is not sent again
    assert!(plan_weight::<Ieee>(&obs, &map, &flat).upload.is_none());
    // a signed zero is no change, a NaN always is one
    let mut zero = flat.clone();
    zero[4] = bits(-0.0);
    assert!(plan_weight::<Ieee>(&obs, &map, &zero).upload.is_none());
    let mut nan = flat.clone();
    nan[4] = bits(f32::NAN);
    assert!(plan_weight::<Ieee>(&obs, &map, &nan).upload.is_some());
    // nothing known: nothing sent, nothing uploaded
    let plan = plan_weight::<Ieee>(&obs[..1], &map, &vec![]);
    assert!(plan.obs.is_empty() && plan.upload.is_none());
}

#[test]
fn a_plan_keeps_to_the_capacity() {
    let mut map = LandmarkMap::new();
    map.add(0, v(1.0, 2.0, 3.0));
    let obs: Vec<Observation> = (0..300).map(|k| cartesian(0, k as f64, 0.0, 0.0)).collect();
    let plan = plan_weight::<Ieee>(&obs, &map, &vec![]);
    assert_eq!(plan.obs.len(), OBS_CAP);
    assert_eq!(plan.obs[255].dx, bits(255.0));
}

#[test]
fn device_answers_are_unpacked() {
    // sums: mean (1, 2, 3), all moment on the scalar part, squared weights 0.25
    let mut sums = [0u32; 14];
    sums[0] = bits(1.0);
    sums[1] = bits(2.0);
    sums[2] = bits(3.0);
    sums[3] = bits(1.0);
    sums[13] = bits(0.25);
    let mean = device_mean::<Ieee>(&sums);
    assert!((f(mean.q.w) - 1.0).abs() < 1e-9);
    let mut covs = [0u32; 12];
    for k in 0..12 {
        covs[k] = bits(k as f32);
    }
    let e = device_estimate::<Ieee>(&sums, mean, &covs);
    assert_eq!(e.mean.position, v(1.0, 2.0, 3.0));
    assert_eq!(f(e.ess), 4.0);
    let at = |m: [[Num; 3]; 3]| m.map(|row| row.map(f));
    assert_eq!(at(e.pos_cov.rows), [[0.0, 1.0, 2.0], [1.0, 3.0, 4.0], [2.0, 4.0, 5.0]]);
    assert_eq!(at(e.att_cov.rows), [[6.0, 7.0, 8.0], [7.0, 9.0, 10.0], [8.0, 10.0, 11.0]]);
    sums[13] = bits(0.0);
    assert_eq!(f(device_estimate::<Ieee>(&sums, mean, &covs).ess), 0.0);

    // the largest moment on the part k, between k and w: a turn about z
    let mut sums = [0u32; 14];
    sums[3] = bits(0.5);
    sums[6] = bits(0.5);
    sums[12] = bits(0.5);
    let mean = device_mean::<Ieee>(&sums);
    let half = std::f64::consts::FRAC_1_SQRT_2;
    assert!((f(mean.q.w) - half).abs() < 1e-9 && (f(mean.q.k) - half).abs() < 1e-9);
}

#[test]
fn device_arrays_become_particles() {
    let pos: Vec<u32> = [1.0, 2.0, 3.0, 4.0, 5.0, 6.0].iter().map(|x| bits(*x)).collect();
    let parts = [2.0, 0.0, 0.0, 0.0, 0.0, 3.0, 0.0, 0.0];
    let quats: Vec<u32> = parts.iter().map(|x| bits(*x)).collect();
    let ps = device_snapshot::<Ieee>(2, &pos, &quats);
    assert_eq!(ps.len(), 2);
    assert_eq!(ps[0].pose.position, v(1.0, 2.0, 3.0));
    assert_eq!(ps[1].pose.position, v(4.0, 5.0, 6.0));
    assert_eq!(ps[0].pose.attitude, quat(1.0, 0.0, 0.0, 0.0));
    assert_eq!(ps[1].pose.attitude, quat(0.0, 1.0, 0.0, 0.0));
    assert_eq!(f(ps[1].weight), 0.5);
}

#[test]
fn short_arrays_give_fewer_particles() {
    let pos: Vec<u32> = [1.0, 2.0, 3.0, 4.0].iter().map(|x| bits(*x)).collect();
    let parts = vec![bits(1.0); 8];
    let ps = device_snapshot::<Ieee>(2, &pos, &parts);
    assert_eq!(ps.len(), 1);
    assert_eq!(f(ps[0].weight), 0.5);
}

// -------------------------------------------------------------- CUDA backend

fn cuda() -> Option<Cuda> {
    match CudaBackend::new() {
        Ok(b) => Some(b),
        Err(_) => None,
    }
}

fn cfg(count: usize, seed: u64) -> PfConfig {
    PfConfig { particle_count: count, seed, ..Default::default() }
}

#[test]
fn cuda_covariances_match_gaussian_prior() {
    let mut gpu = cuda().unwrap();
    let mut cpu = Cpu::new();

    // uniform-weight cloud right after a wide Gaussian reinit: both backends
    // must report covariances consistent with the injected spread.
    let pose = Pose::default();
    let pos_std = [1.0, 2.0, 0.5];
    let rot_std = [0.05, 0.07, 0.02];
    let (pos_v, rot_v) = (v(1.0, 2.0, 0.5), v(0.05, 0.07, 0.02));
    let count = 200_000;

    cpu.init(count, cfg(count, 7));
    cpu.reinit(&pose, &pos_v, &rot_v);
    gpu.init(count, cfg(count, 7));
    gpu.reinit(&pose, &pos_v, &rot_v);

    let ec = cpu.estimate();
    let eg = gpu.estimate();
    assert!(eg.valid);

    // means agree between backends
    let (mc, mg) = (to_na(ec.mean.position), to_na(eg.mean.position));
    for r in 0..3 {
        assert!((mc[r] - mg[r]).abs() < 0.05, "mean mismatch axis {r}: {} vs {}", mc[r], mg[r]);
    }

    // diagonal variances track the prior on both backends
    for i in 0..3 {
        let want = pos_std[i] * pos_std[i];
        assert!(close(ec.pos_cov.rows[i][i], want, 0.12 * want));
        assert!(close(eg.pos_cov.rows[i][i], want, 0.12 * want));
        let wrot = rot_std[i] * rot_std[i];
        assert!(close(ec.att_cov.rows[i][i], wrot, 0.15 * wrot));
        assert!(close(eg.att_cov.rows[i][i], wrot, 0.15 * wrot));
        // off-diagonals ~ 0
        for j in 0..3 {
            if i != j {
                assert!(f(eg.pos_cov.rows[i][j]).abs() < 0.1 * want);
                assert!(f(eg.att_cov.rows[i][j]).abs() < 0.1 * wrot);
            }
        }
    }
}

#[test]
fn cuda_empty_obs_resets_weights_like_cpu() {
    let count = 8192;
    let mut c = cfg(count, 11);
    c.resample_ess_ratio = n(0.0); // never resample: inspect raw weights

    let mut map = LandmarkMap::new();
    map.add(0, v(5.0, 5.0, 1.0));
    let p0 = Pose { position: v(5.0, 5.0, 1.0), attitude: UnitQuaternion::identity() };

    let mut gpf: Filter = ParticleFilter::new(c, true).unwrap();
    gpf.set_map(map);
    gpf.reinitialize(p0, v(3.0, 3.0, 3.0), v(0.1, 0.1, 0.1));

    let obs = vec![cartesian(0, 0.0, 0.0, 0.0)];

    // informative obs collapses ESS ...
    let e1 = gpf.update(&OdomDelta::default(), &obs);
    assert!(f(e1.ess) < (count as f64) * 0.5, "ESS did not collapse: {}", f(e1.ess));

    // ... then a coasting cycle (no obs) must restore uniform weights
    let e2 = gpf.update(&OdomDelta::default(), &[]);
    assert!(
        f(e2.ess) > (count as f64) * 0.95,
        "ESS not restored after empty obs: {}",
        f(e2.ess)
    );

    // unknown landmark ids are ignored (weights stay uniform), like the CPU
    let stray = vec![cartesian(42, 1.0, 0.0, 0.0)];
    let e3 = gpf.update(&OdomDelta::default(), &stray);
    assert!(f(e3.ess) > (count as f64) * 0.95);
}

#[test]
fn cuda_random_injection_tracks_trajectory() {
    let count = 4096;
    let mut c = cfg(count, 13);
    c.resample_ess_ratio = n(0.5);
    c.random_inject_ratio = n(0.1); // exercise the injection path

    let mut pf: Filter = ParticleFilter::new(c, true).unwrap();
    assert_eq!(pf.backend_name(), "cuda");

    let p0 = Pose { position: v(0.0, 0.0, 0.0), attitude: UnitQuaternion::identity() };
    pf.reinitialize(p0, v(0.5, 0.5, 0.5), v(0.01, 0.01, 0.01));

    let odo = OdomDelta {
        translation: v(0.5, 0.0, 0.0),
        trans_noise: v(0.02, 0.02, 0.02),
        rot_noise: v(0.005, 0.005, 0.005),
        ..Default::default()
    };
    let _ = pf.update(&odo, &[]);
    for k in 1..20 {
        let est = pf.update(&odo, &[]);
        let expect_x = 0.5 * (k + 1) as f64;
        let x = f(est.mean.position.x);
        assert!(
            (x - expect_x).abs() < 0.6,
            "drifted off trajectory with injection: x={x} want ~{expect_x}"
        );
        assert!(est.valid && f(est.ess).is_finite());
    }
}

#[test]
fn cuda_tight_cloud_accuracy() {
    let mut gpu = cuda().unwrap();
    let mut cpu = Cpu::new();
    let pose = Pose::default();
    let pos_std = v(0.01, 0.01, 0.01);
    // tight attitude spread: variances 1e-6 .. 9e-6 rad^2
    let rot_std = [1e-3, 2e-3, 3e-3];
    let rot_v = v(1e-3, 2e-3, 3e-3);
    let count = 100_000;
    let c = cfg(count, 7);

    cpu.init(count, c);
    cpu.reinit(&pose, &pos_std, &rot_v);
    gpu.init(count, c);
    gpu.reinit(&pose, &pos_std, &rot_v);

    let ec = cpu.estimate();
    let eg = gpu.estimate();

    // ESS on a uniform-weight cloud: weights are stored in single precision
    assert!(
        (f(eg.ess) - count as f64).abs() < 0.05,
        "GPU ESS drifted from N: {}",
        f(eg.ess)
    );

    for i in 0..3 {
        let want = rot_std[i] * rot_std[i];
        assert!(close(ec.att_cov.rows[i][i], want, 0.05 * want));
        let (a, b) = (f(ec.att_cov.rows[i][i]), f(eg.att_cov.rows[i][i]));
        let rel = ((b - a) / want).abs();
        assert!(rel < 0.02, "att_cov[{i}] CPU/GPU mismatch: {a} vs {b}");
    }
}

#[test]
fn cuda_operations_reach_the_device() {
    let mut be = cuda().unwrap();
    assert!(!be.estimate().valid, "nothing to estimate before the first allocation");
    assert_eq!(be.name(), "cuda");
    let mut c = cfg(3, 0x7_0000_0009);
    be.init(3, c);
    be.reinit(&Pose::default(), &v(0.5, 0.25, 0.125), &Vector3::zeros());
    let odom = OdomDelta {
        translation: v(1.0, 2.0, 4.0),
        trans_noise: v(0.5, 0.25, 0.0625),
        rot_noise: Vector3::zeros(),
        ..Default::default()
    };
    be.predict(&odom);
    // the same operations on the CPU, with the seed cut to 32 bits; all the
    // numbers above are exact in single precision
    c.seed = 9;
    let mut cpu = Cpu::new();
    cpu.init(3, c);
    cpu.reinit(&Pose::default(), &v(0.5, 0.25, 0.125), &Vector3::zeros());
    cpu.predict(&odom);
    for (a, b) in be.snapshot().iter().zip(cpu.snapshot()) {
        assert_eq!(f(a.pose.position.x), single(f(b.pose.position.x)));
        assert_eq!(f(a.pose.position.z), single(f(b.pose.position.z)));
        assert_eq!(f(a.weight), 1.0 / 3.0);
    }
    be.resample(n(0.5), n(0.0));
    assert_eq!(be.snapshot().len(), 3);
}

/// Localization kernels that compute on the host. The answer always fills an
/// array of `k` triples, padded with zeros.
struct SimGl {
    loc: CpuGlobalLoc,
    scan: Vec<Num>,
    generated: bool,
}

impl GlKernels for SimGl {
    fn create(grid: DeviceGrid, cells: &Vec<u8>, cap_hyp: usize) -> Option<Self> {
        if grid.w * grid.h == 0 {
            return None;
        }
        let grid = OccGrid {
            w: grid.w,
            h: grid.h,
            res: n(s(grid.res)),
            origin: Vector2 { x: n(s(grid.ox)), y: n(s(grid.oy)) },
            cells: cells.clone(),
        };
        let params = GlParams { hypotheses: cap_hyp, ..Default::default() };
        Some(SimGl { loc: CpuGlobalLoc::new(grid, params), scan: Vec::new(), generated: false })
    }

    fn free_cells(&self) -> i32 {
        self.loc.grid.cells.iter().filter(|c| **c == 0).count() as i32
    }

    fn generate(mut self, count: usize, seed: u64) -> (i32, Self) {
        self.loc.params.hypotheses = count;
        self.loc.params.seed = seed;
        self.generated = true;
        (if count == 0 { 1 } else { 0 }, self)
    }

    fn score(mut self, scan: &[u32], rmax: u32, ang_span: u32) -> (i32, Self) {
        assert!(self.generated);
        self.loc.params.rmax = n(s(rmax));
        self.loc.params.ang_span = n(s(ang_span));
        self.scan = scan.iter().map(|b| n(s(*b))).collect();
        self.generated = false;
        (if scan.is_empty() { 1 } else { 0 }, self)
    }

    fn topk(&self, k: usize) -> (i32, Vec<u32>) {
        let params = GlParams { topk: k, ..self.loc.params.clone() };
        let loc = CpuGlobalLoc::new(self.loc.grid.clone(), params);
        let top = loc.localize::<Ieee>(&self.scan).unwrap();
        let mut out = vec![0; 3 * k];
        for (i, h) in top.iter().enumerate() {
            for (j, x) in [h.x, h.y, h.theta].into_iter().enumerate() {
                out[3 * i + j] = bits(f(x) as f32);
            }
        }
        (top.len() as i32, out)
    }
}

#[test]
fn cuda_matches_cpu_ranking() {
    let g = test_grid();
    let truth = (6.0, 7.0, 0.8f64);
    let scan = g.map_scan::<Ieee>(
        n(truth.0),
        n(truth.1),
        n(truth.2),
        360,
        n(std::f64::consts::TAU),
        n(10.0),
    );
    let scan32: Vec<u32> = scan.iter().map(|x| bits(f(*x) as f32)).collect();

    let params = GlParams { hypotheses: 30_000, ..Default::default() };

    let mut gpu = CudaGlobalLoc::<SimGl>::new::<Ieee>(&g, params.clone()).unwrap();
    assert!(gpu.free_cells() > 0);
    let gpu_top = gpu.localize::<Ieee>(&scan32).unwrap();

    let cpu = CpuGlobalLoc::new(g, params);
    let cpu_top = cpu.localize::<Ieee>(&scan).unwrap();

    // GPU winners must land near a CPU winner (same optimum region).
    let mut best_gpu_err = f64::INFINITY;
    for gp in &gpu_top {
        for cp in &cpu_top {
            let e = ((f(gp.x) - f(cp.x)).powi(2) + (f(gp.y) - f(cp.y)).powi(2)).sqrt();
            best_gpu_err = best_gpu_err.min(e);
        }
    }
    assert!(best_gpu_err < 0.5, "GPU and CPU optima disagree: {best_gpu_err:.3} m");

    // GPU winner must be near ground truth too.
    let b = &gpu_top[0];
    let derr = ((f(b.x) - truth.0).powi(2) + (f(b.y) - truth.1).powi(2)).sqrt();
    assert!(derr < 0.5, "GPU best not near truth: {derr:.3} m");
}

#[test]
fn device_localization_tells_what_failed() {
    let g = room_grid();
    let params = |hypotheses: usize, topk: usize| GlParams {
        hypotheses,
        topk,
        ..Default::default()
    };
    let run = |p: GlParams, scan: &[u32]| {
        CudaGlobalLoc::<SimGl>::new::<Ieee>(&g, p).unwrap().localize::<Ieee>(scan)
    };
    let scan = [bits(3.0), bits(4.0)];
    assert_eq!(run(params(0, 5), &scan), Err("pfgl_generate failed".to_string()));
    assert_eq!(run(params(20, 5), &[]), Err("pfgl_score failed".to_string()));
    assert_eq!(run(params(20, 0), &scan), Err("pfgl_topk failed".to_string()));
    let top = run(params(20, 5), &scan).unwrap();
    assert_eq!(top.len(), 5);
    // each has the CAER of its pose, and the best come first
    let wide = [n(3.0), n(4.0)];
    for (i, h) in top.iter().enumerate() {
        let caer = g.caer_of::<Ieee>(&wide, h.x, h.y, h.theta, params(0, 0).ang_span, n(10.0));
        assert_eq!(f(h.caer), f(caer));
        assert!(i == 0 || f(top[i - 1].caer) <= f(h.caer));
    }
    // no more than were found, however many were asked for
    assert_eq!(run(params(3, 8), &scan).unwrap().len(), 3);

    let none = OccGrid {
        w: 0,
        h: 0,
        res: n(0.05),
        origin: Vector2 { x: n(0.0), y: n(0.0) },
        cells: vec![],
    };
    let r = CudaGlobalLoc::<SimGl>::new::<Ieee>(&none, params(20, 5));
    assert_eq!(r.err(), Some("pfgl_create failed".to_string()));
}

/// A device that finds the same four poses whatever it is asked.
struct Fixed;

impl GlKernels for Fixed {
    fn create(_grid: DeviceGrid, _cells: &Vec<u8>, _cap_hyp: usize) -> Option<Self> {
        Some(Fixed)
    }

    fn free_cells(&self) -> i32 {
        4
    }

    fn generate(self, _count: usize, _seed: u64) -> (i32, Self) {
        (0, self)
    }

    fn score(self, _scan: &[u32], _rmax: u32, _ang_span: u32) -> (i32, Self) {
        (0, self)
    }

    fn topk(&self, _k: usize) -> (i32, Vec<u32>) {
        let xs = [8.0, 2.0, 5.0, 6.5];
        (4, xs.iter().flat_map(|x| [bits(*x), bits(2.0), bits(0.0)]).collect())
    }
}

#[test]
fn device_poses_are_ranked_on_the_host() {
    let g = room_grid();
    let scan = g.map_scan::<Ieee>(n(5.0), n(2.0), n(0.0), 40, n(6.0), n(10.0));
    let params = GlParams { topk: 4, ang_span: n(6.0), ..Default::default() };
    let mut loc = CudaGlobalLoc::<Fixed>::new::<Ieee>(&g, params).unwrap();
    let singles: Vec<u32> = scan.iter().map(|x| bits(f(*x) as f32)).collect();
    let top = loc.localize::<Ieee>(&singles).unwrap();
    assert_eq!(f(top[0].x), 5.0);
    let mut xs: Vec<f64> = top.iter().map(|h| f(h.x)).collect();
    xs.sort_by(|a, b| a.partial_cmp(b).unwrap());
    assert_eq!(xs, vec![2.0, 5.0, 6.5, 8.0]);
    for i in 1..4 {
        assert!(f(top[i - 1].caer) < f(top[i].caer));
    }
    // scores that are no numbers leave the order as it came
    let top = loc.localize::<Ieee>(&[bits(f32::NAN)]).unwrap();
    let xs: Vec<f64> = top.iter().map(|h| f(h.x)).collect();
    assert_eq!(xs, vec![8.0, 2.0, 5.0, 6.5]);
}

#[test]
fn an_unchanged_table_is_uploaded_once() {
    let mut map = LandmarkMap::new();
    map.add(0, v(1.0, 2.0, 3.0));
    let mut cache: Vec<u32> = Vec::new();
    let mut device = SimDevice::create(256).unwrap();
    for cycle in 0..4 {
        if cycle == 3 {
            map.add(1, v(0.0, 0.0, 1.0));
        }
        let plan = plan_weight::<Ieee>(&[cartesian(0, 0.0, 0.0, 0.0)], &map, &cache);
        if let Some((table, count)) = plan.upload {
            device = device.upload_landmarks(&table, count);
            cache = table;
        }
    }
    assert_eq!(device.uploads, 2);
    assert_eq!(device.map.len_defined(), 2);
}
