//! Filter configuration.
use vstd::prelude::*;

use crate::num::{num, Num, HALF, P02, P03, P05, ZERO};

verus! {

#[derive(Clone, Copy, Debug)]
pub struct PfConfig {
    /// Number of particles.
    pub particle_count: usize,
    /// Process noise: translation std devs (m), body-frame axes.
    pub trans_noise: [Num; 3],
    /// Process noise: rotation std devs (rad).
    pub rot_noise: [Num; 3],
    /// Measurement noise: range / cartesian residual sigma (m).
    pub range_noise: Num,
    /// Measurement noise: bearing sigma (rad).
    pub bearing_noise: Num,
    /// Resample when ESS < ratio * N. Set to 0.0 to never resample.
    pub resample_ess_ratio: Num,
    /// Fraction of particles re-injected uniformly after resampling (0..1).
    pub random_inject_ratio: Num,
    /// Gating: reject observations with residual beyond sigma * gate_sigma
    /// (0.0 disables gating).
    pub gate_sigma: Num,
    /// "auto" | "cuda" | "cpu".
    pub backend: BackendKind,
    /// Deterministic seed (0 = entropy).
    pub seed: u64,
}

#[derive(Clone, Copy, Debug, PartialEq, Eq, Structural)]
pub enum BackendKind {
    Auto,
    Cuda,
    Cpu,
}

impl BackendKind {
    /// The kind that a word names: anything but "cuda" and "cpu" is `Auto`.
    pub fn parse(s: &str) -> (r: Self)
        ensures
            r == (if s@ == "cuda"@ {
                BackendKind::Cuda
            } else if s@ == "cpu"@ {
                BackendKind::Cpu
            } else {
                BackendKind::Auto
            }),
    {
        let word: String = s.to_owned();
        if word == "cuda".to_owned() {
            BackendKind::Cuda
        } else if word == "cpu".to_owned() {
            BackendKind::Cpu
        } else {
            BackendKind::Auto
        }
    }
}

impl PfConfig {
    /// The configuration that a filter starts from.
    pub open spec fn is_default(self) -> bool {
        &&& self.particle_count == 4096
        &&& self.trans_noise@ == seq![num(P05), num(P05), num(P02)]
        &&& self.rot_noise@ == seq![num(P02), num(P02), num(P03)]
        &&& self.range_noise == num(P05)
        &&& self.bearing_noise == num(P02)
        &&& self.resample_ess_ratio == num(HALF)
        &&& self.random_inject_ratio == num(ZERO)
        &&& self.gate_sigma == num(ZERO)
        &&& self.backend == BackendKind::Auto
        &&& self.seed == 42
    }
}

impl Default for PfConfig {
    fn default() -> (r: Self)
        ensures
            r.is_default(),
    {
        let r = PfConfig {
            particle_count: 4096,
            trans_noise: [num(P05), num(P05), num(P02)],
            rot_noise: [num(P02), num(P02), num(P03)],
            range_noise: num(P05),
            bearing_noise: num(P02),
            resample_ess_ratio: num(HALF),
            random_inject_ratio: num(ZERO),
            gate_sigma: num(ZERO),
            backend: BackendKind::Auto,
            seed: 42,
        };
        assert(r.trans_noise@ =~= seq![num(P05), num(P05), num(P02)]);
        assert(r.rot_noise@ =~= seq![num(P02), num(P02), num(P03)]);
        r
    }
}

} // verus!
