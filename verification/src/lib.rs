//! 3D Monte Carlo localization from point landmarks.
//!
//! The filter tracks a full 6-DoF pose (position + quaternion attitude) and
//! accepts landmark observations as body-frame Cartesian offsets or
//! range+bearing.
//!
//! - [`particle_filter`]: the backend trait and the filter that drives one
//! - [`cpu`]: the parallel CPU backend (always available), built from
//!   [`motion`], [`likelihood`], [`weights`], [`resampling`] and [`moments`]
//! - [`cuda`], [`device`]: the CUDA backend, what is sent to it and how its
//!   answers are read
//! - [`global_loc`]: global localization over the occupancy grids of [`grid`],
//!   which [`pgm`] and [`map_yaml`] read
//! - [`sim`]: deterministic fixtures
//! - [`repeat`], [`ray_laws`], [`gl_laws`], [`fit_laws`], [`map_laws`]: what
//!   holds where the arithmetic answers equal arguments alike, or keeps signs
//!   and order
//! - [`exact`]: arithmetic that never rounds, and what then is computed:
//!   [`motion_laws`], [`weight_laws`], [`moment_laws`], [`grid_laws`] and
//!   [`sim_laws`]
//! - [`text_laws`]: what map texts, pictures and their descriptions say
//! - [`filter_laws`], [`cuda_laws`]: what calls of the filter and of its parts
//!   do, and what the kernels of a device are called with
//!
//! Numbers are [`num::Num`]s, binary64 bit patterns that the library compares
//! and negates itself ([`num_laws`] says what that means); what rounds goes
//! through [`numerics::Numerics`].
pub mod config;
pub mod cpu;
pub mod cuda;
pub mod cuda_laws;
pub mod device;
pub mod exact;
pub mod filter_laws;
pub mod fit_laws;
pub mod gl_laws;
pub mod global_loc;
pub mod grid;
pub mod grid_laws;
pub mod landmark_map;
pub mod likelihood;
pub mod map_laws;
pub mod map_yaml;
pub mod moment_laws;
pub mod moments;
pub mod motion;
pub mod motion_laws;
pub mod num;
pub mod num_laws;
pub mod numerics;
mod par;
pub mod particle_filter;
pub mod pgm;
pub mod ranking;
pub mod ray_laws;
pub mod repeat;
pub mod resampling;
pub mod rng;
pub mod sim;
pub mod sim_laws;
pub mod text;
pub mod text_laws;
pub mod types;
pub mod weight_laws;
pub mod weights;

pub use config::PfConfig;
pub use landmark_map::LandmarkMap;
pub use particle_filter::{Backend, ParticleFilter};
pub use types::{Estimate, Observation, OdomDelta, Particle, Pose};
