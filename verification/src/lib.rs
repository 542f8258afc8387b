//! A single-player simulator for Snakes and Ladders.
//!
//! A [`Board`] fixes the geometry: its winning square and its routes, the
//! snakes and ladders. A [`Sim`] plays one token across a board with faces
//! drawn from a die source, and keeps count of rolls, climbs, slides and luck.
//! Batches of finished games are reduced to minimum, mean and maximum figures.

pub mod boards;
pub mod config;
pub mod dice;
pub mod luck;
pub mod play;
pub mod sim;
pub mod stats;

pub use boards::{BadRouteError, Board, Geometry};
pub use config::{load_cfg, ConfigFile};
pub use dice::{MockDie, Roll, Unrollable, DIE_SIZE};
pub use luck::compute_luck;
pub use play::Stats;
pub use sim::{RollResult, Sim};
pub use stats::{min_avg_max, run_sim_batch, Figure, Mean, MultiSimResult};
