//! A discrete cellular-automaton engine whose rules are meant to be searched
//! over: cells hold small integer states, a fixed ordered rule list drives a
//! synchronous step, and the engine keeps enough history to score a run for
//! coherent motion.

pub mod model;
pub mod rng;
pub mod rule;
pub mod stats;

pub use model::ConfigError;
pub use model::Model;
pub use rule::Comparison;
pub use rule::Neighborhood;
pub use rule::Rule;
pub use rule::State;
pub use stats::Stats;
