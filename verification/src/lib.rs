//! NEAT (NeuroEvolution of Augmenting Topologies): a population of
//! variable-topology neural networks evolved by mutation, crossover and
//! fitness-based selection against a user-supplied task.
//!
//! Weights, activation coefficients and fitness scores are fixed-point
//! numbers held in `i64` micro-units (one unit is `num::FX_ONE`), so every
//! score is totally ordered and all arithmetic is exact integer arithmetic
//! that saturates at the `i64` range.

pub mod genome;
pub mod imap;
pub mod innovation;
pub mod neat;
pub mod network;
pub mod num;
mod rng;
pub mod settings;

pub use genome::Genome;
pub use innovation::InnovationCounter;
pub use neat::Neat;
pub use neat::Organism;
pub use neat::retain_top_half;
pub use network::Network;
pub use network::Task;
pub use num::FX_ONE;
pub use num::sigmoid;
pub use settings::NeatSettings;
