//! Tunable parameters of the evolutionary loop.
//!
//! All magnitudes, rates and thresholds are fixed-point micro-units
//! (`num::FX_ONE` is 1.0); rates are probabilities in `[0, FX_ONE]`.

use vstd::prelude::*;

verus! {

/// Settings for how the population evolves.
pub struct NeatSettings {
    /// Initial connection weights are sampled from `[-weight, weight)`.
    pub weight: i64,
    /// A mutated weight is perturbed by a value from
    /// `[-weight_mutate, weight_mutate)`.
    pub weight_mutate: i64,
    /// Intended cap on weight magnitude. Like the mutation operators
    /// themselves, this layer does not enforce it; weights only saturate
    /// at the `i64` range.
    pub weight_max: i64,
    /// Chance that an enabled connection's weight is perturbed.
    pub weight_mutate_rate: i64,
    /// Chance that a new connection is attempted.
    pub add_connection_rate: i64,
    /// Chance that a connection is split by a new node.
    pub add_node_rate: i64,
    /// A mutated activation is perturbed by a value from
    /// `[-activation_mutate, activation_mutate)`.
    pub activation_mutate: i64,
    /// Chance that a node's activation coefficient is perturbed.
    pub activation_mutate_rate: i64,
    /// Weight of differing connections in the species distance.
    pub connections_diff: i64,
    /// Weight of weight differences in the species distance.
    pub weight_diff: i64,
    /// Two genomes closer than this are the same species.
    pub species_threshold: i64,
    /// Forbid a connection whose reverse already exists.
    pub feedforward: bool,
    /// Re-evaluate every organism each generation.
    pub reset_fitness: bool,
}

impl NeatSettings {
    /// The sampling ranges must be non-empty.
    pub open spec fn wf(self) -> bool {
        &&& self.weight >= 1
        &&& self.weight_mutate >= 1
        &&& self.activation_mutate >= 1
    }

    /// The default configuration as a value.
    pub open spec fn default_spec() -> NeatSettings {
        NeatSettings {
            weight: 1_000_000,
            weight_mutate: 2_000_000,
            weight_max: 10_000_000,
            weight_mutate_rate: 800_000,
            add_connection_rate: 350_000,
            add_node_rate: 150_000,
            activation_mutate: 50_000,
            activation_mutate_rate: 100_000,
            connections_diff: 500_000,
            weight_diff: 100_000,
            species_threshold: 700_000,
            feedforward: true,
            reset_fitness: false,
        }
    }

    /// A reasonable general-purpose configuration.
    pub fn default() -> (r: NeatSettings)
        ensures
            r == Self::default_spec(),
            r.weight == 1_000_000,
            r.weight_mutate == 2_000_000,
            r.weight_max == 10_000_000,
            r.weight_mutate_rate == 800_000,
            r.add_connection_rate == 350_000,
            r.add_node_rate == 150_000,
            r.activation_mutate == 50_000,
            r.activation_mutate_rate == 100_000,
            r.connections_diff == 500_000,
            r.weight_diff == 100_000,
            r.species_threshold == 700_000,
            r.feedforward == true,
            r.reset_fitness == false,
            r.wf(),
    {
        NeatSettings {
            weight: 1_000_000,
            weight_mutate: 2_000_000,
            weight_max: 10_000_000,
            weight_mutate_rate: 800_000,
            add_connection_rate: 350_000,
            add_node_rate: 150_000,
            activation_mutate: 50_000,
            activation_mutate_rate: 100_000,
            connections_diff: 500_000,
            weight_diff: 100_000,
            species_threshold: 700_000,
            feedforward: true,
            reset_fitness: false,
        }
    }
}

} // verus!
