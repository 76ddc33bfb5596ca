//! Simulation parameters.

use vstd::prelude::*;

verus! {

/// How many elders a section has, and the quorum a split must fill.
pub const GROUP_SIZE: usize = 8;

/// The age from which a node counts as an adult.
pub const ADULT_AGE: u8 = 4;

/// When a section is allowed to split.
#[derive(Clone, Copy, PartialEq, Eq, Structural, Debug)]
pub enum SplitStrategy {
    /// Split whenever the size threshold is reached.
    Always,
    /// Split only when both resulting children would be complete.
    Complete,
}

/// How a node's age weighs its chance of being dropped.
#[derive(Clone, Copy, PartialEq, Eq, Structural, Debug)]
pub enum DropDist {
    /// Each added year of age halves the drop probability.
    Exponential,
    /// The drop probability is inversely proportional to the age.
    ReverseProportional,
}

/// Configuration of one simulation run.
#[derive(Clone, Debug)]
pub struct Params {
    /// Age assigned to newly joining and rejoining nodes.
    pub init_age: u8,
    /// When sections split.
    pub split_strategy: SplitStrategy,
    /// Most young elders a section accepts; 0 disables the check.
    pub max_young: usize,
    /// Number of simulation steps.
    pub iterations: u64,
    /// Steps between console summaries.
    pub summary_intervals: u64,
    /// Per-step percentage probability of an add.
    pub p_add: u8,
    /// Per-step percentage probability of a drop.
    pub p_drop: u8,
    /// Where to write the structural time series, if anywhere.
    pub structure_output_file: Option<String>,
    /// The drop-weighting distribution.
    pub drop_dist: DropDist,
    /// Whether ages grow by one on splits and merges.
    pub inc_age: bool,
}

impl Default for Params {
    /// The documented default configuration.
    fn default() -> (r: Params)
        ensures
            r.init_age == 4u8,
            r.split_strategy == SplitStrategy::Complete,
            r.max_young == 1usize,
            r.iterations == 100000u64,
            r.summary_intervals == 10000u64,
            r.p_add == 90u8,
            r.p_drop == 7u8,
            r.structure_output_file is None,
            r.drop_dist == DropDist::Exponential,
            !r.inc_age,
    {
        Params {
            init_age: 4,
            split_strategy: SplitStrategy::Complete,
            max_young: 1,
            iterations: 100000,
            summary_intervals: 10000,
            p_add: 90,
            p_drop: 7,
            structure_output_file: None,
            drop_dist: DropDist::Exponential,
            inc_age: false,
        }
    }
}

} // verus!
