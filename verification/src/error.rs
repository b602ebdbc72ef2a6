//! The error kinds that the synthesis stages report.
//!
//! Every stage either succeeds or leaves the clock tree as it found it and
//! returns one of these values; none of them is a reason to abort.
use vstd::prelude::*;

verus! {

/// Branch planning cannot produce a factor sequence.
#[derive(Clone, Copy, Debug, PartialEq, Eq, Structural)]
pub enum PlanningError {
    /// More than one sink has to be merged, but no factor lies in
    /// `2..=max_branch`.
    BranchLimitTooSmall { max_branch: u32 },
    /// The padded sink count, the product of the planned factors, does not
    /// fit in `usize`.
    CapacityExceeded,
}

/// A group of sinks cannot be split as requested.
#[derive(Clone, Copy, Debug, PartialEq, Eq, Structural)]
pub enum PartitionError {
    /// The requested branch factor is zero.
    ZeroBranch { label: u32 },
    /// The group has fewer members than the requested branch factor.
    TooFewMembers { label: u32, size: usize, branch: u32 },
    /// A child label `(branch - 1) * label + i` does not fit in `u32`.
    LabelOverflow { label: u32, branch: u32 },
}

/// The arena does not have the shape that buffering expects.
#[derive(Clone, Copy, Debug, PartialEq, Eq, Structural)]
pub enum StructuralError {
    /// The solution has a gene count other than the tree depth.
    GeneCountMismatch { expected: usize, found: usize },
    /// A node that has to become a buffer is not owned by a merge unit.
    UnexpectedOwner { level: usize, node: usize },
    /// A node that has to become a buffer is reached a second time: the
    /// arena is not a tree.
    NodeRevisited { level: usize, node: usize },
}

/// The evolutionary search cannot run, or its answer is unusable.
#[derive(Clone, Copy, Debug, PartialEq, Eq, Structural)]
pub enum OptimizationError {
    /// `pop_size` is zero.
    EmptyPopulation,
    /// `elite_size` is zero: no individual would survive a generation.
    NoElite,
    /// `elite_size` exceeds `pop_size`.
    EliteExceedsPopulation { pop_size: usize, elite_size: usize },
    /// `generations` is zero: the search would never rank its population.
    NoGenerations,
    /// The catalogue has more than 255 models, so a gene cannot name them all.
    CatalogueTooLarge { models: usize },
    /// `mutation_rate` exceeds a million parts per million.
    MutationRateOutOfRange { rate: u32 },
    /// A gene names a model beyond the end of the catalogue.
    GeneOutOfRange { level: usize, gene: u8 },
}

/// What topology generation reports: the failing stage's own error.
#[derive(Clone, Copy, Debug, PartialEq, Eq, Structural)]
pub enum TopologyError {
    Planning(PlanningError),
    Partition(PartitionError),
}

/// What buffering reports: the failing stage's own error.
#[derive(Clone, Copy, Debug, PartialEq, Eq, Structural)]
pub enum BufferingError {
    Structure(StructuralError),
    Search(OptimizationError),
}

} // verus!
