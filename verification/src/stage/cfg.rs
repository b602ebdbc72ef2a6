//! The settings of the stages.
//!
//! Every quantity is an integer. A slew is given in thousandths of its unit
//! and the mutation rate in parts per million, so that the settings can be
//! compared exactly.
use vstd::prelude::*;

verus! {

/// The settings of topology generation.
#[derive(Clone, Copy, Debug, PartialEq, Eq, Structural)]
pub struct GenTopologyCfg {
    /// The greatest number of children that a merge may have.
    pub max_branch: u32,
}

/// The settings of buffering.
#[derive(Debug, PartialEq, Eq)]
pub struct BufferingCfg {
    /// The catalogue of buffer models. Gene `g > 0` names model `g - 1`.
    pub buffer_list: Vec<String>,
    /// The slew at the clock source, in thousandths.
    pub input_slew: u32,
    /// The greatest slew that a level may see, in thousandths.
    pub max_slew: u32,
    /// Where the table of slews and delays is kept.
    pub rho_matrix_path: String,
    /// The number of candidates in a generation.
    pub pop_size: usize,
    /// The number of candidates that pass into the next generation as they are.
    pub elite_size: usize,
    /// The chance that a candidate mutates, in parts per million.
    pub mutation_rate: u32,
    /// The number of generations.
    pub generations: usize,
}

/// The settings of a run, for the clock net `name`.
#[derive(Debug, PartialEq, Eq)]
pub struct CtsCfg {
    pub name: String,
    pub stage1_cfg: GenTopologyCfg,
    pub stage2_cfg: BufferingCfg,
}

} // verus!
