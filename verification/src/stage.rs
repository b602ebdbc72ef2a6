//! The synthesis stages, in the order in which they run.
pub mod buffering;
pub mod cfg;
pub mod gen_topology;
pub mod levels;
pub mod partition;
pub mod planner;
pub mod routing;
