use vstd::prelude::*;

pub mod aggregate;
pub mod coords;
pub mod geometry;
pub mod lookup;
pub mod pokes;
pub mod techniques;
pub mod world;

verus! {

/// How talkative a simulation run's console output is.
///
/// * `Low` - progress lines for each running simulation.
/// * `High` - everything `Low` prints plus timing details.
/// * `Silent` - nothing beyond the results themselves.
#[derive(Clone, PartialEq, Eq, Structural)]
pub enum Verbosity {
    Low,
    High,
    Silent,
}

/// Everything that can go wrong while evaluating a mining technique.
///
/// * `InvalidParameter` - a technique parameter that would make the layout
///   sample a coordinate twice or is non-positive; raised before any lookup.
/// * `OutOfRange` - a sampled coordinate addresses a chunk outside the owned
///   shard's 32 x 32 chunk grid.
/// * `UnknownTechnique` - a display label that names no known technique.
#[derive(Clone, Copy, PartialEq, Eq, Structural, Debug)]
pub enum MiningError {
    InvalidParameter,
    OutOfRange,
    UnknownTechnique,
}

} // verus!
