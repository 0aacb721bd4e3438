//! A checkpointable key-value map over a flat, byte-keyed store.
//!
//! The snapshot map keeps a current-value table and, depending on a
//! checkpoint strategy, a changelog of pre-write values keyed by
//! (key, height), from which the value in force at an earlier height can be
//! reconstructed by a single ascending range scan.
use vstd::prelude::*;

pub mod bytes;
pub mod store;
pub mod snapshot;

verus! {

/// The failures a snapshot-map operation can surface.
#[derive(Clone, Copy, Debug, PartialEq, Eq, Structural)]
pub enum SnapshotError {
    /// A required value was absent.
    NotFound,
    /// Stored bytes did not decode to the expected shape.
    ParseError,
    /// The configured checkpoint strategy does not support the operation.
    StrategyUnsupported,
}

/// Policy deciding which writes additionally record a changelog entry.
#[derive(Clone, Copy, Debug, PartialEq, Eq, Structural)]
pub enum Strategy {
    /// Record a changelog entry on every mutation.
    EveryBlock,
    /// Record nothing: the map degenerates to a plain current-value map.
    Never,
    /// Reduced-write checkpointing keyed off an explicit checkpoint set;
    /// declared but not implemented, so every write under it fails loudly.
    Selected,
}

} // verus!
