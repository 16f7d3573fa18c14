//! Piece exchange engine: content-addressed piece storage, peer availability
//! tracking, rarest-first scheduling, choke selection, erasure-coded
//! redundancy, whole-file deduplication and binary delta patches.

use vstd::prelude::*;

pub mod choke;
pub mod compress;
pub mod dedup;
pub mod delta;
pub mod erasure;
pub mod hashing;
pub mod orchestrator;
pub mod pieces;
pub mod tracker;

verus! {

/// Errors surfaced by the engine. Every failure is returned to the caller;
/// none is resolved silently inside the core.
#[derive(Clone, Copy, Debug, PartialEq, Eq, Structural)]
pub enum EngineError {
    /// The codec rejected its input.
    CompressionError,
    /// Invalid erasure-coding parameters.
    ConfigurationError,
    /// Reconstruction was attempted with fewer shards than data shards.
    InsufficientShardsError,
    /// A piece's bytes do not match its declared hash.
    IntegrityError,
    /// A catalog registration conflicts with an existing entry.
    DuplicateError,
    /// A delta patch was applied against a base it was not made for.
    PatchMismatchError,
}

} // verus!
