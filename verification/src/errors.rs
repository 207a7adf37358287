use vstd::prelude::*;

verus! {

/// Everything that can go wrong in the codec. Each variant carries the
/// context a caller needs to decide whether to retry with other
/// parameters or give up; none of them is a panic.
#[derive(Clone, Copy, Debug, PartialEq, Eq, Structural)]
pub enum CodecError {
    /// The compression envelope is truncated or otherwise corrupt, so no
    /// entry could be extracted from it.
    MalformedContainer,
    /// The shard split is unusable: a zero-sized data or parity shard, or
    /// more one-byte shards than the Reed-Solomon code's field supports.
    /// Carries the offending data-shard and parity-shard sizes.
    CodecConfigError(usize, usize),
    /// Majority vote across the duplicated blocks was inconclusive.
    /// Carries the first byte offset within a block at which no single
    /// value was strictly most frequent.
    ReconstructionError(usize),
    /// Erasure correction cannot repair the block: either too few shard
    /// positions survive, or the voted block fails the parity check.
    EccDecodeError,
    /// The compression envelope's writer failed; surfaced from the
    /// underlying io interface, not a property of the payload.
    IoError,
}

} // verus!
