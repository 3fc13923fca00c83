use vstd::prelude::*;

verus! {

/// Everything a recorder can refuse.
#[derive(Clone, Copy, PartialEq, Eq, Structural, Debug)]
pub enum Error {
    /// A tensor does not have the number of axes that the operation reads.
    UnexpectedRank { expected: usize, got: usize },
    /// The operation only exists on CUDA devices.
    CudaOnly,
    /// The operation does not support the element type.
    UnsupportedDType,
    /// An operand does not have the element type of the operation.
    UnexpectedDType,
    /// Source and destination do not fit together.
    ShapeMismatch,
    /// A chunk would run past the end of its buffer.
    ExceedsMaxSeq { pos: usize, len: usize, max_seq: usize },
    /// A table has no rows for some of the positions.
    BeyondTable { pos: usize, len: usize, rows: usize },
    /// The scan kernel would need more shared memory than there is.
    SharedMemory { bytes: usize },
    /// The last axis of a packed gate/up tensor is odd.
    OddLastDim,
    /// A layer that reuses key/value states ran before any layer stored them.
    SharedKvMissing,
    /// The shape-static decode path has not been switched on.
    StaticNotEnabled,
    /// The chunked prefill state has not been allocated.
    ChunkNotEnabled,
    /// The cross-attention buffers have not been filled.
    CrossNotPrepared,
    /// There is no token to process.
    EmptyPrompt,
    /// The prefill does not leave room for a decode step.
    PrefillTooLong { len: usize, max_seq: usize },
    /// The encoder output is longer than the cross-attention buffers.
    ExceedsCross { len: usize, capacity: usize },
    /// A packed weight row is not a whole number of quantization blocks.
    NotBlockAligned,
    /// A position table does not hold a square grid and a class row.
    UnexpectedPositions,
    /// There is nothing to join together.
    NothingToJoin,
}

} // verus!
