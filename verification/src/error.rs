//! What can be wrong with an MP4 file.

use vstd::prelude::*;

verus! {

/// A reason to refuse an MP4 structure.
#[derive(Debug, Clone, Copy, PartialEq, Eq)]
pub enum Mp4Error {
    /// Fewer than eight bytes are left where an atom should start.
    TruncatedHeader,
    /// An atom announces a 64-bit size that does not fit in front of the limit.
    TruncatedExtendedHeader,
    /// The size of an atom is not representable in memory.
    AtomTooLarge,
    /// The end of an atom is not representable in memory.
    AtomEndOverflow,
    /// An atom is smaller than its own header or reaches past the limit.
    InvalidAtomSize { at: usize, kind: [u8; 4], size: usize, header: usize, limit: usize },
    /// The top level ends before a complete `moov` atom.
    NoCompleteMoov,
    /// An atom lacks a child that it needs.
    MissingChild { parent: [u8; 4], child: [u8; 4] },
    /// No track describes `aimd` samples.
    NoAimdTrack,
    /// A sample description is too small or reaches past its table.
    InvalidStsdEntry,
    /// The sample table has neither `stco` nor `co64`.
    NoChunkOffsets,
    /// A chunk offset is not representable in memory.
    ChunkOffsetTooLarge,
    /// The sample-to-chunk table is empty.
    NoStscEntries,
    /// A chunk comes before the first entry of the sample-to-chunk table.
    ChunksNotCovered,
    /// The size of a chunk is not representable in memory.
    ChunkSizeOverflow,
    /// The number of a sample is not representable in memory.
    SampleIndexOverflow,
    /// The sample-to-chunk and the sample size tables count different samples.
    SampleCountMismatch,
    /// A track holds several chunk offset tables, or none.
    OffsetTableCount,
    /// A chunk offset table has another number of entries than there are offsets.
    OffsetCountChanged,
    /// A chunk offset does not fit in the 32 bits of an `stco` entry.
    OffsetExceedsStco,
    /// The `moov` atom outgrows a 32-bit size.
    MoovTooLarge,
    /// The `moov` atom has a 64-bit size field.
    ExtendedMoov,
    /// An atom is shorter than a header.
    TruncatedAtom,
    /// An integer reaches past the data.
    TruncatedInteger,
    /// A byte that has to be there lies outside the data.
    OutOfBounds,
}

/// A reason why a track cannot be spliced into another file.
#[derive(Debug, Clone, Copy, PartialEq, Eq)]
pub enum SpliceError {
    /// A structure of one of the two files is refused.
    Mp4(Mp4Error),
    /// The top level of the transcoded file is refused.
    OutputAtoms(Mp4Error),
    /// The transcoded file has no `moov` atom.
    OutputNoMoov,
    /// The `moov` atom of the transcoded file is not its last atom.
    MoovNotLast,
    /// The size of all chunks together is not representable in memory.
    PayloadOverflow,
    /// The size of the chunks with an atom header is not representable in memory.
    MdatOverflow,
    /// The chunks do not fit in an atom with a 32-bit size.
    PayloadTooLarge,
    /// The end of a chunk is not representable in memory.
    ChunkOverflow,
    /// A chunk reaches past the source file.
    ChunkOutside,
    /// The place of a chunk in the new file is not representable in memory.
    DestinationOverflow,
}

} // verus!
