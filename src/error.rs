use vstd::prelude::*;

verus! {

/// Every way in which building, opening or reading an index can fail.
#[derive(Debug, Clone, Copy, PartialEq, Eq, Structural)]
pub enum CotarError {
    /// The magic number of a header or footer is not "COT\x02".
    InvalidMagic,
    /// The index image is shorter than its header says, or its header and footer disagree.
    TruncatedIndex,
    /// A byte range lies past the end of the archive.
    UnexpectedEof,
    /// Two paths have the same fingerprint.
    DuplicateFingerprint,
    /// A path hashes to zero, the fingerprint that marks an empty slot.
    ReservedFingerprint,
    /// A payload offset is not a multiple of the 512-byte tar block.
    UnalignedOffset,
    /// A block offset or a file size does not fit in 32 bits.
    EntryTooLarge,
    /// A hard link names a path that the index does not hold.
    MissingLinkTarget,
    /// The packing factor is below one.
    InvalidPackingFactor,
    /// The slot table would need 2^32 slots or more.
    TooLarge,
    /// A regular archive member is not found through the index.
    MissingEntry,
    /// The index gives a member another offset or size than the archive.
    EntryMismatch,
    /// An input or output file name does not have the expected extension.
    ConverterInputMismatch,
    /// Dropping duplicates was asked for without deduplication.
    ConflictingOptions,
}

} // verus!
