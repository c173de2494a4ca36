use vstd::prelude::*;

verus! {

/// Why a commit could not be turned into a snapshot.
#[derive(Clone, Copy, Debug, PartialEq, Eq, Structural)]
pub enum ScanError {
    /// A change names a path that the previous snapshot does not hold, or is
    /// of a kind that a tree diff does not produce.
    InvariantViolation,
    /// The commit time or its offset lies outside the representable range.
    TimestampOutOfRange,
}

/// Why an archive could not be read back.
#[derive(Clone, Copy, Debug, PartialEq, Eq, Structural)]
pub enum LoadError {
    /// An entry's framing disagrees with the bytes it holds.
    ArchiveCorrupt,
    /// A record is malformed.
    DecodeError,
    /// A sum of line counts does not fit in 64 bits.
    CountOverflow,
}

} // verus!
