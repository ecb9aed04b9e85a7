use vstd::prelude::*;

verus! {

/// Why a `SQUASH EPOCH` header could not be read.
#[derive(Debug, Clone, Copy, PartialEq, Eq)]
pub enum SquashEpochParseError {
    /// The keyword is followed by no checksum at all.
    MissingChecksums,
    /// An entry of the comma-separated list is empty (after trimming).
    EmptyChecksumEntry,
    /// A hex checksum has an odd number of bytes; the byte count is carried.
    OddHexLength(usize),
    /// A byte of a hex checksum that is not a hexadecimal digit.
    InvalidHexDigit(u8),
}

/// Errors raised while reading migrations.
#[derive(Debug, Clone, Copy, PartialEq, Eq)]
pub enum MigrateError {
    /// A `SQUASH EPOCH` header is present but malformed.
    SquashEpochParse(SquashEpochParseError),
}

} // verus!
