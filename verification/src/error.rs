use vstd::prelude::*;

verus! {

/// The error kinds surfaced by the secret-sharing core.
#[derive(Clone, Copy, Debug, PartialEq, Eq, Structural)]
pub enum Error {
    /// A header field failed to parse as decimal, or the header was truncated.
    MalformedHeader,
    /// A shard header carries a version other than the supported one.
    UnsupportedVersion,
    /// Shard headers disagree on the prime.
    DifferingPrimes,
    /// Shard headers disagree on the original filename.
    DifferingFilename,
    /// The original filename recorded in a shard header is too long.
    FilenameTooLong,
    /// Two shards carry the same index.
    DuplicateIndex,
    /// Shard files do not all have the same byte length.
    MismatchedFileLengths,
    /// The body segments following the shard headers have unequal lengths.
    MismatchedBufferSizes,
    /// A combined body chunk has odd byte length.
    OddBuffer,
    /// Fewer than two points were supplied to the interpolator.
    InsufficientInputs,
    /// A y-value at least as large as the prime was observed.
    PrimeTooSmall,
    /// The per-shard y-sequences have unequal lengths.
    DifferingBufferLengths,
    /// A zero divisor reached the modular inverse (duplicate x-values).
    ArithmeticError,
    /// A computed value does not fit the fixed-width integer it must be
    /// coerced to.
    OverflowError,
    /// A shard payload has odd byte length.
    MalformedShard,
}

} // verus!
