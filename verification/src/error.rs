//! The errors of loading, building and querying embeddings.

use vstd::prelude::*;

verus! {

/// Why a load, a construction or a query failed.
#[derive(Clone, Copy, Debug, PartialEq, Eq, Structural)]
pub enum Error {
    /// A chunk starts with an identifier that names no chunk kind.
    UnknownChunkIdentifier { found: u32 },
    /// A chunk of one kind was found where another was expected. Both are
    /// given by their identifier on disk.
    ChunkIdentifierMismatch { expected: u32, found: u32 },
    /// The data ends before a field, a text or a declared length is
    /// complete.
    TruncatedData,
    /// Text that must be UTF-8 is not.
    InvalidUtf8,
    /// A header cannot be understood: a count is no number, the magic
    /// number is that of another format, or a field names nothing known.
    MalformedHeader,
    /// The element type of a numeric chunk is not 32-bit floating point.
    UnsupportedTypeId { found: u32 },
    /// Memory-mapped matrix data does not start on an element boundary, or
    /// its length does not agree with its shape.
    MmapAlignmentViolation,
    /// A mutation was requested of storage that is mapped read-only.
    MutationOnReadOnlyStorage,
    /// N-gram lengths with a minimum of zero or above the maximum.
    InvalidNgramRange,
    /// A bucket exponent above 64, or buckets that are none or too many to
    /// be addressed behind the words.
    InvalidBucketExponent,
    /// A matrix does not hold what its shape says or does not have the
    /// rows that the vocabulary addresses, or there is not a norm for
    /// each row.
    ShapeMismatch,
    /// A query names a word that the vocabulary cannot resolve.
    WordNotFound,
    /// The data uses a feature that is not supported, such as a quantized
    /// matrix, a pruned dictionary or a newer version of a format.
    UnsupportedFeature,
    /// A name that is not the name of a file format.
    UnknownFormat,
}

} // verus!
