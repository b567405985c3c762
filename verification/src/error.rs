use vstd::prelude::*;

verus! {

/// Cause of a structural failure while decoding the archive index.
#[derive(Debug, Clone, Copy, PartialEq, Eq, Structural)]
pub enum ParseError {
    /// The index does not begin with the expected magic bytes.
    BadMagic,
    /// A header, table entry or record ends before its declared size.
    Truncated,
    /// A record or flag byte carries an unexpected tag value.
    BadTag,
    /// A child name is empty or holds a byte outside the printable
    /// separator-free range.
    BadName,
    /// A file record points past the end of the metadata table.
    BadFileIndex,
    /// An uncompressed entry declares different stored and actual sizes.
    SizeMismatch,
    /// A stored range would run past the largest representable offset.
    RangeOverflow,
    /// Bytes remain after the final record.
    TrailingData,
}

/// Cause of a failure while materializing a compressed entry.
#[derive(Debug, Clone, Copy, PartialEq, Eq, Structural)]
pub enum DecompressError {
    /// The stored range is not a well-formed compressed container, or the
    /// inner stream cannot be decoded.
    InvalidStream,
    /// The inner stream could not be read through to its end. The outside
    /// decoder reports corrupt streams of some kinds (its zstd path) this
    /// way rather than as a malformed stream.
    Io,
    /// Decoding succeeded but produced a different number of bytes than the
    /// index declared for the entry.
    LengthMismatch { found: u64, expected: u64 },
}

/// Every failure the filesystem reports to its callers.
#[derive(Debug, Clone, Copy, PartialEq, Eq, Structural)]
pub enum Error {
    /// The index bytes are structurally malformed.
    Parse(ParseError),
    /// A read was requested outside the data blob.
    Io,
    /// An on-disk size field does not fit the target numeric domain.
    SizeConvert,
    /// A compressed entry could not be materialized.
    Decompress(DecompressError),
    /// A path segment does not name any child.
    NotFound,
    /// A path names a file where a directory was required, or the reverse.
    WrongEntryKind,
}

} // verus!
