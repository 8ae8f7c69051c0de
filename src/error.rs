//! The error kinds that the library reports.

use vstd::prelude::*;

verus! {

/// Which checksum disagreed.
#[derive(Clone, Copy, Debug, PartialEq, Eq, Structural)]
pub enum ChecksumScope {
    /// The compressed command stream of a patch file.
    PatchPayload,
    /// A file of the installation that a patch modifies, before the change.
    SourceFile,
    /// A file that a patch produced, after the change.
    TargetFile,
}

/// Everything that can go wrong while reading an installer or a patch.
#[derive(Clone, Copy, Debug, PartialEq, Eq, Structural)]
pub enum Error {
    /// A magic number did not match.
    BadMagic,
    /// No known installer format was found in the scan window.
    FormatUnknown,
    /// A table entry could not be decoded.
    MalformedEntry,
    /// The input ended inside a structure.
    TruncatedStream,
    /// A checksum disagreed with the recorded one.
    ChecksumMismatch { expected: u32, got: u32, scope: ChecksumScope },
    /// A block tag that no rule decodes.
    UnknownBlock,
    /// A modify event arrived without an open modify transaction.
    ProtocolViolation,
    /// The zlib stream could not be decompressed.
    Decompress,
    /// A file that an operation needs is not present.
    MissingFile,
    /// Reading or writing outside the library failed.
    Io,
    /// The extracted files hold no payload kind that can be expanded.
    UnknownPayload,
}

} // verus!
