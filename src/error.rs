use vstd::prelude::*;

verus! {

/// Errors raised by the store's own logic. Failures of the file system are
/// reported by the caller that performs the I/O.
#[derive(Clone, Copy, Debug, PartialEq, Eq, Structural)]
pub enum KvError {
    /// A length prefix did not decode as a varint.
    DecodeError,
    /// A key or value is too long for its length prefix.
    EncodeError,
    /// An empty key, or a key that is not present.
    InvalidKey,
    /// A record type byte that names no known type.
    InvalidCommandType,
    /// A file name that is not a segment name, or no next segment name exists.
    InvalidPath,
    /// The end of the records of a segment.
    ReadEOF,
    /// A record whose stored checksum does not match its contents.
    InvalidCrc,
}

} // verus!
