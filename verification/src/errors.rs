use vstd::prelude::*;

verus! {

/// Every failure the object store surfaces to a caller.
///
/// The codec errors (`Truncated`, `BadMagic`, ...) come from reading bytes;
/// the remaining variants are policy errors recorded by an `EventBuilder`
/// before signing.
#[derive(Debug, Clone, PartialEq, Eq)]
pub enum ObjectStoreError {
    ItemTypeParseError,
    Unknown,
    Truncated,
    BadMagic,
    UnsupportedVersion,
    UnknownEnvelopeTag,
    LengthMismatch,
    InvalidUtf8,
    CompressionError,
    IoError,
    SignatureInvalid,
    RepeatedDate,
    RemovedAuthorityDoesNotExist(Vec<u8>),
    YankedVersionDoesNotExist(Vec<u8>),
    UnyankedVersionNotYanked(Vec<u8>),
    TaggedVersionDoesNotExist(Vec<u8>),
    AuthorityNameConflict(Vec<u8>),
    NotAuthoritative,
}

} // verus!
