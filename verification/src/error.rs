use vstd::prelude::*;

verus! {

/// Why an operation on objects failed.
#[derive(Clone, Copy, Debug, PartialEq, Eq, Structural)]
pub enum StoreError {
    /// A digest string is not 40 hexadecimal characters.
    InvalidDigest,
    /// The store holds no object under the digest.
    ObjectNotFound,
    /// Stored bytes are not a complete zlib stream.
    CorruptStream,
    /// Bytes are not an object in canonical form, or a tree payload is not a
    /// sequence of whole entries.
    CorruptObject,
    /// The object is of the other kind than the caller asked for.
    WrongObjectKind,
    /// The kind given for a new object is neither `blob` nor `tree`.
    EncodingError,
    /// A tree was asked for a directory that has nothing to store.
    EmptyTree,
    /// The compressor gave up on an object.
    CompressionFailed,
}

} // verus!
