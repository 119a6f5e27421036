//! Error types of the canonical encoder and of the object store.

use vstd::prelude::*;

verus! {

/// Why a sequence of bytes is not the encoding of an object.
#[derive(Clone, Copy, Debug, PartialEq, Eq, Structural)]
pub enum DecodeError {
    /// The stored file is not a complete zlib stream.
    Compression,
    /// No NUL byte ends the header, or the header names no kind.
    MissingHeader,
    /// The header's kind tag is none of `blob`, `tree`, `commit`.
    UnknownKind,
    /// Bytes that have to be text are not valid UTF-8.
    InvalidEncoding,
    /// A delimiter is missing, or fewer than 20 bytes are left for a child address.
    Truncated,
    /// A line of a revision before the blank separator is none of the known fields.
    UnknownField,
    /// The digest of the stored bytes is not the address they were asked for under.
    AddressMismatch,
}

/// Why an operation of the object store failed.
#[derive(Clone, Copy, Debug, PartialEq, Eq, Structural)]
pub enum StoreError {
    /// An address is not 40 lowercase hexadecimal digits.
    InvalidAddress,
    /// A field holds what cannot be stored in it: a space in the mode of an
    /// entry, `/` or NUL in its name, a line feed in the name of an author, a
    /// line feed, `<` or `>` in an e-mail address, or NUL in a message.
    InvalidField,
    /// No object is stored under the address.
    NotFound,
    /// The stored bytes do not decode.
    Corrupt(DecodeError),
    /// An object is already stored under the address.
    AlreadyExists,
    /// The storage, or the compressor, failed.
    Io,
    /// The encoding is longer than SHA-1 can digest.
    TooLarge,
}

} // verus!
