//! The failures an encode or decode call can end in.

use vstd::prelude::*;

verus! {

/// Why an encode or decode call was abandoned. A failed call hands back no
/// partial buffer and no partial value.
#[derive(Debug, PartialEq, Eq)]
pub enum BFastError {
    /// Decode: the stream does not start with the two magic bytes `BF`.
    InvalidMagic,
    /// Decode: the header names a format version other than 1.
    UnsupportedVersion(u8),
    /// Decode: the compression wrapper could not be undone.
    DecompressionFailed,
    /// Decode: the stream ends inside the field that starts at this offset.
    UnexpectedEOF(usize),
    /// Encode: a record key is longer than the 255 bytes a string-table
    /// entry can hold.
    StringTooLong(String),
    /// Encode or decode: sequences and records are nested deeper than the
    /// ceiling allows.
    RecursionLimitExceeded,
    /// Internal signal of the batch path: the sequence is not a batch of
    /// records, so the generic path must be taken. Never returned by
    /// `encode_packed` or `decode`.
    NotHomogeneousBatch,
    /// Encode: a length or count does not fit the width of its wire field.
    LengthOverflow,
    /// Decode: the byte at this offset cannot stand where the grammar puts
    /// it (an unknown tag, a key id outside the string table, text that is
    /// not UTF-8, or bytes after the end of the value).
    Malformed(usize),
}

/// The mathematical content of a [`BFastError`].
pub enum ErrorView {
    InvalidMagic,
    UnsupportedVersion(u8),
    DecompressionFailed,
    UnexpectedEOF(int),
    StringTooLong(Seq<char>),
    RecursionLimitExceeded,
    NotHomogeneousBatch,
    LengthOverflow,
    Malformed(int),
}

impl View for BFastError {
    type V = ErrorView;

    open spec fn view(&self) -> ErrorView {
        match self {
            BFastError::InvalidMagic => ErrorView::InvalidMagic,
            BFastError::UnsupportedVersion(n) => ErrorView::UnsupportedVersion(*n),
            BFastError::DecompressionFailed => ErrorView::DecompressionFailed,
            BFastError::UnexpectedEOF(at) => ErrorView::UnexpectedEOF(*at as int),
            BFastError::StringTooLong(s) => ErrorView::StringTooLong(s@),
            BFastError::RecursionLimitExceeded => ErrorView::RecursionLimitExceeded,
            BFastError::NotHomogeneousBatch => ErrorView::NotHomogeneousBatch,
            BFastError::LengthOverflow => ErrorView::LengthOverflow,
            BFastError::Malformed(at) => ErrorView::Malformed(*at as int),
        }
    }
}

} // verus!
