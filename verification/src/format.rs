//! What an encoded stream is: the plain stream of a value, and what the
//! compression stage may make of it.

use vstd::prelude::*;
use crate::compress::{is_compressed_of, unwrap_stream, COMPRESS_MIN};
use crate::errors::ErrorView;
use crate::grammar::{payload, stream};
use crate::parse::parse_stream;
use crate::value::ValueView;
use crate::wire::{FLAG_COMPRESSED, FORMAT_VERSION, MAGIC_0, MAGIC_1};

verus! {

/// The uncompressed stream of `v`: header with the given flags, string
/// table and payload. Its length does not depend on the flags.
pub open spec fn stream_of(v: ValueView, flags: u8) -> Result<Seq<u8>, ErrorView> {
    match payload(v) {
        Ok(e) => Ok(stream(flags, e.keys, e.bytes)),
        Err(e) => Err(e),
    }
}

/// Whether the stream of `v` goes through the compressor: only on request,
/// and only if it is longer than `COMPRESS_MIN` bytes.
pub open spec fn compresses(v: ValueView, compress: bool) -> bool {
    compress && stream_of(v, 0) is Ok && stream_of(v, 0)->Ok_0.len() > COMPRESS_MIN
}

/// Why encoding `v` fails, if it does: the first failure met while writing
/// the payload, or a stream too long for the compressor's 32-bit sizes.
pub open spec fn encode_failure(v: ValueView, compress: bool) -> Option<ErrorView> {
    match stream_of(v, 0) {
        Err(e) => Some(e),
        Ok(plain) => if compresses(v, compress) && plain.len() > u32::MAX {
            Some(ErrorView::LengthOverflow)
        } else {
            None
        },
    }
}

/// `out` is an encoding of `v`. Without compression it is the plain stream
/// with the compressed flag clear. With compression it is what the
/// compression stage makes of the stream with the flag set; the compressor
/// chooses the bytes, so this is a relation and not a function.
pub open spec fn is_encoding_of(out: Seq<u8>, v: ValueView, compress: bool) -> bool {
    &&& encode_failure(v, compress) is None
    &&& if compresses(v, compress) {
        is_compressed_of(out, stream_of(v, FLAG_COMPRESSED)->Ok_0)
    } else {
        out == stream_of(v, 0)->Ok_0
    }
}

/// The stream starts with the magic bytes.
pub open spec fn has_magic(b: Seq<u8>) -> bool {
    b.len() >= 2 && b[0] == MAGIC_0 && b[1] == MAGIC_1
}

/// The stream starts as an uncompressed stream of this version does: the
/// magic, flags that are all clear, and the version.
pub open spec fn is_plain(b: Seq<u8>) -> bool {
    has_magic(b) && b.len() >= 4 && b[2] == 0 && b[3] == FORMAT_VERSION
}

/// The value that a stream stands for.
///
/// A stream that starts as a plain one is read as it is. Any other stream
/// is taken for the output of the compression stage: what it unpacks to is
/// read. Where it does not unpack, a stream that at least starts with the
/// magic is read as it is, which tells a stream of another version from
/// one that is damaged.
pub open spec fn decode_spec(b: Seq<u8>) -> Result<ValueView, ErrorView> {
    if is_plain(b) {
        parse_stream(b)
    } else {
        match unwrap_stream(b) {
            Some(inner) => parse_stream(inner),
            None => if has_magic(b) {
                parse_stream(b)
            } else {
                Err(ErrorView::DecompressionFailed)
            },
        }
    }
}

} // verus!
