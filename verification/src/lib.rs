//! BFast: a compact, self-describing binary encoding for dynamically typed
//! values, with interned record keys and an optional LZ4 compression stage.
//!
//! # The stream
//!
//! All numbers are little-endian. A stream is a header of six bytes, the
//! string table, and the payload of one value:
//!
//! | Bytes | Meaning |
//! |---|---|
//! | 0–1 | the magic, `BF` |
//! | 2 | flags; bit 0 says that the stream went through the compressor |
//! | 3 | the format version, 1 |
//! | 4–5 | the number of string-table entries |
//!
//! Each string-table entry is a length byte and that many bytes of UTF-8;
//! the entries stand in the order of their ids. In the payload every value
//! starts with its tag:
//!
//! | Tag | Value | Behind the tag |
//! |---|---|---|
//! | `0x10` | null | |
//! | `0x20`, `0x21` | false, true | |
//! | `0x30`–`0x3F` but `0x38` | an integer from 0 to 15 but 8 | |
//! | `0x38` | any other integer | eight bytes, two's complement |
//! | `0x40` | float | the eight bytes of the `f64` |
//! | `0x50` | text | 32-bit length, UTF-8 |
//! | `0x60` | sequence | 32-bit count, the elements |
//! | `0x70` | record | per pair the key's id in 32 bits and the value; then `0x7F` |
//! | `0x80` | bytes | 32-bit length, the bytes |
//! | `0x90` | numeric array | 32-bit count, the eight bytes of each `f64` |
//! | `0xD1`, `0xD2`, `0xD3` | date-time, date, time | 32-bit length, ISO-8601 text |
//! | `0xD4` | UUID | 32-bit length, hexadecimal text |
//! | `0xD5` | decimal | 32-bit length, decimal text |
//!
//! On request a stream longer than 256 bytes is compressed whole, header
//! included: below 1,000,000 bytes as one LZ4 block behind its size, from
//! there on as a frame of the total size, the number of chunks, and each
//! chunk of 256 KiB as a block of its own behind its compressed length.
//!
//! # Limits of the format
//!
//! Two things the format cannot tell apart, and the decoder settles them
//! one way. A key id whose low byte is `0x7F` reads as the end of a record,
//! so a stream comes back only while its string table holds at most 127
//! keys. A compressed stream of exactly `0x0100_4642` bytes starts with the
//! four bytes of a plain header and is read as plain.
//!
//! # The modules
//!
//! [`value`] holds the values, [`grammar`] and [`parse`] say which bytes
//! stand for which value, [`engine`] writes and [`decode`] reads, with
//! [`intern`] and [`compress`] beside them. [`laws`], [`inverse`] and
//! [`layout`] hold what is proved of the whole: that decoding undoes
//! encoding, and that the batch path agrees with the generic one.

pub mod allocator;
pub mod compress;
pub mod decode;
pub mod engine;
pub mod errors;
pub mod format;
pub mod grammar;
pub mod intern;
pub mod inverse;
pub mod laws;
pub mod layout;
pub mod parse;
pub mod value;
pub mod wire;

pub use allocator::PyMemAllocator;
pub use decode::decode;
pub use engine::{encode, BFast};
pub use errors::{BFastError, ErrorView};
pub use value::{TimeKind, Value, ValueView};
