//! The tag grammar read backwards: which value a run of bytes stands for.

use vstd::prelude::*;
use vstd::utf8::{decode_utf8, valid_utf8};
use crate::errors::ErrorView;
use crate::value::{TimeKind, ValueView};
use crate::wire::{
    read16, read32, read64, untwos, FORMAT_VERSION, HEADER_LEN, MAGIC_0, MAGIC_1,
    MAX_RECURSION_DEPTH, TAG_BYTES, TAG_DATE, TAG_DATETIME, TAG_DECIMAL, TAG_FALSE, TAG_FLOAT,
    TAG_INT, TAG_INT_INLINE, TAG_NULL, TAG_NUMERIC_ARRAY, TAG_RECORD, TAG_RECORD_END,
    TAG_SEQUENCE, TAG_TEXT, TAG_TIME, TAG_TRUE, TAG_UUID,
};

verus! {

/// What reading one item gives: the item, and the offset of the byte behind
/// it.
pub struct Parsed<T> {
    pub item: T,
    pub next: int,
}

/// A 32-bit length at `at` and that many bytes behind it.
pub open spec fn parse_blob(b: Seq<u8>, at: int) -> Result<Parsed<Seq<u8>>, ErrorView> {
    if at + 4 > b.len() {
        Err(ErrorView::UnexpectedEOF(at))
    } else if at + 4 + read32(b, at) > b.len() {
        Err(ErrorView::UnexpectedEOF(at + 4))
    } else {
        Ok(Parsed { item: b.subrange(at + 4, at + 4 + read32(b, at)), next: at + 4 + read32(b, at) })
    }
}

/// A length-prefixed run of bytes at `at` that is UTF-8 text.
pub open spec fn parse_text(b: Seq<u8>, at: int) -> Result<Parsed<Seq<char>>, ErrorView> {
    match parse_blob(b, at) {
        Err(e) => Err(e),
        Ok(r) => if valid_utf8(r.item) {
            Ok(Parsed { item: decode_utf8(r.item), next: r.next })
        } else {
            Err(ErrorView::Malformed(at + 4))
        },
    }
}

/// A 32-bit count at `at` and that many 64-bit words behind it.
pub open spec fn parse_words(b: Seq<u8>, at: int) -> Result<Parsed<Seq<u64>>, ErrorView> {
    if at + 4 > b.len() {
        Err(ErrorView::UnexpectedEOF(at))
    } else if at + 4 + 8 * read32(b, at) > b.len() {
        Err(ErrorView::UnexpectedEOF(at + 4))
    } else {
        Ok(
            Parsed {
                item: Seq::new(read32(b, at), |i: int| read64(b, at + 4 + 8 * i) as u64),
                next: at + 4 + 8 * read32(b, at),
            },
        )
    }
}

/// How many bytes are left from `at` on.
pub open spec fn room(b: Seq<u8>, at: int) -> nat {
    if at < b.len() {
        (b.len() - at) as nat
    } else {
        0
    }
}

/// A tag that carries a small integer in its low four bits.
pub open spec fn is_inline_tag(tag: u8) -> bool {
    TAG_INT_INLINE <= tag <= 0x3F && tag != TAG_INT
}

/// Wraps the text read at `at + 1` into the value that `tag` announces.
pub open spec fn parse_tagged_text(tag: u8, b: Seq<u8>, at: int) -> Result<
    Parsed<ValueView>,
    ErrorView,
> {
    match parse_text(b, at + 1) {
        Err(e) => Err(e),
        Ok(r) => Ok(
            Parsed {
                item: if tag == TAG_TEXT {
                    ValueView::Text(r.item)
                } else if tag == TAG_DATETIME {
                    ValueView::Timestamp { kind: TimeKind::DateTime, text: r.item }
                } else if tag == TAG_DATE {
                    ValueView::Timestamp { kind: TimeKind::Date, text: r.item }
                } else if tag == TAG_TIME {
                    ValueView::Timestamp { kind: TimeKind::Time, text: r.item }
                } else if tag == TAG_UUID {
                    ValueView::Uuid(r.item)
                } else {
                    ValueView::Decimal(r.item)
                },
                next: r.next,
            },
        ),
    }
}

/// A tag that announces length-prefixed text.
pub open spec fn is_text_tag(tag: u8) -> bool {
    tag == TAG_TEXT || tag == TAG_DATETIME || tag == TAG_DATE || tag == TAG_TIME || tag == TAG_UUID
        || tag == TAG_DECIMAL
}

/// The value that starts at `at`, read at nesting depth `depth` with the
/// string table `keys`, or the first failure met on the way.
#[verifier::opaque]
pub open spec fn parse_value(b: Seq<u8>, at: int, keys: Seq<Seq<char>>, depth: nat) -> Result<
    Parsed<ValueView>,
    ErrorView,
>
    decreases MAX_RECURSION_DEPTH - depth, 0nat, 0nat,
{
    if at < 0 || at >= b.len() {
        Err(ErrorView::UnexpectedEOF(at))
    } else {
        let tag = b[at];
        if tag == TAG_NULL {
            Ok(Parsed { item: ValueView::Null, next: at + 1 })
        } else if tag == TAG_FALSE {
            Ok(Parsed { item: ValueView::Bool(false), next: at + 1 })
        } else if tag == TAG_TRUE {
            Ok(Parsed { item: ValueView::Bool(true), next: at + 1 })
        } else if is_inline_tag(tag) {
            Ok(Parsed { item: ValueView::Int((tag - TAG_INT_INLINE) as i64), next: at + 1 })
        } else if tag == TAG_INT {
            if at + 9 > b.len() {
                Err(ErrorView::UnexpectedEOF(at + 1))
            } else {
                Ok(Parsed { item: ValueView::Int(untwos(read64(b, at + 1))), next: at + 9 })
            }
        } else if tag == TAG_FLOAT {
            if at + 9 > b.len() {
                Err(ErrorView::UnexpectedEOF(at + 1))
            } else {
                Ok(Parsed { item: ValueView::Float(read64(b, at + 1) as u64), next: at + 9 })
            }
        } else if is_text_tag(tag) {
            parse_tagged_text(tag, b, at)
        } else if tag == TAG_BYTES {
            match parse_blob(b, at + 1) {
                Err(e) => Err(e),
                Ok(r) => Ok(Parsed { item: ValueView::Bytes(r.item), next: r.next }),
            }
        } else if tag == TAG_NUMERIC_ARRAY {
            match parse_words(b, at + 1) {
                Err(e) => Err(e),
                Ok(r) => Ok(Parsed { item: ValueView::NumericArray(r.item), next: r.next }),
            }
        } else if tag == TAG_SEQUENCE {
            if depth >= MAX_RECURSION_DEPTH {
                Err(ErrorView::RecursionLimitExceeded)
            } else if at + 5 > b.len() {
                Err(ErrorView::UnexpectedEOF(at + 1))
            } else {
                match parse_items(b, at + 5, read32(b, at + 1), keys, depth + 1) {
                    Err(e) => Err(e),
                    Ok(r) => Ok(Parsed { item: ValueView::Sequence(r.item), next: r.next }),
                }
            }
        } else if tag == TAG_RECORD {
            if depth >= MAX_RECURSION_DEPTH {
                Err(ErrorView::RecursionLimitExceeded)
            } else {
                match parse_pairs(b, at + 1, keys, depth + 1) {
                    Err(e) => Err(e),
                    Ok(r) => Ok(Parsed { item: ValueView::Record(r.item), next: r.next }),
                }
            }
        } else {
            Err(ErrorView::Malformed(at))
        }
    }
}

/// `count` values, one behind the other, from `at` on.
#[verifier::opaque]
pub open spec fn parse_items(
    b: Seq<u8>,
    at: int,
    count: nat,
    keys: Seq<Seq<char>>,
    depth: nat,
) -> Result<Parsed<Seq<ValueView>>, ErrorView>
    decreases MAX_RECURSION_DEPTH - depth, 1nat, count,
{
    if count == 0 {
        Ok(Parsed { item: Seq::empty(), next: at })
    } else if depth > MAX_RECURSION_DEPTH {
        Err(ErrorView::RecursionLimitExceeded)
    } else {
        match parse_value(b, at, keys, depth) {
            Err(e) => Err(e),
            Ok(head) => match parse_items(b, head.next, (count - 1) as nat, keys, depth) {
                Err(e) => Err(e),
                Ok(tail) => Ok(Parsed { item: seq![head.item] + tail.item, next: tail.next }),
            },
        }
    }
}

/// Pairs of a key id and a value from `at` on, up to the end tag of the
/// record. A value takes at least one byte, so every pair moves on.
#[verifier::opaque]
pub open spec fn parse_pairs(b: Seq<u8>, at: int, keys: Seq<Seq<char>>, depth: nat) -> Result<
    Parsed<Seq<(Seq<char>, ValueView)>>,
    ErrorView,
>
    decreases MAX_RECURSION_DEPTH - depth, 1nat, room(b, at),
{
    if at < 0 || at >= b.len() {
        Err(ErrorView::UnexpectedEOF(at))
    } else if b[at] == TAG_RECORD_END {
        Ok(Parsed { item: Seq::empty(), next: at + 1 })
    } else if at + 4 > b.len() {
        Err(ErrorView::UnexpectedEOF(at))
    } else if read32(b, at) >= keys.len() {
        Err(ErrorView::Malformed(at))
    } else if depth > MAX_RECURSION_DEPTH {
        Err(ErrorView::RecursionLimitExceeded)
    } else {
        match parse_value(b, at + 4, keys, depth) {
            Err(e) => Err(e),
            Ok(head) => if head.next <= at {
                Err(ErrorView::Malformed(at))
            } else {
                match parse_pairs(b, head.next, keys, depth) {
                    Err(e) => Err(e),
                    Ok(tail) => Ok(
                        Parsed {
                            item: seq![(keys[read32(b, at) as int], head.item)] + tail.item,
                            next: tail.next,
                        },
                    ),
                }
            },
        }
    }
}

/// `count` string-table entries from `at` on: each a length byte and that
/// many bytes of UTF-8.
pub open spec fn parse_table(b: Seq<u8>, at: int, count: nat) -> Result<
    Parsed<Seq<Seq<char>>>,
    ErrorView,
>
    decreases count,
{
    if count == 0 {
        Ok(Parsed { item: Seq::empty(), next: at })
    } else if at < 0 || at >= b.len() {
        Err(ErrorView::UnexpectedEOF(at))
    } else if at + 1 + b[at] > b.len() {
        Err(ErrorView::UnexpectedEOF(at + 1))
    } else if !valid_utf8(b.subrange(at + 1, at + 1 + b[at])) {
        Err(ErrorView::Malformed(at + 1))
    } else {
        match parse_table(b, at + 1 + b[at], (count - 1) as nat) {
            Err(e) => Err(e),
            Ok(tail) => Ok(
                Parsed {
                    item: seq![decode_utf8(b.subrange(at + 1, at + 1 + b[at]))] + tail.item,
                    next: tail.next,
                },
            ),
        }
    }
}

/// Reading a value takes at least one byte and ends within the stream, so
/// the check in `parse_pairs` that a pair moves on never fails.
pub proof fn lemma_parse_value_moves(b: Seq<u8>, at: int, keys: Seq<Seq<char>>, depth: nat)
    ensures
        parse_value(b, at, keys, depth) matches Ok(r) ==> at < r.next <= b.len(),
    decreases MAX_RECURSION_DEPTH - depth, 0nat, 0nat,
{
    reveal(parse_value);
    reveal(parse_items);
    reveal(parse_pairs);
    if 0 <= at < b.len() && depth < MAX_RECURSION_DEPTH {
        if b[at] == TAG_SEQUENCE && at + 5 <= b.len() {
            lemma_parse_items_moves(b, at + 5, read32(b, at + 1), keys, depth + 1);
        } else if b[at] == TAG_RECORD {
            lemma_parse_pairs_moves(b, at + 1, keys, depth + 1);
        }
    }
}

/// Reading values one behind the other ends within the stream.
pub proof fn lemma_parse_items_moves(
    b: Seq<u8>,
    at: int,
    count: nat,
    keys: Seq<Seq<char>>,
    depth: nat,
)
    requires
        0 <= at <= b.len(),
    ensures
        parse_items(b, at, count, keys, depth) matches Ok(r) ==> at <= r.next <= b.len(),
    decreases MAX_RECURSION_DEPTH - depth, 1nat, count,
{
    reveal(parse_value);
    reveal(parse_items);
    reveal(parse_pairs);
    if count > 0 && depth <= MAX_RECURSION_DEPTH {
        lemma_parse_value_moves(b, at, keys, depth);
        if let Ok(head) = parse_value(b, at, keys, depth) {
            lemma_parse_items_moves(b, head.next, (count - 1) as nat, keys, depth);
        }
    }
}

/// Reading the pairs of a record takes at least the end tag and ends
/// within the stream.
pub proof fn lemma_parse_pairs_moves(b: Seq<u8>, at: int, keys: Seq<Seq<char>>, depth: nat)
    ensures
        parse_pairs(b, at, keys, depth) matches Ok(r) ==> at < r.next <= b.len(),
    decreases MAX_RECURSION_DEPTH - depth, 1nat, room(b, at),
{
    reveal(parse_value);
    reveal(parse_items);
    reveal(parse_pairs);
    if 0 <= at < b.len() && b[at] != TAG_RECORD_END && at + 4 <= b.len() && depth
        <= MAX_RECURSION_DEPTH {
        lemma_parse_value_moves(b, at + 4, keys, depth);
        if let Ok(head) = parse_value(b, at + 4, keys, depth) {
            lemma_parse_pairs_moves(b, head.next, keys, depth);
        }
    }
}

/// What was read before, followed by what `rest` reads.
pub open spec fn then<T>(read: Seq<T>, rest: Result<Parsed<Seq<T>>, ErrorView>) -> Result<
    Parsed<Seq<T>>,
    ErrorView,
> {
    match rest {
        Ok(r) => Ok(Parsed { item: read + r.item, next: r.next }),
        Err(e) => Err(e),
    }
}

/// Reading `count` values is reading one and then `count - 1`.
pub proof fn lemma_parse_items_step(
    b: Seq<u8>,
    at: int,
    count: nat,
    keys: Seq<Seq<char>>,
    depth: nat,
    read: Seq<ValueView>,
)
    requires
        count > 0,
        depth <= MAX_RECURSION_DEPTH,
    ensures
        match parse_value(b, at, keys, depth) {
            Ok(head) => then(read, parse_items(b, at, count, keys, depth)) == then(
                read.push(head.item),
                parse_items(b, head.next, (count - 1) as nat, keys, depth),
            ),
            Err(e) => parse_items(b, at, count, keys, depth) == Err::<
                Parsed<Seq<ValueView>>,
                ErrorView,
            >(e),
        },
{
    reveal(parse_value);
    reveal(parse_items);
    reveal(parse_pairs);
    if let Ok(head) = parse_value(b, at, keys, depth) {
        if let Ok(tail) = parse_items(b, head.next, (count - 1) as nat, keys, depth) {
            assert(read + (seq![head.item] + tail.item) =~= read.push(head.item) + tail.item);
        }
    }
}

/// With no value left to read, nothing more is read.
pub proof fn lemma_parse_items_done(
    b: Seq<u8>,
    at: int,
    keys: Seq<Seq<char>>,
    depth: nat,
    read: Seq<ValueView>,
)
    ensures
        then(read, parse_items(b, at, 0, keys, depth)) == Ok::<Parsed<Seq<ValueView>>, ErrorView>(
            Parsed { item: read, next: at },
        ),
{
    reveal(parse_value);
    reveal(parse_items);
    reveal(parse_pairs);
    assert(read + Seq::<ValueView>::empty() =~= read);
}

/// Reading the pairs of a record is reading the end tag, or one pair and
/// then the pairs behind it.
pub proof fn lemma_parse_pairs_step(
    b: Seq<u8>,
    at: int,
    keys: Seq<Seq<char>>,
    depth: nat,
    read: Seq<(Seq<char>, ValueView)>,
)
    requires
        depth <= MAX_RECURSION_DEPTH,
    ensures
        then(read, parse_pairs(b, at, keys, depth)) == (if at < 0 || at >= b.len() {
            Err::<Parsed<Seq<(Seq<char>, ValueView)>>, ErrorView>(ErrorView::UnexpectedEOF(at))
        } else if b[at] == TAG_RECORD_END {
            Ok::<Parsed<Seq<(Seq<char>, ValueView)>>, ErrorView>(Parsed { item: read, next: at + 1 })
        } else if at + 4 > b.len() {
            Err::<Parsed<Seq<(Seq<char>, ValueView)>>, ErrorView>(ErrorView::UnexpectedEOF(at))
        } else if read32(b, at) >= keys.len() {
            Err::<Parsed<Seq<(Seq<char>, ValueView)>>, ErrorView>(ErrorView::Malformed(at))
        } else {
            match parse_value(b, at + 4, keys, depth) {
                Err(e) => Err::<Parsed<Seq<(Seq<char>, ValueView)>>, ErrorView>(e),
                Ok(head) => if head.next <= at {
                    Err::<Parsed<Seq<(Seq<char>, ValueView)>>, ErrorView>(ErrorView::Malformed(at))
                } else {
                    then(
                        read.push((keys[read32(b, at) as int], head.item)),
                        parse_pairs(b, head.next, keys, depth),
                    )
                },
            }
        }),
{
    reveal(parse_value);
    reveal(parse_items);
    reveal(parse_pairs);
    assert(read + Seq::<(Seq<char>, ValueView)>::empty() =~= read);
    if 0 <= at < b.len() && at + 4 <= b.len() && read32(b, at) < keys.len() {
        if let Ok(head) = parse_value(b, at + 4, keys, depth) {
            if let Ok(tail) = parse_pairs(b, head.next, keys, depth) {
                let pair = (keys[read32(b, at) as int], head.item);
                assert(read + (seq![pair] + tail.item) =~= read.push(pair) + tail.item);
            }
        }
    }
}

/// Reading `count` table entries is reading one and then `count - 1`.
pub proof fn lemma_parse_table_step(b: Seq<u8>, at: int, count: nat, read: Seq<Seq<char>>)
    requires
        count > 0,
    ensures
        then(read, parse_table(b, at, count)) == (if at < 0 || at >= b.len() {
            Err::<Parsed<Seq<Seq<char>>>, ErrorView>(ErrorView::UnexpectedEOF(at))
        } else if at + 1 + b[at] > b.len() {
            Err::<Parsed<Seq<Seq<char>>>, ErrorView>(ErrorView::UnexpectedEOF(at + 1))
        } else if !valid_utf8(b.subrange(at + 1, at + 1 + b[at])) {
            Err::<Parsed<Seq<Seq<char>>>, ErrorView>(ErrorView::Malformed(at + 1))
        } else {
            then(
                read.push(decode_utf8(b.subrange(at + 1, at + 1 + b[at]))),
                parse_table(b, at + 1 + b[at], (count - 1) as nat),
            )
        }),
{
    if 0 <= at < b.len() && at + 1 + b[at] <= b.len() {
        let key = decode_utf8(b.subrange(at + 1, at + 1 + b[at]));
        if let Ok(tail) = parse_table(b, at + 1 + b[at], (count - 1) as nat) {
            assert(read + (seq![key] + tail.item) =~= read.push(key) + tail.item);
        }
    }
}

/// With no table entry left to read, nothing more is read.
pub proof fn lemma_parse_table_done(b: Seq<u8>, at: int, read: Seq<Seq<char>>)
    ensures
        then(read, parse_table(b, at, 0)) == Ok::<Parsed<Seq<Seq<char>>>, ErrorView>(
            Parsed { item: read, next: at },
        ),
{
    assert(read + Seq::<Seq<char>>::empty() =~= read);
}

/// The value of an uncompressed stream: header, string table, one value,
/// and nothing behind it. The flags byte is not looked at.
pub open spec fn parse_stream(b: Seq<u8>) -> Result<ValueView, ErrorView> {
    if b.len() < 2 || b[0] != MAGIC_0 || b[1] != MAGIC_1 {
        Err(ErrorView::InvalidMagic)
    } else if b.len() < HEADER_LEN {
        Err(ErrorView::UnexpectedEOF(2))
    } else if b[3] != FORMAT_VERSION {
        Err(ErrorView::UnsupportedVersion(b[3]))
    } else {
        match parse_table(b, HEADER_LEN as int, read16(b, 4)) {
            Err(e) => Err(e),
            Ok(table) => match parse_value(b, table.next, table.item, 0) {
                Err(e) => Err(e),
                Ok(v) => if v.next != b.len() {
                    Err(ErrorView::Malformed(v.next))
                } else {
                    Ok(v.item)
                },
            },
        }
    }
}

} // verus!
