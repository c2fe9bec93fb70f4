//! The decoder: reads a stream back into the value it stands for.

use vstd::prelude::*;
use vstd::slice::{slice_subrange, slice_to_vec};
use vstd::utf8::{decode_utf8, valid_utf8};
use crate::compress::decompress;
use crate::errors::{BFastError, ErrorView};
use crate::format::decode_spec;
use crate::parse::{
    is_text_tag, lemma_parse_items_done, lemma_parse_items_step, lemma_parse_pairs_step,
    lemma_parse_table_done, lemma_parse_table_step, parse_blob, parse_items, parse_pairs,
    parse_stream, parse_table, parse_tagged_text, parse_text, parse_value, parse_words, then, Parsed,
};
use crate::value::{items_view, pairs_view, strings_view, TimeKind, Value};
use crate::wire::{
    get_i64, get_u16, get_u32, get_u64, read64, FORMAT_VERSION, HEADER_LEN, MAGIC_0, MAGIC_1,
    MAX_RECURSION_DEPTH, TAG_BYTES, TAG_DATE, TAG_DATETIME, TAG_DECIMAL, TAG_FALSE, TAG_FLOAT,
    TAG_INT, TAG_INT_INLINE, TAG_NULL, TAG_NUMERIC_ARRAY, TAG_RECORD, TAG_RECORD_END, TAG_SEQUENCE,
    TAG_TEXT, TAG_TIME, TAG_TRUE, TAG_UUID,
};

verus! {

/// `String::from_utf8`: the text that the bytes spell, if they are UTF-8.
#[verifier::external_body]
fn string_from_utf8(bytes: Vec<u8>) -> (r: Option<String>)
    ensures
        r is Some <==> valid_utf8(bytes@),
        r is Some ==> r->Some_0@ == decode_utf8(bytes@),
{
    String::from_utf8(bytes).ok()
}

/// An exec result agrees with what the grammar reads: the same item at the
/// same offset, or the same failure.
pub open spec fn agrees<T, V>(
    r: Result<(T, usize), BFastError>,
    item: spec_fn(T) -> V,
    want: Result<Parsed<V>, ErrorView>,
) -> bool {
    match want {
        Ok(p) => r is Ok && item(r->Ok_0.0) == p.item && r->Ok_0.1 == p.next,
        Err(e) => r is Err && r->Err_0@ == e,
    }
}

/// Reads a 32-bit length at `at` and borrows that many bytes behind it.
fn read_blob<'a>(b: &'a [u8], at: usize) -> (r: Result<(&'a [u8], usize), BFastError>)
    requires
        at <= b@.len(),
    ensures
        agrees(r, |s: &[u8]| s@, parse_blob(b@, at as int)),
        r is Ok ==> at + 4 <= r->Ok_0.1 <= b@.len(),
{
    let total = b.len();
    if total - at < 4 {
        return Err(BFastError::UnexpectedEOF(at));
    }
    let len = get_u32(b, at) as usize;
    if total - at - 4 < len {
        return Err(BFastError::UnexpectedEOF(at + 4));
    }
    Ok((slice_subrange(b, at + 4, at + 4 + len), at + 4 + len))
}

/// Reads length-prefixed UTF-8 text at `at`.
fn read_text(b: &[u8], at: usize) -> (r: Result<(String, usize), BFastError>)
    requires
        at <= b@.len(),
    ensures
        agrees(r, |s: String| s@, parse_text(b@, at as int)),
        r is Ok ==> at + 4 <= r->Ok_0.1 <= b@.len(),
{
    let (bytes, next) = match read_blob(b, at) {
        Ok(found) => found,
        Err(e) => {
            return Err(e);
        },
    };
    match string_from_utf8(slice_to_vec(bytes)) {
        Some(text) => Ok((text, next)),
        None => Err(BFastError::Malformed(at + 4)),
    }
}

/// Reads a 32-bit count at `at` and that many 64-bit words behind it.
fn read_words(b: &[u8], at: usize) -> (r: Result<(Vec<u64>, usize), BFastError>)
    requires
        at <= b@.len(),
    ensures
        agrees(r, |xs: Vec<u64>| xs@, parse_words(b@, at as int)),
        r is Ok ==> at + 4 <= r->Ok_0.1 <= b@.len(),
{
    let total = b.len();
    if total - at < 4 {
        return Err(BFastError::UnexpectedEOF(at));
    }
    let count = get_u32(b, at) as usize;
    if (total - at - 4) / 8 < count {
        return Err(BFastError::UnexpectedEOF(at + 4));
    }
    let first = at + 4;
    let mut xs: Vec<u64> = Vec::new();
    let mut i: usize = 0;
    while i < count
        invariant
            i <= count,
            total == b@.len(),
            first == at + 4,
            first + 8 * count <= total,
            xs@.len() == i,
            forall|k: int| 0 <= k < i ==> (#[trigger] xs@[k]) == read64(b@, first + 8 * k) as u64,
        decreases count - i,
    {
        xs.push(get_u64(b, first + 8 * i));
        i += 1;
    }
    proof {
        assert(xs@ =~= parse_words(b@, at as int)->Ok_0.item);
    }
    Ok((xs, first + 8 * count))
}

/// Reads the text behind a text-like tag and wraps it as the tag says.
fn read_tagged_text(tag: u8, b: &[u8], at: usize) -> (r: Result<(Value, usize), BFastError>)
    requires
        at < b@.len(),
        is_text_tag(tag),
    ensures
        agrees(r, |v: Value| v@, parse_tagged_text(tag, b@, at as int)),
        r is Ok ==> at < r->Ok_0.1 <= b@.len(),
{
    let total = b.len();
    assert(at < total);
    let (text, next) = match read_text(b, at + 1) {
        Ok(found) => found,
        Err(e) => {
            return Err(e);
        },
    };
    let value = if tag == TAG_TEXT {
        Value::Text(text)
    } else if tag == TAG_DATETIME {
        Value::Timestamp { kind: TimeKind::DateTime, text }
    } else if tag == TAG_DATE {
        Value::Timestamp { kind: TimeKind::Date, text }
    } else if tag == TAG_TIME {
        Value::Timestamp { kind: TimeKind::Time, text }
    } else if tag == TAG_UUID {
        Value::Uuid(text)
    } else {
        Value::Decimal(text)
    };
    Ok((value, next))
}

/// Reads the value that starts at `at`.
fn read_value(b: &[u8], at: usize, keys: &Vec<String>, depth: usize) -> (r: Result<
    (Value, usize),
    BFastError,
>)
    requires
        depth <= MAX_RECURSION_DEPTH,
    ensures
        agrees(r, |v: Value| v@, parse_value(b@, at as int, strings_view(keys@), depth as nat)),
        r is Ok ==> at < r->Ok_0.1 <= b@.len(),
    decreases MAX_RECURSION_DEPTH - depth, 0nat,
{
    proof {
        reveal(parse_value);
        reveal(parse_items);
        reveal(parse_pairs);
    }
    let total = b.len();
    if at >= total {
        return Err(BFastError::UnexpectedEOF(at));
    }
    let tag = b[at];
    if tag == TAG_NULL {
        Ok((Value::Null, at + 1))
    } else if tag == TAG_FALSE {
        Ok((Value::Bool(false), at + 1))
    } else if tag == TAG_TRUE {
        Ok((Value::Bool(true), at + 1))
    } else if tag >= TAG_INT_INLINE && tag <= 0x3F && tag != TAG_INT {
        Ok((Value::Int((tag - TAG_INT_INLINE) as i64), at + 1))
    } else if tag == TAG_INT {
        if total - at < 9 {
            return Err(BFastError::UnexpectedEOF(at + 1));
        }
        Ok((Value::Int(get_i64(b, at + 1)), at + 9))
    } else if tag == TAG_FLOAT {
        if total - at < 9 {
            return Err(BFastError::UnexpectedEOF(at + 1));
        }
        Ok((Value::Float(get_u64(b, at + 1)), at + 9))
    } else if tag == TAG_TEXT || tag == TAG_DATETIME || tag == TAG_DATE || tag == TAG_TIME || tag
        == TAG_UUID || tag == TAG_DECIMAL {
        read_tagged_text(tag, b, at)
    } else if tag == TAG_BYTES {
        match read_blob(b, at + 1) {
            Ok((bytes, next)) => Ok((Value::Bytes(slice_to_vec(bytes)), next)),
            Err(e) => Err(e),
        }
    } else if tag == TAG_NUMERIC_ARRAY {
        match read_words(b, at + 1) {
            Ok((xs, next)) => Ok((Value::NumericArray(xs), next)),
            Err(e) => Err(e),
        }
    } else if tag == TAG_SEQUENCE {
        if depth >= MAX_RECURSION_DEPTH {
            return Err(BFastError::RecursionLimitExceeded);
        }
        if total - at < 5 {
            return Err(BFastError::UnexpectedEOF(at + 1));
        }
        let count = get_u32(b, at + 1);
        match read_items(b, at + 5, count, keys, depth + 1) {
            Ok((items, next)) => Ok((Value::Sequence(items), next)),
            Err(e) => Err(e),
        }
    } else if tag == TAG_RECORD {
        if depth >= MAX_RECURSION_DEPTH {
            return Err(BFastError::RecursionLimitExceeded);
        }
        match read_pairs(b, at + 1, keys, depth + 1) {
            Ok((pairs, next)) => Ok((Value::Record(pairs), next)),
            Err(e) => Err(e),
        }
    } else {
        Err(BFastError::Malformed(at))
    }
}

/// Reads `count` values, one behind the other, from `at` on.
fn read_items(b: &[u8], at: usize, count: u32, keys: &Vec<String>, depth: usize) -> (r: Result<
    (Vec<Value>, usize),
    BFastError,
>)
    requires
        0 < depth <= MAX_RECURSION_DEPTH,
        at <= b@.len(),
    ensures
        agrees(
            r,
            |items: Vec<Value>| items_view(items@),
            parse_items(b@, at as int, count as nat, strings_view(keys@), depth as nat),
        ),
        r is Ok ==> at <= r->Ok_0.1 <= b@.len(),
    decreases MAX_RECURSION_DEPTH - depth, 1nat,
{
    let ghost table = strings_view(keys@);
    let ghost want = parse_items(b@, at as int, count as nat, table, depth as nat);
    let mut items: Vec<Value> = Vec::new();
    let mut pos = at;
    let mut i: u32 = 0;
    while i < count
        invariant
            i <= count,
            0 < depth <= MAX_RECURSION_DEPTH,
            table == strings_view(keys@),
            at <= pos <= b@.len(),
            want == parse_items(b@, at as int, count as nat, table, depth as nat),
            want == then(
                items_view(items@),
                parse_items(b@, pos as int, (count - i) as nat, table, depth as nat),
            ),
        decreases count - i,
    {
        proof {
            lemma_parse_items_step(
                b@,
                pos as int,
                (count - i) as nat,
                table,
                depth as nat,
                items_view(items@),
            );
        }
        let (item, next) = match read_value(b, pos, keys, depth) {
            Ok(found) => found,
            Err(e) => {
                return Err(e);
            },
        };
        proof {
            assert(items@.push(item).subrange(0, items@.len() as int) =~= items@);
        }
        items.push(item);
        pos = next;
        i += 1;
    }
    proof {
        lemma_parse_items_done(b@, pos as int, table, depth as nat, items_view(items@));
    }
    Ok((items, pos))
}

/// Reads the pairs of a record from `at` on, up to its end tag.
fn read_pairs(b: &[u8], at: usize, keys: &Vec<String>, depth: usize) -> (r: Result<
    (Vec<(String, Value)>, usize),
    BFastError,
>)
    requires
        0 < depth <= MAX_RECURSION_DEPTH,
        at <= b@.len(),
    ensures
        agrees(
            r,
            |pairs: Vec<(String, Value)>| pairs_view(pairs@),
            parse_pairs(b@, at as int, strings_view(keys@), depth as nat),
        ),
        r is Ok ==> at < r->Ok_0.1 <= b@.len(),
    decreases MAX_RECURSION_DEPTH - depth, 1nat,
{
    let total = b.len();
    let ghost table = strings_view(keys@);
    let ghost want = parse_pairs(b@, at as int, table, depth as nat);
    let mut pairs: Vec<(String, Value)> = Vec::new();
    let mut pos = at;
    loop
        invariant
            0 < depth <= MAX_RECURSION_DEPTH,
            total == b@.len(),
            table == strings_view(keys@),
            at <= pos <= total,
            want == parse_pairs(b@, at as int, table, depth as nat),
            want == then(pairs_view(pairs@), parse_pairs(b@, pos as int, table, depth as nat)),
        decreases total - pos,
    {
        proof {
            lemma_parse_pairs_step(b@, pos as int, table, depth as nat, pairs_view(pairs@));
        }
        if pos >= total {
            return Err(BFastError::UnexpectedEOF(pos));
        }
        if b[pos] == TAG_RECORD_END {
            return Ok((pairs, pos + 1));
        }
        if total - pos < 4 {
            return Err(BFastError::UnexpectedEOF(pos));
        }
        let id = get_u32(b, pos) as usize;
        if id >= keys.len() {
            return Err(BFastError::Malformed(pos));
        }
        let (item, next) = match read_value(b, pos + 4, keys, depth) {
            Ok(found) => found,
            Err(e) => {
                return Err(e);
            },
        };
        let key = keys[id].clone();
        proof {
            assert(pairs@.push((key, item)).subrange(0, pairs@.len() as int) =~= pairs@);
            assert(table[id as int] == key@);
        }
        pairs.push((key, item));
        pos = next;
    }
}

/// Reads `count` string-table entries from `at` on.
fn read_table(b: &[u8], at: usize, count: u16) -> (r: Result<(Vec<String>, usize), BFastError>)
    requires
        at <= b@.len(),
    ensures
        agrees(
            r,
            |keys: Vec<String>| strings_view(keys@),
            parse_table(b@, at as int, count as nat),
        ),
        r is Ok ==> at <= r->Ok_0.1 <= b@.len(),
{
    let total = b.len();
    let ghost want = parse_table(b@, at as int, count as nat);
    let mut keys: Vec<String> = Vec::new();
    let mut pos = at;
    let mut i: u16 = 0;
    while i < count
        invariant
            i <= count,
            total == b@.len(),
            at <= pos <= total,
            want == parse_table(b@, at as int, count as nat),
            want == then(strings_view(keys@), parse_table(b@, pos as int, (count - i) as nat)),
        decreases count - i,
    {
        proof {
            lemma_parse_table_step(b@, pos as int, (count - i) as nat, strings_view(keys@));
        }
        if pos >= total {
            return Err(BFastError::UnexpectedEOF(pos));
        }
        let len = b[pos] as usize;
        if total - pos - 1 < len {
            return Err(BFastError::UnexpectedEOF(pos + 1));
        }
        let bytes = slice_subrange(b, pos + 1, pos + 1 + len);
        let key = match string_from_utf8(slice_to_vec(bytes)) {
            Some(key) => key,
            None => {
                return Err(BFastError::Malformed(pos + 1));
            },
        };
        proof {
            assert(strings_view(keys@.push(key)) =~= strings_view(keys@).push(key@));
        }
        keys.push(key);
        pos = pos + 1 + len;
        i += 1;
    }
    proof {
        lemma_parse_table_done(b@, pos as int, strings_view(keys@));
    }
    Ok((keys, pos))
}

/// Decodes an uncompressed stream: header, string table and one value
/// with nothing behind it.
pub fn decode_stream(b: &[u8]) -> (r: Result<Value, BFastError>)
    ensures
        match parse_stream(b@) {
            Ok(v) => r is Ok && r->Ok_0@ == v,
            Err(e) => r is Err && r->Err_0@ == e,
        },
{
    let total = b.len();
    if total < 2 || b[0] != MAGIC_0 || b[1] != MAGIC_1 {
        return Err(BFastError::InvalidMagic);
    }
    if total < HEADER_LEN {
        return Err(BFastError::UnexpectedEOF(2));
    }
    if b[3] != FORMAT_VERSION {
        return Err(BFastError::UnsupportedVersion(b[3]));
    }
    let count = get_u16(b, 4);
    let (keys, start) = match read_table(b, HEADER_LEN, count) {
        Ok(found) => found,
        Err(e) => {
            return Err(e);
        },
    };
    let (value, next) = match read_value(b, start, &keys, 0) {
        Ok(found) => found,
        Err(e) => {
            return Err(e);
        },
    };
    if next != total {
        return Err(BFastError::Malformed(next));
    }
    Ok(value)
}

/// Decodes a stream, compressed or not, into the value it stands for.
pub fn decode(b: &[u8]) -> (r: Result<Value, BFastError>)
    ensures
        match decode_spec(b@) {
            Ok(v) => r is Ok && r->Ok_0@ == v,
            Err(e) => r is Err && r->Err_0@ == e,
        },
{
    let total = b.len();
    let magic = total >= 2 && b[0] == MAGIC_0 && b[1] == MAGIC_1;
    if magic && total >= 4 && b[2] == 0 && b[3] == FORMAT_VERSION {
        return decode_stream(b);
    }
    match decompress(b) {
        Ok(inner) => decode_stream(inner.as_slice()),
        Err(e) => {
            if magic {
                decode_stream(b)
            } else {
                Err(e)
            }
        },
    }
}

} // verus!
