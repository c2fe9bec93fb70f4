//! Reading is the inverse of writing: what `emit` wrote, `parse_value`
//! reads back.

use vstd::prelude::*;
use vstd::utf8::{encode_utf8, encode_utf8_decode_utf8, encode_utf8_valid_utf8};
use crate::errors::ErrorView;
use crate::grammar::{
    emit, emit_items, emit_pairs, extends, is_inline_int, lemma_emit_items_keys, lemma_emit_keys,
    lemma_emit_pairs_keys, table_bytes, words_bytes,
};
use crate::intern::{intern_spec, keys_wf, lemma_intern_spec};
use crate::parse::{
    parse_blob, parse_items, parse_pairs, parse_table, parse_text, parse_value, parse_words, Parsed,
};
use crate::value::ValueView;
use crate::wire::{
    le32, le64, lemma_part, lemma_read32_le32, lemma_read64_le64, lemma_untwos_twos, read32, read64,
    twos, MAX_KEY_BYTES, MAX_RECURSION_DEPTH, TAG_RECORD_END,
};

verus! {

/// `bytes` stand in `b` from offset `at` on.
pub open spec fn stands_at(b: Seq<u8>, at: int, bytes: Seq<u8>) -> bool {
    &&& 0 <= at
    &&& at + bytes.len() <= b.len()
    &&& b.subrange(at, at + bytes.len()) == bytes
}

/// A record's end tag can be told from a key id only while no id has the
/// end tag as its low byte: the table must hold fewer keys than that.
pub const MAX_DISTINCT_IDS: usize = 127;

/// A length and the bytes behind it are read back as those bytes.
pub proof fn lemma_inverse_blob(b: Seq<u8>, at: int, body: Seq<u8>)
    requires
        body.len() <= u32::MAX,
        stands_at(b, at, le32(body.len()) + body),
    ensures
        parse_blob(b, at) == Ok::<Parsed<Seq<u8>>, ErrorView>(
            Parsed { item: body, next: at + 4 + body.len() },
        ),
{
    let whole = le32(body.len()) + body;
    lemma_part(b, at, whole, 0, 4);
    assert(whole.subrange(0, 4) =~= le32(body.len()));
    lemma_read32_le32(b, at, body.len());
    lemma_part(b, at, whole, 4, whole.len() as int);
    assert(whole.subrange(4, whole.len() as int) =~= body);
}

/// A length and the UTF-8 bytes of a text behind it are read back as that
/// text.
pub proof fn lemma_inverse_text(b: Seq<u8>, at: int, text: Seq<char>)
    requires
        encode_utf8(text).len() <= u32::MAX,
        stands_at(b, at, le32(encode_utf8(text).len()) + encode_utf8(text)),
    ensures
        parse_text(b, at) == Ok::<Parsed<Seq<char>>, ErrorView>(
            Parsed { item: text, next: at + 4 + encode_utf8(text).len() },
        ),
{
    lemma_inverse_blob(b, at, encode_utf8(text));
    encode_utf8_valid_utf8(text);
    encode_utf8_decode_utf8(text);
}

/// A count and the words behind it are read back as those words.
pub proof fn lemma_inverse_words(b: Seq<u8>, at: int, xs: Seq<u64>)
    requires
        xs.len() <= u32::MAX,
        stands_at(b, at, le32(xs.len()) + words_bytes(xs)),
    ensures
        parse_words(b, at) == Ok::<Parsed<Seq<u64>>, ErrorView>(
            Parsed { item: xs, next: at + 4 + 8 * xs.len() },
        ),
{
    let whole = le32(xs.len()) + words_bytes(xs);
    lemma_part(b, at, whole, 0, 4);
    assert(whole.subrange(0, 4) =~= le32(xs.len()));
    lemma_read32_le32(b, at, xs.len());
    let got = Seq::new(read32(b, at), |i: int| read64(b, at + 4 + 8 * i) as u64);
    assert forall|i: int| 0 <= i < xs.len() implies got[i] == xs[i] by {
        lemma_part(b, at, whole, 4 + 8 * i, 4 + 8 * i + 8);
        assert(whole.subrange(4 + 8 * i, 4 + 8 * i + 8) =~= le64(xs[i] as nat)) by {
            assert forall|k: int| 0 <= k < 8 implies whole[4 + 8 * i + k] == le64(xs[i] as nat)[k] by {
                assert((8 * i + k) / 8 == i);
                assert((8 * i + k) % 8 == k);
            }
        }
        lemma_read64_le64(b, at + 4 + 8 * i, xs[i] as nat);
    }
    assert(got =~= xs);
}

/// Whether a value holds no other value.
pub open spec fn is_leaf(v: ValueView) -> bool {
    !(v is Sequence) && !(v is Record)
}

/// A null or a boolean is read back as it was written.
pub proof fn lemma_inverse_null_bool(
    v: ValueView,
    depth: nat,
    keys: Seq<Seq<char>>,
    table: Seq<Seq<char>>,
    b: Seq<u8>,
    at: int,
)
    requires
        v is Null || v is Bool,
        emit(v, depth, keys) is Ok,
        stands_at(b, at, emit(v, depth, keys)->Ok_0.bytes),
    ensures
        parse_value(b, at, table, depth) == Ok::<Parsed<ValueView>, ErrorView>(
            Parsed { item: v, next: at + emit(v, depth, keys)->Ok_0.bytes.len() },
        ),
{
    reveal(emit);
    reveal(emit_items);
    reveal(emit_pairs);
    reveal(parse_value);
    reveal(parse_items);
    reveal(parse_pairs);
    let bytes = emit(v, depth, keys)->Ok_0.bytes;
    assert(b[at] == bytes[0]) by {
        lemma_part(b, at, bytes, 0, 1);
        assert(b.subrange(at, at + 1)[0] == bytes.subrange(0, 1)[0]);
    }
    lemma_part(b, at, bytes, 1, bytes.len() as int);
    let body = bytes.subrange(1, bytes.len() as int);
}

/// An integer is read back as it was written, inline or in full.
pub proof fn lemma_inverse_int(
    v: ValueView,
    depth: nat,
    keys: Seq<Seq<char>>,
    table: Seq<Seq<char>>,
    b: Seq<u8>,
    at: int,
)
    requires
        v is Int,
        emit(v, depth, keys) is Ok,
        stands_at(b, at, emit(v, depth, keys)->Ok_0.bytes),
    ensures
        parse_value(b, at, table, depth) == Ok::<Parsed<ValueView>, ErrorView>(
            Parsed { item: v, next: at + emit(v, depth, keys)->Ok_0.bytes.len() },
        ),
{
    reveal(emit);
    reveal(emit_items);
    reveal(emit_pairs);
    reveal(parse_value);
    reveal(parse_items);
    reveal(parse_pairs);
    let bytes = emit(v, depth, keys)->Ok_0.bytes;
    assert(b[at] == bytes[0]) by {
        lemma_part(b, at, bytes, 0, 1);
        assert(b.subrange(at, at + 1)[0] == bytes.subrange(0, 1)[0]);
    }
    lemma_part(b, at, bytes, 1, bytes.len() as int);
    let body = bytes.subrange(1, bytes.len() as int);
    let n = v->Int_0;
    if !is_inline_int(n) {
        assert(body =~= le64(twos(n)));
        lemma_untwos_twos(n);
        lemma_read64_le64(b, at + 1, twos(n));
    }
}

/// The bits of a float are read back as they were written.
pub proof fn lemma_inverse_float(
    v: ValueView,
    depth: nat,
    keys: Seq<Seq<char>>,
    table: Seq<Seq<char>>,
    b: Seq<u8>,
    at: int,
)
    requires
        v is Float,
        emit(v, depth, keys) is Ok,
        stands_at(b, at, emit(v, depth, keys)->Ok_0.bytes),
    ensures
        parse_value(b, at, table, depth) == Ok::<Parsed<ValueView>, ErrorView>(
            Parsed { item: v, next: at + emit(v, depth, keys)->Ok_0.bytes.len() },
        ),
{
    reveal(emit);
    reveal(emit_items);
    reveal(emit_pairs);
    reveal(parse_value);
    reveal(parse_items);
    reveal(parse_pairs);
    let bytes = emit(v, depth, keys)->Ok_0.bytes;
    assert(b[at] == bytes[0]) by {
        lemma_part(b, at, bytes, 0, 1);
        assert(b.subrange(at, at + 1)[0] == bytes.subrange(0, 1)[0]);
    }
    lemma_part(b, at, bytes, 1, bytes.len() as int);
    let body = bytes.subrange(1, bytes.len() as int);
    let bits = v->Float_0;
    assert(body =~= le64(bits as nat));
    lemma_read64_le64(b, at + 1, bits as nat);
}

/// A text, a timestamp, a UUID or a decimal is read back as it was written.
pub proof fn lemma_inverse_textual(
    v: ValueView,
    depth: nat,
    keys: Seq<Seq<char>>,
    table: Seq<Seq<char>>,
    b: Seq<u8>,
    at: int,
)
    requires
        v is Text || v is Timestamp || v is Uuid || v is Decimal,
        emit(v, depth, keys) is Ok,
        stands_at(b, at, emit(v, depth, keys)->Ok_0.bytes),
    ensures
        parse_value(b, at, table, depth) == Ok::<Parsed<ValueView>, ErrorView>(
            Parsed { item: v, next: at + emit(v, depth, keys)->Ok_0.bytes.len() },
        ),
{
    reveal(emit);
    reveal(emit_items);
    reveal(emit_pairs);
    reveal(parse_value);
    reveal(parse_items);
    reveal(parse_pairs);
    let bytes = emit(v, depth, keys)->Ok_0.bytes;
    assert(b[at] == bytes[0]) by {
        lemma_part(b, at, bytes, 0, 1);
        assert(b.subrange(at, at + 1)[0] == bytes.subrange(0, 1)[0]);
    }
    lemma_part(b, at, bytes, 1, bytes.len() as int);
    let body = bytes.subrange(1, bytes.len() as int);
    let text = match v {
        ValueView::Text(s) => s,
        ValueView::Timestamp { kind, text } => text,
        ValueView::Uuid(s) => s,
        ValueView::Decimal(s) => s,
        _ => Seq::empty(),
    };
    assert(body =~= le32(encode_utf8(text).len()) + encode_utf8(text));
    lemma_inverse_text(b, at + 1, text);
}

/// Raw bytes are read back as they were written.
pub proof fn lemma_inverse_bytes(
    v: ValueView,
    depth: nat,
    keys: Seq<Seq<char>>,
    table: Seq<Seq<char>>,
    b: Seq<u8>,
    at: int,
)
    requires
        v is Bytes,
        emit(v, depth, keys) is Ok,
        stands_at(b, at, emit(v, depth, keys)->Ok_0.bytes),
    ensures
        parse_value(b, at, table, depth) == Ok::<Parsed<ValueView>, ErrorView>(
            Parsed { item: v, next: at + emit(v, depth, keys)->Ok_0.bytes.len() },
        ),
{
    reveal(emit);
    reveal(emit_items);
    reveal(emit_pairs);
    reveal(parse_value);
    reveal(parse_items);
    reveal(parse_pairs);
    let bytes = emit(v, depth, keys)->Ok_0.bytes;
    assert(b[at] == bytes[0]) by {
        lemma_part(b, at, bytes, 0, 1);
        assert(b.subrange(at, at + 1)[0] == bytes.subrange(0, 1)[0]);
    }
    lemma_part(b, at, bytes, 1, bytes.len() as int);
    let body = bytes.subrange(1, bytes.len() as int);
    let raw = v->Bytes_0;
    assert(body =~= le32(raw.len()) + raw);
    lemma_inverse_blob(b, at + 1, raw);
}

/// A numeric array is read back as it was written.
pub proof fn lemma_inverse_numeric_array(
    v: ValueView,
    depth: nat,
    keys: Seq<Seq<char>>,
    table: Seq<Seq<char>>,
    b: Seq<u8>,
    at: int,
)
    requires
        v is NumericArray,
        emit(v, depth, keys) is Ok,
        stands_at(b, at, emit(v, depth, keys)->Ok_0.bytes),
    ensures
        parse_value(b, at, table, depth) == Ok::<Parsed<ValueView>, ErrorView>(
            Parsed { item: v, next: at + emit(v, depth, keys)->Ok_0.bytes.len() },
        ),
{
    reveal(emit);
    reveal(emit_items);
    reveal(emit_pairs);
    reveal(parse_value);
    reveal(parse_items);
    reveal(parse_pairs);
    let bytes = emit(v, depth, keys)->Ok_0.bytes;
    assert(b[at] == bytes[0]) by {
        lemma_part(b, at, bytes, 0, 1);
        assert(b.subrange(at, at + 1)[0] == bytes.subrange(0, 1)[0]);
    }
    lemma_part(b, at, bytes, 1, bytes.len() as int);
    let body = bytes.subrange(1, bytes.len() as int);
    let xs = v->NumericArray_0;
    assert(body =~= le32(xs.len()) + words_bytes(xs));
    lemma_inverse_words(b, at + 1, xs);
}

/// A value that holds no other value is read back as it was written.
pub proof fn lemma_inverse_leaf(
    v: ValueView,
    depth: nat,
    keys: Seq<Seq<char>>,
    table: Seq<Seq<char>>,
    b: Seq<u8>,
    at: int,
)
    requires
        is_leaf(v),
        emit(v, depth, keys) is Ok,
        stands_at(b, at, emit(v, depth, keys)->Ok_0.bytes),
    ensures
        parse_value(b, at, table, depth) == Ok::<Parsed<ValueView>, ErrorView>(
            Parsed { item: v, next: at + emit(v, depth, keys)->Ok_0.bytes.len() },
        ),
{
    match v {
        ValueView::Null | ValueView::Bool(_) => lemma_inverse_null_bool(v, depth, keys, table, b, at),
        ValueView::Int(_) => lemma_inverse_int(v, depth, keys, table, b, at),
        ValueView::Float(_) => lemma_inverse_float(v, depth, keys, table, b, at),
        ValueView::Bytes(_) => lemma_inverse_bytes(v, depth, keys, table, b, at),
        ValueView::NumericArray(_) => lemma_inverse_numeric_array(v, depth, keys, table, b, at),
        _ => lemma_inverse_textual(v, depth, keys, table, b, at),
    }
}

/// Appending is transitive.
pub proof fn lemma_extends_trans(a: Seq<Seq<char>>, b: Seq<Seq<char>>, c: Seq<Seq<char>>)
    requires
        extends(a, b),
        extends(b, c),
    ensures
        extends(a, c),
{
}

/// What `emit` wrote with a table that the final table `table` extends,
/// `parse_value` reads back with the final table: the same value, and
/// every byte of it.
pub proof fn lemma_inverse_value(
    v: ValueView,
    depth: nat,
    keys: Seq<Seq<char>>,
    table: Seq<Seq<char>>,
    b: Seq<u8>,
    at: int,
)
    requires
        keys_wf(keys),
        keys_wf(table),
        table.len() <= MAX_DISTINCT_IDS,
        emit(v, depth, keys) is Ok,
        extends(emit(v, depth, keys)->Ok_0.keys, table),
        stands_at(b, at, emit(v, depth, keys)->Ok_0.bytes),
    ensures
        parse_value(b, at, table, depth) == Ok::<Parsed<ValueView>, ErrorView>(
            Parsed { item: v, next: at + emit(v, depth, keys)->Ok_0.bytes.len() },
        ),
    decreases v,
{
    match v {
        ValueView::Sequence(items) => {
            reveal(emit);
            reveal(emit_items);
            reveal(emit_pairs);
            reveal(parse_value);
            reveal(parse_items);
            reveal(parse_pairs);
            let bytes = emit(v, depth, keys)->Ok_0.bytes;
            let inner = emit_items(items, depth + 1, keys)->Ok_0;
            lemma_part(b, at, bytes, 0, 1);
            assert(b.subrange(at, at + 1)[0] == bytes.subrange(0, 1)[0]);
            lemma_part(b, at, bytes, 1, 5);
            assert(bytes.subrange(1, 5) =~= le32(items.len()));
            lemma_read32_le32(b, at + 1, items.len());
            lemma_part(b, at, bytes, 5, bytes.len() as int);
            assert(bytes.subrange(5, bytes.len() as int) =~= inner.bytes);
            lemma_inverse_items(items, depth + 1, keys, table, b, at + 5);
        },
        ValueView::Record(pairs) => {
            reveal(emit);
            reveal(emit_items);
            reveal(emit_pairs);
            reveal(parse_value);
            reveal(parse_items);
            reveal(parse_pairs);
            let bytes = emit(v, depth, keys)->Ok_0.bytes;
            let inner = emit_pairs(pairs, depth + 1, keys)->Ok_0;
            lemma_part(b, at, bytes, 0, 1);
            assert(b.subrange(at, at + 1)[0] == bytes.subrange(0, 1)[0]);
            lemma_part(b, at, bytes, 1, bytes.len() as int);
            assert(bytes.subrange(1, bytes.len() as int) =~= inner.bytes + seq![TAG_RECORD_END]);
            lemma_inverse_pairs(pairs, depth + 1, keys, table, b, at + 1);
        },
        _ => {
            lemma_inverse_leaf(v, depth, keys, table, b, at);
        },
    }
}

/// What `emit_items` wrote, `parse_items` reads back.
pub proof fn lemma_inverse_items(
    items: Seq<ValueView>,
    depth: nat,
    keys: Seq<Seq<char>>,
    table: Seq<Seq<char>>,
    b: Seq<u8>,
    at: int,
)
    requires
        keys_wf(keys),
        keys_wf(table),
        table.len() <= MAX_DISTINCT_IDS,
        depth <= MAX_RECURSION_DEPTH,
        emit_items(items, depth, keys) is Ok,
        extends(emit_items(items, depth, keys)->Ok_0.keys, table),
        stands_at(b, at, emit_items(items, depth, keys)->Ok_0.bytes),
    ensures
        parse_items(b, at, items.len(), table, depth) == Ok::<Parsed<Seq<ValueView>>, ErrorView>(
            Parsed { item: items, next: at + emit_items(items, depth, keys)->Ok_0.bytes.len() },
        ),
    decreases items,
{
    reveal(emit);
    reveal(emit_items);
    reveal(emit_pairs);
    reveal(parse_value);
    reveal(parse_items);
    reveal(parse_pairs);
    if items.len() == 0 {
        assert(items =~= Seq::<ValueView>::empty());
    } else {
        let whole = emit_items(items, depth, keys)->Ok_0;
        let head = emit(items[0], depth, keys)->Ok_0;
        let rest = items.subrange(1, items.len() as int);
        let tail = emit_items(rest, depth, head.keys)->Ok_0;
        lemma_emit_keys(items[0], depth, keys);
        lemma_emit_items_keys(rest, depth, head.keys);
        lemma_extends_trans(head.keys, tail.keys, table);
        lemma_part(b, at, whole.bytes, 0, head.bytes.len() as int);
        assert(whole.bytes.subrange(0, head.bytes.len() as int) =~= head.bytes);
        lemma_inverse_value(items[0], depth, keys, table, b, at);
        lemma_part(b, at, whole.bytes, head.bytes.len() as int, whole.bytes.len() as int);
        assert(whole.bytes.subrange(head.bytes.len() as int, whole.bytes.len() as int)
            =~= tail.bytes);
        lemma_inverse_items(rest, depth, head.keys, table, b, at + head.bytes.len());
        assert(seq![items[0]] + rest =~= items);
    }
}

/// What `emit_pairs` wrote, followed by the end tag of the record,
/// `parse_pairs` reads back.
pub proof fn lemma_inverse_pairs(
    pairs: Seq<(Seq<char>, ValueView)>,
    depth: nat,
    keys: Seq<Seq<char>>,
    table: Seq<Seq<char>>,
    b: Seq<u8>,
    at: int,
)
    requires
        keys_wf(keys),
        keys_wf(table),
        table.len() <= MAX_DISTINCT_IDS,
        depth <= MAX_RECURSION_DEPTH,
        emit_pairs(pairs, depth, keys) is Ok,
        extends(emit_pairs(pairs, depth, keys)->Ok_0.keys, table),
        stands_at(b, at, emit_pairs(pairs, depth, keys)->Ok_0.bytes + seq![TAG_RECORD_END]),
    ensures
        parse_pairs(b, at, table, depth) == Ok::<Parsed<Seq<(Seq<char>, ValueView)>>, ErrorView>(
            Parsed { item: pairs, next: at + emit_pairs(pairs, depth, keys)->Ok_0.bytes.len() + 1 },
        ),
    decreases pairs,
{
    reveal(emit);
    reveal(emit_items);
    reveal(emit_pairs);
    reveal(parse_value);
    reveal(parse_items);
    reveal(parse_pairs);
    let whole = emit_pairs(pairs, depth, keys)->Ok_0;
    let framed = whole.bytes + seq![TAG_RECORD_END];
    if pairs.len() == 0 {
        assert(pairs =~= Seq::<(Seq<char>, ValueView)>::empty());
        lemma_part(b, at, framed, 0, 1);
        assert(b.subrange(at, at + 1)[0] == framed.subrange(0, 1)[0]);
    } else {
        let (id, interned) = intern_spec(keys, pairs[0].0)->Ok_0;
        let head = emit(pairs[0].1, depth, interned)->Ok_0;
        let rest = pairs.subrange(1, pairs.len() as int);
        let tail = emit_pairs(rest, depth, head.keys)->Ok_0;
        lemma_intern_spec(keys, pairs[0].0);
        lemma_emit_keys(pairs[0].1, depth, interned);
        lemma_emit_pairs_keys(rest, depth, head.keys);
        lemma_extends_trans(head.keys, tail.keys, table);
        lemma_extends_trans(interned, head.keys, table);
        assert(table[id as int] == pairs[0].0);
        assert(id < MAX_DISTINCT_IDS);
        lemma_part(b, at, framed, 0, 4);
        assert(framed.subrange(0, 4) =~= le32(id));
        lemma_read32_le32(b, at, id);
        assert(b[at] == id) by {
            assert(b.subrange(at, at + 4)[0] == le32(id)[0]);
        }
        let from = 4 + head.bytes.len() as int;
        lemma_part(b, at, framed, 4, from);
        assert(framed.subrange(4, from) =~= head.bytes);
        lemma_inverse_value(pairs[0].1, depth, interned, table, b, at + 4);
        lemma_part(b, at, framed, from, framed.len() as int);
        assert(framed.subrange(from, framed.len() as int) =~= tail.bytes + seq![TAG_RECORD_END]);
        lemma_inverse_pairs(rest, depth, head.keys, table, b, at + from);
        assert(seq![(table[id as int], pairs[0].1)] + rest =~= pairs);
    }
}

/// The first entry of a string table stands in front of the others.
pub proof fn lemma_table_bytes_first(keys: Seq<Seq<char>>)
    requires
        keys.len() > 0,
    ensures
        table_bytes(keys) == seq![encode_utf8(keys[0]).len() as u8] + encode_utf8(keys[0])
            + table_bytes(keys.subrange(1, keys.len() as int)),
    decreases keys.len(),
{
    let rest = keys.subrange(1, keys.len() as int);
    if keys.len() == 1 {
        assert(keys.drop_last() =~= Seq::<Seq<char>>::empty());
        assert(rest =~= Seq::<Seq<char>>::empty());
        assert(table_bytes(keys) =~= seq![encode_utf8(keys[0]).len() as u8] + encode_utf8(keys[0])
            + table_bytes(rest));
    } else {
        lemma_table_bytes_first(keys.drop_last());
        assert(keys.drop_last().subrange(1, keys.len() - 1) =~= rest.drop_last());
        assert(keys.drop_last()[0] == keys[0]);
        assert(rest.last() == keys.last());
        assert(table_bytes(keys) =~= seq![encode_utf8(keys[0]).len() as u8] + encode_utf8(keys[0])
            + table_bytes(rest));
    }
}

/// What `table_bytes` wrote, `parse_table` reads back.
pub proof fn lemma_inverse_table(keys: Seq<Seq<char>>, b: Seq<u8>, at: int)
    requires
        forall|i: int| 0 <= i < keys.len() ==> (#[trigger] encode_utf8(keys[i])).len() <= MAX_KEY_BYTES,
        stands_at(b, at, table_bytes(keys)),
    ensures
        parse_table(b, at, keys.len()) == Ok::<Parsed<Seq<Seq<char>>>, ErrorView>(
            Parsed { item: keys, next: at + table_bytes(keys).len() },
        ),
    decreases keys.len(),
{
    if keys.len() == 0 {
        assert(keys =~= Seq::<Seq<char>>::empty());
    } else {
        let whole = table_bytes(keys);
        let rest = keys.subrange(1, keys.len() as int);
        let text = encode_utf8(keys[0]);
        lemma_table_bytes_first(keys);
        lemma_part(b, at, whole, 0, 1);
        assert(b.subrange(at, at + 1)[0] == whole.subrange(0, 1)[0]);
        assert(b[at] == text.len());
        let from = 1 + text.len() as int;
        lemma_part(b, at, whole, 1, from);
        assert(whole.subrange(1, from) =~= text);
        encode_utf8_valid_utf8(keys[0]);
        encode_utf8_decode_utf8(keys[0]);
        lemma_part(b, at, whole, from, whole.len() as int);
        assert(whole.subrange(from, whole.len() as int) =~= table_bytes(rest));
        assert forall|i: int| 0 <= i < rest.len() implies (#[trigger] encode_utf8(rest[i])).len()
            <= MAX_KEY_BYTES by {
            assert(rest[i] == keys[i + 1]);
        }
        lemma_inverse_table(rest, b, at + from);
        assert(seq![keys[0]] + rest =~= keys);
    }
}

} // verus!
