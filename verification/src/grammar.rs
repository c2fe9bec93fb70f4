//! The tag grammar: which bytes stand for which value.
//!
//! `emit` gives the payload bytes of a value together with the string table
//! after its record keys were interned. `stream` puts header, string table
//! and payload together.

use vstd::prelude::*;
use vstd::utf8::encode_utf8;
use crate::errors::ErrorView;
use crate::intern::{intern_spec, keys_wf, lemma_intern_spec};
use crate::value::{TimeKind, ValueView};
use crate::wire::{
    le16, le32, le64, twos, FORMAT_VERSION, MAGIC_0, MAGIC_1, MAX_RECURSION_DEPTH, TAG_BYTES,
    TAG_DATE, TAG_DATETIME, TAG_DECIMAL, TAG_FALSE, TAG_FLOAT, TAG_INT, TAG_INT_INLINE, TAG_NULL,
    TAG_NUMERIC_ARRAY, TAG_RECORD, TAG_RECORD_END, TAG_SEQUENCE, TAG_TEXT, TAG_TIME, TAG_TRUE,
    TAG_UUID,
};

verus! {

/// What writing a value gives: the bytes, and the string table afterwards.
pub struct Emitted {
    pub bytes: Seq<u8>,
    pub keys: Seq<Seq<char>>,
}

/// Integers from 0 to 15 travel in the low bits of their tag. The one
/// exception is 8: its tag would be `TAG_INT`, which announces eight bytes,
/// so 8 is written in full.
pub open spec fn is_inline_int(n: i64) -> bool {
    0 <= n <= 15 && n != 8
}

/// The bytes of an integer: one tag byte for an inline integer, else the
/// tag and eight bytes.
pub open spec fn int_bytes(n: i64) -> Seq<u8> {
    if is_inline_int(n) {
        seq![(TAG_INT_INLINE + n) as u8]
    } else {
        seq![TAG_INT] + le64(twos(n))
    }
}

/// A tag, a 32-bit length, and that many bytes.
pub open spec fn blob(tag: u8, body: Seq<u8>) -> Result<Seq<u8>, ErrorView> {
    if body.len() > u32::MAX {
        Err(ErrorView::LengthOverflow)
    } else {
        Ok(seq![tag] + le32(body.len()) + body)
    }
}

/// The tag of a timestamp of the given kind.
pub open spec fn time_tag(kind: TimeKind) -> u8 {
    match kind {
        TimeKind::DateTime => TAG_DATETIME,
        TimeKind::Date => TAG_DATE,
        TimeKind::Time => TAG_TIME,
    }
}

/// The eight little-endian bytes of each element, one after the other.
pub open spec fn words_bytes(xs: Seq<u64>) -> Seq<u8> {
    Seq::new(8 * xs.len(), |i: int| le64(xs[i / 8] as nat)[i % 8])
}

/// A value that holds no other value, written without touching the table.
pub open spec fn leaf(bytes: Result<Seq<u8>, ErrorView>, keys: Seq<Seq<char>>) -> Result<
    Emitted,
    ErrorView,
> {
    match bytes {
        Ok(b) => Ok(Emitted { bytes: b, keys }),
        Err(e) => Err(e),
    }
}

/// The payload bytes of `v`, written at nesting depth `depth` with the
/// string table `keys`, or the first failure met on the way.
///
/// Entering a sequence or a record takes one level of depth, and fails
/// beyond `MAX_RECURSION_DEPTH`. A record key is interned where the record
/// is written, so ids follow first-seen order.
#[verifier::opaque]
pub open spec fn emit(v: ValueView, depth: nat, keys: Seq<Seq<char>>) -> Result<Emitted, ErrorView>
    decreases v,
{
    match v {
        ValueView::Null => leaf(Ok(seq![TAG_NULL]), keys),
        ValueView::Decimal(s) => leaf(blob(TAG_DECIMAL, encode_utf8(s)), keys),
        ValueView::Timestamp { kind, text } => leaf(blob(time_tag(kind), encode_utf8(text)), keys),
        ValueView::Uuid(s) => leaf(blob(TAG_UUID, encode_utf8(s)), keys),
        ValueView::Bool(b) => leaf(
            Ok(
                seq![if b {
                    TAG_TRUE
                } else {
                    TAG_FALSE
                }],
            ),
            keys,
        ),
        ValueView::Int(n) => leaf(Ok(int_bytes(n)), keys),
        ValueView::Float(bits) => leaf(Ok(seq![TAG_FLOAT] + le64(bits as nat)), keys),
        ValueView::Text(s) => leaf(blob(TAG_TEXT, encode_utf8(s)), keys),
        ValueView::Bytes(b) => leaf(blob(TAG_BYTES, b), keys),
        ValueView::Sequence(items) => {
            if depth >= MAX_RECURSION_DEPTH {
                Err(ErrorView::RecursionLimitExceeded)
            } else if items.len() > u32::MAX {
                Err(ErrorView::LengthOverflow)
            } else {
                match emit_items(items, depth + 1, keys) {
                    Ok(e) => Ok(
                        Emitted {
                            bytes: seq![TAG_SEQUENCE] + le32(items.len()) + e.bytes,
                            keys: e.keys,
                        },
                    ),
                    Err(e) => Err(e),
                }
            }
        },
        ValueView::NumericArray(xs) => {
            if xs.len() > u32::MAX {
                Err(ErrorView::LengthOverflow)
            } else {
                leaf(Ok(seq![TAG_NUMERIC_ARRAY] + le32(xs.len()) + words_bytes(xs)), keys)
            }
        },
        ValueView::Record(pairs) => {
            if depth >= MAX_RECURSION_DEPTH {
                Err(ErrorView::RecursionLimitExceeded)
            } else {
                match emit_pairs(pairs, depth + 1, keys) {
                    Ok(e) => Ok(
                        Emitted {
                            bytes: seq![TAG_RECORD] + e.bytes + seq![TAG_RECORD_END],
                            keys: e.keys,
                        },
                    ),
                    Err(e) => Err(e),
                }
            }
        },
    }
}

/// The bytes of the elements of a sequence, one after the other.
#[verifier::opaque]
pub open spec fn emit_items(items: Seq<ValueView>, depth: nat, keys: Seq<Seq<char>>) -> Result<
    Emitted,
    ErrorView,
>
    decreases items,
{
    if items.len() == 0 {
        Ok(Emitted { bytes: Seq::empty(), keys })
    } else {
        match emit(items[0], depth, keys) {
            Err(e) => Err(e),
            Ok(head) => match emit_items(items.subrange(1, items.len() as int), depth, head.keys) {
                Err(e) => Err(e),
                Ok(tail) => Ok(Emitted { bytes: head.bytes + tail.bytes, keys: tail.keys }),
            },
        }
    }
}

/// The bytes of the pairs of a record: for each pair the key's id, then the
/// value.
#[verifier::opaque]
pub open spec fn emit_pairs(
    pairs: Seq<(Seq<char>, ValueView)>,
    depth: nat,
    keys: Seq<Seq<char>>,
) -> Result<Emitted, ErrorView>
    decreases pairs,
{
    if pairs.len() == 0 {
        Ok(Emitted { bytes: Seq::empty(), keys })
    } else {
        match intern_spec(keys, pairs[0].0) {
            Err(e) => Err(e),
            Ok((id, interned)) => match emit(pairs[0].1, depth, interned) {
                Err(e) => Err(e),
                Ok(head) => match emit_pairs(
                    pairs.subrange(1, pairs.len() as int),
                    depth,
                    head.keys,
                ) {
                    Err(e) => Err(e),
                    Ok(tail) => Ok(
                        Emitted { bytes: le32(id) + head.bytes + tail.bytes, keys: tail.keys },
                    ),
                },
            },
        }
    }
}

/// What was written before, followed by what `rest` writes.
pub open spec fn after(written: Seq<u8>, rest: Result<Emitted, ErrorView>) -> Result<
    Emitted,
    ErrorView,
> {
    match rest {
        Ok(e) => Ok(Emitted { bytes: written + e.bytes, keys: e.keys }),
        Err(e) => Err(e),
    }
}

/// A sequence is its tag, its count and its elements, one level deeper.
pub proof fn lemma_emit_sequence(items: Seq<ValueView>, depth: nat, keys: Seq<Seq<char>>)
    ensures
        emit(ValueView::Sequence(items), depth, keys) == (if depth >= MAX_RECURSION_DEPTH {
            Err::<Emitted, ErrorView>(ErrorView::RecursionLimitExceeded)
        } else if items.len() > u32::MAX {
            Err::<Emitted, ErrorView>(ErrorView::LengthOverflow)
        } else {
            after(seq![TAG_SEQUENCE] + le32(items.len()), emit_items(items, depth + 1, keys))
        }),
{
    reveal(emit);
    reveal(emit_items);
    reveal(emit_pairs);
}

/// A record is its start tag, its pairs one level deeper, and its end tag.
pub proof fn lemma_emit_record(
    pairs: Seq<(Seq<char>, ValueView)>,
    depth: nat,
    keys: Seq<Seq<char>>,
)
    ensures
        emit(ValueView::Record(pairs), depth, keys) == (if depth >= MAX_RECURSION_DEPTH {
            Err::<Emitted, ErrorView>(ErrorView::RecursionLimitExceeded)
        } else {
            match emit_pairs(pairs, depth + 1, keys) {
                Ok(e) => Ok::<Emitted, ErrorView>(
                    Emitted {
                        bytes: seq![TAG_RECORD] + e.bytes + seq![TAG_RECORD_END],
                        keys: e.keys,
                    },
                ),
                Err(e) => Err::<Emitted, ErrorView>(e),
            }
        }),
{
    reveal(emit);
    reveal(emit_items);
    reveal(emit_pairs);
}

/// Writing the elements from `i` on is writing element `i` and then the
/// elements from `i + 1` on.
pub proof fn lemma_items_step(
    all: Seq<ValueView>,
    i: int,
    depth: nat,
    keys: Seq<Seq<char>>,
    written: Seq<u8>,
)
    requires
        0 <= i < all.len(),
    ensures
        match emit(all[i], depth, keys) {
            Ok(one) => after(written, emit_items(all.subrange(i, all.len() as int), depth, keys))
                == after(
                written + one.bytes,
                emit_items(all.subrange(i + 1, all.len() as int), depth, one.keys),
            ),
            Err(e) => emit_items(all.subrange(i, all.len() as int), depth, keys) == Err::<
                Emitted,
                ErrorView,
            >(e),
        },
{
    reveal(emit);
    reveal(emit_items);
    reveal(emit_pairs);
    let rest = all.subrange(i, all.len() as int);
    assert(rest[0] == all[i]);
    assert(rest.subrange(1, rest.len() as int) =~= all.subrange(i + 1, all.len() as int));
    if let Ok(one) = emit(all[i], depth, keys) {
        let tail = emit_items(all.subrange(i + 1, all.len() as int), depth, one.keys);
        if let Ok(t) = tail {
            assert((written + one.bytes) + t.bytes =~= written + (one.bytes + t.bytes));
        }
    }
}

/// With no element left, nothing more is written.
pub proof fn lemma_items_done(all: Seq<ValueView>, depth: nat, keys: Seq<Seq<char>>, written: Seq<u8>)
    ensures
        after(written, emit_items(all.subrange(all.len() as int, all.len() as int), depth, keys))
            == Ok::<Emitted, ErrorView>(Emitted { bytes: written, keys }),
        all.subrange(0, all.len() as int) == all,
{
    reveal(emit);
    reveal(emit_items);
    reveal(emit_pairs);
    assert(written + Seq::<u8>::empty() =~= written);
    assert(all.subrange(0, all.len() as int) =~= all);
}

/// Writing the pairs from `i` on is interning key `i`, writing its id and
/// value `i`, and then writing the pairs from `i + 1` on.
pub proof fn lemma_pairs_step(
    all: Seq<(Seq<char>, ValueView)>,
    i: int,
    depth: nat,
    keys: Seq<Seq<char>>,
    written: Seq<u8>,
)
    requires
        0 <= i < all.len(),
    ensures
        match intern_spec(keys, all[i].0) {
            Err(e) => emit_pairs(all.subrange(i, all.len() as int), depth, keys) == Err::<
                Emitted,
                ErrorView,
            >(e),
            Ok((id, interned)) => match emit(all[i].1, depth, interned) {
                Err(e) => emit_pairs(all.subrange(i, all.len() as int), depth, keys) == Err::<
                    Emitted,
                    ErrorView,
                >(e),
                Ok(one) => after(
                    written,
                    emit_pairs(all.subrange(i, all.len() as int), depth, keys),
                ) == after(
                    written + le32(id) + one.bytes,
                    emit_pairs(all.subrange(i + 1, all.len() as int), depth, one.keys),
                ),
            },
        },
{
    reveal(emit);
    reveal(emit_items);
    reveal(emit_pairs);
    let rest = all.subrange(i, all.len() as int);
    assert(rest[0] == all[i]);
    assert(rest.subrange(1, rest.len() as int) =~= all.subrange(i + 1, all.len() as int));
    if let Ok((id, interned)) = intern_spec(keys, all[i].0) {
        if let Ok(one) = emit(all[i].1, depth, interned) {
            let tail = emit_pairs(all.subrange(i + 1, all.len() as int), depth, one.keys);
            if let Ok(t) = tail {
                assert((written + le32(id) + one.bytes) + t.bytes =~= written + (le32(id)
                    + one.bytes + t.bytes));
            }
        }
    }
}

/// With no pair left, nothing more is written.
pub proof fn lemma_pairs_done(
    all: Seq<(Seq<char>, ValueView)>,
    depth: nat,
    keys: Seq<Seq<char>>,
    written: Seq<u8>,
)
    ensures
        after(written, emit_pairs(all.subrange(all.len() as int, all.len() as int), depth, keys))
            == Ok::<Emitted, ErrorView>(Emitted { bytes: written, keys }),
        all.subrange(0, all.len() as int) == all,
{
    reveal(emit);
    reveal(emit_items);
    reveal(emit_pairs);
    assert(written + Seq::<u8>::empty() =~= written);
    assert(all.subrange(0, all.len() as int) =~= all);
}

/// `longer` starts with `shorter`: interning only ever appends.
pub open spec fn extends(shorter: Seq<Seq<char>>, longer: Seq<Seq<char>>) -> bool {
    &&& shorter.len() <= longer.len()
    &&& forall|i: int| 0 <= i < shorter.len() ==> longer[i] == shorter[i]
}

/// Writing a value keeps the string table well formed and only appends to
/// it.
pub proof fn lemma_emit_keys(v: ValueView, depth: nat, keys: Seq<Seq<char>>)
    requires
        keys_wf(keys),
    ensures
        emit(v, depth, keys) matches Ok(e) ==> keys_wf(e.keys) && extends(keys, e.keys),
    decreases v,
{
    reveal(emit);
    reveal(emit_items);
    reveal(emit_pairs);
    match v {
        ValueView::Sequence(items) => {
            lemma_emit_items_keys(items, depth + 1, keys);
        },
        ValueView::Record(pairs) => {
            lemma_emit_pairs_keys(pairs, depth + 1, keys);
        },
        _ => {},
    }
}

/// Writing the elements of a sequence keeps the string table well formed
/// and only appends to it.
pub proof fn lemma_emit_items_keys(items: Seq<ValueView>, depth: nat, keys: Seq<Seq<char>>)
    requires
        keys_wf(keys),
    ensures
        emit_items(items, depth, keys) matches Ok(e) ==> keys_wf(e.keys) && extends(keys, e.keys),
    decreases items,
{
    reveal(emit);
    reveal(emit_items);
    reveal(emit_pairs);
    if items.len() > 0 {
        lemma_emit_keys(items[0], depth, keys);
        if let Ok(head) = emit(items[0], depth, keys) {
            lemma_emit_items_keys(items.subrange(1, items.len() as int), depth, head.keys);
        }
    }
}

/// Writing the pairs of a record keeps the string table well formed and
/// only appends to it.
pub proof fn lemma_emit_pairs_keys(
    pairs: Seq<(Seq<char>, ValueView)>,
    depth: nat,
    keys: Seq<Seq<char>>,
)
    requires
        keys_wf(keys),
    ensures
        emit_pairs(pairs, depth, keys) matches Ok(e) ==> keys_wf(e.keys) && extends(keys, e.keys),
    decreases pairs,
{
    reveal(emit);
    reveal(emit_items);
    reveal(emit_pairs);
    if pairs.len() > 0 {
        lemma_intern_spec(keys, pairs[0].0);
        if let Ok((id, interned)) = intern_spec(keys, pairs[0].0) {
            assert(extends(keys, interned)) by {
                assert(forall|i: int|
                    0 <= i < keys.len() ==> interned.subrange(0, keys.len() as int)[i]
                        == interned[i]);
            }
            lemma_emit_keys(pairs[0].1, depth, interned);
            if let Ok(head) = emit(pairs[0].1, depth, interned) {
                lemma_emit_pairs_keys(pairs.subrange(1, pairs.len() as int), depth, head.keys);
            }
        }
    }
}

/// The generic path fails in three ways only.
pub open spec fn is_emit_failure(e: ErrorView) -> bool {
    e is RecursionLimitExceeded || e is LengthOverflow || e is StringTooLong
}

/// Writing a value never ends in a failure of another kind.
pub proof fn lemma_emit_failures(v: ValueView, depth: nat, keys: Seq<Seq<char>>)
    ensures
        emit(v, depth, keys) matches Err(e) ==> is_emit_failure(e),
    decreases v,
{
    reveal(emit);
    reveal(emit_items);
    reveal(emit_pairs);
    match v {
        ValueView::Sequence(items) => {
            lemma_emit_items_failures(items, depth + 1, keys);
        },
        ValueView::Record(pairs) => {
            lemma_emit_pairs_failures(pairs, depth + 1, keys);
        },
        _ => {},
    }
}

/// Writing the elements of a sequence never ends in a failure of another
/// kind.
pub proof fn lemma_emit_items_failures(items: Seq<ValueView>, depth: nat, keys: Seq<Seq<char>>)
    ensures
        emit_items(items, depth, keys) matches Err(e) ==> is_emit_failure(e),
    decreases items,
{
    reveal(emit);
    reveal(emit_items);
    reveal(emit_pairs);
    if items.len() > 0 {
        lemma_emit_failures(items[0], depth, keys);
        if let Ok(head) = emit(items[0], depth, keys) {
            lemma_emit_items_failures(items.subrange(1, items.len() as int), depth, head.keys);
        }
    }
}

/// Writing the pairs of a record never ends in a failure of another kind.
pub proof fn lemma_emit_pairs_failures(
    pairs: Seq<(Seq<char>, ValueView)>,
    depth: nat,
    keys: Seq<Seq<char>>,
)
    ensures
        emit_pairs(pairs, depth, keys) matches Err(e) ==> is_emit_failure(e),
    decreases pairs,
{
    reveal(emit);
    reveal(emit_items);
    reveal(emit_pairs);
    if pairs.len() > 0 {
        if let Ok((id, interned)) = intern_spec(keys, pairs[0].0) {
            lemma_emit_failures(pairs[0].1, depth, interned);
            if let Ok(head) = emit(pairs[0].1, depth, interned) {
                lemma_emit_pairs_failures(pairs.subrange(1, pairs.len() as int), depth, head.keys);
            }
        }
    }
}

/// Interning a list of names fails only as interning one name does.
pub proof fn lemma_intern_all_failures(names: Seq<Seq<char>>, keys: Seq<Seq<char>>)
    ensures
        intern_all(names, keys) matches Err(e) ==> is_emit_failure(e),
    decreases names.len(),
{
    if names.len() > 0 {
        if let Ok((_, interned)) = intern_spec(keys, names[0]) {
            lemma_intern_all_failures(names.subrange(1, names.len() as int), interned);
        }
    }
}

/// The batch path fails as the generic path does.
pub proof fn lemma_batch_failures(items: Seq<ValueView>, depth: nat, keys: Seq<Seq<char>>)
    ensures
        emit_batch(items, depth, keys) matches Err(e) ==> is_emit_failure(e),
{
    if items.len() == 0 {
        lemma_emit_failures(ValueView::Sequence(items), depth, keys);
    } else {
        let layout = field_names(items[0]->Record_0);
        lemma_intern_all_failures(layout, keys);
        if let Ok(interned) = intern_all(layout, keys) {
            lemma_emit_failures(ValueView::Sequence(project_all(items, layout)), depth, interned);
        }
    }
}

/// A sequence longer than this, all of whose elements are records, is
/// written as a batch.
pub const BATCH_THRESHOLD: usize = 8;

/// Every element is a record.
pub open spec fn all_records(items: Seq<ValueView>) -> bool {
    forall|i: int| 0 <= i < items.len() ==> (#[trigger] items[i]) is Record
}

/// A value that the batch path takes.
pub open spec fn is_batch(v: ValueView) -> bool {
    &&& v is Sequence
    &&& v->Sequence_0.len() > BATCH_THRESHOLD
    &&& all_records(v->Sequence_0)
}

/// The keys of a record, in order: the field layout that a batch takes from
/// its first element.
pub open spec fn field_names(pairs: Seq<(Seq<char>, ValueView)>) -> Seq<Seq<char>> {
    Seq::new(pairs.len(), |i: int| pairs[i].0)
}

/// The value that a record holds under `name`: that of the first pair with
/// this key, and `Null` if there is none.
pub open spec fn field_value(pairs: Seq<(Seq<char>, ValueView)>, name: Seq<char>) -> ValueView
    decreases pairs.len(),
{
    if pairs.len() == 0 {
        ValueView::Null
    } else if pairs[0].0 == name {
        pairs[0].1
    } else {
        field_value(pairs.subrange(1, pairs.len() as int), name)
    }
}

/// A record projected onto a layout: the layout's fields in the layout's
/// order. A field that the record lacks is `Null`; a field that the layout
/// lacks is dropped.
pub open spec fn project(pairs: Seq<(Seq<char>, ValueView)>, layout: Seq<Seq<char>>) -> Seq<
    (Seq<char>, ValueView),
> {
    Seq::new(layout.len(), |j: int| (layout[j], field_value(pairs, layout[j])))
}

/// Every record of a batch projected onto one layout.
pub open spec fn project_all(items: Seq<ValueView>, layout: Seq<Seq<char>>) -> Seq<ValueView> {
    Seq::new(items.len(), |i: int| ValueView::Record(project(items[i]->Record_0, layout)))
}

/// A value that the lean leaf writer of the batch path writes itself.
pub open spec fn is_simple(v: ValueView) -> bool {
    v is Null || v is Bool || v is Int || v is Float || v is Text
}

/// Every value of the record is simple.
pub open spec fn is_simple_record(pairs: Seq<(Seq<char>, ValueView)>) -> bool {
    forall|i: int| 0 <= i < pairs.len() ==> is_simple((#[trigger] pairs[i]).1)
}

/// The table holds each field name of the layout under the id noted for it.
pub open spec fn layout_in(keys: Seq<Seq<char>>, names: Seq<Seq<char>>, ids: Seq<u32>) -> bool {
    &&& names.len() == ids.len()
    &&& forall|j: int|
        0 <= j < names.len() ==> (#[trigger] ids[j]) < keys.len() && keys[ids[j] as int]
            == names[j]
}

/// The string table after interning `names` in order, or the first failure.
pub open spec fn intern_all(names: Seq<Seq<char>>, keys: Seq<Seq<char>>) -> Result<
    Seq<Seq<char>>,
    ErrorView,
>
    decreases names.len(),
{
    if names.len() == 0 {
        Ok(keys)
    } else {
        match intern_spec(keys, names[0]) {
            Err(e) => Err(e),
            Ok((_, interned)) => intern_all(names.subrange(1, names.len() as int), interned),
        }
    }
}

/// What the batch path writes for a sequence of records: the field names
/// of the first record are interned up front, then every record is written
/// projected onto that layout. An empty sequence is written as it is.
pub open spec fn emit_batch(items: Seq<ValueView>, depth: nat, keys: Seq<Seq<char>>) -> Result<
    Emitted,
    ErrorView,
> {
    if items.len() == 0 {
        emit(ValueView::Sequence(items), depth, keys)
    } else {
        let layout = field_names(items[0]->Record_0);
        match intern_all(layout, keys) {
            Err(e) => Err(e),
            Ok(interned) => emit(ValueView::Sequence(project_all(items, layout)), depth, interned),
        }
    }
}

/// The payload of a value and the string table that goes with it: a batch
/// goes through the batch path, anything else through the generic path.
pub open spec fn payload(v: ValueView) -> Result<Emitted, ErrorView> {
    if is_batch(v) {
        emit_batch(v->Sequence_0, 0, Seq::empty())
    } else {
        emit(v, 0, Seq::empty())
    }
}

/// The six header bytes: magic, flags, version and the number of
/// string-table entries.
pub open spec fn header_bytes(flags: u8, count: nat) -> Seq<u8> {
    seq![MAGIC_0, MAGIC_1, flags, FORMAT_VERSION] + le16(count)
}

/// The string table: each key in id order, as a length byte and its UTF-8
/// bytes.
pub open spec fn table_bytes(keys: Seq<Seq<char>>) -> Seq<u8>
    decreases keys.len(),
{
    if keys.len() == 0 {
        Seq::empty()
    } else {
        table_bytes(keys.drop_last()) + seq![encode_utf8(keys.last()).len() as u8] + encode_utf8(
            keys.last(),
        )
    }
}

/// Header, string table and payload in one buffer.
pub open spec fn stream(flags: u8, keys: Seq<Seq<char>>, payload: Seq<u8>) -> Seq<u8> {
    header_bytes(flags, keys.len()) + table_bytes(keys) + payload
}

} // verus!
