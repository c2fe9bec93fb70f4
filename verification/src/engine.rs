//! The encoding engine: walks a value and writes its tagged bytes.

use vstd::prelude::*;
use vstd::utf8::encode_utf8;
use crate::compress::{compress_stage, COMPRESS_MIN};
use crate::errors::{BFastError, ErrorView};
use crate::format::{compresses, encode_failure, is_encoding_of, stream_of};
use crate::grammar::{
    after, all_records, blob, emit, emit_batch, emit_items, emit_pairs, field_names, field_value,
    header_bytes, int_bytes, intern_all, is_simple, is_simple_record, layout_in,
    lemma_batch_failures, lemma_emit_keys, lemma_emit_record, lemma_emit_sequence,
    lemma_items_done, lemma_items_step, lemma_pairs_done, lemma_pairs_step, payload, project,
    project_all, stream, table_bytes, time_tag, words_bytes, Emitted, BATCH_THRESHOLD,
};
use crate::intern::{intern_spec, keys_wf, lemma_intern_spec, StringTable};
use crate::value::{
    items_view, lemma_items_view, lemma_pairs_view, pairs_view, strings_view, TimeKind, Value,
    ValueView,
};
use crate::wire::{
    le32, le64, put_bytes, put_i64, put_u32, put_u64, FLAG_COMPRESSED, FORMAT_VERSION, HEADER_LEN,
    MAGIC_0, MAGIC_1, MAX_KEY_BYTES, MAX_RECURSION_DEPTH, TAG_BYTES, TAG_DATE,
    TAG_DATETIME, TAG_DECIMAL, TAG_FALSE, TAG_FLOAT, TAG_INT, TAG_INT_INLINE, TAG_NULL,
    TAG_NUMERIC_ARRAY, TAG_RECORD, TAG_RECORD_END, TAG_SEQUENCE, TAG_TEXT, TAG_TIME, TAG_TRUE,
    TAG_UUID,
};

verus! {

/// The room a fresh engine reserves for its buffer.
pub const INITIAL_BUFFER_SIZE: usize = 4096;

/// Buffer sizes are rounded up to a multiple of this.
pub const CACHE_LINE_SIZE: usize = 64;

/// `Vec::capacity`: how many bytes the buffer can hold without growing.
/// The number is the allocator's business; nothing is claimed of it.
#[verifier::external_body]
fn buffer_capacity(buffer: &Vec<u8>) -> usize {
    buffer.capacity()
}

/// The field layout of a batch: the field names of its first record, in
/// order, each with the id it was interned under. It is taken once and
/// every record of the batch is written by it.
pub struct FieldLayout {
    names: Vec<String>,
    ids: Vec<u32>,
}

impl FieldLayout {
    /// The field names, in order.
    pub closed spec fn names(&self) -> Seq<Seq<char>> {
        strings_view(self.names@)
    }

    /// The ids of the field names, in the same order.
    pub closed spec fn ids(&self) -> Seq<u32> {
        self.ids@
    }

    /// The number of fields.
    fn len(&self) -> (n: usize)
        requires
            self.names().len() == self.ids().len(),
        ensures
            n == self.names().len(),
    {
        self.names.len()
    }
}

/// One encoder: a work buffer, the string table of the call in progress
/// and the nesting depth reached. An engine serves one call at a time.
pub struct BFast {
    table: StringTable,
    work_buffer: Vec<u8>,
    recursion_depth: usize,
}

impl BFast {
    /// The bytes written so far.
    pub closed spec fn buffer(&self) -> Seq<u8> {
        self.work_buffer@
    }

    /// The interned keys in id order.
    pub closed spec fn keys(&self) -> Seq<Seq<char>> {
        self.table@
    }

    /// How many sequences and records are open.
    pub closed spec fn depth(&self) -> nat {
        self.recursion_depth as nat
    }

    /// The table is well formed and the depth is within the ceiling.
    pub closed spec fn wf(&self) -> bool {
        &&& self.table.wf()
        &&& keys_wf(self.table@)
        &&& self.recursion_depth <= MAX_RECURSION_DEPTH
    }

    /// `self` went from `before` to `after` by writing what `want` says: on
    /// success the bytes were appended, the table is the one given and the
    /// depth is back where it was; on failure the call failed the same way.
    pub open spec fn wrote(
        before: BFast,
        after: BFast,
        r: Result<(), BFastError>,
        want: Result<Emitted, ErrorView>,
    ) -> bool {
        match want {
            Ok(e) => {
                &&& r is Ok
                &&& after.buffer() == before.buffer() + e.bytes
                &&& after.keys() == e.keys
                &&& after.depth() == before.depth()
            },
            Err(x) => r is Err && r->Err_0@ == x,
        }
    }

    /// A fresh engine: nothing written, nothing interned, depth zero.
    pub fn new() -> (engine: BFast)
        ensures
            engine.wf(),
            engine.buffer() == Seq::<u8>::empty(),
            engine.keys() == Seq::<Seq<char>>::empty(),
            engine.depth() == 0,
    {
        let table = StringTable::new();
        proof {
            table.lemma_wf();
        }
        BFast {
            table,
            work_buffer: Vec::with_capacity(INITIAL_BUFFER_SIZE),
            recursion_depth: 0,
        }
    }

    /// Makes room for `additional` more bytes, doubling the buffer rather
    /// than growing it by small steps. The contents stay as they are.
    fn ensure_buffer_capacity(&mut self, additional: usize)
        ensures
            final(self).buffer() == old(self).buffer(),
            final(self).table == old(self).table,
            final(self).recursion_depth == old(self).recursion_depth,
    {
        let len = self.work_buffer.len();
        let capacity = buffer_capacity(&self.work_buffer);
        if additional <= usize::MAX - len {
            let required = len + additional;
            if required > capacity {
                let new_cap = if capacity <= usize::MAX / 2 && capacity * 2 > required {
                    capacity * 2
                } else {
                    required
                };
                let _ = self.work_buffer.try_reserve(new_cap - len);
            }
        }
    }

    /// Enters a sequence or a record: one level deeper, unless the ceiling
    /// is reached.
    fn check_recursion_depth(&mut self) -> (r: Result<(), BFastError>)
        requires
            old(self).wf(),
        ensures
            final(self).wf(),
            final(self).buffer() == old(self).buffer(),
            final(self).keys() == old(self).keys(),
            old(self).depth() < MAX_RECURSION_DEPTH ==> r is Ok && final(self).depth() == old(
                self,
            ).depth() + 1,
            old(self).depth() >= MAX_RECURSION_DEPTH ==> r is Err && r->Err_0@
                == ErrorView::RecursionLimitExceeded && final(self).depth() == old(self).depth(),
    {
        if self.recursion_depth >= MAX_RECURSION_DEPTH {
            return Err(BFastError::RecursionLimitExceeded);
        }
        self.recursion_depth += 1;
        Ok(())
    }

    /// Leaves a sequence or a record.
    fn decrease_recursion_depth(&mut self)
        requires
            old(self).wf(),
            old(self).depth() > 0,
        ensures
            final(self).wf(),
            final(self).buffer() == old(self).buffer(),
            final(self).keys() == old(self).keys(),
            final(self).depth() == old(self).depth() - 1,
    {
        self.recursion_depth -= 1;
    }

    /// Writes a tag, the length of `body` in 32 bits, and `body`.
    fn write_blob(&mut self, tag: u8, body: &[u8]) -> (r: Result<(), BFastError>)
        requires
            old(self).wf(),
        ensures
            final(self).wf(),
            final(self).keys() == old(self).keys(),
            final(self).depth() == old(self).depth(),
            match blob(tag, body@) {
                Ok(b) => r is Ok && final(self).buffer() == old(self).buffer() + b,
                Err(x) => r is Err && r->Err_0@ == x,
            },
    {
        let len = body.len();
        if len > u32::MAX as usize {
            return Err(BFastError::LengthOverflow);
        }
        self.ensure_buffer_capacity(len.saturating_add(5));
        self.work_buffer.push(tag);
        put_u32(&mut self.work_buffer, len as u32);
        put_bytes(&mut self.work_buffer, body);
        assert(self.work_buffer@ =~= old(self).work_buffer@ + (seq![tag] + le32(len as nat) + body@));
        Ok(())
    }

    /// Writes an integer: inline in its tag where it fits, else in full.
    fn write_int(&mut self, n: i64)
        requires
            old(self).wf(),
        ensures
            final(self).wf(),
            final(self).keys() == old(self).keys(),
            final(self).depth() == old(self).depth(),
            final(self).buffer() == old(self).buffer() + int_bytes(n),
    {
        if n >= 0 && n <= 15 && n != 8 {
            self.work_buffer.push(TAG_INT_INLINE + (n as u8));
            assert(self.work_buffer@ =~= old(self).work_buffer@ + int_bytes(n));
        } else {
            self.work_buffer.push(TAG_INT);
            put_i64(&mut self.work_buffer, n);
            assert(self.work_buffer@ =~= old(self).work_buffer@ + int_bytes(n));
        }
    }

    /// Writes the bits of a float.
    fn write_float(&mut self, bits: u64)
        requires
            old(self).wf(),
        ensures
            final(self).wf(),
            final(self).keys() == old(self).keys(),
            final(self).depth() == old(self).depth(),
            final(self).buffer() == old(self).buffer() + (seq![TAG_FLOAT] + le64(bits as nat)),
    {
        self.work_buffer.push(TAG_FLOAT);
        put_u64(&mut self.work_buffer, bits);
        assert(self.work_buffer@ =~= old(self).work_buffer@ + (seq![TAG_FLOAT] + le64(bits as nat)));
    }

    /// Writes a numeric array: the count, then the bits of each element.
    fn write_numeric_array(&mut self, xs: &Vec<u64>) -> (r: Result<(), BFastError>)
        requires
            old(self).wf(),
        ensures
            final(self).wf(),
            Self::wrote(
                *old(self),
                *final(self),
                r,
                emit(ValueView::NumericArray(xs@), old(self).depth(), old(self).keys()),
            ),
    {
        proof {
            reveal(emit);
            reveal(emit_items);
            reveal(emit_pairs);
        }
        let n = xs.len();
        if n > u32::MAX as usize {
            return Err(BFastError::LengthOverflow);
        }
        self.work_buffer.push(TAG_NUMERIC_ARRAY);
        put_u32(&mut self.work_buffer, n as u32);
        let ghost head = self.work_buffer@;
        let mut i: usize = 0;
        while i < n
            invariant
                i <= n,
                n == xs@.len(),
                self.table == old(self).table,
                self.recursion_depth == old(self).recursion_depth,
                self.work_buffer@ == head + words_bytes(xs@.subrange(0, i as int)),
            decreases n - i,
        {
            let ghost before = self.work_buffer@;
            put_u64(&mut self.work_buffer, xs[i]);
            proof {
                let a = xs@.subrange(0, i as int);
                let b = xs@.subrange(0, i + 1);
                assert(words_bytes(b) =~= words_bytes(a) + le64(xs@[i as int] as nat)) by {
                    assert forall|k: int| 0 <= k < 8 * (i + 1) implies words_bytes(b)[k] == (
                    words_bytes(a) + le64(xs@[i as int] as nat))[k] by {
                        if k < 8 * i {
                            assert(b[k / 8] == a[k / 8]);
                        } else {
                            assert(k / 8 == i);
                            assert(k % 8 == k - 8 * i);
                        }
                    }
                }
                assert(self.work_buffer@ =~= head + words_bytes(b));
            }
            i += 1;
        }
        proof {
            assert(xs@.subrange(0, n as int) =~= xs@);
            assert(self.work_buffer@ =~= old(self).work_buffer@ + (seq![TAG_NUMERIC_ARRAY] + le32(
                n as nat,
            ) + words_bytes(xs@)));
        }
        Ok(())
    }

    /// The tag of a timestamp of the given kind.
    fn tag_of_kind(kind: &TimeKind) -> (tag: u8)
        ensures
            tag == time_tag(*kind),
    {
        match kind {
            TimeKind::DateTime => TAG_DATETIME,
            TimeKind::Date => TAG_DATE,
            TimeKind::Time => TAG_TIME,
        }
    }

    /// Writes one byte.
    fn write_tag(&mut self, tag: u8)
        requires
            old(self).wf(),
        ensures
            final(self).wf(),
            final(self).keys() == old(self).keys(),
            final(self).depth() == old(self).depth(),
            final(self).buffer() == old(self).buffer() + seq![tag],
    {
        self.work_buffer.push(tag);
        assert(self.work_buffer@ =~= old(self).work_buffer@ + seq![tag]);
    }

    /// The generic path: writes any value by its tag, descending into
    /// sequences and records.
    fn serialize_any(&mut self, val: &Value) -> (r: Result<(), BFastError>)
        requires
            old(self).wf(),
        ensures
            final(self).wf(),
            Self::wrote(
                *old(self),
                *final(self),
                r,
                emit(val@, old(self).depth(), old(self).keys()),
            ),
        decreases MAX_RECURSION_DEPTH - old(self).recursion_depth, 1nat,
    {
        proof {
            reveal(emit);
            reveal(emit_items);
            reveal(emit_pairs);
        }
        match val {
            Value::Null => {
                self.write_tag(TAG_NULL);
                Ok(())
            },
            Value::Decimal(s) => self.write_blob(TAG_DECIMAL, s.as_str().as_bytes()),
            Value::Timestamp { kind, text } => {
                let tag = Self::tag_of_kind(kind);
                self.write_blob(tag, text.as_str().as_bytes())
            },
            Value::Uuid(s) => self.write_blob(TAG_UUID, s.as_str().as_bytes()),
            Value::Bool(b) => {
                self.write_tag(if *b { TAG_TRUE } else { TAG_FALSE });
                Ok(())
            },
            Value::Int(n) => {
                self.write_int(*n);
                Ok(())
            },
            Value::Float(bits) => {
                self.write_float(*bits);
                Ok(())
            },
            Value::Text(s) => self.write_blob(TAG_TEXT, s.as_str().as_bytes()),
            Value::Bytes(b) => self.write_blob(TAG_BYTES, b.as_slice()),
            Value::Sequence(items) => self.serialize_sequence(items),
            Value::NumericArray(xs) => self.write_numeric_array(xs),
            Value::Record(pairs) => self.serialize_record(pairs),
        }
    }

    /// Writes a sequence: the tag, the count, then each element through the
    /// generic path.
    fn serialize_sequence(&mut self, items: &Vec<Value>) -> (r: Result<(), BFastError>)
        requires
            old(self).wf(),
        ensures
            final(self).wf(),
            Self::wrote(
                *old(self),
                *final(self),
                r,
                emit(ValueView::Sequence(items_view(items@)), old(self).depth(), old(self).keys()),
            ),
        decreases MAX_RECURSION_DEPTH - old(self).recursion_depth, 0nat,
    {
        let n = items.len();
        proof {
            lemma_items_view(items@);
            lemma_emit_sequence(items_view(items@), self.depth(), self.keys());
        }
        match self.check_recursion_depth() {
            Ok(()) => {},
            Err(e) => {
                return Err(e);
            },
        }
        if n > u32::MAX as usize {
            return Err(BFastError::LengthOverflow);
        }
        self.work_buffer.push(TAG_SEQUENCE);
        put_u32(&mut self.work_buffer, n as u32);
        let ghost all = items_view(items@);
        let ghost depth = self.depth();
        let ghost want = emit_items(all, depth, old(self).keys());
        let ghost head = self.work_buffer@;
        let ghost mut written = Seq::<u8>::empty();
        proof {
            lemma_items_view(items@);
            lemma_items_done(all, depth, self.keys(), written);
            assert(head + written =~= head);
        }
        let mut i: usize = 0;
        while i < n
            invariant
                i <= n,
                n == items@.len(),
                all == items_view(items@),
                all.len() == n,
                self.wf(),
                self.depth() == depth,
                self.recursion_depth == old(self).recursion_depth + 1,
                self.work_buffer@ == head + written,
                want == after(
                    written,
                    emit_items(all.subrange(i as int, n as int), depth, self.keys()),
                ),
                want is Err ==> emit(
                    ValueView::Sequence(all),
                    old(self).depth(),
                    old(self).keys(),
                ) == want,
            decreases n - i,
        {
            proof {
                lemma_items_view(items@);
                lemma_items_step(all, i as int, depth, self.keys(), written);
            }
            let ghost one = emit(all[i as int], depth, self.keys());
            match self.serialize_any(&items[i]) {
                Ok(()) => {},
                Err(e) => {
                    return Err(e);
                },
            }
            proof {
                written = written + one->Ok_0.bytes;
                assert(self.work_buffer@ =~= head + written);
            }
            i += 1;
        }
        proof {
            lemma_items_done(all, depth, self.keys(), written);
            assert(self.work_buffer@ =~= old(self).work_buffer@ + (seq![TAG_SEQUENCE] + le32(
                n as nat,
            ) + written));
        }
        self.decrease_recursion_depth();
        Ok(())
    }

    /// Writes a record: the start tag, for each pair the interned id of the
    /// key and the value, then the end tag.
    fn serialize_record(&mut self, pairs: &Vec<(String, Value)>) -> (r: Result<(), BFastError>)
        requires
            old(self).wf(),
        ensures
            final(self).wf(),
            Self::wrote(
                *old(self),
                *final(self),
                r,
                emit(ValueView::Record(pairs_view(pairs@)), old(self).depth(), old(self).keys()),
            ),
        decreases MAX_RECURSION_DEPTH - old(self).recursion_depth, 0nat,
    {
        let n = pairs.len();
        proof {
            lemma_pairs_view(pairs@);
            lemma_emit_record(pairs_view(pairs@), self.depth(), self.keys());
        }
        match self.check_recursion_depth() {
            Ok(()) => {},
            Err(e) => {
                return Err(e);
            },
        }
        self.work_buffer.push(TAG_RECORD);
        let ghost all = pairs_view(pairs@);
        let ghost depth = self.depth();
        let ghost want = emit_pairs(all, depth, old(self).keys());
        let ghost head = self.work_buffer@;
        let ghost mut written = Seq::<u8>::empty();
        proof {
            lemma_pairs_view(pairs@);
            lemma_pairs_done(all, depth, self.keys(), written);
            assert(head + written =~= head);
        }
        let mut i: usize = 0;
        while i < n
            invariant
                i <= n,
                n == pairs@.len(),
                all == pairs_view(pairs@),
                all.len() == n,
                self.wf(),
                self.depth() == depth,
                self.recursion_depth == old(self).recursion_depth + 1,
                self.work_buffer@ == head + written,
                want == after(
                    written,
                    emit_pairs(all.subrange(i as int, n as int), depth, self.keys()),
                ),
                want is Err ==> emit(
                    ValueView::Record(all),
                    old(self).depth(),
                    old(self).keys(),
                ) == want,
            decreases n - i,
        {
            proof {
                lemma_pairs_view(pairs@);
                lemma_pairs_step(all, i as int, depth, self.keys(), written);
                lemma_intern_spec(self.keys(), all[i as int].0);
            }
            let ghost interned = intern_spec(self.keys(), all[i as int].0);
            let id = match self.table.intern(&pairs[i].0) {
                Ok(id) => id,
                Err(e) => {
                    return Err(e);
                },
            };
            put_u32(&mut self.work_buffer, id);
            let ghost one = emit(all[i as int].1, depth, self.keys());
            match self.serialize_any(&pairs[i].1) {
                Ok(()) => {},
                Err(e) => {
                    return Err(e);
                },
            }
            proof {
                written = written + le32(id as nat) + one->Ok_0.bytes;
                assert(self.work_buffer@ =~= head + written);
            }
            i += 1;
        }
        self.work_buffer.push(TAG_RECORD_END);
        proof {
            lemma_pairs_done(all, depth, self.keys(), written);
            assert(self.work_buffer@ =~= old(self).work_buffer@ + (seq![TAG_RECORD] + written
                + seq![TAG_RECORD_END]));
        }
        self.decrease_recursion_depth();
        Ok(())
    }

    /// The lean leaf writer of the batch path: writes the five simple kinds
    /// itself and hands anything else to the generic path, so that a record
    /// that does not keep to the batch's classification is still written
    /// as it should be.
    fn serialize_value_simple(&mut self, val: &Value) -> (r: Result<(), BFastError>)
        requires
            old(self).wf(),
        ensures
            final(self).wf(),
            Self::wrote(
                *old(self),
                *final(self),
                r,
                emit(val@, old(self).depth(), old(self).keys()),
            ),
    {
        proof {
            reveal(emit);
            reveal(emit_items);
            reveal(emit_pairs);
        }
        match val {
            Value::Null => {
                self.write_tag(TAG_NULL);
                Ok(())
            },
            Value::Bool(b) => {
                self.write_tag(if *b { TAG_TRUE } else { TAG_FALSE });
                Ok(())
            },
            Value::Int(n) => {
                self.write_int(*n);
                Ok(())
            },
            Value::Text(s) => self.write_blob(TAG_TEXT, s.as_str().as_bytes()),
            Value::Float(bits) => {
                self.write_float(*bits);
                Ok(())
            },
            _ => self.serialize_any(val),
        }
    }

    /// The full leaf writer of the batch path: writes the simple kinds and
    /// the extended ones (decimal, UUID, timestamp) itself and hands
    /// anything else to the generic path.
    fn serialize_value_complex(&mut self, val: &Value) -> (r: Result<(), BFastError>)
        requires
            old(self).wf(),
        ensures
            final(self).wf(),
            Self::wrote(
                *old(self),
                *final(self),
                r,
                emit(val@, old(self).depth(), old(self).keys()),
            ),
    {
        proof {
            reveal(emit);
            reveal(emit_items);
            reveal(emit_pairs);
        }
        match val {
            Value::Null => {
                self.write_tag(TAG_NULL);
                Ok(())
            },
            Value::Bool(b) => {
                self.write_tag(if *b { TAG_TRUE } else { TAG_FALSE });
                Ok(())
            },
            Value::Int(n) => {
                self.write_int(*n);
                Ok(())
            },
            Value::Text(s) => self.write_blob(TAG_TEXT, s.as_str().as_bytes()),
            Value::Float(bits) => {
                self.write_float(*bits);
                Ok(())
            },
            Value::Decimal(s) => self.write_blob(TAG_DECIMAL, s.as_str().as_bytes()),
            Value::Uuid(s) => self.write_blob(TAG_UUID, s.as_str().as_bytes()),
            Value::Timestamp { kind, text } => {
                let tag = Self::tag_of_kind(kind);
                self.write_blob(tag, text.as_str().as_bytes())
            },
            _ => self.serialize_any(val),
        }
    }

    /// Whether every value of the record is of a simple kind, so that the
    /// batch can take the lean leaf writer.
    fn detect_simple_types(pairs: &Vec<(String, Value)>) -> (simple: bool)
        ensures
            simple == is_simple_record(pairs_view(pairs@)),
    {
        let n = pairs.len();
        let mut i: usize = 0;
        proof {
            lemma_pairs_view(pairs@);
        }
        while i < n
            invariant
                i <= n,
                n == pairs@.len(),
                pairs_view(pairs@).len() == n,
                forall|k: int| 0 <= k < n ==> (#[trigger] pairs_view(pairs@)[k]).1 == pairs@[k].1@,
                forall|k: int| 0 <= k < i ==> is_simple((#[trigger] pairs_view(pairs@)[k]).1),
            decreases n - i,
        {
            match &pairs[i].1 {
                Value::Null | Value::Bool(_) | Value::Int(_) | Value::Float(_) | Value::Text(_) => {},
                _ => {
                    assert(!is_simple(pairs_view(pairs@)[i as int].1));
                    return false;
                },
            }
            i += 1;
        }
        true
    }

    /// The value that the record holds under `name`, if it has such a
    /// field.
    fn find_field<'a>(pairs: &'a Vec<(String, Value)>, name: &String) -> (found: Option<&'a Value>)
        ensures
            (match found {
                Some(v) => v@,
                None => ValueView::Null,
            }) == field_value(pairs_view(pairs@), name@),
    {
        let n = pairs.len();
        let ghost all = pairs_view(pairs@);
        proof {
            lemma_pairs_view(pairs@);
            assert(all.subrange(0, n as int) =~= all);
        }
        let mut i: usize = 0;
        while i < n
            invariant
                i <= n,
                n == pairs@.len(),
                all == pairs_view(pairs@),
                all.len() == n,
                field_value(all, name@) == field_value(all.subrange(i as int, n as int), name@),
            decreases n - i,
        {
            proof {
                lemma_pairs_view(pairs@);
                let rest = all.subrange(i as int, n as int);
                assert(rest[0] == (pairs@[i as int].0@, pairs@[i as int].1@));
                assert(rest.subrange(1, rest.len() as int) =~= all.subrange(i + 1, n as int));
            }
            if pairs[i].0 == *name {
                return Some(&pairs[i].1);
            }
            i += 1;
        }
        None
    }

    /// Writes a record projected onto the layout of its batch: the fields of
    /// the layout in the layout's order, each under its precomputed id. A
    /// field that the record lacks is written as null; a field that the
    /// layout lacks is not written. `simple` picks the leaf writer.
    fn serialize_projected(
        &mut self,
        pairs: &Vec<(String, Value)>,
        layout: &FieldLayout,
        simple: bool,
    ) -> (r: Result<(), BFastError>)
        requires
            old(self).wf(),
            layout_in(old(self).keys(), layout.names(), layout.ids()),
        ensures
            final(self).wf(),
            Self::wrote(
                *old(self),
                *final(self),
                r,
                emit(
                    ValueView::Record(project(pairs_view(pairs@), layout.names())),
                    old(self).depth(),
                    old(self).keys(),
                ),
            ),
    {
        let m = layout.len();
        let ghost names = layout.names();
        let ghost all = project(pairs_view(pairs@), names);
        proof {
            lemma_emit_record(all, self.depth(), self.keys());
        }
        match self.check_recursion_depth() {
            Ok(()) => {},
            Err(e) => {
                return Err(e);
            },
        }
        self.work_buffer.push(TAG_RECORD);
        let ghost depth = self.depth();
        let ghost want = emit_pairs(all, depth, old(self).keys());
        let ghost head = self.work_buffer@;
        let ghost mut written = Seq::<u8>::empty();
        proof {
            lemma_pairs_done(all, depth, self.keys(), written);
            assert(head + written =~= head);
        }
        let mut j: usize = 0;
        while j < m
            invariant
                j <= m,
                m == names.len(),
                names == layout.names(),
                all == project(pairs_view(pairs@), names),
                all.len() == m,
                self.wf(),
                self.depth() == depth,
                self.recursion_depth == old(self).recursion_depth + 1,
                layout_in(self.keys(), names, layout.ids()),
                self.work_buffer@ == head + written,
                want == after(
                    written,
                    emit_pairs(all.subrange(j as int, m as int), depth, self.keys()),
                ),
                want is Err ==> emit(
                    ValueView::Record(all),
                    old(self).depth(),
                    old(self).keys(),
                ) == want,
            decreases m - j,
        {
            let ghost keys = self.keys();
            let id = layout.ids[j];
            proof {
                lemma_pairs_step(all, j as int, depth, keys, written);
                assert(keys[id as int] == names[j as int]);
                assert(keys.contains(names[j as int]));
                assert(keys.index_of(names[j as int]) == id);
                lemma_emit_keys(all[j as int].1, depth, keys);
            }
            put_u32(&mut self.work_buffer, id);
            let ghost one = emit(all[j as int].1, depth, keys);
            let found = Self::find_field(pairs, &layout.names[j]);
            let outcome = match found {
                Some(val) => {
                    if simple {
                        self.serialize_value_simple(val)
                    } else {
                        self.serialize_value_complex(val)
                    }
                },
                None => self.serialize_value_simple(&Value::Null),
            };
            match outcome {
                Ok(()) => {},
                Err(e) => {
                    return Err(e);
                },
            }
            proof {
                written = written + le32(id as nat) + one->Ok_0.bytes;
                assert(self.work_buffer@ =~= head + written);
            }
            j += 1;
        }
        self.work_buffer.push(TAG_RECORD_END);
        proof {
            lemma_pairs_done(all, depth, self.keys(), written);
            assert(self.work_buffer@ =~= old(self).work_buffer@ + (seq![TAG_RECORD] + written
                + seq![TAG_RECORD_END]));
        }
        self.decrease_recursion_depth();
        Ok(())
    }

    /// Whether every element is a record.
    fn all_items_records(items: &Vec<Value>) -> (yes: bool)
        ensures
            yes == all_records(items_view(items@)),
    {
        let n = items.len();
        proof {
            lemma_items_view(items@);
        }
        let mut i: usize = 0;
        while i < n
            invariant
                i <= n,
                n == items@.len(),
                items_view(items@).len() == n,
                forall|k: int| 0 <= k < n ==> (#[trigger] items_view(items@)[k]) == items@[k]@,
                forall|k: int| 0 <= k < i ==> (#[trigger] items_view(items@)[k]) is Record,
            decreases n - i,
        {
            match &items[i] {
                Value::Record(_) => {},
                _ => {
                    assert(!(items_view(items@)[i as int] is Record));
                    return false;
                },
            }
            i += 1;
        }
        true
    }

    /// Builds the field layout of a batch from its first record: the field
    /// names in order, each interned once, with the ids they got.
    fn intern_layout(&mut self, pairs: &Vec<(String, Value)>) -> (r: Result<
        FieldLayout,
        BFastError,
    >)
        requires
            old(self).wf(),
        ensures
            final(self).wf(),
            final(self).buffer() == old(self).buffer(),
            final(self).depth() == old(self).depth(),
            match intern_all(field_names(pairs_view(pairs@)), old(self).keys()) {
                Ok(interned) => {
                    &&& r is Ok
                    &&& final(self).keys() == interned
                    &&& r->Ok_0.names() == field_names(pairs_view(pairs@))
                    &&& layout_in(interned, r->Ok_0.names(), r->Ok_0.ids())
                },
                Err(e) => r is Err && r->Err_0@ == e,
            },
    {
        let m = pairs.len();
        let ghost layout = field_names(pairs_view(pairs@));
        let ghost want = intern_all(layout, self.keys());
        let mut names: Vec<String> = Vec::new();
        let mut ids: Vec<u32> = Vec::new();
        proof {
            lemma_pairs_view(pairs@);
            assert(layout.subrange(0, m as int) =~= layout);
        }
        let mut i: usize = 0;
        while i < m
            invariant
                i <= m,
                m == pairs@.len(),
                layout == field_names(pairs_view(pairs@)),
                layout.len() == m,
                self.wf(),
                self.work_buffer == old(self).work_buffer,
                self.recursion_depth == old(self).recursion_depth,
                names@.len() == i,
                ids@.len() == i,
                forall|k: int| 0 <= k < i ==> (#[trigger] names@[k])@ == layout[k],
                forall|k: int|
                    0 <= k < i ==> (#[trigger] ids@[k]) < self.keys().len() && self.keys()[ids@[k] as int]
                        == layout[k],
                want == intern_all(layout, old(self).keys()),
                want == intern_all(layout.subrange(i as int, m as int), self.keys()),
            decreases m - i,
        {
            let ghost keys = self.keys();
            proof {
                lemma_pairs_view(pairs@);
                let rest = layout.subrange(i as int, m as int);
                assert(rest[0] == pairs@[i as int].0@);
                assert(rest.subrange(1, rest.len() as int) =~= layout.subrange(i + 1, m as int));
                lemma_intern_spec(keys, rest[0]);
            }
            let id = match self.table.intern(&pairs[i].0) {
                Ok(id) => id,
                Err(e) => {
                    return Err(e);
                },
            };
            proof {
                assert forall|k: int| 0 <= k < i implies (#[trigger] ids@[k]) < self.keys().len()
                    && self.keys()[ids@[k] as int] == layout[k] by {
                    assert(self.keys().subrange(0, keys.len() as int)[ids@[k] as int]
                        == self.keys()[ids@[k] as int]);
                }
            }
            names.push(pairs[i].0.clone());
            ids.push(id);
            i += 1;
        }
        proof {
            assert(strings_view(names@) =~= layout);
        }
        Ok(FieldLayout { names, ids })
    }

    /// The batch path: writes a sequence of records under one field layout,
    /// taken from the first record. Each record is projected onto that
    /// layout, so the field names are interned and looked up once for the
    /// whole batch. A sequence that holds anything but records is refused
    /// before a byte is written, and the caller takes the generic path.
    fn serialize_batch(&mut self, items: &Vec<Value>) -> (r: Result<(), BFastError>)
        requires
            old(self).wf(),
        ensures
            final(self).wf(),
            !all_records(items_view(items@)) ==> {
                &&& r is Err
                &&& r->Err_0@ == ErrorView::NotHomogeneousBatch
                &&& final(self).buffer() == old(self).buffer()
                &&& final(self).keys() == old(self).keys()
                &&& final(self).depth() == old(self).depth()
            },
            all_records(items_view(items@)) ==> Self::wrote(
                *old(self),
                *final(self),
                r,
                emit_batch(items_view(items@), old(self).depth(), old(self).keys()),
            ),
    {
        let n = items.len();
        proof {
            lemma_items_view(items@);
        }
        if !Self::all_items_records(items) {
            return Err(BFastError::NotHomogeneousBatch);
        }
        if n == 0 {
            return self.serialize_sequence(items);
        }
        let first = match &items[0] {
            Value::Record(pairs) => pairs,
            _ => {
                assert(items_view(items@)[0] is Record);
                return Err(BFastError::NotHomogeneousBatch);
            },
        };
        let ghost names = field_names(pairs_view(first@));
        let ghost all = project_all(items_view(items@), names);
        assert(items_view(items@)[0]->Record_0 == pairs_view(first@));
        let layout = match self.intern_layout(first) {
            Ok(layout) => layout,
            Err(e) => {
                return Err(e);
            },
        };
        let simple = Self::detect_simple_types(first);
        let ghost start = self.keys();
        proof {
            lemma_emit_sequence(all, self.depth(), start);
        }
        match self.check_recursion_depth() {
            Ok(()) => {},
            Err(e) => {
                return Err(e);
            },
        }
        if n > u32::MAX as usize {
            return Err(BFastError::LengthOverflow);
        }
        self.work_buffer.push(TAG_SEQUENCE);
        put_u32(&mut self.work_buffer, n as u32);
        let ghost depth = self.depth();
        let ghost want = emit_items(all, depth, start);
        let ghost head = self.work_buffer@;
        let ghost mut written = Seq::<u8>::empty();
        proof {
            lemma_items_done(all, depth, self.keys(), written);
            assert(head + written =~= head);
        }
        let mut i: usize = 0;
        while i < n
            invariant
                i <= n,
                n == items@.len(),
                names == layout.names(),
                all == project_all(items_view(items@), names),
                all.len() == n,
                all_records(items_view(items@)),
                self.wf(),
                self.depth() == depth,
                self.recursion_depth == old(self).recursion_depth + 1,
                layout_in(self.keys(), names, layout.ids()),
                self.work_buffer@ == head + written,
                want == after(
                    written,
                    emit_items(all.subrange(i as int, n as int), depth, self.keys()),
                ),
                want is Err ==> emit(ValueView::Sequence(all), old(self).depth(), start) == want,
                emit_batch(items_view(items@), old(self).depth(), old(self).keys()) == emit(
                    ValueView::Sequence(all),
                    old(self).depth(),
                    start,
                ),
            decreases n - i,
        {
            let ghost keys = self.keys();
            proof {
                lemma_items_view(items@);
                lemma_items_step(all, i as int, depth, keys, written);
                lemma_emit_keys(all[i as int], depth, keys);
            }
            let ghost one = emit(all[i as int], depth, keys);
            let outcome = match &items[i] {
                Value::Record(pairs) => {
                    assert(items_view(items@)[i as int]->Record_0 == pairs_view(pairs@));
                    self.serialize_projected(pairs, &layout, simple)
                },
                _ => {
                    assert(items_view(items@)[i as int] is Record);
                    return Err(BFastError::NotHomogeneousBatch);
                },
            };
            match outcome {
                Ok(()) => {},
                Err(e) => {
                    return Err(e);
                },
            }
            proof {
                written = written + one->Ok_0.bytes;
                assert(self.work_buffer@ =~= head + written);
            }
            i += 1;
        }
        proof {
            lemma_items_done(all, depth, self.keys(), written);
            assert(self.work_buffer@ =~= old(self).work_buffer@ + (seq![TAG_SEQUENCE] + le32(
                n as nat,
            ) + written));
        }
        self.decrease_recursion_depth();
        Ok(())
    }

    /// Writes the six header bytes over the bytes at `pos`: the magic, the
    /// flags, the version and the number of interned keys.
    fn write_header(&mut self, pos: usize, compressed: bool)
        requires
            old(self).wf(),
            pos + HEADER_LEN <= old(self).buffer().len(),
        ensures
            final(self).wf(),
            final(self).keys() == old(self).keys(),
            final(self).depth() == old(self).depth(),
            final(self).buffer() == old(self).buffer().subrange(0, pos as int) + header_bytes(
                if compressed {
                    FLAG_COMPRESSED
                } else {
                    0
                },
                old(self).keys().len(),
            ) + old(self).buffer().subrange(pos + HEADER_LEN, old(self).buffer().len() as int),
    {
        let count: u16 = self.table.len() as u16;
        let len = self.work_buffer.len();
        assert(pos + HEADER_LEN <= len);
        let flags: u8 = if compressed {
            FLAG_COMPRESSED
        } else {
            0
        };
        self.work_buffer.set(pos, MAGIC_0);
        self.work_buffer.set(pos + 1, MAGIC_1);
        self.work_buffer.set(pos + 2, flags);
        self.work_buffer.set(pos + 3, FORMAT_VERSION);
        self.work_buffer.set(pos + 4, (count % 256) as u8);
        self.work_buffer.set(pos + 5, (count / 256 % 256) as u8);
        assert(self.work_buffer@ =~= old(self).work_buffer@.subrange(0, pos as int) + header_bytes(
            flags,
            old(self).keys().len(),
        ) + old(self).work_buffer@.subrange(pos + HEADER_LEN, old(self).work_buffer@.len() as int));
    }

    /// Writes the string table: every interned key in id order, as a length
    /// byte and the key's bytes.
    fn write_string_table(&mut self)
        requires
            old(self).wf(),
        ensures
            final(self).wf(),
            final(self).keys() == old(self).keys(),
            final(self).depth() == old(self).depth(),
            final(self).buffer() == old(self).buffer() + table_bytes(old(self).keys()),
    {
        let n = self.table.len();
        let ghost keys = self.keys();
        let ghost head = self.work_buffer@;
        proof {
            assert(keys.subrange(0, 0) =~= Seq::<Seq<char>>::empty());
            assert(head + table_bytes(keys.subrange(0, 0)) =~= head);
        }
        let mut i: usize = 0;
        while i < n
            invariant
                i <= n,
                n == keys.len(),
                keys == self.keys(),
                self.wf(),
                self.recursion_depth == old(self).recursion_depth,
                self.work_buffer@ == head + table_bytes(keys.subrange(0, i as int)),
            decreases n - i,
        {
            let key = self.table.key(i);
            let bytes = key.as_str().as_bytes();
            let len = bytes.len();
            proof {
                let upto = keys.subrange(0, i + 1);
                assert(upto.drop_last() =~= keys.subrange(0, i as int));
                assert(upto.last() == keys[i as int]);
                assert(encode_utf8(keys[i as int]).len() <= MAX_KEY_BYTES);
            }
            let ghost before = self.work_buffer@;
            self.work_buffer.push(len as u8);
            put_bytes(&mut self.work_buffer, bytes);
            proof {
                assert(self.work_buffer@ =~= head + table_bytes(keys.subrange(0, i + 1)));
            }
            i += 1;
        }
        proof {
            assert(keys.subrange(0, n as int) =~= keys);
        }
    }

    /// A guess at the size of the encoded value, rounded up to a multiple of
    /// the cache line, to size the buffer before writing.
    fn estimate_size(value: &Value) -> (size: usize)
        ensures
            size % CACHE_LINE_SIZE == 0,
            size >= INITIAL_BUFFER_SIZE,
    {
        match value {
            Value::Sequence(items) => {
                let len = items.len();
                if len <= (usize::MAX - 8192) / 48 {
                    let raw = len * 48 + 4096;
                    (raw + (CACHE_LINE_SIZE - 1)) / CACHE_LINE_SIZE * CACHE_LINE_SIZE
                } else {
                    8192
                }
            },
            _ => 8192,
        }
    }

    /// The interned keys of the last call, in id order.
    pub fn string_table(&self) -> (keys: Vec<String>)
        requires
            self.wf(),
        ensures
            strings_view(keys@) == self.keys(),
    {
        let n = self.table.len();
        let mut keys: Vec<String> = Vec::new();
        let mut i: usize = 0;
        while i < n
            invariant
                i <= n,
                n == self.keys().len(),
                keys@.len() == i,
                forall|k: int| 0 <= k < i ==> (#[trigger] keys@[k])@ == self.keys()[k],
            decreases n - i,
        {
            keys.push(self.table.key(i).clone());
            i += 1;
        }
        assert(strings_view(keys@) =~= self.keys());
        keys
    }

    /// Starts a call: an empty string table, depth zero, and a buffer that
    /// holds six bytes in the place of the header and has room for about
    /// `estimated_size` bytes.
    fn begin(&mut self, estimated_size: usize)
        ensures
            final(self).wf(),
            final(self).keys() == Seq::<Seq<char>>::empty(),
            final(self).depth() == 0,
            final(self).buffer().len() == HEADER_LEN,
    {
        self.work_buffer.clear();
        self.recursion_depth = 0;
        self.table = StringTable::new();
        proof {
            self.table.lemma_wf();
        }
        self.ensure_buffer_capacity(estimated_size);
        let mut filler: usize = 0;
        while filler < HEADER_LEN
            invariant
                filler <= HEADER_LEN,
                self.wf(),
                self.keys() == Seq::<Seq<char>>::empty(),
                self.depth() == 0,
                self.work_buffer@.len() == filler,
            decreases HEADER_LEN - filler,
        {
            self.work_buffer.push(0);
            filler += 1;
        }
    }

    /// Ends a call: puts the string table between the header and the
    /// payload, writes the header, and hands the stream out. The second
    /// part of the result says whether the stream is due for the
    /// compression stage; if it is, the header's compressed flag is set.
    fn finish(&mut self, compress: bool) -> (r: (Vec<u8>, bool))
        requires
            old(self).wf(),
            old(self).buffer().len() >= HEADER_LEN,
        ensures
            final(self).wf(),
            final(self).keys() == old(self).keys(),
            r.1 == (compress && r.0@.len() > COMPRESS_MIN),
            r.0@ == stream(
                if r.1 {
                    FLAG_COMPRESSED
                } else {
                    0
                },
                old(self).keys(),
                old(self).buffer().subrange(HEADER_LEN as int, old(self).buffer().len() as int),
            ),
    {
        let body = self.work_buffer.split_off(HEADER_LEN);
        self.write_string_table();
        put_bytes(&mut self.work_buffer, body.as_slice());
        let total = self.work_buffer.len();
        let compressing = compress && total > COMPRESS_MIN;
        self.write_header(0, compressing);
        proof {
            let flags = if compressing {
                FLAG_COMPRESSED
            } else {
                0u8
            };
            assert(self.work_buffer@ =~= stream(flags, old(self).keys(), body@));
        }
        let mut out: Vec<u8> = Vec::new();
        std::mem::swap(&mut out, &mut self.work_buffer);
        (out, compressing)
    }

    /// Writes the uncompressed stream of `value` by the generic path alone,
    /// whatever the value is.
    pub fn encode_generic(&mut self, value: &Value) -> (r: Result<Vec<u8>, BFastError>)
        requires
            old(self).wf(),
        ensures
            final(self).wf(),
            match emit(value@, 0, Seq::empty()) {
                Ok(e) => r is Ok && r->Ok_0@ == stream(0, e.keys, e.bytes) && final(self).keys()
                    == e.keys,
                Err(x) => r is Err && r->Err_0@ == x,
            },
    {
        self.begin(Self::estimate_size(value));
        let ghost blank = self.work_buffer@;
        match self.serialize_any(value) {
            Ok(()) => {},
            Err(e) => {
                return Err(e);
            },
        }
        proof {
            let e = emit(value@, 0, Seq::empty())->Ok_0;
            assert((blank + e.bytes).subrange(HEADER_LEN as int, (blank + e.bytes).len() as int)
                =~= e.bytes);
        }
        let (out, _) = self.finish(false);
        Ok(out)
    }

    /// Writes the uncompressed stream of a sequence by the batch path,
    /// however short the sequence is. A sequence that holds anything but
    /// records is refused with `NotHomogeneousBatch`.
    pub fn encode_batch(&mut self, items: &Vec<Value>) -> (r: Result<Vec<u8>, BFastError>)
        requires
            old(self).wf(),
        ensures
            final(self).wf(),
            !all_records(items_view(items@)) ==> r is Err && r->Err_0@
                == ErrorView::NotHomogeneousBatch,
            all_records(items_view(items@)) ==> match emit_batch(
                items_view(items@),
                0,
                Seq::empty(),
            ) {
                Ok(e) => r is Ok && r->Ok_0@ == stream(0, e.keys, e.bytes) && final(self).keys()
                    == e.keys,
                Err(x) => r is Err && r->Err_0@ == x,
            },
    {
        let hint = if items.len() <= (usize::MAX - 8192) / 48 {
            items.len() * 48 + 4096
        } else {
            8192
        };
        self.begin(hint);
        let ghost blank = self.work_buffer@;
        match self.serialize_batch(items) {
            Ok(()) => {},
            Err(e) => {
                return Err(e);
            },
        }
        proof {
            let e = emit_batch(items_view(items@), 0, Seq::empty())->Ok_0;
            assert((blank + e.bytes).subrange(HEADER_LEN as int, (blank + e.bytes).len() as int)
                =~= e.bytes);
        }
        let (out, _) = self.finish(false);
        Ok(out)
    }

    /// Writes the uncompressed stream of `value`: a six-byte header, the
    /// string table of its record keys, and the tagged payload. A sequence
    /// of more than eight records goes through the batch path, anything
    /// else through the generic path. The second part of the result says
    /// whether the stream is due for the compression stage; if it is, the
    /// header's compressed flag is set.
    ///
    /// Every call starts from an empty string table, so what is interned
    /// depends on `value` alone.
    pub fn assemble(&mut self, value: &Value, compress: bool) -> (r: Result<
        (Vec<u8>, bool),
        BFastError,
    >)
        requires
            old(self).wf(),
        ensures
            final(self).wf(),
            match r {
                Ok((buffer, compressing)) => {
                    &&& payload(value@) is Ok
                    &&& compressing == compresses(value@, compress)
                    &&& buffer@ == stream_of(
                        value@,
                        if compressing {
                            FLAG_COMPRESSED
                        } else {
                            0
                        },
                    )->Ok_0
                    &&& final(self).keys() == payload(value@)->Ok_0.keys
                },
                Err(e) => payload(value@) is Err && payload(value@)->Err_0 == e@,
            },
    {
        self.begin(Self::estimate_size(value));
        let ghost blank = self.work_buffer@;
        let batched = match value {
            Value::Sequence(items) => {
                proof {
                    lemma_items_view(items@);
                }
                if items.len() > BATCH_THRESHOLD {
                    match self.serialize_batch(items) {
                        Ok(()) => true,
                        Err(BFastError::NotHomogeneousBatch) => {
                            proof {
                                if all_records(items_view(items@)) {
                                    lemma_batch_failures(items_view(items@), 0, Seq::empty());
                                }
                            }
                            false
                        },
                        Err(e) => {
                            return Err(e);
                        },
                    }
                } else {
                    false
                }
            },
            _ => false,
        };
        if !batched {
            match self.serialize_any(value) {
                Ok(()) => {},
                Err(e) => {
                    return Err(e);
                },
            }
        }
        proof {
            let e = payload(value@)->Ok_0;
            assert(payload(value@) is Ok);
            assert((blank + e.bytes).subrange(HEADER_LEN as int, (blank + e.bytes).len() as int)
                =~= e.bytes);
        }
        Ok(self.finish(compress))
    }

    /// Encodes `value` into a self-describing byte stream: a six-byte
    /// header, the string table of its record keys, and the tagged payload.
    /// With `compress`, a stream longer than 256 bytes is handed to the
    /// compression stage with the header's compressed flag set.
    ///
    /// A failed call returns no bytes.
    pub fn encode_packed(&mut self, value: &Value, compress: bool) -> (r: Result<
        Vec<u8>,
        BFastError,
    >)
        requires
            old(self).wf(),
        ensures
            final(self).wf(),
            match r {
                Ok(out) => {
                    &&& is_encoding_of(out@, value@, compress)
                    &&& final(self).keys() == payload(value@)->Ok_0.keys
                },
                Err(e) => encode_failure(value@, compress) == Some(e@),
            },
    {
        let (buffer, compressing) = match self.assemble(value, compress) {
            Ok(assembled) => assembled,
            Err(e) => {
                return Err(e);
            },
        };
        if compressing {
            compress_stage(buffer.as_slice())
        } else {
            Ok(buffer)
        }
    }
}

/// Encodes `value` with an engine of its own: the stream of the value,
/// compressed on request if it is longer than 256 bytes, or the first
/// failure met while writing it.
pub fn encode(value: &Value, compress: bool) -> (r: Result<Vec<u8>, BFastError>)
    ensures
        match r {
            Ok(out) => is_encoding_of(out@, value@, compress),
            Err(e) => encode_failure(value@, compress) == Some(e@),
        },
{
    let mut engine = BFast::new();
    engine.encode_packed(value, compress)
}

} // verus!
