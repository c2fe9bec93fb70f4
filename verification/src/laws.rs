//! Laws of the format: what decoding makes of what encoding wrote.

use vstd::prelude::*;
use crate::compress::{
    blocks_of, chunk, chunk_count, frame, frame_chunks, is_block_of, is_chunked_of,
    is_compressed_of, unwrap_block, unwrap_chunks, unwrap_stream, CHUNKED_MIN, CHUNK_SIZE,
    MAX_BLOCK_DATA,
};
use crate::engine::BFast;
use crate::errors::ErrorView;
use crate::format::{compresses, decode_spec, is_encoding_of, stream_of};
use crate::grammar::{
    emit, field_names, field_value, intern_all, is_batch, lemma_emit_keys, payload, project_all,
    stream, table_bytes, Emitted,
};
use crate::inverse::{lemma_inverse_table, lemma_inverse_value, MAX_DISTINCT_IDS};
use crate::layout::{is_homogeneous, lemma_intern_all_extends, lemma_project_homogeneous};
use crate::parse::parse_stream;
use crate::value::ValueView;
use crate::wire::{
    le16, le32, lemma_part, lemma_read16_le16, lemma_read32_le32, read32, FLAG_COMPRESSED,
    FORMAT_VERSION, MAGIC_0, MAGIC_1,
};

verus! {

/// Undoing a block gives back what was compressed.
pub proof fn lemma_unwrap_block(block: Seq<u8>, data: Seq<u8>, limit: nat)
    requires
        is_block_of(block, data),
        data.len() <= limit,
        data.len() <= MAX_BLOCK_DATA,
    ensures
        unwrap_block(block, limit) == Some(data),
{
    lemma_read32_le32(block, 0, data.len());
}

/// Undoing the chunks of a frame from chunk `i` on gives back the bytes
/// from that chunk on.
pub proof fn lemma_unwrap_chunks(b: Seq<u8>, at: int, blocks: Seq<Seq<u8>>, data: Seq<u8>, i: int)
    requires
        blocks_of(blocks, data),
        data.len() <= u32::MAX,
        0 <= i <= blocks.len(),
        0 <= at <= b.len(),
        b.subrange(at, b.len() as int) == frame_chunks(blocks.subrange(i, blocks.len() as int)),
    ensures
        unwrap_chunks(b, at, (blocks.len() - i) as nat) == Some(
            data.subrange(
                if i * CHUNK_SIZE <= data.len() {
                    i * CHUNK_SIZE
                } else {
                    data.len() as int
                },
                data.len() as int,
            ),
        ),
    decreases blocks.len() - i,
{
    let rest = blocks.subrange(i, blocks.len() as int);
    let tail_bytes = b.subrange(at, b.len() as int);
    if i == blocks.len() {
        assert(rest =~= Seq::<Seq<u8>>::empty());
        assert(tail_bytes.len() == 0);
        assert(data.subrange(data.len() as int, data.len() as int) =~= Seq::<u8>::empty());
        assert(i * CHUNK_SIZE >= data.len()) by (nonlinear_arith)
            requires
                i == (data.len() + CHUNK_SIZE - 1) / (CHUNK_SIZE as int),
                CHUNK_SIZE == 262144,
        ;
    } else {
        let block = blocks[i];
        let piece = chunk(data, i);
        assert(is_block_of(block, piece));
        assert(rest[0] == block);
        let after = rest.subrange(1, rest.len() as int);
        assert(after =~= blocks.subrange(i + 1, blocks.len() as int));
        assert(tail_bytes == le32(block.len()) + block + frame_chunks(after));
        assert((i + 1) * CHUNK_SIZE <= data.len() + CHUNK_SIZE - 1 && i * CHUNK_SIZE < data.len())
            by (nonlinear_arith)
            requires
                0 <= i < (data.len() + CHUNK_SIZE - 1) / (CHUNK_SIZE as int),
                CHUNK_SIZE == 262144,
        ;
        assert(piece.len() <= CHUNK_SIZE);
        assert(block.len() <= u32::MAX);
        let rest_bytes = frame_chunks(after);
        let size = block.len() as int;
        let next = at + 4 + size;
        lemma_part(b, at, tail_bytes, 0, 4);
        assert(tail_bytes.subrange(0, 4) =~= le32(block.len()));
        lemma_read32_le32(b, at, block.len());
        lemma_part(b, at, tail_bytes, 4, 4 + size);
        assert(tail_bytes.subrange(4, 4 + size) =~= block);
        lemma_part(b, at, tail_bytes, 4 + size, tail_bytes.len() as int);
        assert(tail_bytes.subrange(4 + size, tail_bytes.len() as int) =~= rest_bytes);
        lemma_unwrap_block(block, piece, CHUNK_SIZE as nat);
        lemma_unwrap_chunks(b, next, blocks, data, i + 1);
        let from = if (i + 1) * CHUNK_SIZE <= data.len() {
            (i + 1) * CHUNK_SIZE
        } else {
            data.len() as int
        };
        assert(piece + data.subrange(from, data.len() as int) =~= data.subrange(
            i * CHUNK_SIZE,
            data.len() as int,
        ));
    }
}

/// Undoing the compression stage gives back the buffer that went in: for
/// one block and for a chunked frame alike.
pub proof fn lemma_unwrap_compressed(out: Seq<u8>, data: Seq<u8>)
    requires
        is_compressed_of(out, data),
        data.len() <= u32::MAX,
    ensures
        unwrap_stream(out) == Some(data),
{
    if data.len() < CHUNKED_MIN {
        lemma_read32_le32(out, 0, data.len());
        lemma_unwrap_block(out, data, (CHUNKED_MIN - 1) as nat);
    } else {
        let blocks = choose|blocks: Seq<Seq<u8>>| #[trigger]
            blocks_of(blocks, data) && out == frame(data.len(), blocks);
        assert(blocks.len() <= data.len());
        assert(out.subrange(0, 4) =~= le32(data.len()));
        lemma_read32_le32(out, 0, data.len());
        assert(out.subrange(4, 8) =~= le32(blocks.len()));
        lemma_read32_le32(out, 4, blocks.len());
        assert(blocks.subrange(0, blocks.len() as int) =~= blocks);
        assert(out.subrange(8, out.len() as int) =~= frame_chunks(blocks));
        lemma_unwrap_chunks(out, 8, blocks, data, 0);
        assert(data.subrange(0, data.len() as int) =~= data);
    }
}

/// The chunk count that a chunked frame carries is the buffer's size
/// divided by the chunk size, rounded up.
pub proof fn lemma_chunk_count(out: Seq<u8>, data: Seq<u8>)
    requires
        is_chunked_of(out, data),
        data.len() <= u32::MAX,
    ensures
        out.len() >= 8,
        read32(out, 0) == data.len(),
        read32(out, 4) == chunk_count(data.len()),
{
    let blocks = choose|blocks: Seq<Seq<u8>>| #[trigger]
        blocks_of(blocks, data) && out == frame(data.len(), blocks);
    assert(blocks.len() <= data.len());
    assert(out.subrange(0, 4) =~= le32(data.len()));
    lemma_read32_le32(out, 0, data.len());
    assert(out.subrange(4, 8) =~= le32(blocks.len()));
    lemma_read32_le32(out, 4, blocks.len());
}

/// The value that the stream of `v` stands for. A batch stands for its
/// records projected onto the layout of the first: a field that a record
/// lacks is there as `Null`, a field that the layout lacks is gone. Any
/// other value stands for itself.
pub open spec fn decoded_of(v: ValueView) -> ValueView {
    if is_batch(v) {
        ValueView::Sequence(
            project_all(v->Sequence_0, field_names(v->Sequence_0[0]->Record_0)),
        )
    } else {
        v
    }
}

/// The uncompressed stream of a value reads back as what the value stands
/// for, whatever the flags byte holds.
pub proof fn lemma_parse_stream(v: ValueView, flags: u8)
    requires
        payload(v) is Ok,
        payload(v)->Ok_0.keys.len() <= MAX_DISTINCT_IDS,
    ensures
        parse_stream(stream_of(v, flags)->Ok_0) == Ok::<ValueView, ErrorView>(decoded_of(v)),
{
    let e = payload(v)->Ok_0;
    let s = stream(flags, e.keys, e.bytes);
    let table = table_bytes(e.keys);
    let empty = Seq::<Seq<char>>::empty();
    // The value whose payload was written, and the table it was written with.
    let (written, start) = if is_batch(v) {
        let items = v->Sequence_0;
        let layout = field_names(items[0]->Record_0);
        lemma_intern_all_extends(layout, empty);
        (ValueView::Sequence(project_all(items, layout)), intern_all(layout, empty)->Ok_0)
    } else {
        (v, empty)
    };
    assert(emit(written, 0, start) == Ok::<Emitted, ErrorView>(e));
    lemma_emit_keys(written, 0, start);
    assert(s.len() == 6 + table.len() + e.bytes.len());
    assert(s[0] == MAGIC_0 && s[1] == MAGIC_1 && s[3] == FORMAT_VERSION);
    assert(s.subrange(4, 6) =~= le16(e.keys.len()));
    lemma_read16_le16(s, 4, e.keys.len());
    let from = 6 + table.len() as int;
    assert(s.subrange(6, from) =~= table);
    lemma_inverse_table(e.keys, s, 6);
    assert(s.subrange(from, from + e.bytes.len()) =~= e.bytes);
    lemma_inverse_value(written, 0, start, e.keys, s, from);
}

/// The length of a compressed stream that would pass for a plain one: the
/// number whose four little-endian bytes are the magic, clear flags and
/// the version.
pub const PLAIN_SIGNATURE: usize = 0x0100_4642;

/// The values whose encodings can be read back: the string table holds no
/// id that could be taken for a record's end tag, and a compressed stream
/// does not by its length start as a plain one does.
pub open spec fn is_decodable(v: ValueView, compress: bool) -> bool {
    &&& payload(v) is Ok ==> payload(v)->Ok_0.keys.len() <= MAX_DISTINCT_IDS
    &&& compresses(v, compress) ==> stream_of(v, 0)->Ok_0.len() != PLAIN_SIGNATURE
}

/// Round trip: decoding any encoding of a decodable value gives what the
/// value stands for, with and without compression, whichever bytes the
/// compressor chose.
pub proof fn lemma_round_trip(v: ValueView, compress: bool, out: Seq<u8>)
    requires
        is_encoding_of(out, v, compress),
        is_decodable(v, compress),
    ensures
        decode_spec(out) == Ok::<ValueView, ErrorView>(decoded_of(v)),
{
    if compresses(v, compress) {
        let inner = stream_of(v, FLAG_COMPRESSED)->Ok_0;
        assert(inner.len() == stream_of(v, 0)->Ok_0.len());
        lemma_unwrap_compressed(out, inner);
        lemma_compressed_start(out, inner);
        lemma_parse_stream(v, FLAG_COMPRESSED);
    } else {
        let plain = stream_of(v, 0)->Ok_0;
        assert(plain[0] == MAGIC_0 && plain[1] == MAGIC_1 && plain[2] == 0 && plain[3]
            == FORMAT_VERSION);
        lemma_parse_stream(v, 0);
    }
}

/// A compressed stream starts with the length of what went in.
pub proof fn lemma_compressed_start(out: Seq<u8>, data: Seq<u8>)
    requires
        is_compressed_of(out, data),
        data.len() <= u32::MAX,
    ensures
        out.len() >= 4,
        read32(out, 0) == data.len(),
{
    if data.len() < CHUNKED_MIN {
        lemma_read32_le32(out, 0, data.len());
    } else {
        lemma_chunk_count(out, data);
    }
}

/// Round trip, to the letter: decoding any encoding of a decodable value
/// gives the value itself, unless the value is a batch that is not
/// homogeneous.
pub proof fn lemma_round_trip_exact(v: ValueView, compress: bool, out: Seq<u8>)
    requires
        is_encoding_of(out, v, compress),
        is_decodable(v, compress),
        is_batch(v) ==> is_homogeneous(v->Sequence_0),
    ensures
        decode_spec(out) == Ok::<ValueView, ErrorView>(v),
{
    lemma_round_trip(v, compress, out);
    if is_batch(v) {
        lemma_project_homogeneous(v->Sequence_0);
    }
}

/// A record that has no field of the given name holds `Null` under it.
pub proof fn lemma_field_value_absent(pairs: Seq<(Seq<char>, ValueView)>, name: Seq<char>)
    requires
        forall|k: int| 0 <= k < pairs.len() ==> (#[trigger] pairs[k]).0 != name,
    ensures
        field_value(pairs, name) == ValueView::Null,
    decreases pairs.len(),
{
    if pairs.len() > 0 {
        let rest = pairs.subrange(1, pairs.len() as int);
        assert forall|k: int| 0 <= k < rest.len() implies (#[trigger] rest[k]).0 != name by {
            assert(rest[k] == pairs[k + 1]);
        }
        lemma_field_value_absent(rest, name);
    }
}

/// Heterogeneous batches: where record `i` of a batch lacks field `j` of
/// the layout, the decoded batch holds `Null` under that field in record
/// `i`.
pub proof fn lemma_absent_field_decodes_null(
    v: ValueView,
    compress: bool,
    out: Seq<u8>,
    i: int,
    j: int,
)
    requires
        is_encoding_of(out, v, compress),
        is_decodable(v, compress),
        is_batch(v),
        0 <= i < v->Sequence_0.len(),
        0 <= j < field_names(v->Sequence_0[0]->Record_0).len(),
        forall|k: int|
            0 <= k < v->Sequence_0[i]->Record_0.len() ==> (#[trigger] v->Sequence_0[i]->Record_0[k]).0
                != field_names(v->Sequence_0[0]->Record_0)[j],
    ensures
        decode_spec(out) is Ok,
        decode_spec(out)->Ok_0->Sequence_0[i]->Record_0[j] == (
            field_names(v->Sequence_0[0]->Record_0)[j],
            ValueView::Null,
        ),
{
    lemma_round_trip(v, compress, out);
    lemma_field_value_absent(
        v->Sequence_0[i]->Record_0,
        field_names(v->Sequence_0[0]->Record_0)[j],
    );
}

/// The uncompressed stream that an encoding holds: the encoding itself, or
/// what the compression stage unpacks to.
pub open spec fn plain_of(out: Seq<u8>, v: ValueView, compress: bool) -> Option<Seq<u8>> {
    if compresses(v, compress) {
        unwrap_stream(out)
    } else {
        Some(out)
    }
}

/// Interning determinism: two engines that encoded the same value hold
/// the same string table, key for key and id for id, and their encodings
/// hold the same stream, string table included. What the engines did
/// before, and what their hashers gave, plays no part.
pub proof fn lemma_interning_deterministic(
    first: BFast,
    second: BFast,
    v: ValueView,
    compress: bool,
    out1: Seq<u8>,
    out2: Seq<u8>,
)
    requires
        is_encoding_of(out1, v, compress),
        first.keys() == payload(v)->Ok_0.keys,
        is_encoding_of(out2, v, compress),
        second.keys() == payload(v)->Ok_0.keys,
    ensures
        first.keys() == second.keys(),
        plain_of(out1, v, compress) == plain_of(out2, v, compress),
        !compresses(v, compress) ==> out1 == out2,
{
    if compresses(v, compress) {
        let inner = stream_of(v, FLAG_COMPRESSED)->Ok_0;
        assert(inner.len() == stream_of(v, 0)->Ok_0.len());
        lemma_unwrap_compressed(out1, inner);
        lemma_unwrap_compressed(out2, inner);
    }
}

} // verus!
