//! The compression stage: small buffers pass as they are, larger ones are
//! compressed as one LZ4 block, and very large ones as a frame of
//! independent blocks of a fixed size.

use vstd::prelude::*;
use vstd::slice::slice_subrange;
use lz4_flex::block::DecompressError;
use crate::errors::{BFastError, ErrorView};
use crate::wire::{le32, put_bytes, put_u32, read32, get_u32};

verus! {

/// A buffer of at most this many bytes is never compressed.
pub const COMPRESS_MIN: usize = 256;

/// A buffer of at least this many bytes is compressed chunk by chunk.
pub const CHUNKED_MIN: usize = 1_000_000;

/// The size of every chunk but the last.
pub const CHUNK_SIZE: usize = 262_144;

/// One block holds at most this many bytes: a buffer below `CHUNKED_MIN`,
/// or a chunk.
pub const MAX_BLOCK_DATA: usize = 999_999;

/// No block of `MAX_BLOCK_DATA` bytes compresses to more than this, and no
/// longer block is handed to the decompressor.
pub const MAX_BLOCK_INPUT: usize = 1_100_022;

/// `lz4_flex::block::DecompressError`, taken as it comes: the decoder
/// tells failure from success and nothing more.
#[verifier::external_type_specification]
#[verifier::external_body]
pub struct ExDecompressError(DecompressError);

/// What `lz4_flex::decompress_size_prepended` makes of a block: the
/// decompressed bytes, or nothing where it reports an error.
pub uninterp spec fn lz4_decompressed(block: Seq<u8>) -> Option<Seq<u8>>;

/// `block` is a size-prefixed LZ4 block of `data`: it starts with the
/// length of `data` in 32 bits, is no longer than the compressor's bound,
/// and decompresses to `data`. Which bytes follow the length is the
/// compressor's choice.
pub open spec fn is_block_of(block: Seq<u8>, data: Seq<u8>) -> bool {
    &&& 4 <= block.len() <= data.len() * 110 / 100 + 24
    &&& block.subrange(0, 4) == le32(data.len())
    &&& lz4_decompressed(block) == Some(data)
}

/// `lz4_flex::compress_prepend_size`: the result is a size-prefixed block
/// of the input. The crate writes the input's length as a little-endian
/// `u32` in front, cuts the result from a buffer of `16 + 4 + len * 110 /
/// 100` bytes and four for the length, and documents the result as the
/// input of `decompress_size_prepended`. Inputs are kept short enough for
/// the length to fit 32 bits and for the bound to fit the machine word.
#[verifier::external_body]
fn lz4_compress(data: &[u8]) -> (block: Vec<u8>)
    requires
        data@.len() <= MAX_BLOCK_DATA,
    ensures
        is_block_of(block@, data@),
{
    lz4_flex::compress_prepend_size(data)
}

/// `lz4_flex::decompress_size_prepended`: the decompressed bytes, or the
/// crate's error. Blocks are kept short enough for the crate's 32-bit
/// length counter, and the size they claim small enough for the buffer
/// that the crate allocates up front.
#[verifier::external_body]
fn lz4_decompress(block: &[u8]) -> (r: Result<Vec<u8>, DecompressError>)
    requires
        4 <= block@.len() <= MAX_BLOCK_INPUT,
        read32(block@, 0) <= MAX_BLOCK_DATA,
    ensures
        match r {
            Ok(data) => lz4_decompressed(block@) == Some(data@),
            Err(_) => lz4_decompressed(block@) is None,
        },
{
    lz4_flex::decompress_size_prepended(block)
}

/// How many chunks a buffer of `len` bytes falls into.
pub open spec fn chunk_count(len: nat) -> nat {
    (len + CHUNK_SIZE - 1) as nat / (CHUNK_SIZE as nat)
}

/// Chunk `i` of `data`: `CHUNK_SIZE` bytes, or what is left for the last.
pub open spec fn chunk(data: Seq<u8>, i: int) -> Seq<u8> {
    data.subrange(
        i * CHUNK_SIZE,
        if (i + 1) * CHUNK_SIZE <= data.len() {
            (i + 1) * CHUNK_SIZE
        } else {
            data.len() as int
        },
    )
}

/// Each block behind its length in 32 bits.
pub open spec fn frame_chunks(blocks: Seq<Seq<u8>>) -> Seq<u8>
    decreases blocks.len(),
{
    if blocks.len() == 0 {
        Seq::empty()
    } else {
        le32(blocks[0].len()) + blocks[0] + frame_chunks(blocks.subrange(1, blocks.len() as int))
    }
}

/// A chunked frame: the total size, the number of chunks, then the chunks.
pub open spec fn frame(total: nat, blocks: Seq<Seq<u8>>) -> Seq<u8> {
    le32(total) + le32(blocks.len()) + frame_chunks(blocks)
}

/// `blocks` are size-prefixed blocks of the chunks of `data`, one for each.
pub open spec fn blocks_of(blocks: Seq<Seq<u8>>, data: Seq<u8>) -> bool {
    &&& blocks.len() == chunk_count(data.len())
    &&& forall|i: int| 0 <= i < blocks.len() ==> is_block_of(#[trigger] blocks[i], chunk(data, i))
}

/// `out` is a chunked frame of `data`: the frame of some blocks of its
/// chunks. The chunk count in the frame is `chunk_count(data.len())`.
pub open spec fn is_chunked_of(out: Seq<u8>, data: Seq<u8>) -> bool {
    exists|blocks: Seq<Seq<u8>>| #[trigger] blocks_of(blocks, data) && out == frame(data.len(), blocks)
}

/// `out` is what the compression stage makes of `data`: one block below
/// `CHUNKED_MIN` bytes, a chunked frame from there on.
pub open spec fn is_compressed_of(out: Seq<u8>, data: Seq<u8>) -> bool {
    if data.len() < CHUNKED_MIN {
        is_block_of(out, data)
    } else {
        is_chunked_of(out, data)
    }
}

/// The contents of a list of blocks.
pub open spec fn blocks_view(blocks: Seq<Vec<u8>>) -> Seq<Seq<u8>> {
    Seq::new(blocks.len(), |i: int| blocks[i]@)
}

/// A frame grows at its end.
pub proof fn lemma_frame_chunks_push(blocks: Seq<Seq<u8>>, block: Seq<u8>)
    ensures
        frame_chunks(blocks.push(block)) == frame_chunks(blocks) + le32(block.len()) + block,
    decreases blocks.len(),
{
    let longer = blocks.push(block);
    if blocks.len() == 0 {
        assert(longer.subrange(1, 1) =~= Seq::<Seq<u8>>::empty());
        assert(frame_chunks(longer.subrange(1, 1)) =~= Seq::<u8>::empty());
        assert(frame_chunks(longer) =~= frame_chunks(blocks) + le32(block.len()) + block);
    } else {
        let tail = blocks.subrange(1, blocks.len() as int);
        lemma_frame_chunks_push(tail, block);
        assert(longer.subrange(1, longer.len() as int) =~= tail.push(block));
        assert(longer[0] == blocks[0]);
        assert(frame_chunks(longer) =~= frame_chunks(blocks) + le32(block.len()) + block);
    }
}

/// Compresses one chunk, or a whole buffer below `CHUNKED_MIN` bytes, as a
/// size-prefixed LZ4 block. Longer data is refused.
pub fn compress_block(data: &[u8]) -> (r: Result<Vec<u8>, BFastError>)
    ensures
        data@.len() <= MAX_BLOCK_DATA ==> r is Ok && is_block_of(r->Ok_0@, data@),
        data@.len() > MAX_BLOCK_DATA ==> r is Err && r->Err_0@ == ErrorView::LengthOverflow,
{
    if data.len() > MAX_BLOCK_DATA {
        return Err(BFastError::LengthOverflow);
    }
    Ok(lz4_compress(data))
}

/// Cuts `data` into chunks of `CHUNK_SIZE` bytes and compresses each by
/// itself. The chunks do not depend on one another.
pub fn compress_chunks(data: &[u8]) -> (blocks: Vec<Vec<u8>>)
    ensures
        blocks_of(blocks_view(blocks@), data@),
{
    let total = data.len();
    let mut blocks: Vec<Vec<u8>> = Vec::new();
    let mut start: usize = 0;
    while start < total
        invariant
            start <= total,
            total == data@.len(),
            start % CHUNK_SIZE == 0 || start == total,
            start < total ==> blocks@.len() * CHUNK_SIZE == start,
            start == total ==> blocks@.len() == chunk_count(total as nat),
            forall|i: int|
                0 <= i < blocks@.len() ==> is_block_of((#[trigger] blocks@[i])@, chunk(data@, i)),
        decreases total - start,
    {
        let end = if total - start > CHUNK_SIZE {
            start + CHUNK_SIZE
        } else {
            total
        };
        let piece = slice_subrange(data, start, end);
        let ghost index = blocks@.len() as int;
        assert(piece@ == chunk(data@, index));
        let block = lz4_compress(piece);
        blocks.push(block);
        start = end;
    }
    proof {
        assert forall|i: int| 0 <= i < blocks_view(blocks@).len() implies is_block_of(
            #[trigger] blocks_view(blocks@)[i],
            chunk(data@, i),
        ) by {
            assert(blocks_view(blocks@)[i] == blocks@[i]@);
        }
    }
    blocks
}

/// Frames compressed chunks: the total uncompressed size, the number of
/// chunks, then each chunk behind its compressed length.
pub fn frame_blocks(total: u32, blocks: &Vec<Vec<u8>>) -> (r: Result<Vec<u8>, BFastError>)
    ensures
        match r {
            Ok(out) => {
                &&& out@ == frame(total as nat, blocks_view(blocks@))
                &&& blocks@.len() <= u32::MAX
                &&& forall|i: int| 0 <= i < blocks@.len() ==> (#[trigger] blocks@[i])@.len() <= u32::MAX
            },
            Err(e) => {
                &&& e@ == ErrorView::LengthOverflow
                &&& (blocks@.len() > u32::MAX || exists|i: int|
                    0 <= i < blocks@.len() && (#[trigger] blocks@[i])@.len() > u32::MAX)
            },
        },
{
    let n = blocks.len();
    if n > u32::MAX as usize {
        return Err(BFastError::LengthOverflow);
    }
    let mut out: Vec<u8> = Vec::new();
    put_u32(&mut out, total);
    put_u32(&mut out, n as u32);
    let ghost all = blocks_view(blocks@);
    let ghost head = out@;
    proof {
        assert(all.subrange(0, 0) =~= Seq::<Seq<u8>>::empty());
        assert(out@ =~= head + frame_chunks(all.subrange(0, 0)));
    }
    let mut i: usize = 0;
    while i < n
        invariant
            i <= n,
            n == blocks@.len(),
            all == blocks_view(blocks@),
            out@ == head + frame_chunks(all.subrange(0, i as int)),
            forall|k: int| 0 <= k < i ==> (#[trigger] blocks@[k])@.len() <= u32::MAX,
        decreases n - i,
    {
        let block = &blocks[i];
        if block.len() > u32::MAX as usize {
            return Err(BFastError::LengthOverflow);
        }
        put_u32(&mut out, block.len() as u32);
        put_bytes(&mut out, block.as_slice());
        proof {
            lemma_frame_chunks_push(all.subrange(0, i as int), block@);
            assert(all.subrange(0, i + 1) =~= all.subrange(0, i as int).push(block@));
            assert(out@ =~= head + frame_chunks(all.subrange(0, i + 1)));
        }
        i += 1;
    }
    proof {
        assert(all.subrange(0, n as int) =~= all);
        assert(out@ =~= frame(total as nat, all));
    }
    Ok(out)
}

/// Compresses a large buffer chunk by chunk and frames the result.
pub fn compress_chunked(data: &[u8]) -> (r: Result<Vec<u8>, BFastError>)
    ensures
        data@.len() <= u32::MAX ==> r is Ok && is_chunked_of(r->Ok_0@, data@),
        data@.len() > u32::MAX ==> r is Err && r->Err_0@ == ErrorView::LengthOverflow,
{
    if data.len() > u32::MAX as usize {
        return Err(BFastError::LengthOverflow);
    }
    let blocks = compress_chunks(data);
    proof {
        lemma_blocks_fit(blocks_view(blocks@), data@);
        assert forall|i: int| 0 <= i < blocks@.len() implies (#[trigger] blocks@[i])@.len()
            <= u32::MAX by {
            assert(blocks_view(blocks@)[i] == blocks@[i]@);
        }
    }
    let r = frame_blocks(data.len() as u32, &blocks);
    proof {
        assert(blocks_of(blocks_view(blocks@), data@));
    }
    r
}

/// The blocks of a buffer of at most `u32::MAX` bytes, and their number,
/// have lengths that fit 32 bits.
pub proof fn lemma_blocks_fit(blocks: Seq<Seq<u8>>, data: Seq<u8>)
    requires
        blocks_of(blocks, data),
        data.len() <= u32::MAX,
    ensures
        blocks.len() <= u32::MAX,
        forall|i: int| 0 <= i < blocks.len() ==> (#[trigger] blocks[i]).len() <= CHUNK_SIZE * 110 / 100 + 24,
{
    assert forall|i: int| 0 <= i < blocks.len() implies (#[trigger] blocks[i]).len() <= CHUNK_SIZE
        * 110 / 100 + 24 by {
        assert(is_block_of(blocks[i], chunk(data, i)));
        assert(chunk(data, i).len() <= CHUNK_SIZE);
    }
}

/// The compression stage for a buffer that is to be compressed: one block
/// below `CHUNKED_MIN` bytes, chunks from there on.
pub fn compress_stage(data: &[u8]) -> (r: Result<Vec<u8>, BFastError>)
    ensures
        data@.len() <= u32::MAX ==> r is Ok && is_compressed_of(r->Ok_0@, data@),
        data@.len() > u32::MAX ==> r is Err && r->Err_0@ == ErrorView::LengthOverflow,
{
    if data.len() >= CHUNKED_MIN {
        compress_chunked(data)
    } else {
        compress_block(data)
    }
}

/// What undoing one size-prefixed block gives. A block is refused if it
/// is shorter than its prefix, longer than a block can be, claims more
/// than `limit` bytes or more than a block can hold, or does not
/// decompress to as many bytes as it claims.
pub open spec fn unwrap_block(block: Seq<u8>, limit: nat) -> Option<Seq<u8>> {
    if block.len() < 4 || block.len() > MAX_BLOCK_INPUT || read32(block, 0) > limit || read32(
        block,
        0,
    ) > MAX_BLOCK_DATA {
        None
    } else {
        match lz4_decompressed(block) {
            Some(data) => if data.len() == read32(block, 0) {
                Some(data)
            } else {
                None
            },
            None => None,
        }
    }
}

/// What undoing `count` framed chunks from `at` on gives: the chunks'
/// bytes, one after the other. Nothing may follow the last chunk.
pub open spec fn unwrap_chunks(b: Seq<u8>, at: int, count: nat) -> Option<Seq<u8>>
    decreases count,
{
    if count == 0 {
        if at == b.len() {
            Some(Seq::empty())
        } else {
            None
        }
    } else if at < 0 || at + 4 > b.len() || at + 4 + read32(b, at) > b.len() {
        None
    } else {
        match unwrap_block(b.subrange(at + 4, at + 4 + read32(b, at)), CHUNK_SIZE as nat) {
            None => None,
            Some(data) => match unwrap_chunks(b, at + 4 + read32(b, at), (count - 1) as nat) {
                None => None,
                Some(rest) => Some(data + rest),
            },
        }
    }
}

/// What undoing the compression stage gives. The first four bytes say how
/// many bytes come out, and thereby whether one block or a chunked frame
/// follows.
pub open spec fn unwrap_stream(b: Seq<u8>) -> Option<Seq<u8>> {
    if b.len() < 4 {
        None
    } else if read32(b, 0) < CHUNKED_MIN {
        unwrap_block(b, (CHUNKED_MIN - 1) as nat)
    } else if b.len() < 8 {
        None
    } else {
        match unwrap_chunks(b, 8, read32(b, 4)) {
            Some(data) => if data.len() == read32(b, 0) {
                Some(data)
            } else {
                None
            },
            None => None,
        }
    }
}

/// What was undone before, followed by what `rest` undoes.
pub open spec fn joined(done: Seq<u8>, rest: Option<Seq<u8>>) -> Option<Seq<u8>> {
    match rest {
        Some(data) => Some(done + data),
        None => None,
    }
}

/// Undoes one size-prefixed block that claims at most `limit` bytes.
pub fn decompress_block(block: &[u8], limit: u32) -> (r: Option<Vec<u8>>)
    ensures
        match unwrap_block(block@, limit as nat) {
            Some(data) => r is Some && r->Some_0@ == data,
            None => r is None,
        },
{
    let len = block.len();
    if len < 4 || len > MAX_BLOCK_INPUT {
        return None;
    }
    let claimed = get_u32(block, 0);
    if claimed > limit || claimed as usize > MAX_BLOCK_DATA {
        return None;
    }
    match lz4_decompress(block) {
        Ok(data) => {
            if data.len() == claimed as usize {
                Some(data)
            } else {
                None
            }
        },
        Err(_) => None,
    }
}

/// Undoes the compression stage: one block, or a frame of chunks.
pub fn decompress(b: &[u8]) -> (r: Result<Vec<u8>, BFastError>)
    ensures
        match unwrap_stream(b@) {
            Some(data) => r is Ok && r->Ok_0@ == data,
            None => r is Err && r->Err_0@ == ErrorView::DecompressionFailed,
        },
{
    let total = b.len();
    if total < 4 {
        return Err(BFastError::DecompressionFailed);
    }
    let size = get_u32(b, 0);
    if (size as usize) < CHUNKED_MIN {
        return match decompress_block(b, (CHUNKED_MIN - 1) as u32) {
            Some(data) => Ok(data),
            None => Err(BFastError::DecompressionFailed),
        };
    }
    if total < 8 {
        return Err(BFastError::DecompressionFailed);
    }
    let count = get_u32(b, 4);
    let ghost want = unwrap_chunks(b@, 8, count as nat);
    let mut out: Vec<u8> = Vec::new();
    let mut pos: usize = 8;
    let mut i: u32 = 0;
    proof {
        assert(Seq::<u8>::empty() + want->Some_0 =~= want->Some_0);
    }
    while i < count
        invariant
            i <= count,
            total == b@.len(),
            8 <= pos <= total,
            size == read32(b@, 0),
            size >= CHUNKED_MIN,
            count == read32(b@, 4),
            want == unwrap_chunks(b@, 8, count as nat),
            want == joined(out@, unwrap_chunks(b@, pos as int, (count - i) as nat)),
        decreases count - i,
    {
        if total - pos < 4 {
            return Err(BFastError::DecompressionFailed);
        }
        let len = get_u32(b, pos) as usize;
        if total - pos - 4 < len {
            return Err(BFastError::DecompressionFailed);
        }
        let block = slice_subrange(b, pos + 4, pos + 4 + len);
        let data = match decompress_block(block, CHUNK_SIZE as u32) {
            Some(data) => data,
            None => {
                return Err(BFastError::DecompressionFailed);
            },
        };
        proof {
            let rest = unwrap_chunks(b@, pos + 4 + len, (count - i - 1) as nat);
            if rest is Some {
                assert(out@ + (data@ + rest->Some_0) =~= (out@ + data@) + rest->Some_0);
            }
        }
        put_bytes(&mut out, data.as_slice());
        pos = pos + 4 + len;
        i += 1;
    }
    if pos != total {
        return Err(BFastError::DecompressionFailed);
    }
    proof {
        assert(out@ + Seq::<u8>::empty() =~= out@);
    }
    if out.len() != size as usize {
        return Err(BFastError::DecompressionFailed);
    }
    Ok(out)
}

} // verus!
