use b_fast::compress::{
    compress_block, compress_chunked, compress_chunks, compress_stage, decompress,
    decompress_block, frame_blocks,
};
use b_fast::{decode, BFast, BFastError, Value};

fn patterned(len: usize) -> Vec<u8> {
    (0..len).map(|i| ((i * 31 + i / 1000) % 256) as u8).collect()
}

#[test]
fn a_block_starts_with_the_size_and_unpacks_to_the_data() {
    let data = vec![b'a'; 5000];
    let block = compress_block(&data).unwrap();
    assert_eq!(block[..4], 5000u32.to_le_bytes());
    assert!(block.len() < data.len());
    assert_eq!(decompress_block(&block, 5000).unwrap(), data);
    assert_eq!(lz4_flex::decompress_size_prepended(&block).unwrap(), data);
}

#[test]
fn a_block_that_claims_too_much_or_too_little_is_refused() {
    let data = vec![b'a'; 5000];
    let block = compress_block(&data).unwrap();
    assert_eq!(decompress_block(&block, 4999), None);
    let mut lying = block.clone();
    lying[0] = lying[0].wrapping_add(1);
    assert_eq!(decompress_block(&lying, 10_000), None);
    assert_eq!(decompress_block(&block[..3], 10_000), None);
    assert_eq!(decompress_block(&block[..block.len() - 1], 10_000), None);
}

#[test]
fn two_megabytes_go_through_the_chunked_path() {
    let data = patterned(2 * 1024 * 1024);
    let packed = compress_stage(&data).unwrap();
    assert_eq!(packed[..4], (data.len() as u32).to_le_bytes());
    assert_eq!(packed[4..8], 8u32.to_le_bytes());
    assert_eq!(decompress(&packed).unwrap(), data);
}

#[test]
fn chunk_count_is_the_size_over_the_chunk_size_rounded_up() {
    for (len, chunks) in [
        (1_000_000usize, 4u32),
        (1_048_576, 4),
        (1_048_577, 5),
        (2 * 1024 * 1024 - 1, 8),
        (2 * 1024 * 1024 + 1, 9),
    ] {
        let data = patterned(len);
        assert_eq!(chunks as usize, (len + 262_143) / 262_144);
        assert_eq!(compress_chunks(&data).len(), chunks as usize);
        let packed = compress_chunked(&data).unwrap();
        assert_eq!(packed[4..8], chunks.to_le_bytes());
        assert_eq!(decompress(&packed).unwrap(), data);
    }
}

#[test]
fn every_chunk_is_a_block_of_its_own() {
    let data = patterned(1_000_000);
    let blocks = compress_chunks(&data);
    let framed = frame_blocks(data.len() as u32, &blocks).unwrap();
    assert_eq!(framed, compress_chunked(&data).unwrap());
    let mut at = 8;
    let mut seen = Vec::new();
    for (i, block) in blocks.iter().enumerate() {
        assert_eq!(framed[at..at + 4], (block.len() as u32).to_le_bytes());
        at += 4;
        assert_eq!(&framed[at..at + block.len()], block.as_slice());
        at += block.len();
        let piece = lz4_flex::decompress_size_prepended(block).unwrap();
        let expected = if i < 3 { 262_144 } else { 1_000_000 - 3 * 262_144 };
        assert_eq!(piece.len(), expected);
        seen.extend_from_slice(&piece);
    }
    assert_eq!(at, framed.len());
    assert_eq!(seen, data);
}

#[test]
fn a_damaged_frame_is_refused() {
    let data = patterned(1_000_000);
    let packed = compress_stage(&data).unwrap();
    assert_eq!(decompress(&packed[..packed.len() - 1]), Err(BFastError::DecompressionFailed));
    let mut extra = packed.clone();
    extra.push(0);
    assert_eq!(decompress(&extra), Err(BFastError::DecompressionFailed));
    let mut fewer = packed.clone();
    fewer[4] = 3;
    assert_eq!(decompress(&fewer), Err(BFastError::DecompressionFailed));
    let mut wrong_total = packed.clone();
    wrong_total[0] = wrong_total[0].wrapping_add(1);
    assert_eq!(decompress(&wrong_total), Err(BFastError::DecompressionFailed));
    assert_eq!(decompress(&packed[..7]), Err(BFastError::DecompressionFailed));
    assert_eq!(decompress(&[]), Err(BFastError::DecompressionFailed));
}

#[test]
fn two_megabyte_payload_comes_back_through_the_chunked_path() {
    let body = patterned(2 * 1024 * 1024);
    let value = Value::Bytes(body);
    let mut engine = BFast::new();
    let packed = engine.encode_packed(&value, true).unwrap();
    let total = 2 * 1024 * 1024 + 11;
    assert_eq!(packed[..4], (total as u32).to_le_bytes());
    assert_eq!(packed[4..8], 9u32.to_le_bytes());
    assert_eq!(decode(&packed).unwrap(), value);
}

#[test]
fn data_too_long_for_one_block_is_refused() {
    assert!(compress_block(&vec![0u8; 999_999]).is_ok());
    assert_eq!(compress_block(&vec![0u8; 1_000_000]), Err(BFastError::LengthOverflow));
}

#[test]
fn incompressible_data_stays_within_the_bound_of_a_block() {
    let mut state: u32 = 0x1234_5678;
    let data: Vec<u8> = (0..100_000)
        .map(|_| {
            state = state.wrapping_mul(1_664_525).wrapping_add(1_013_904_223);
            (state >> 24) as u8
        })
        .collect();
    let block = compress_block(&data).unwrap();
    assert!(block.len() <= data.len() * 110 / 100 + 24);
    assert_eq!(decompress_block(&block, 100_000).unwrap(), data);
}

#[test]
fn an_empty_frame_holds_no_chunk() {
    assert_eq!(compress_chunks(&[]).len(), 0);
    assert_eq!(frame_blocks(0, &Vec::new()).unwrap(), vec![0u8; 8]);
}
