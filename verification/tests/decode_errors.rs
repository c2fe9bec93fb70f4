use b_fast::decode::decode_stream;
use b_fast::{decode, BFastError, Value};

#[test]
fn stream_without_magic_is_refused() {
    assert_eq!(decode_stream(b"XY\x00\x01\x00\x00\x10"), Err(BFastError::InvalidMagic));
    assert_eq!(decode_stream(b""), Err(BFastError::InvalidMagic));
    assert_eq!(decode_stream(b"B"), Err(BFastError::InvalidMagic));
}

#[test]
fn stream_of_another_version_is_refused() {
    assert_eq!(decode_stream(b"BF\x00\x02\x00\x00\x10"), Err(BFastError::UnsupportedVersion(2)));
    assert_eq!(decode(b"BF\x00\x02\x00\x00\x10"), Err(BFastError::UnsupportedVersion(2)));
}

#[test]
fn bytes_that_are_neither_plain_nor_compressed_are_refused() {
    assert_eq!(decode(b""), Err(BFastError::DecompressionFailed));
    assert_eq!(decode(b"garbage that is no stream"), Err(BFastError::DecompressionFailed));
    assert_eq!(decode(&[5, 0, 0, 0, 0xFF, 0xFF]), Err(BFastError::DecompressionFailed));
}

#[test]
fn truncated_streams_report_where_they_end() {
    assert_eq!(decode(b"BF\x00\x01"), Err(BFastError::UnexpectedEOF(2)));
    assert_eq!(decode(b"BF\x00\x01\x00\x00"), Err(BFastError::UnexpectedEOF(6)));
    assert_eq!(decode(b"BF\x00\x01\x00\x00\x38\x01\x02"), Err(BFastError::UnexpectedEOF(7)));
    assert_eq!(decode(b"BF\x00\x01\x00\x00\x50\x02\x00"), Err(BFastError::UnexpectedEOF(7)));
    assert_eq!(decode(b"BF\x00\x01\x00\x00\x50\x02\x00\x00\x00a"), Err(BFastError::UnexpectedEOF(11)));
    assert_eq!(decode(b"BF\x00\x01\x00\x00\x60\x02\x00\x00\x00\x10"), Err(BFastError::UnexpectedEOF(12)));
    assert_eq!(decode(b"BF\x00\x01\x00\x00\x70"), Err(BFastError::UnexpectedEOF(7)));
    assert_eq!(decode(b"BF\x00\x01\x01\x00\x05ab"), Err(BFastError::UnexpectedEOF(7)));
    assert_eq!(decode(b"BF\x00\x01\x00\x00\x90\x02\x00\x00\x00\x00"), Err(BFastError::UnexpectedEOF(11)));
}

#[test]
fn bytes_that_break_the_grammar_report_their_offset() {
    assert_eq!(decode(b"BF\x00\x01\x00\x00\x00"), Err(BFastError::Malformed(6)));
    assert_eq!(decode(b"BF\x00\x01\x00\x00\x10\x10"), Err(BFastError::Malformed(7)));
    assert_eq!(decode(b"BF\x00\x01\x00\x00\x50\x01\x00\x00\x00\xFF"), Err(BFastError::Malformed(11)));
    assert_eq!(decode(b"BF\x00\x01\x01\x00\x01\xFF\x10"), Err(BFastError::Malformed(7)));
    assert_eq!(
        decode(b"BF\x00\x01\x00\x00\x70\x00\x00\x00\x00\x10\x7F"),
        Err(BFastError::Malformed(7))
    );
}

#[test]
fn hand_written_stream_decodes() {
    let stream = b"BF\x00\x01\x02\x00\x01a\x02bc\x70\x01\x00\x00\x00\x3F\x00\x00\x00\x00\x60\x01\x00\x00\x00\x21\x7F";
    let expected = Value::Record(vec![
        ("bc".to_string(), Value::Int(15)),
        ("a".to_string(), Value::Sequence(vec![Value::Bool(true)])),
    ]);
    assert_eq!(decode(stream).unwrap(), expected);
}

#[test]
fn a_stream_flagged_compressed_but_plain_is_read_as_it_is() {
    assert_eq!(decode(b"BF\x01\x01\x00\x00\x10").unwrap(), Value::Null);
}
