use record_pipeline::framing::encode_frames;
use record_pipeline::{RecordParserStage, Stage, StageError};

fn decode(buf: &[u8]) -> Result<Vec<Vec<u8>>, StageError> {
    RecordParserStage.run(buf.to_vec())
}

#[test]
fn empty_buffer_decodes_to_no_records() {
    assert_eq!(decode(&[]), Ok(vec![]));
}

#[test]
fn one_stray_byte_is_trailing() {
    assert_eq!(decode(&[0x00]), Err(StageError::TrailingBytes { count: 1 }));
}

#[test]
fn two_stray_bytes_are_trailing() {
    assert_eq!(decode(&[0xff, 0x01]), Err(StageError::TrailingBytes { count: 2 }));
}

#[test]
fn three_stray_bytes_are_trailing() {
    assert_eq!(decode(&[0x00, 0x00, 0x00]), Err(StageError::TrailingBytes { count: 3 }));
}

#[test]
fn header_alone_with_zero_length_is_one_empty_record() {
    assert_eq!(decode(&[0, 0, 0, 0]), Ok(vec![vec![]]));
}

#[test]
fn two_frames_decode_in_order() {
    let buf = [0x00, 0x00, 0x00, 0x03, 0x61, 0x62, 0x63, 0x00, 0x00, 0x00, 0x02, 0x78, 0x79];
    assert_eq!(decode(&buf), Ok(vec![b"abc".to_vec(), b"xy".to_vec()]));
}

#[test]
fn single_frame_decodes() {
    let buf = [0x00, 0x00, 0x00, 0x04, 0x74, 0x65, 0x73, 0x74];
    assert_eq!(decode(&buf), Ok(vec![b"test".to_vec()]));
}

#[test]
fn payload_bytes_are_not_interpreted() {
    let buf = [0, 0, 0, 5, 0x00, 0xff, 0x80, 0x0a, 0x00];
    assert_eq!(decode(&buf), Ok(vec![vec![0x00, 0xff, 0x80, 0x0a, 0x00]]));
}

#[test]
fn length_is_read_big_endian() {
    let mut buf = vec![0x00, 0x00, 0x01, 0x02];
    buf.extend(std::iter::repeat(7u8).take(258));
    let records = decode(&buf).unwrap();
    assert_eq!(records.len(), 1);
    assert_eq!(records[0], vec![7u8; 258]);
}

#[test]
fn little_endian_reading_would_be_truncated() {
    // 0x02_00_00_00 bytes are declared, two follow.
    assert_eq!(
        decode(&[0x02, 0x00, 0x00, 0x00, 0x61, 0x62]),
        Err(StageError::TruncatedRecord { expected: 0x0200_0000, remaining: 2 })
    );
}

#[test]
fn truncated_only_frame() {
    assert_eq!(
        decode(&[0, 0, 0, 5, 0x61, 0x62]),
        Err(StageError::TruncatedRecord { expected: 5, remaining: 2 })
    );
}

#[test]
fn truncated_frame_with_nothing_behind_the_header() {
    assert_eq!(
        decode(&[0, 0, 0, 1]),
        Err(StageError::TruncatedRecord { expected: 1, remaining: 0 })
    );
}

#[test]
fn truncated_last_frame_after_complete_frames() {
    let buf = [0, 0, 0, 3, 0x61, 0x62, 0x63, 0, 0, 0, 10, 1, 2, 3, 4];
    assert_eq!(decode(&buf), Err(StageError::TruncatedRecord { expected: 10, remaining: 4 }));
}

#[test]
fn largest_declared_length_is_truncated_not_overflow() {
    assert_eq!(
        decode(&[0xff, 0xff, 0xff, 0xff, 1, 2, 3]),
        Err(StageError::TruncatedRecord { expected: u32::MAX, remaining: 3 })
    );
}

#[test]
fn one_extra_byte_after_frames() {
    let buf = [0, 0, 0, 2, 0x78, 0x79, 0xaa];
    assert_eq!(decode(&buf), Err(StageError::TrailingBytes { count: 1 }));
}

#[test]
fn two_extra_bytes_after_frames() {
    let buf = [0, 0, 0, 2, 0x78, 0x79, 0, 0, 0, 0, 0xaa, 0xbb];
    assert_eq!(decode(&buf), Err(StageError::TrailingBytes { count: 2 }));
}

#[test]
fn three_extra_bytes_after_frames() {
    let buf = [0, 0, 0, 1, 0x78, 0, 0, 0];
    assert_eq!(decode(&buf), Err(StageError::TrailingBytes { count: 3 }));
}

#[test]
fn four_extra_bytes_are_read_as_a_header() {
    let buf = [0, 0, 0, 1, 0x78, 0, 0, 0, 9];
    assert_eq!(decode(&buf), Err(StageError::TruncatedRecord { expected: 9, remaining: 0 }));
}

#[test]
fn failure_returns_no_partial_records() {
    let buf = [0, 0, 0, 1, 0x78, 0, 0, 0, 1, 0x79, 0x01];
    assert!(matches!(decode(&buf), Err(StageError::TrailingBytes { count: 1 })));
}

#[test]
fn encode_writes_header_then_payload() {
    let records = vec![b"abc".to_vec(), b"xy".to_vec()];
    assert_eq!(
        encode_frames(&records),
        Some(vec![0x00, 0x00, 0x00, 0x03, 0x61, 0x62, 0x63, 0x00, 0x00, 0x00, 0x02, 0x78, 0x79])
    );
}

#[test]
fn encode_of_no_records_is_empty() {
    assert_eq!(encode_frames(&vec![]), Some(vec![]));
}

#[test]
fn encode_spells_every_header_byte() {
    let record = vec![0x5au8; 0x01_02_03];
    let buf = encode_frames(&vec![record]).unwrap();
    assert_eq!(&buf[..4], &[0x00, 0x01, 0x02, 0x03]);
    assert_eq!(buf.len(), 4 + 0x01_02_03);
}

#[test]
fn round_trip_gives_the_records_back() {
    let records: Vec<Vec<u8>> = vec![
        vec![],
        b"a".to_vec(),
        vec![0x00, 0x00, 0x00, 0x04],
        (0..=255u8).collect(),
        vec![0xffu8; 70_000],
        vec![],
    ];
    let buf = encode_frames(&records).unwrap();
    assert_eq!(decode(&buf), Ok(records));
}

#[test]
fn round_trip_of_no_records() {
    let buf = encode_frames(&vec![]).unwrap();
    assert_eq!(decode(&buf), Ok(vec![]));
}

#[test]
fn decoded_records_encode_to_the_same_buffer() {
    let buf = vec![0, 0, 0, 1, 9, 0, 0, 0, 0, 0, 0, 0, 2, 8, 7];
    let records = decode(&buf).unwrap();
    assert_eq!(encode_frames(&records), Some(buf));
}
