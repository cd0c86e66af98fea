use record_pipeline::transform::{rewrite, text_record};
use record_pipeline::{BusinessLogicStage, Stage};

fn transform(records: Vec<Vec<u8>>) -> Vec<Vec<u8>> {
    BusinessLogicStage.run(records).unwrap()
}

#[test]
fn short_record_is_dropped_and_text_is_upper_cased() {
    let records = vec![b"ab".to_vec(), b"abcd".to_vec(), "héllo".as_bytes().to_vec()];
    assert_eq!(transform(records), vec![b"ABCD".to_vec(), "HÉLLO".as_bytes().to_vec()]);
}

#[test]
fn five_byte_record_that_is_not_utf8_is_dropped() {
    // "héllo" in Latin-1: five bytes, and 0xe9 does not start a UTF-8 sequence here.
    let records = vec![b"ab".to_vec(), b"abcd".to_vec(), vec![0x68, 0xe9, 0x6c, 0x6c, 0x6f]];
    assert_eq!(transform(records), vec![b"ABCD".to_vec()]);
}

#[test]
fn three_bytes_are_dropped_four_are_kept() {
    assert_eq!(transform(vec![b"abc".to_vec()]), Vec::<Vec<u8>>::new());
    assert_eq!(transform(vec![b"abcd".to_vec()]), vec![b"ABCD".to_vec()]);
}

#[test]
fn empty_record_is_dropped() {
    assert_eq!(transform(vec![vec![]]), Vec::<Vec<u8>>::new());
}

#[test]
fn no_records_give_no_records() {
    assert_eq!(transform(vec![]), Vec::<Vec<u8>>::new());
}

#[test]
fn invalid_utf8_is_dropped_without_error() {
    let records = vec![vec![0xff, 0xfe, 0xfd, 0xfc], vec![0xc0, 0x80, 0x41, 0x42]];
    assert_eq!(BusinessLogicStage.run(records), Ok(vec![]));
}

#[test]
fn order_of_kept_records_is_preserved() {
    let records = vec![
        b"first".to_vec(),
        b"no".to_vec(),
        vec![0x80, 0x80, 0x80, 0x80],
        b"second".to_vec(),
        b"x".to_vec(),
        b"third".to_vec(),
    ];
    assert_eq!(
        transform(records),
        vec![b"FIRST".to_vec(), b"SECOND".to_vec(), b"THIRD".to_vec()]
    );
}

#[test]
fn upper_case_text_is_unchanged() {
    assert_eq!(transform(vec![b"DONE 42!".to_vec()]), vec![b"DONE 42!".to_vec()]);
}

#[test]
fn upper_casing_may_lengthen_a_record() {
    assert_eq!(transform(vec!["straße".as_bytes().to_vec()]), vec![b"STRASSE".to_vec()]);
}

#[test]
fn length_is_counted_in_bytes_not_characters() {
    // Two characters, four bytes.
    assert_eq!(transform(vec!["éé".as_bytes().to_vec()]), vec!["ÉÉ".as_bytes().to_vec()]);
    // Three characters, three bytes.
    assert_eq!(transform(vec![b"abc".to_vec()]), Vec::<Vec<u8>>::new());
}

#[test]
fn rewrite_keeps_text_of_four_bytes() {
    assert_eq!(rewrite(b"test".to_vec()), Some(b"TEST".to_vec()));
}

#[test]
fn rewrite_drops_short_and_non_text() {
    assert_eq!(rewrite(b"abc".to_vec()), None);
    assert_eq!(rewrite(vec![0x61, 0x62, 0x63, 0xff]), None);
    assert_eq!(rewrite(vec![0xed, 0xa0, 0x80, 0x41]), None);
}

#[test]
fn text_record_is_the_utf8_encoding() {
    assert_eq!(text_record(String::from("TEST")), vec![0x54, 0x45, 0x53, 0x54]);
    assert_eq!(text_record(String::from("É")), vec![0xc3, 0x89]);
    assert_eq!(text_record(String::new()), Vec::<u8>::new());
}

#[test]
fn every_forwarded_record_is_utf8() {
    let records = vec![
        b"plain text".to_vec(),
        "ünïcödé".as_bytes().to_vec(),
        vec![0xff, 0x00, 0x00, 0x00],
        "ß and ŉ grow".as_bytes().to_vec(),
    ];
    let out = transform(records);
    assert_eq!(out.len(), 3);
    for rec in out {
        assert!(String::from_utf8(rec).is_ok());
    }
}

#[test]
fn records_are_handled_one_by_one() {
    let front = vec![b"alpha".to_vec(), b"no".to_vec(), vec![0xc3, 0x28, 0x41, 0x42]];
    let back = vec![b"beta".to_vec(), b"".to_vec(), b"gamma".to_vec()];
    let mut both = front.clone();
    both.extend(back.clone());
    let mut expected = transform(front);
    expected.extend(transform(back));
    assert_eq!(transform(both), expected);
    assert_eq!(expected, vec![b"ALPHA".to_vec(), b"BETA".to_vec(), b"GAMMA".to_vec()]);
}
