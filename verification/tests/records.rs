use kafka_transport::crc::checksum;
use kafka_transport::records::{decode_batches, encode_batch, Record};
use kafka_transport::writer::ByteWriter;

#[test]
fn batches_round_trip() {
    let batch = encode_batch(
        10,
        &[
            (Some(b"k1"), Some(b"first")),
            (None, Some(b"second\r\n\0")),
            (Some(b""), None),
        ],
    );
    let records = decode_batches(&batch).expect("decode");
    assert_eq!(records.len(), 3);
    assert_eq!(records[0].offset, 10);
    assert_eq!(records[0].key.as_deref(), Some(&b"k1"[..]));
    assert_eq!(records[1].offset, 11);
    assert_eq!(records[1].key, None);
    assert_eq!(records[1].value.as_deref(), Some(&b"second\r\n\0"[..]));
    assert_eq!(records[2].key.as_deref(), Some(&b""[..]));
    assert_eq!(records[2].value, None);
    let two = [batch.clone(), encode_batch(13, &[(None, Some(b"third"))])].concat();
    let records = decode_batches(&two).expect("decode two");
    assert_eq!(records.len(), 4);
    assert_eq!(records[3].offset, 13);
    assert!(decode_batches(&[]).expect("empty").is_empty());
}

#[test]
fn a_broken_batch_is_refused() {
    let mut batch = encode_batch(0, &[(None, Some(b"x"))]);
    let last = batch.len() - 1;
    batch[last] ^= 0xff;
    assert!(decode_batches(&batch).is_err(), "CRC");
    let mut batch = encode_batch(0, &[(None, Some(b"x"))]);
    batch[16] = 1;
    assert!(decode_batches(&batch).is_err(), "magic");
    let batch = encode_batch(0, &[(None, Some(b"x"))]);
    let error = decode_batches(&batch[..batch.len() - 3]).expect_err("cut");
    assert!(error.message.contains("runs past"), "{}", error.message);
    assert!(!error.retryable);
}

/// A batch around `body`, its checksum right.
fn batch_around(base_offset: i64, body: &[u8]) -> Vec<u8> {
    let mut batch = Vec::new();
    batch
        .i64_be(base_offset)
        .i32_be(body.len() as i32 + 9)
        .i32_be(-1)
        .byte(2)
        .u32_be(checksum(body))
        .bytes(body);
    batch
}

/// The part of a batch that its checksum covers: `count` records, as
/// `records` write them.
fn body_of(count: i32, records: &[u8]) -> Vec<u8> {
    let mut body = vec![0; 36];
    body.i32_be(count).bytes(records);
    body
}

fn refusal(bytes: &[u8]) -> (String, bool) {
    let error = decode_batches(bytes).expect_err("refused");
    (error.message, error.retryable)
}

const PAST_THE_END: &str = "a field that runs past the end of its message";

#[test]
fn a_batch_is_written_byte_for_byte() {
    let batch = encode_batch(5, &[(None, Some(b"x"))]);
    let mut expected = vec![0, 0, 0, 0, 0, 0, 0, 5]; // base offset
    expected.extend([0, 0, 0, 57]); // length
    expected.extend([0xff; 4]); // leader epoch
    expected.push(2); // magic
    expected.extend([0x6a, 0x9a, 0x62, 0x38]); // checksum
    expected.extend([0, 0]); // attributes
    expected.extend([0, 0, 0, 0]); // last offset delta
    expected.extend([0; 16]); // timestamps
    expected.extend([0xff; 14]); // producer id, epoch and sequence
    expected.extend([0, 0, 0, 1]); // count
    expected.extend([14, 0, 0, 0, 1, 2, b'x', 0]); // the record behind its length
    assert_eq!(batch, expected);
}

#[test]
fn an_empty_batch_round_trips() {
    let batch = encode_batch(3, &[]);
    assert_eq!(batch.len(), 61);
    assert_eq!(&batch[23..27], &[0, 0, 0, 0]);
    assert!(decode_batches(&batch).expect("decode").is_empty());
}

#[test]
fn a_second_batch_is_read_as_if_it_stood_alone() {
    let mut bytes = encode_batch(0, &[(None, Some(b"a")), (None, None)]);
    bytes.extend(encode_batch(-7, &[(Some(b"k"), Some(b"b"))]));
    let records = decode_batches(&bytes).expect("decode");
    assert_eq!(
        records,
        [
            Record {
                offset: 0,
                key: None,
                value: Some(b"a".to_vec())
            },
            Record {
                offset: 1,
                key: None,
                value: None
            },
            Record {
                offset: -7,
                key: Some(b"k".to_vec()),
                value: Some(b"b".to_vec())
            },
        ]
    );
}

#[test]
fn a_change_to_any_byte_from_the_checksum_on_is_refused() {
    let batch = encode_batch(9, &[(Some(b"k"), Some(b"value")), (None, None)]);
    for at in 17..batch.len() {
        for flip in [0x01, 0x80, 0xff] {
            let mut damaged = batch.clone();
            damaged[at] ^= flip;
            assert_eq!(
                refusal(&damaged),
                ("a batch CRC that does not check".to_string(), false)
            );
        }
    }
}

#[test]
fn another_magic_is_refused_as_such() {
    for magic in [0, 1, 3, 0xff] {
        let mut batch = encode_batch(0, &[(None, Some(b"x"))]);
        batch[16] = magic;
        assert_eq!(
            refusal(&batch),
            ("a batch that is not format version 2".to_string(), false)
        );
    }
}

#[test]
fn a_batch_cut_anywhere_is_refused() {
    let batch = encode_batch(0, &[(Some(b"k"), Some(b"value"))]);
    for length in 1..batch.len() {
        assert_eq!(refusal(&batch[..length]), (PAST_THE_END.to_string(), false));
    }
}

#[test]
fn a_batch_that_breaks_off_before_its_length_is_refused() {
    let whole = encode_batch(0, &[(None, Some(b"x"))]);
    for length in 1..12 {
        let mut bytes = whole.clone();
        bytes.extend(&whole[..length]);
        assert_eq!(refusal(&bytes), (PAST_THE_END.to_string(), false));
        assert_eq!(refusal(&whole[..length]), (PAST_THE_END.to_string(), false));
    }
}

#[test]
fn a_negative_batch_length_is_refused() {
    let mut bytes = vec![0; 8];
    bytes.i32_be(-1);
    assert_eq!(refusal(&bytes), ("a negative batch length".to_string(), false));
}

#[test]
fn a_batch_too_short_for_its_header_is_refused() {
    for length in 0..5 {
        let mut bytes = vec![0; 8];
        bytes.i32_be(length).bytes(&vec![2; length as usize]);
        assert_eq!(refusal(&bytes), (PAST_THE_END.to_string(), false));
    }
    let mut bytes = vec![0; 8];
    bytes.i32_be(8).bytes(&[0, 0, 0, 0, 2, 0, 0, 0]);
    assert_eq!(refusal(&bytes), (PAST_THE_END.to_string(), false));
    assert_eq!(
        refusal(&batch_around(0, &[0; 39])),
        (PAST_THE_END.to_string(), false)
    );
}

#[test]
fn a_negative_record_length_is_refused() {
    let batch = batch_around(0, &body_of(1, &[1]));
    assert_eq!(
        refusal(&batch),
        ("a negative record length".to_string(), false)
    );
}

#[test]
fn a_record_that_runs_past_its_length_is_refused() {
    let long_value = batch_around(0, &body_of(1, &[10, 0, 0, 0, 1, 4]));
    assert_eq!(refusal(&long_value), (PAST_THE_END.to_string(), false));
    let long_record = batch_around(0, &body_of(1, &[12, 0, 0, 0, 1, 1]));
    assert_eq!(refusal(&long_record), (PAST_THE_END.to_string(), false));
    let missing = batch_around(0, &body_of(2, &[10, 0, 0, 0, 1, 1]));
    assert_eq!(refusal(&missing), (PAST_THE_END.to_string(), false));
}

#[test]
fn a_varint_that_no_integer_holds_is_refused() {
    let batch = batch_around(0, &body_of(1, &[0xff; 10]));
    assert_eq!(
        refusal(&batch),
        ("a varint of more than 64 bits".to_string(), false)
    );
}

#[test]
fn a_negative_count_is_no_records() {
    let batch = batch_around(0, &body_of(-1, &[1, 2, 3]));
    assert!(decode_batches(&batch).expect("decode").is_empty());
}

#[test]
fn headers_behind_a_value_are_passed_over() {
    let batch = batch_around(4, &body_of(1, &[16, 0, 6, 2, 1, 2, b'v', 0xaa, 0xbb]));
    assert_eq!(
        decode_batches(&batch).expect("decode"),
        [Record {
            offset: 5,
            key: None,
            value: Some(b"v".to_vec())
        }]
    );
}

#[test]
fn offsets_wrap_around_at_the_end() {
    let batch = encode_batch(i64::MAX, &[(None, None), (None, None)]);
    let records = decode_batches(&batch).expect("decode");
    assert_eq!(records[0].offset, i64::MAX);
    assert_eq!(records[1].offset, i64::MIN);
}
