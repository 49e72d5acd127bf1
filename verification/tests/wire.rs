use kafka_transport::cursor::Cursor;
use kafka_transport::wire::{
    frame, message_size, read_message, read_request, request, response, Kafka, KafkaWrite,
    RequestHeader, API_PRODUCE, MAX_MESSAGE,
};
use kafka_transport::writer::ByteWriter;

#[test]
fn primitives_and_framing_round_trip() {
    let mut body = Vec::new();
    body.i8(-1)
        .i16_be(300)
        .i32_be(-70_000)
        .i64_be(1 << 40)
        .nullable_string(Some("orders"))
        .nullable_string(None)
        .nullable_bytes(Some(b"bin"))
        .nullable_bytes(None)
        .count(2);
    let request = request(API_PRODUCE, 3, 7, "xmip", &body);
    let message = read_message(&mut request.as_slice())
        .expect("read")
        .expect("one");
    let (header, rest) = read_request(&message).expect("header");
    assert_eq!(
        header,
        RequestHeader {
            api_key: API_PRODUCE,
            api_version: 3,
            correlation: 7,
            client: Some("xmip".into())
        }
    );
    let mut cursor = Cursor::new(rest);
    assert_eq!(cursor.i8().expect("i8"), -1);
    assert_eq!(cursor.i16_be().expect("i16"), 300);
    assert_eq!(cursor.i32_be().expect("i32"), -70_000);
    assert_eq!(cursor.i64_be().expect("i64"), 1 << 40);
    assert_eq!(
        cursor.nullable_string().expect("s").as_deref(),
        Some("orders")
    );
    assert_eq!(cursor.nullable_string().expect("null"), None);
    assert_eq!(cursor.nullable_bytes().expect("b"), Some(&b"bin"[..]));
    assert_eq!(cursor.nullable_bytes().expect("null"), None);
    assert_eq!(cursor.count().expect("array"), 2);
    assert!(cursor.is_empty());
    let error = cursor.count().expect_err("past the end");
    assert!(error.message.contains("runs past"), "{}", error.message);
    assert!(!error.retryable);
    let response = response(7, &[1, 2]);
    let message = read_message(&mut response.as_slice())
        .expect("read")
        .expect("one");
    assert_eq!(Cursor::new(&message).i32_be().expect("correlation"), 7);
    assert!(read_message(&mut &[][..]).expect("closed").is_none());
    assert!(read_message(&mut &[0, 0, 0, 5, 1][..]).is_err(), "short");
    assert!(read_message(&mut &[0x7f, 0, 0, 0][..]).is_err(), "too big");
}

#[test]
fn a_request_is_written_byte_for_byte() {
    assert_eq!(
        request(3, 1, 258, "me", b"\x07"),
        [0, 0, 0, 13, 0, 3, 0, 1, 0, 0, 1, 2, 0, 2, b'm', b'e', 7]
    );
    assert_eq!(response(-2, b"ok"), [0, 0, 0, 6, 0xff, 0xff, 0xff, 0xfe, b'o', b'k']);
    assert_eq!(frame(b""), [0, 0, 0, 0]);
}

#[test]
fn a_string_is_its_utf8() {
    let mut out: Vec<u8> = Vec::new();
    out.nullable_string(Some("\u{e5}\u{20ac}\u{1f600}"));
    assert_eq!(
        out,
        [0, 9, 0xc3, 0xa5, 0xe2, 0x82, 0xac, 0xf0, 0x9f, 0x98, 0x80]
    );
    let mut cursor = Cursor::new(&out);
    assert_eq!(
        cursor.nullable_string().expect("utf-8").as_deref(),
        Some("\u{e5}\u{20ac}\u{1f600}")
    );
}

#[test]
fn a_string_that_is_not_utf8_is_refused() {
    for bytes in [&[0xff][..], &[0xc3], &[0xed, 0xa0, 0x80], &[0xc0, 0x80]] {
        let mut out: Vec<u8> = Vec::new();
        out.i16_be(bytes.len() as i16).bytes(bytes).byte(5);
        let mut cursor = Cursor::new(&out);
        let error = cursor.nullable_string().expect_err("not utf-8");
        assert_eq!(error.message, "a string that is not UTF-8");
        assert!(!error.retryable);
        assert_eq!(cursor.remaining(), [5]);
    }
}

#[test]
fn any_negative_length_is_nothing() {
    assert_eq!(Cursor::new(&[0x80, 0]).nullable_string().expect("null"), None);
    assert_eq!(
        Cursor::new(&[0x80, 0, 0, 0]).nullable_bytes().expect("null"),
        None
    );
    assert_eq!(Cursor::new(&[0xff; 4]).count().expect("null"), 0);
}

#[test]
fn a_field_that_runs_past_the_end_is_refused() {
    let mut cursor = Cursor::new(&[0, 3, b'a', b'b']);
    let error = cursor.nullable_string().expect_err("string");
    assert_eq!(error.message, "a field that runs past the end of its message");
    assert_eq!(cursor.remaining(), b"ab");
    let mut cursor = Cursor::new(&[0, 0, 0, 3, 1, 2]);
    assert!(cursor.nullable_bytes().is_err());
    assert_eq!(cursor.remaining(), [1, 2]);
    assert!(Cursor::new(&[0]).nullable_string().is_err());
    assert!(Cursor::new(&[0, 0, 0]).nullable_bytes().is_err());
}

#[test]
fn a_string_too_long_for_its_length_says_the_most_it_can() {
    let long = "x".repeat(40_000);
    let mut out: Vec<u8> = Vec::new();
    out.nullable_string(Some(&long));
    assert_eq!(out.len(), 40_002);
    assert_eq!(&out[..2], [0x7f, 0xff]);
    let longest = "x".repeat(32_767);
    let mut out: Vec<u8> = Vec::new();
    out.nullable_string(Some(&longest));
    assert_eq!(
        Cursor::new(&out).nullable_string().expect("fits"),
        Some(longest)
    );
}

#[test]
fn sizes_up_to_the_most_are_read() {
    assert_eq!(MAX_MESSAGE, 104_857_600);
    assert_eq!(message_size([0, 0, 0, 0]).expect("none"), 0);
    assert_eq!(message_size([0x06, 0x40, 0, 0]).expect("most"), MAX_MESSAGE);
    let error = message_size([0x06, 0x40, 0, 1]).expect_err("over");
    assert_eq!(error.message, "a message over what Xmip will read");
    assert!(!error.retryable);
    let error = message_size([0x80, 0, 0, 0]).expect_err("negative");
    assert_eq!(error.message, "a negative message size");
    assert!(!error.retryable);
}

#[test]
fn messages_are_read_one_after_another() {
    let sent = [frame(b"one"), frame(b""), frame(b"three")].concat();
    let mut reader = sent.as_slice();
    assert_eq!(read_message(&mut reader).expect("read"), Some(b"one".to_vec()));
    assert_eq!(read_message(&mut reader).expect("read"), Some(Vec::new()));
    assert_eq!(read_message(&mut reader).expect("read"), Some(b"three".to_vec()));
    assert_eq!(read_message(&mut reader).expect("closed"), None);
}

#[test]
fn a_connection_closed_mid_message_may_be_tried_again() {
    let sent = frame(b"message");
    for length in 1..sent.len() {
        let mut reader = &sent[..length];
        let error = read_message(&mut reader).expect_err("cut");
        assert!(error.retryable);
        assert_eq!(
            error.message,
            if length < 4 {
                "reading a message size: the connection closed mid-message"
            } else {
                "reading a message: the connection closed mid-message"
            }
        );
        assert!(reader.is_empty());
    }
}

#[test]
fn a_refused_size_is_passed_over() {
    let mut reader = &[0xff, 0xff, 0xff, 0xff, 1, 2][..];
    let error = read_message(&mut reader).expect_err("negative");
    assert_eq!(error.message, "a negative message size");
    assert_eq!(reader, [1, 2]);
}

#[test]
fn a_message_shorter_than_a_header_is_refused() {
    let whole = request(1, 4, 9, "me", b"");
    for length in 0..whole.len() - 4 {
        let error = read_request(&whole[4..4 + length]).expect_err("short");
        assert_eq!(error.message, "a field that runs past the end of its message");
        assert!(!error.retryable);
    }
    let (header, body) = read_request(&[0, 1, 0, 4, 0, 0, 0, 9, 0xff, 0xff, 6]).expect("no name");
    assert_eq!(header.client, None);
    assert_eq!(body, [6]);
}
