use kafka_transport::crc::checksum;
use kafka_transport::cursor::Cursor;
use kafka_transport::stream::origin_uri;
use kafka_transport::text::{parse_i32, push_decimal, rsplit_once, split_once, strip_prefix};
use kafka_transport::varint::{unzigzag, zigzag};
use kafka_transport::writer::ByteWriter;

#[test]
fn checksums_are_castagnoli() {
    assert_eq!(checksum(b"123456789"), 0xe306_9283);
    assert_eq!(checksum(b""), 0);
    assert_eq!(checksum(&[0; 32]), 0x8a91_36aa);
    assert_eq!(checksum(&[0xff; 32]), 0x62a8_ab43);
}

#[test]
fn a_change_to_any_byte_changes_the_checksum() {
    let whole: Vec<u8> = (0..64).collect();
    for at in 0..whole.len() {
        for byte in 0..=255 {
            let mut damaged = whole.clone();
            damaged[at] = byte;
            assert_eq!(checksum(&damaged) == checksum(&whole), byte == whole[at]);
        }
    }
}

#[test]
fn zigzag_folds_signed_integers_in_turn() {
    let folded: Vec<u64> = [0, -1, 1, -2, 2, i64::MAX, i64::MIN]
        .into_iter()
        .map(zigzag)
        .collect();
    assert_eq!(folded, [0, 1, 2, 3, 4, u64::MAX - 1, u64::MAX]);
    for value in [0, -1, 1, 63, -64, i64::MAX, i64::MIN] {
        assert_eq!(unzigzag(zigzag(value)), value);
    }
}

#[test]
fn varints_are_written_seven_bits_a_byte() {
    for (value, expected) in [
        (0, vec![0]),
        (127, vec![0x7f]),
        (128, vec![0x80, 1]),
        (300, vec![0xac, 2]),
        (
            u64::MAX,
            vec![0xff, 0xff, 0xff, 0xff, 0xff, 0xff, 0xff, 0xff, 0xff, 1],
        ),
    ] {
        let mut out: Vec<u8> = Vec::new();
        out.varint(value);
        assert_eq!(out, expected);
        out.byte(9);
        let mut cursor = Cursor::new(&out);
        assert_eq!(cursor.varint().expect("varint"), value);
        assert_eq!(cursor.remaining(), [9]);
    }
}

#[test]
fn a_broken_varint_is_refused_and_left() {
    let mut cursor = Cursor::new(&[0x80, 0x80]);
    let error = cursor.varint().expect_err("cut");
    assert_eq!(error.message, "a field that runs past the end of its message");
    assert_eq!(cursor.remaining(), [0x80, 0x80]);
    let over = [0xff, 0xff, 0xff, 0xff, 0xff, 0xff, 0xff, 0xff, 0xff, 2];
    let error = Cursor::new(&over).varint().expect_err("over");
    assert_eq!(error.message, "a varint of more than 64 bits");
    assert!(!error.retryable);
    let long = [0x80; 11];
    let error = Cursor::new(&long).varint().expect_err("long");
    assert_eq!(error.message, "a varint of more than 64 bits");
    let padded = [0x81, 0x80, 0];
    assert_eq!(Cursor::new(&padded).varint().expect("padded"), 1);
}

#[test]
fn integers_are_big_endian_in_twos_complement() {
    let mut out: Vec<u8> = Vec::new();
    out.i8(-128)
        .i16_be(-2)
        .i32_be(0x0102_0304)
        .i64_be(i64::MIN)
        .u32_be(u32::MAX);
    assert_eq!(
        out,
        [
            0x80, 0xff, 0xfe, 1, 2, 3, 4, 0x80, 0, 0, 0, 0, 0, 0, 0, 0xff, 0xff, 0xff, 0xff
        ]
    );
    let mut cursor = Cursor::new(&out);
    assert_eq!(cursor.i8().expect("i8"), -128);
    assert_eq!(cursor.i16_be().expect("i16"), -2);
    assert_eq!(cursor.i32_be().expect("i32"), 0x0102_0304);
    assert_eq!(cursor.i64_be().expect("i64"), i64::MIN);
    assert_eq!(cursor.u32_be().expect("u32"), u32::MAX);
    assert!(cursor.is_empty());
}

#[test]
fn a_cursor_takes_what_there_is_or_nothing() {
    let mut cursor = Cursor::new(b"abcdef");
    assert_eq!(cursor.take(2).expect("two"), b"ab");
    cursor.skip(1).expect("one");
    assert_eq!(cursor.byte().expect("byte"), b'd');
    let error = cursor.take(3).expect_err("too many");
    assert_eq!(error.message, "a field that runs past the end of its message");
    assert!(!error.retryable);
    assert_eq!(cursor.remaining(), b"ef");
    assert!(cursor.i32_be().is_err());
    assert_eq!(cursor.take_rest(), b"ef");
    assert!(cursor.is_empty());
    assert!(cursor.byte().is_err());
    assert!(cursor.skip(1).is_err());
    assert!(cursor.skip(0).is_ok());
}

#[test]
fn decimals_are_written_with_their_sign() {
    for value in [0, 7, 10, 90_210, -1, -305, i64::MAX, i64::MIN] {
        let mut out = "n=".to_string();
        push_decimal(&mut out, value);
        assert_eq!(out, format!("n={value}"));
    }
}

#[test]
fn thirty_two_bit_decimals_are_parsed() {
    for (text, value) in [
        ("0", Some(0)),
        ("9092", Some(9092)),
        ("+7", Some(7)),
        ("-7", Some(-7)),
        ("007", Some(7)),
        ("2147483647", Some(i32::MAX)),
        ("-2147483648", Some(i32::MIN)),
        ("2147483648", None),
        ("-2147483649", None),
        ("99999999999999999999999", None),
        ("", None),
        ("+", None),
        ("-", None),
        ("+-1", None),
        ("1 ", None),
        ("1a", None),
        ("\u{663}", None),
    ] {
        assert_eq!(parse_i32(text), value, "{text}");
        assert_eq!(text.parse::<i32>().ok(), value, "{text}");
    }
}

#[test]
fn text_is_cut_at_its_marks() {
    assert_eq!(rsplit_once("[::1]:9092", ':'), Some(("[::1]", "9092")));
    assert_eq!(rsplit_once(":", ':'), Some(("", "")));
    assert_eq!(rsplit_once("host", ':'), None);
    assert_eq!(split_once("host/orders/0", '/'), Some(("host", "orders/0")));
    assert_eq!(split_once("", '/'), None);
    assert_eq!(strip_prefix("kafka://h", "kafka://"), Some("h"));
    assert_eq!(strip_prefix("kafka:/", "kafka://"), None);
    assert_eq!(strip_prefix("kafkb://h", "kafka://"), None);
    assert_eq!(split_once("\u{e5}\u{e4}/\u{f6}", '/'), Some(("\u{e5}\u{e4}", "\u{f6}")));
}

#[test]
fn an_origin_tells_broker_topic_partition_and_offset() {
    assert_eq!(
        origin_uri("broker", "orders", 0, 41),
        "kafka://broker/orders/0?offset=41"
    );
    assert_eq!(
        origin_uri("[::1]:9092", "", -1, i64::MIN),
        "kafka://[::1]:9092//-1?offset=-9223372036854775808"
    );
}
