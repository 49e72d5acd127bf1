use std::time::Duration;

use kafka_transport::cursor::Cursor;
use kafka_transport::records::encode_batch;
use kafka_transport::session::{take_one, Heard, Next, Reply};
use kafka_transport::wire::{
    read_message, request, response, KafkaWrite, API_FETCH, API_METADATA, API_PRODUCE,
    API_VERSIONS,
};
use kafka_transport::writer::ByteWriter;
use kafka_transport::{
    Arrived, Client, Event, KafkaTransport, Record, Session, TopicMetadata, TransportError,
};

const PEER: &str = "127.0.0.1:50000";
const LOCAL: &str = "127.0.0.1:9092";

/// The message that `sent` frames.
fn unframed(sent: &[u8]) -> Vec<u8> {
    let mut reader = sent;
    let message = read_message(&mut reader).expect("read").expect("one");
    assert!(reader.is_empty());
    message
}

/// What `session` does with the request `sent`.
fn served(session: &mut Session, sent: &[u8]) -> Result<Reply, TransportError> {
    session.next_event(&unframed(sent))
}

/// The message that answers the request `sent`, and what was reported.
fn answered(session: &mut Session, sent: &[u8]) -> (Vec<u8>, Option<Event>) {
    let reply = served(session, sent).expect("serving");
    (unframed(&reply.bytes), reply.event)
}

fn metadata(client: &mut Client, session: &mut Session, topic: &str) -> TopicMetadata {
    let sent = client.ask_metadata(topic);
    let (answer, event) = answered(session, &sent);
    assert_eq!(event, None);
    client.metadata(topic, Some(&answer)).expect("metadata")
}

fn produce(
    client: &mut Client,
    session: &mut Session,
    topic: &str,
    partition: i32,
    key: Option<&[u8]>,
    value: &[u8],
) -> (i64, Arrived) {
    let sent = client.ask_produce(topic, partition, key, value);
    let (answer, event) = answered(session, &sent);
    let offset = client.produce(Some(&answer)).expect("produce");
    match session.next_produce(Heard::Event(event.expect("a record"))) {
        Next::Done(arrived) => (offset, take_one(arrived).expect("a record")),
        Next::Listen => panic!("nothing was produced"),
    }
}

fn fetch(
    client: &mut Client,
    session: &mut Session,
    topic: &str,
    partition: i32,
    offset: i64,
) -> Vec<Record> {
    let sent = client.ask_fetch(topic, partition, offset);
    let (answer, event) = answered(session, &sent);
    assert_eq!(
        event,
        Some(Event::Fetched {
            topic: topic.to_string(),
            offset
        })
    );
    assert_eq!(
        session.next_produce(Heard::Event(event.expect("fetched"))),
        Next::Listen
    );
    client.fetch(offset, Some(&answer)).expect("fetch")
}

fn secs(n: u64) -> Duration {
    Duration::from_secs(n)
}

#[test]
fn a_producer_appends_to_a_session_and_the_offsets_count() {
    let mut session = Session::new(PEER, "127.0.0.1:9092");
    let mut client = Client::new("probe");
    let metadata = metadata(&mut client, &mut session, "orders");
    let (first, one) = produce(&mut client, &mut session, "orders", 0, Some(b"k"), b"first");
    assert_eq!(one.bytes, b"first");
    assert!(one.origin_uri.ends_with("/orders/0?offset=0"));
    let (second, two) = produce(&mut client, &mut session, "orders", 0, None, b"second\r\n\0");
    assert_eq!(two.bytes, b"second\r\n\0");
    assert!(two.origin_uri.ends_with("?offset=1"));
    let fetched = fetch(&mut client, &mut session, "orders", 0, 1);
    assert_eq!(session.next_produce(Heard::Closed), Next::Done(None));
    assert_eq!(metadata.partitions, [0]);
    assert!(metadata.leader.starts_with("127.0.0.1:"));
    assert_eq!((first, second), (0, 1));
    assert_eq!(fetched.len(), 1);
    assert_eq!(fetched[0].offset, 1);
    assert_eq!(fetched[0].value.as_deref(), Some(&b"second\r\n\0"[..]));
}

#[test]
fn the_transport_trait_sends_and_receives_on_from_its_cursor() {
    let address = "127.0.0.1:9092";
    let mut near = KafkaTransport::new(address, "orders")
        .from_offset(1)
        .timing_out_after(secs(2));
    let target = format!("kafka://{address}/orders");
    let mut session = Session::new(PEER, address);
    let mut client = Client::new(near.client());
    let (broker, sent) = near.ask_send(&mut client, &target, b"produced");
    assert_eq!(broker, address);
    let (answer, event) = answered(&mut session, &sent);
    client.produce(Some(&answer)).expect("produce");
    match session.next_produce(Heard::Event(event.expect("one"))) {
        Next::Done(Some(one)) => assert_eq!(one.bytes, b"produced"),
        _ => panic!("nothing was produced"),
    }
    assert_eq!(session.next_produce(Heard::Closed), Next::Done(None));
    let mut session =
        Session::new(PEER, address).with_records("orders", &[b"zero", b"one", b"two"]);
    let mut client = Client::new(near.client());
    let metadata = metadata(&mut client, &mut session, near.topic());
    assert_eq!(near.connect(&metadata).expect("a leader"), None);
    let sent = near.ask_receive(&mut client);
    let (answer, _) = answered(&mut session, &sent);
    let arrived = near.take_received(&client, Some(&answer)).expect("receive");
    let cursor = near.cursor();
    assert_eq!(arrived.len(), 2, "from offset 1");
    assert_eq!(arrived[0].bytes, b"one");
    assert!(arrived[1].origin_uri.ends_with("/orders/0?offset=2"));
    assert_eq!(cursor, 3);
}

/// One payload there and back between both ends of a loopback.
fn round(loopback: &KafkaTransport, payload: &[u8]) -> Arrived {
    let near = loopback.send_to(LOCAL);
    let mut far = Session::new(PEER, LOCAL);
    assert_eq!(far.next_produce(Heard::Nothing), Next::Listen);
    let mut client = Client::new(near.client());
    let (broker, sent) = near.ask_send(&mut client, loopback.topic(), payload);
    assert_eq!(broker, LOCAL);
    let (answer, event) = answered(&mut far, &sent);
    assert_eq!(client.produce(Some(&answer)).expect("produce"), 0);
    match far.next_produce(Heard::Event(event.expect("a record"))) {
        Next::Done(arrived) => take_one(arrived).expect("a record"),
        Next::Listen => panic!("nothing was produced"),
    }
}

#[test]
fn the_loopback_round_returns_the_payload_and_its_origin() {
    let loopback = KafkaTransport::loopback(secs(5));
    let arrived = round(&loopback, b"record");
    assert_eq!(arrived.bytes, b"record");
    assert!(arrived.origin_uri.starts_with("kafka://127.0.0.1:"));
    assert!(arrived.origin_uri.ends_with("/probe/0?offset=0"));
}

#[test]
fn the_loopback_returns_the_edge_payloads_whole() {
    let loopback = KafkaTransport::loopback(secs(5));
    for (name, payload) in edge_payloads() {
        let arrived = round(&loopback, &payload);
        assert!(arrived.bytes == payload, "{name} came back changed");
    }
}

/// The shapes a framing fault changes.
fn edge_payloads() -> Vec<(&'static str, Vec<u8>)> {
    vec![
        ("empty", Vec::new()),
        ("one byte", vec![0x2a]),
        ("every byte", (0..=255).collect()),
        ("nul run", vec![0; 512]),
        ("high bytes", vec![0xff; 512]),
        ("crlf storm", b"\r\n".repeat(400)),
        ("mtu minus one", patterned(1_471)),
        ("mtu", patterned(1_472)),
        ("mtu plus one", patterned(1_473)),
        ("udp maximum", patterned(65_507)),
        ("sixteen bits plus one", patterned(65_537)),
        ("a mebibyte", patterned(1 << 20)),
    ]
}

/// `len` bytes a truncation, a reorder or a duplicate would change.
fn patterned(len: usize) -> Vec<u8> {
    (0..len)
        .map(|at| u8::try_from((at * 31 + at / 251) % 256).unwrap_or(0))
        .collect()
}

/// One connection's request with no client's help.
fn asked(session: &mut Session, api_key: i16, body: &[u8]) -> Result<Reply, TransportError> {
    served(session, &request(api_key, 0, 77, "raw", body))
}

/// The body of the answer to such a request.
fn body_of(reply: &Reply) -> Vec<u8> {
    let message = unframed(&reply.bytes);
    let mut cursor = Cursor::new(&message);
    assert_eq!(cursor.i32_be().expect("correlation"), 77);
    cursor.take_rest().to_vec()
}

#[test]
fn the_versions_that_are_served_are_told() {
    let mut session = Session::new(PEER, LOCAL);
    let reply = asked(&mut session, API_VERSIONS, b"ignored").expect("versions");
    assert_eq!(reply.event, None);
    assert_eq!(
        body_of(&reply),
        [
            0, 0, 0, 0, 0, 3, 0, 0, 0, 3, 0, 3, 0, 1, 0, 4, 0, 4, 0, 3, 0, 1, 0, 1
        ]
    );
}

#[test]
fn an_api_that_is_not_served_is_refused_with_its_key() {
    for (api_key, message) in [
        (2, "api key 2 is not served here"),
        (19, "api key 19 is not served here"),
        (-1, "api key -1 is not served here"),
    ] {
        let mut session = Session::new(PEER, LOCAL);
        let error = asked(&mut session, api_key, b"").expect_err("refused");
        assert_eq!(error.message, message);
        assert!(!error.retryable);
    }
}

#[test]
fn a_message_without_a_header_is_refused() {
    let mut session = Session::new(PEER, LOCAL);
    let error = session.next_event(&[0, 3, 0]).expect_err("short");
    assert_eq!(error.message, "a field that runs past the end of its message");
}

#[test]
fn metadata_is_answered_byte_for_byte() {
    let mut session = Session::new(PEER, "host:258");
    let mut body: Vec<u8> = Vec::new();
    body.count(2).nullable_string(Some("a")).nullable_string(None);
    let reply = asked(&mut session, API_METADATA, &body).expect("metadata");
    assert_eq!(reply.event, None);
    let mut expected: Vec<u8> = Vec::new();
    expected
        .count(1)
        .i32_be(0)
        .nullable_string(Some("host"))
        .i32_be(258)
        .nullable_string(None)
        .i32_be(0)
        .count(2);
    for name in ["a", ""] {
        expected.i16_be(0).nullable_string(Some(name)).i8(0).count(1);
        expected.i16_be(0).i32_be(0).i32_be(0);
        expected.count(1).i32_be(0).count(1).i32_be(0);
    }
    assert_eq!(body_of(&reply), expected);
}

#[test]
fn a_session_leads_at_its_own_address() {
    for (local, leader) in [
        ("127.0.0.1:9092", "127.0.0.1:9092"),
        ("[::1]:1", "[::1]:1"),
        ("nowhere", "nowhere:0"),
        ("host:port", "host:0"),
        (":65535", ":65535"),
    ] {
        let mut session = Session::new(PEER, local);
        let mut client = Client::new("probe");
        let known = metadata(&mut client, &mut session, "any topic");
        assert_eq!(
            known,
            TopicMetadata {
                partitions: vec![0],
                leader: leader.to_string(),
                leaders: vec![leader.to_string()]
            }
        );
    }
}

/// A Produce of one set to each of several partitions of `topic`.
fn produce_body(topic: &str, sets: &[(i32, Option<&[u8]>)]) -> Vec<u8> {
    let mut body: Vec<u8> = Vec::new();
    body.nullable_string(None)
        .i16_be(1)
        .i32_be(10_000)
        .count(1)
        .nullable_string(Some(topic))
        .count(sets.len());
    for (partition, set) in sets {
        body.i32_be(*partition).nullable_bytes(*set);
    }
    body
}

#[test]
fn a_produce_of_several_records_hands_up_the_first_and_then_the_rest() {
    let mut session = Session::new(PEER, LOCAL).with_records("t", &[b"held"]);
    let two = encode_batch(9, &[(None, Some(b"one")), (None, Some(b"two"))]);
    let three = encode_batch(0, &[(Some(b"k"), None)]);
    let sets = [(0, Some(two.as_slice())), (1, Some(three.as_slice()))];
    let reply = asked(&mut session, API_PRODUCE, &produce_body("t", &sets)).expect("produce");
    let mut expected: Vec<u8> = Vec::new();
    expected.count(1).nullable_string(Some("t")).count(2);
    expected.i32_be(0).i16_be(0).i64_be(1).i64_be(-1);
    expected.i32_be(1).i16_be(0).i64_be(0).i64_be(-1);
    expected.i32_be(0);
    assert_eq!(body_of(&reply), expected);
    let mut arrived = Vec::new();
    let mut heard = Heard::Event(reply.event.expect("produced"));
    while let Next::Done(Some(one)) = session.next_produce(heard) {
        arrived.push((one.origin_uri, one.bytes));
        heard = Heard::Nothing;
    }
    assert_eq!(
        arrived,
        [
            (
                format!("kafka://{PEER}/t/0?offset=1"),
                b"one".to_vec()
            ),
            (
                format!("kafka://{PEER}/t/0?offset=2"),
                b"two".to_vec()
            ),
            (format!("kafka://{PEER}/t/1?offset=0"), Vec::new()),
        ]
    );
}

#[test]
fn what_waits_is_handed_up_before_the_next_produce_is_heard() {
    let mut session = Session::new(PEER, LOCAL);
    let two = encode_batch(0, &[(None, Some(b"one")), (None, Some(b"two"))]);
    let body = produce_body("t", &[(0, Some(&two))]);
    let first = asked(&mut session, API_PRODUCE, &body).expect("produce");
    let heard = Heard::Event(first.event.expect("produced"));
    assert!(matches!(session.next_produce(heard), Next::Done(Some(a)) if a.bytes == b"one"));
    let mut client = Client::new("probe");
    let sent = client.ask_fetch("t", 0, 0);
    let (_, fetched) = answered(&mut session, &sent);
    let heard = Heard::Event(fetched.expect("fetched"));
    assert!(matches!(session.next_produce(heard), Next::Done(Some(a)) if a.bytes == b"two"));
    assert_eq!(session.next_produce(Heard::Nothing), Next::Listen);
}

#[test]
fn a_produce_of_nothing_is_answered_and_not_reported() {
    let mut session = Session::new(PEER, LOCAL);
    let reply = asked(&mut session, API_PRODUCE, &produce_body("t", &[(4, None)])).expect("none");
    assert_eq!(reply.event, None);
    let mut expected: Vec<u8> = Vec::new();
    expected.count(1).nullable_string(Some("t")).count(1);
    expected.i32_be(4).i16_be(0).i64_be(0).i64_be(-1);
    expected.i32_be(0);
    assert_eq!(body_of(&reply), expected);
}

#[test]
fn what_was_appended_before_a_failure_stays() {
    let mut session = Session::new(PEER, LOCAL);
    let batch = encode_batch(0, &[(None, Some(b"kept")), (None, Some(b"too"))]);
    let mut broken = batch.clone();
    broken[20] ^= 1;
    let sets = [(0, Some(batch.as_slice())), (1, Some(broken.as_slice()))];
    let error = asked(&mut session, API_PRODUCE, &produce_body("t", &sets)).expect_err("broken");
    assert_eq!(error.message, "a batch CRC that does not check");
    let mut client = Client::new("probe");
    assert!(
        matches!(session.next_produce(Heard::Nothing), Next::Done(Some(a)) if a.bytes == b"too")
    );
    let kept = fetch(&mut client, &mut session, "t", 0, 0);
    assert_eq!(kept.len(), 2);
    assert_eq!(kept[0].value.as_deref(), Some(&b"kept"[..]));
    assert!(fetch(&mut client, &mut session, "t", 1, 0).is_empty());
}

#[test]
fn a_request_cut_anywhere_is_refused_and_changes_nothing() {
    let mut client = Client::new("c");
    let requests = [
        client.ask_metadata("t"),
        client.ask_produce("t", 0, None, b"x"),
        client.ask_fetch("t", 0, 0),
    ];
    for sent in requests {
        for length in 4..sent.len() {
            let mut session = Session::new(PEER, LOCAL).with_records("t", &[b"held"]);
            assert!(session.next_event(&sent[4..length]).is_err());
            assert_eq!(session.next_produce(Heard::Nothing), Next::Listen);
            let kept = fetch(&mut client, &mut session, "t", 0, 0);
            assert_eq!(kept.len(), 1);
        }
    }
}

#[test]
fn records_are_fetched_from_any_offset_on() {
    let mut session =
        Session::new(PEER, LOCAL).with_records("t", &[b"zero", b"one"]).with_records("t", &[b"two"]);
    let mut client = Client::new("probe");
    for (offset, expected) in [
        (0, vec![(0, "zero"), (1, "one"), (2, "two")]),
        (2, vec![(2, "two")]),
        (3, vec![]),
        (i64::MAX, vec![]),
        (-1, vec![(0, "zero"), (1, "one"), (2, "two")]),
        (i64::MIN, vec![(0, "zero"), (1, "one"), (2, "two")]),
    ] {
        let records = fetch(&mut client, &mut session, "t", 0, offset);
        let read: Vec<(i64, String)> = records
            .into_iter()
            .map(|r| {
                let value = r.value.expect("a value");
                (r.offset, String::from_utf8(value).expect("text"))
            })
            .collect();
        let expected: Vec<(i64, String)> =
            expected.into_iter().map(|(o, v)| (o, v.to_string())).collect();
        assert_eq!(read, expected);
    }
    assert!(fetch(&mut client, &mut session, "t", 1, 0).is_empty());
    assert!(fetch(&mut client, &mut session, "other", 0, 0).is_empty());
}

#[test]
fn a_fetch_is_answered_byte_for_byte() {
    let mut session = Session::new(PEER, LOCAL).with_records("t", &[b"zero", b"one"]);
    let mut body: Vec<u8> = vec![0; 17];
    body.count(1).nullable_string(Some("t")).count(2);
    body.i32_be(0).i64_be(1).i32_be(7);
    body.i32_be(3).i64_be(5).i32_be(7);
    let reply = asked(&mut session, API_FETCH, &body).expect("fetch");
    assert_eq!(
        reply.event,
        Some(Event::Fetched {
            topic: "t".to_string(),
            offset: 5
        })
    );
    let mut expected: Vec<u8> = Vec::new();
    expected.i32_be(0).count(1).nullable_string(Some("t")).count(2);
    expected.i32_be(0).i16_be(0).i64_be(2).i64_be(2).count(0);
    expected.nullable_bytes(Some(&encode_batch(1, &[(None, Some(b"one"))])));
    expected.i32_be(3).i16_be(0).i64_be(0).i64_be(0).count(0);
    expected.nullable_bytes(Some(b""));
    assert_eq!(body_of(&reply), expected);
}

#[test]
fn what_was_produced_is_fetched_from_the_offset_that_was_told() {
    let mut session = Session::new(PEER, LOCAL);
    let mut client = Client::new("probe");
    for (key, value) in [
        (None, &b""[..]),
        (Some(&b"k"[..]), b"v"),
        (Some(&b""[..]), b"\0\xff"),
    ] {
        let (offset, _) = produce(&mut client, &mut session, "t", -3, key, value);
        assert_eq!(
            fetch(&mut client, &mut session, "t", -3, offset),
            [Record {
                offset,
                key: key.map(<[u8]>::to_vec),
                value: Some(value.to_vec())
            }]
        );
    }
}

#[test]
fn a_location_reads_on_and_gets_every_record_once() {
    let mut session = Session::new(PEER, LOCAL).with_records("t", &[b"a", b"b"]);
    let mut client = Client::new("probe");
    let mut location = KafkaTransport::new(LOCAL, "t");
    let mut read = Vec::new();
    for more in [&b"c"[..], b"d", b"e"] {
        let records = fetch(&mut client, &mut session, "t", 0, location.cursor());
        read.extend(location.receive(&records).into_iter().map(|a| a.bytes));
        produce(&mut client, &mut session, "t", 0, None, more);
    }
    let records = fetch(&mut client, &mut session, "t", 0, location.cursor());
    read.extend(location.receive(&records).into_iter().map(|a| a.bytes));
    assert_eq!(read, [b"a", b"b", b"c", b"d", b"e"]);
    assert_eq!(location.cursor(), 5);
    let records = fetch(&mut client, &mut session, "t", 0, location.cursor());
    assert!(location.receive(&records).is_empty());
    assert_eq!(location.cursor(), 5);
}

#[test]
fn a_wait_that_ends_without_a_record_is_an_error() {
    let error = take_one(None).expect_err("closed");
    assert_eq!(error.message, "the client closed without producing");
    assert!(!error.retryable);
}

#[test]
fn requests_are_written_byte_for_byte() {
    let mut client = Client::new("me");
    let mut body: Vec<u8> = Vec::new();
    body.count(1).nullable_string(Some("t"));
    assert_eq!(client.ask_metadata("t"), request(API_METADATA, 1, 1, "me", &body));
    let batch = encode_batch(0, &[(Some(b"k"), Some(b"v"))]);
    assert_eq!(
        client.ask_produce("t", 6, Some(b"k"), b"v"),
        request(
            API_PRODUCE,
            3,
            2,
            "me",
            &produce_body("t", &[(6, Some(&batch))])
        )
    );
    let mut body: Vec<u8> = Vec::new();
    body.i32_be(-1).i32_be(100).i32_be(1).i32_be(1_048_576).i8(0);
    body.count(1).nullable_string(Some("t"));
    body.count(1).i32_be(6).i64_be(41).i32_be(1_048_576);
    assert_eq!(client.ask_fetch("t", 6, 41), request(API_FETCH, 4, 3, "me", &body));
    assert_eq!(client.call(5, 2, b"body"), request(5, 2, 4, "me", b"body"));
}

/// A client that has asked once, and `body` as the answer to that.
fn asked_once(body: &[u8]) -> (Client, Vec<u8>) {
    let mut client = Client::new("probe");
    client.call(API_VERSIONS, 0, b"");
    (client, unframed(&response(1, body)))
}

#[test]
fn an_answer_to_another_request_is_refused() {
    let (client, answer) = asked_once(b"body");
    assert_eq!(client.answer(Some(&answer)).expect("answer"), b"body");
    for correlation in [0, 2, -1] {
        let error = client
            .answer(Some(&unframed(&response(correlation, b"body"))))
            .expect_err("another");
        assert_eq!(error.message, "an answer to another request");
        assert!(!error.retryable);
    }
    let error = client.answer(Some(&[0, 0, 1])).expect_err("short");
    assert_eq!(error.message, "a field that runs past the end of its message");
}

#[test]
fn a_broker_that_closes_before_answering_is_an_error() {
    let (client, _) = asked_once(b"");
    let closed = "the broker closed before answering";
    assert_eq!(client.answer(None).expect_err("closed").message, closed);
    assert_eq!(client.metadata("t", None).expect_err("closed").message, closed);
    assert_eq!(client.produce(None).expect_err("closed").message, closed);
    let error = client.fetch(0, None).expect_err("closed");
    assert_eq!(error.message, closed);
    assert!(!error.retryable);
}

#[test]
fn an_answer_without_a_topic_or_a_partition_is_refused() {
    let mut without_topic: Vec<u8> = Vec::new();
    without_topic.count(0);
    let mut without_partition: Vec<u8> = Vec::new();
    without_partition.count(1).nullable_string(Some("t")).count(0);
    for (lack, body) in [("topic", without_topic), ("partition", without_partition)] {
        let (client, answer) = asked_once(&body);
        let error = client.produce(Some(&answer)).expect_err("lacking");
        assert_eq!(error.message, format!("a produce answered without a {lack}"));
        assert!(!error.retryable);
        let (client, answer) = asked_once(&[vec![0; 4], body].concat());
        let error = client.fetch(0, Some(&answer)).expect_err("lacking");
        assert_eq!(error.message, format!("a fetch answered without a {lack}"));
        assert!(!error.retryable);
    }
}

/// The answer to a Produce: an error code and an offset.
fn produce_answer(error: i16, offset: i64) -> Vec<u8> {
    let mut body: Vec<u8> = Vec::new();
    body.count(1).nullable_string(Some("t")).count(1);
    body.i32_be(0).i16_be(error).i64_be(offset).i64_be(-1).i32_be(0);
    body
}

/// The answer to a Fetch: an error code, how many transactions were aborted,
/// and a record set.
fn fetch_answer(error: i16, aborted: usize, set: Option<&[u8]>) -> Vec<u8> {
    let mut body: Vec<u8> = Vec::new();
    body.i32_be(0).count(1).nullable_string(Some("t")).count(1);
    body.i32_be(0).i16_be(error).i64_be(9).i64_be(9).count(aborted);
    body.bytes(&vec![7; 16 * aborted]).nullable_bytes(set);
    body
}

#[test]
fn the_retriable_error_codes_may_be_tried_again() {
    let retriable = [3, 5, 6, 7, 8, 9, 13, 14, 15, 16, 19, 20];
    for code in (-2..100).filter(|code| *code != 0) {
        let (client, answer) = asked_once(&produce_answer(code, 4));
        let error = client.produce(Some(&answer)).expect_err("an error");
        assert_eq!(
            error.message,
            format!("the broker answered the produce with error {code}")
        );
        assert_eq!(error.retryable, retriable.contains(&code));
        let (client, answer) = asked_once(&fetch_answer(code, 0, None));
        let error = client.fetch(0, Some(&answer)).expect_err("an error");
        assert_eq!(
            error.message,
            format!("the broker answered the fetch with error {code}")
        );
        assert_eq!(error.retryable, retriable.contains(&code));
    }
    let (client, answer) = asked_once(&produce_answer(0, i64::MIN));
    assert_eq!(client.produce(Some(&answer)).expect("offset"), i64::MIN);
}

#[test]
fn a_fetch_passes_over_aborted_transactions() {
    let set = encode_batch(4, &[(None, Some(b"v"))]);
    let (client, answer) = asked_once(&fetch_answer(0, 3, Some(&set)));
    let records = client.fetch(0, Some(&answer)).expect("fetch");
    assert_eq!(records.len(), 1);
    assert_eq!(records[0].offset, 4);
    let (client, answer) = asked_once(&fetch_answer(0, 0, None));
    assert!(client.fetch(0, Some(&answer)).expect("fetch").is_empty());
}

#[test]
fn a_fetch_leaves_out_what_stands_before_its_offset() {
    let mut set = encode_batch(0, &[(None, Some(b"a")), (None, Some(b"b"))]);
    set.extend(encode_batch(2, &[(Some(b"k"), Some(b"c"))]));
    for (offset, expected) in [
        (-1, vec![0, 1, 2]),
        (0, vec![0, 1, 2]),
        (1, vec![1, 2]),
        (2, vec![2]),
        (3, vec![]),
    ] {
        let (client, answer) = asked_once(&fetch_answer(0, 0, Some(&set)));
        let records = client.fetch(offset, Some(&answer)).expect("fetch");
        let offsets: Vec<i64> = records.iter().map(|r| r.offset).collect();
        assert_eq!(offsets, expected);
    }
    let two = encode_batch(0, &[(None, Some(b"a")), (None, Some(b"b"))]);
    let (client, answer) = asked_once(&fetch_answer(0, 0, Some(&two)));
    assert_eq!(
        client.fetch(1, Some(&answer)).expect("fetch"),
        [Record {
            offset: 1,
            key: None,
            value: Some(b"b".to_vec())
        }]
    );
}

#[test]
fn a_location_gets_every_record_once_from_whole_batches() {
    let mut location = KafkaTransport::new(LOCAL, "t").from_offset(1);
    let two = encode_batch(0, &[(None, Some(b"a")), (None, Some(b"b"))]);
    let more = [two.clone(), encode_batch(2, &[(None, Some(b"c"))])].concat();
    let mut read = Vec::new();
    for (set, cursor) in [(&two, 2), (&two, 2), (&more, 3)] {
        let (client, answer) = asked_once(&fetch_answer(0, 0, Some(set)));
        let records = client.fetch(location.cursor(), Some(&answer)).expect("fetch");
        read.extend(location.receive(&records).into_iter().map(|a| a.bytes));
        assert_eq!(location.cursor(), cursor);
    }
    assert_eq!(read, [b"b", b"c"]);
}

#[test]
fn an_answer_cut_anywhere_is_refused() {
    let set = encode_batch(4, &[(None, Some(b"v"))]);
    let whole = fetch_answer(0, 1, Some(&set));
    for length in 0..whole.len() {
        let (client, answer) = asked_once(&whole[..length]);
        let error = client.fetch(0, Some(&answer)).expect_err("cut");
        assert_eq!(error.message, "a field that runs past the end of its message");
    }
    let whole = produce_answer(0, 1);
    for length in 0..whole.len() - 12 {
        let (client, answer) = asked_once(&whole[..length]);
        assert!(client.produce(Some(&answer)).is_err());
    }
    let whole = metadata_answer(&[(1, "h", 2)], &[(0, Some("t"), &[(0, 1)])]);
    for length in 0..whole.len() {
        let (client, answer) = asked_once(&whole[..length]);
        let error = client.metadata("t", Some(&answer)).expect_err("cut");
        assert_eq!(error.message, "a field that runs past the end of its message");
    }
}

/// The answer to a Metadata request: brokers by node, host and port, and
/// topics by error code, name, and partitions with their leaders.
fn metadata_answer(
    brokers: &[(i32, &str, i32)],
    topics: &[(i16, Option<&str>, &[(i32, i32)])],
) -> Vec<u8> {
    let mut body: Vec<u8> = Vec::new();
    body.count(brokers.len());
    for (node, host, port) in brokers {
        body.i32_be(*node).nullable_string(Some(host)).i32_be(*port);
        body.nullable_string(Some("rack"));
    }
    body.i32_be(1).count(topics.len());
    for (error, name, partitions) in topics {
        body.i16_be(*error).nullable_string(*name).i8(1);
        body.count(partitions.len());
        for (partition, leader) in *partitions {
            body.i16_be(5).i32_be(*partition).i32_be(*leader);
            body.count(2).i32_be(1).i32_be(2).count(1).i32_be(1);
        }
    }
    body
}

fn told(topic: &str, body: &[u8]) -> Result<TopicMetadata, TransportError> {
    let (client, answer) = asked_once(body);
    client.metadata(topic, Some(&answer))
}

#[test]
fn the_leader_of_partition_zero_is_found_among_the_brokers() {
    let brokers = [(1, "one", 9091), (2, "two", -9092), (2, "again", 1)];
    let body = metadata_answer(
        &brokers,
        &[
            (0, Some("other"), &[(0, 1)]),
            (0, Some("t"), &[(3, 1), (0, 2), (1, 1)]),
        ],
    );
    let known = told("t", &body).expect("metadata");
    assert_eq!(known.partitions, [3, 0, 1]);
    assert_eq!(known.leader, "two:-9092");
    assert_eq!(known.leaders, ["one:9091", "two:-9092", "one:9091"]);
    assert_eq!(known.leader_of(0), "two:-9092");
    assert_eq!(known.leader_of(1), "one:9091");
    assert_eq!(known.leader_of(2), "");
    let body = metadata_answer(&brokers, &[(0, Some("t"), &[(0, 7)])]);
    assert_eq!(told("t", &body).expect("no leader").leader, "");
    let body = metadata_answer(&brokers, &[(0, Some("t"), &[(1, 1)])]);
    assert_eq!(told("t", &body).expect("no partition 0").leader, "");
    let body = metadata_answer(&brokers, &[(0, None, &[])]);
    assert!(told("", &body).expect("no name").partitions.is_empty());
}

#[test]
fn the_last_word_about_a_topic_counts() {
    let body = metadata_answer(
        &[(1, "one", 9091)],
        &[(0, Some("t"), &[(0, 1)]), (0, Some("t"), &[(4, 1)])],
    );
    let known = told("t", &body).expect("metadata");
    assert_eq!(known.partitions, [4]);
    assert_eq!(known.leader, "");
}

#[test]
fn an_error_for_the_topic_is_the_answer() {
    let body = metadata_answer(&[], &[(9, Some("other"), &[]), (3, Some("t"), &[])]);
    let error = told("t", &body).expect_err("an error");
    assert_eq!(
        error.message,
        "the broker answered metadata for t with error 3"
    );
    assert!(error.retryable);
    let body = metadata_answer(&[], &[(17, Some("t"), &[])]);
    let error = told("t", &body).expect_err("an error");
    assert!(!error.retryable);
}

#[test]
fn a_topic_that_is_not_told_of_is_an_error() {
    let body = metadata_answer(&[(1, "one", 9091)], &[(0, Some("other"), &[(0, 1)])]);
    let error = told("t", &body).expect_err("not told");
    assert_eq!(error.message, "no metadata for t");
    assert!(!error.retryable);
}

#[test]
fn a_location_is_built_up() {
    let plain = KafkaTransport::new("broker:9092", "orders");
    assert_eq!(plain.name(), "kafka");
    assert_eq!(plain.bootstrap(), "broker:9092");
    assert_eq!(plain.topic(), "orders");
    assert_eq!(plain.partition(), 0);
    assert_eq!(plain.client(), "xmip");
    assert_eq!(plain.cursor(), 0);
    assert_eq!(plain.timeout(), None);
    let built = plain.on_partition(3).from_offset(41).timing_out_after(secs(2));
    assert_eq!(built.partition(), 3);
    assert_eq!(built.cursor(), 41);
    assert_eq!(built.timeout(), Some(secs(2)));
    assert_eq!(built.topic(), "orders");
    let near = built.send_to("elsewhere:1");
    assert_eq!(near.bootstrap(), "elsewhere:1");
    assert_eq!(near.topic(), "orders");
    assert_eq!(near.partition(), 3);
    assert_eq!(near.cursor(), 0);
    assert_eq!(near.timeout(), Some(secs(2)));
    let loopback = KafkaTransport::loopback(secs(7));
    assert_eq!(loopback.bootstrap(), "127.0.0.1:0");
    assert_eq!(loopback.topic(), "probe");
    assert_eq!(loopback.timeout(), Some(secs(7)));
}

#[test]
fn a_target_means_a_broker_and_a_topic() {
    let location = KafkaTransport::new("home:9092", "orders");
    for (target, meant) in [
        ("kafka://host:9092/orders", ("host:9092", "orders")),
        ("kafka://host/a/b", ("host", "a/b")),
        ("kafka://host", ("host", "orders")),
        ("kafka://host/", ("host", "orders")),
        ("kafka://", ("", "orders")),
        ("returns", ("home:9092", "returns")),
        ("", ("home:9092", "")),
        ("http://host/x", ("home:9092", "http://host/x")),
        ("KAFKA://host/x", ("home:9092", "KAFKA://host/x")),
    ] {
        assert_eq!(location.resolve(target), meant);
    }
}

#[test]
fn a_location_connects_on_to_the_leader() {
    let location = KafkaTransport::new("home:9092", "orders");
    for (leader, on) in [("home:9092", None), ("away:9092", Some("away:9092"))] {
        let metadata = TopicMetadata {
            partitions: vec![0],
            leader: leader.to_string(),
            leaders: vec![leader.to_string()],
        };
        assert_eq!(location.connect(&metadata).expect("a leader"), on);
    }
}

#[test]
fn a_location_connects_to_the_leader_of_its_own_partition() {
    let body = metadata_answer(
        &[(1, "a", 9092), (2, "b", 9093)],
        &[(0, Some("orders"), &[(0, 1), (1, 2)])],
    );
    let metadata = told("orders", &body).expect("metadata");
    for (partition, on) in [(0, "a:9092"), (1, "b:9093")] {
        let location = KafkaTransport::new("boot:9092", "orders").on_partition(partition);
        assert_eq!(location.connect(&metadata).expect("a leader"), Some(on));
    }
    let location = KafkaTransport::new("b:9093", "orders").on_partition(1);
    assert_eq!(location.connect(&metadata).expect("a leader"), None);
}

#[test]
fn a_partition_without_a_leader_is_an_error() {
    let brokers = [(1, "one", 9091)];
    for leader in [-1, 7] {
        let body = metadata_answer(&brokers, &[(0, Some("orders"), &[(0, leader), (1, 1)])]);
        let metadata = told("orders", &body).expect("metadata");
        let location = KafkaTransport::new("home:9092", "orders");
        let error = location.connect(&metadata).expect_err("no leader");
        assert_eq!(error.message, "no leader for partition 0 of orders");
        assert!(error.retryable);
        let location = location.on_partition(2);
        let error = location.connect(&metadata).expect_err("not told of");
        assert_eq!(error.message, "no leader for partition 2 of orders");
        assert!(location.on_partition(1).connect(&metadata).is_ok());
    }
}

#[test]
fn a_location_receives_each_record_as_a_stream() {
    let mut location = KafkaTransport::new("home:9092", "orders").on_partition(2);
    let records = vec![
        Record {
            offset: 8,
            key: Some(b"k".to_vec()),
            value: Some(b"v".to_vec()),
        },
        Record {
            offset: 5,
            key: None,
            value: None,
        },
    ];
    assert_eq!(
        location.receive(&records),
        [
            Arrived {
                origin_uri: "kafka://home:9092/orders/2?offset=8".to_string(),
                bytes: b"v".to_vec()
            },
            Arrived {
                origin_uri: "kafka://home:9092/orders/2?offset=5".to_string(),
                bytes: Vec::new()
            },
        ]
    );
    assert_eq!(location.cursor(), 6);
    let last = vec![Record {
        offset: i64::MAX,
        key: None,
        value: None,
    }];
    location.receive(&last);
    assert_eq!(location.cursor(), i64::MIN);
}

#[test]
fn a_location_asks_for_its_own_partition_from_its_cursor_on() {
    let location = KafkaTransport::new("home:9092", "orders")
        .on_partition(3)
        .from_offset(41);
    let mut asker = Client::new("me");
    let mut other = Client::new("me");
    assert_eq!(
        location.ask_receive(&mut asker),
        other.ask_fetch("orders", 3, 41)
    );
    for (target, broker, topic) in [
        ("kafka://away:1/returns", "away:1", "returns"),
        ("kafka://away:1", "away:1", "orders"),
        ("returns", "home:9092", "returns"),
    ] {
        assert_eq!(
            location.ask_send(&mut asker, target, b"v"),
            (broker, other.ask_produce(topic, 3, None, b"v"))
        );
    }
}

#[test]
fn a_failed_receive_leaves_the_cursor() {
    let mut location = KafkaTransport::new(LOCAL, "t").from_offset(7);
    let (client, answer) = asked_once(&fetch_answer(6, 0, None));
    let error = location
        .take_received(&client, Some(&answer))
        .expect_err("an error");
    assert_eq!(error.message, "the broker answered the fetch with error 6");
    assert!(error.retryable);
    let error = location.take_received(&client, None).expect_err("closed");
    assert_eq!(error.message, "the broker closed before answering");
    assert_eq!(location.cursor(), 7);
}

/// How many records `location` receives of what `session` holds.
fn received(location: &mut KafkaTransport, session: &mut Session) -> usize {
    let mut client = Client::new(location.client());
    let sent = location.ask_receive(&mut client);
    let (answer, _) = answered(session, &sent);
    let arrived = location.take_received(&client, Some(&answer));
    arrived.expect("receive").len()
}

#[test]
fn a_cursor_outside_the_log_reads_on_from_where_the_log_is() {
    for (start, first, then, cursor) in [
        (-4, 2, 1, 3),
        (0, 2, 1, 3),
        (2, 0, 1, 3),
        (3, 0, 0, 3),
        (9, 0, 0, 9),
    ] {
        let mut location = KafkaTransport::new(LOCAL, "t").from_offset(start);
        let mut session = Session::new(PEER, LOCAL).with_records("t", &[b"a", b"b"]);
        assert_eq!(received(&mut location, &mut session), first, "from {start}");
        let mut session = session.with_records("t", &[b"c"]);
        assert_eq!(received(&mut location, &mut session), then, "from {start}");
        assert_eq!(location.cursor(), cursor);
    }
}
