//! The broker's side of one connection: what a test puts at the far end,
//! and what a Location that lets a producer write straight into Xmip runs.
//!
//! Not a broker. One session answers one client from logs kept in memory:
//! Metadata names itself the leader of every partition, Produce appends,
//! Fetch reads on from an offset. Replication, retention, consumer groups
//! and the rest of a cluster are a broker's.
//!
//! A session reads and writes no socket. Whoever holds the connection hands
//! it each message as it came and sends back the bytes it answers with.

use vstd::prelude::*;

use crate::cursor::{past_the_end, signed_at, taken, Cursor, Parsed};
use crate::error::{permanent, protocol_error, Failure, TransportError};
use crate::integer::{be, signed, wrapped};
use crate::logs::{log_of, Logs, Place};
use crate::records::{
    batch_bytes, batches_of, copied, decode_batches, encode_batch, fields, held, lent, stored,
    Entry, Fields, Record, Stored,
};
use crate::stream::{announced, deliveries, origin_uri, payload, Arrived, Delivery};
use crate::text::{decimal, parse_i32, parsed_i32, push_decimal, rsplit_once, split_at_last};
use crate::wire::{
    bytes_at, bytes_field, count_at, count_field, framed, header_at, read_request, response,
    response_message, string_at, string_field, text, text_at, Kafka, KafkaWrite, API_FETCH,
    API_METADATA, API_PRODUCE, API_VERSIONS,
};
use crate::writer::ByteWriter;

verus! {

/// What the client did, as [`Session::next_event`] reports it.
#[derive(Clone, Debug, PartialEq, Eq)]
pub enum Event {
    /// The client produced; here is the Stream, one per record.
    Produced(Arrived),
    /// The client fetched `topic`'s partition from this offset.
    Fetched { topic: String, offset: i64 },
}

/// The mathematical content of an [`Event`].
pub enum Happened {
    Produced(Delivery),
    Fetched { topic: Seq<char>, offset: int },
}

impl View for Event {
    type V = Happened;

    open spec fn view(&self) -> Happened {
        match *self {
            Event::Produced(arrived) => Happened::Produced(arrived@),
            Event::Fetched { topic, offset } => Happened::Fetched {
                topic: topic@,
                offset: offset as int,
            },
        }
    }
}

/// What an optional event holds.
pub open spec fn happened(event: Option<Event>) -> Option<Happened> {
    match event {
        Some(event) => Some(event@),
        None => None,
    }
}

/// What to send back for a message, and what the client did with it: nothing
/// where it only asked about the cluster.
#[derive(Clone, Debug, PartialEq, Eq)]
pub struct Reply {
    pub bytes: Vec<u8>,
    pub event: Option<Event>,
}

/// What the connection came to since the last step of a wait for a record.
#[derive(Clone, Debug, PartialEq, Eq)]
pub enum Heard {
    /// Nothing yet: the wait begins.
    Nothing,
    /// The client did this.
    Event(Event),
    /// The client closed.
    Closed,
}

/// What a wait for a record does next.
#[derive(Clone, Debug, PartialEq, Eq)]
pub enum Next {
    /// Hear what the client does next.
    Listen,
    /// Be over, with the record or, where the client closed, without.
    Done(Option<Arrived>),
}

/// One client's session.
pub struct Session {
    peer: String,
    local: String,
    logs: Logs,
    pending: Vec<Arrived>,
}

/// The mathematical content of a [`Session`]: the addresses of both ends,
/// the records of each partition, and the Streams that were produced and not
/// yet handed up.
pub struct Broker {
    pub peer: Seq<char>,
    pub local: Seq<char>,
    pub logs: Map<Place, Seq<Stored>>,
    pub pending: Seq<Delivery>,
}

impl View for Session {
    type V = Broker;

    closed spec fn view(&self) -> Broker {
        Broker {
            peer: self.peer@,
            local: self.local@,
            logs: self.logs@,
            pending: deliveries(self.pending@),
        }
    }
}

/// A position in a log as an offset: zero past what an offset can say.
pub open spec fn as_offset(position: nat) -> int {
    if position <= i64::MAX {
        position as int
    } else {
        0
    }
}

/// `records` as they stand behind a log of `length` records: each at the
/// offset of its place.
pub open spec fn placed(length: nat, records: Seq<Stored>) -> Seq<Stored> {
    Seq::new(
        records.len(),
        |i: int|
            Stored {
                offset: wrapped(as_offset(length) + as_offset(i as nat)),
                key: records[i].key,
                value: records[i].value,
            },
    )
}

/// `values` as they stand behind a log of `length` records: without a key,
/// each at the offset of its place.
pub open spec fn kept(length: nat, values: Seq<&[u8]>) -> Seq<Stored> {
    Seq::new(
        values.len(),
        |i: int|
            Stored {
                offset: as_offset((length + i) as nat),
                key: None,
                value: Some(values[i]@),
            },
    )
}

/// The Stream in an optional one.
pub open spec fn delivery(arrived: Option<Arrived>) -> Option<Delivery> {
    match arrived {
        Some(arrived) => Some(arrived@),
        None => None,
    }
}

/// The Stream to report first: the one there is, or the first of `news`.
pub open spec fn or_first(first: Option<Delivery>, news: Seq<Delivery>) -> Option<Delivery> {
    if first is None && news.len() > 0 {
        Some(news[0])
    } else {
        first
    }
}

/// What of `news` stands behind the Stream to report first.
pub open spec fn behind_first(first: Option<Delivery>, news: Seq<Delivery>) -> Seq<Delivery> {
    if first is None && news.len() > 0 {
        news.skip(1)
    } else {
        news
    }
}

/// A Produce half way through: the session so far, the Stream to report
/// first, and the answer so far.
pub struct Producing {
    pub broker: Broker,
    pub first: Option<Delivery>,
    pub answer: Seq<u8>,
}

/// One partition's part of a Produce: its records appended and its base
/// offset answered, and the request behind it.
pub open spec fn produced_partition(turn: Producing, topic: Seq<char>, request: Seq<u8>) -> (
    Producing,
    Result<Seq<u8>, Failure>,
) {
    match signed_at(request, 4) {
        Ok((partition, rest)) => match bytes_at(rest) {
            Ok((set, rest)) => match batches_of(payload(set)) {
                Ok(records) => {
                    let place = (topic, partition);
                    let log = log_of(turn.broker.logs, place);
                    let more = placed(log.len(), records);
                    let news = announced(turn.broker.peer, place, more);
                    (
                        Producing {
                            broker: Broker {
                                logs: turn.broker.logs.insert(place, log + more),
                                pending: turn.broker.pending + behind_first(turn.first, news),
                                ..turn.broker
                            },
                            first: or_first(turn.first, news),
                            answer: turn.answer + be(partition, 4) + be(0, 2) + be(
                                as_offset(log.len()),
                                8,
                            ) + be(-1, 8),
                        },
                        Ok(rest),
                    )
                },
                Err(failure) => (turn, Err(failure)),
            },
            Err(failure) => (turn, Err(failure)),
        },
        Err(failure) => (turn, Err(failure)),
    }
}

/// The next `count` partitions of a Produce; what was appended before a
/// failure stays.
pub open spec fn produced_partitions(
    turn: Producing,
    topic: Seq<char>,
    count: nat,
    request: Seq<u8>,
) -> (Producing, Result<Seq<u8>, Failure>)
    decreases count,
{
    if count == 0 {
        (turn, Ok(request))
    } else {
        match produced_partition(turn, topic, request) {
            (turn, Ok(rest)) => produced_partitions(turn, topic, (count - 1) as nat, rest),
            (turn, Err(failure)) => (turn, Err(failure)),
        }
    }
}

/// One topic's part of a Produce.
pub open spec fn produced_topic(turn: Producing, request: Seq<u8>) -> (
    Producing,
    Result<Seq<u8>, Failure>,
) {
    match text_at(request) {
        Ok((topic, rest)) => match count_at(rest) {
            Ok((partitions, rest)) => produced_partitions(
                Producing {
                    answer: turn.answer + string_field(Some(topic)) + count_field(partitions),
                    ..turn
                },
                topic,
                partitions,
                rest,
            ),
            Err(failure) => (turn, Err(failure)),
        },
        Err(failure) => (turn, Err(failure)),
    }
}

/// The next `count` topics of a Produce.
pub open spec fn produced_topics(turn: Producing, count: nat, request: Seq<u8>) -> (
    Producing,
    Result<Seq<u8>, Failure>,
)
    decreases count,
{
    if count == 0 {
        (turn, Ok(request))
    } else {
        match produced_topic(turn, request) {
            (turn, Ok(rest)) => produced_topics(turn, (count - 1) as nat, rest),
            (turn, Err(failure)) => (turn, Err(failure)),
        }
    }
}

/// What stands before the topics of a Produce: a transaction, the
/// acknowledgements wanted, a timeout, and how many topics follow.
pub open spec fn produce_head(request: Seq<u8>) -> Parsed<nat> {
    match string_at(request) {
        Ok((_, rest)) => match taken(rest, 6) {
            Ok((_, rest)) => count_at(rest),
            Err(failure) => Err(failure),
        },
        Err(failure) => Err(failure),
    }
}

/// What answering a request comes to: the session behind it, and the body of
/// the answer with what the client did, or the failure.
pub struct Answered {
    pub broker: Broker,
    pub reply: Result<(Seq<u8>, Option<Happened>), Failure>,
}

/// Produce v3: every batch appended, the base offset of each answered.
pub open spec fn produced(broker: Broker, request: Seq<u8>) -> Answered {
    match produce_head(request) {
        Ok((topics, rest)) => match produced_topics(
            Producing { broker, first: None, answer: count_field(topics) },
            topics,
            rest,
        ) {
            (turn, Ok(_)) => Answered {
                broker: turn.broker,
                reply: Ok(
                    (
                        turn.answer + be(0, 4),
                        match turn.first {
                            Some(first) => Some(Happened::Produced(first)),
                            None => None,
                        },
                    ),
                ),
            },
            (turn, Err(failure)) => Answered { broker: turn.broker, reply: Err(failure) },
        },
        Err(failure) => Answered { broker, reply: Err(failure) },
    }
}

/// Where in a log of `length` records a read from `offset` begins: at the
/// beginning for an offset before it, and never past the end.
pub open spec fn read_from(length: nat, offset: int) -> int {
    if offset < 0 {
        0
    } else if offset <= length {
        offset
    } else {
        length as int
    }
}

/// The keys and values of `records`, as they are written.
pub open spec fn entries_of(records: Seq<Stored>) -> Seq<Fields> {
    Seq::new(records.len(), |i: int| Fields { key: records[i].key, value: records[i].value })
}

/// What a Fetch of a log from `offset` answers with: the records from there
/// on in one batch that begins at the offset of the first of them, or nothing
/// where there are none.
pub open spec fn record_set(log: Seq<Stored>, offset: int) -> Seq<u8> {
    let from = read_from(log.len(), offset);
    let records = log.skip(from);
    if records.len() == 0 {
        Seq::empty()
    } else {
        batch_bytes(as_offset(from as nat), entries_of(records))
    }
}

/// A Fetch half way through: the answer so far, and what was fetched last.
pub struct Fetching {
    pub answer: Seq<u8>,
    pub fetched: Option<Happened>,
}

/// One partition's part of the answer to a Fetch.
pub open spec fn partition_answer(log: Seq<Stored>, partition: int, offset: int) -> Seq<u8> {
    be(partition, 4) + be(0, 2) + be(as_offset(log.len()), 8) + be(as_offset(log.len()), 8)
        + count_field(0) + bytes_field(Some(record_set(log, offset)))
}

/// One partition's part of a Fetch: the partition, the offset, and how much
/// is wanted.
pub open spec fn fetched_partition(
    broker: Broker,
    turn: Fetching,
    topic: Seq<char>,
    request: Seq<u8>,
) -> Result<(Fetching, Seq<u8>), Failure> {
    if request.len() < 16 {
        Err(past_the_end())
    } else {
        let partition = signed(request.take(4));
        let offset = signed(request.subrange(4, 12));
        let log = log_of(broker.logs, (topic, partition));
        Ok(
            (
                Fetching {
                    answer: turn.answer + partition_answer(log, partition, offset),
                    fetched: Some(Happened::Fetched { topic, offset }),
                },
                request.skip(16),
            ),
        )
    }
}

/// The next `count` partitions of a Fetch.
pub open spec fn fetched_partitions(
    broker: Broker,
    turn: Fetching,
    topic: Seq<char>,
    count: nat,
    request: Seq<u8>,
) -> Result<(Fetching, Seq<u8>), Failure>
    decreases count,
{
    if count == 0 {
        Ok((turn, request))
    } else {
        match fetched_partition(broker, turn, topic, request) {
            Ok((turn, rest)) => fetched_partitions(
                broker,
                turn,
                topic,
                (count - 1) as nat,
                rest,
            ),
            Err(failure) => Err(failure),
        }
    }
}

/// One topic's part of a Fetch.
pub open spec fn fetched_topic(broker: Broker, turn: Fetching, request: Seq<u8>) -> Result<
    (Fetching, Seq<u8>),
    Failure,
> {
    match text_at(request) {
        Ok((topic, rest)) => match count_at(rest) {
            Ok((partitions, rest)) => fetched_partitions(
                broker,
                Fetching {
                    answer: turn.answer + string_field(Some(topic)) + count_field(partitions),
                    ..turn
                },
                topic,
                partitions,
                rest,
            ),
            Err(failure) => Err(failure),
        },
        Err(failure) => Err(failure),
    }
}

/// The next `count` topics of a Fetch.
pub open spec fn fetched_topics(
    broker: Broker,
    turn: Fetching,
    count: nat,
    request: Seq<u8>,
) -> Result<(Fetching, Seq<u8>), Failure>
    decreases count,
{
    if count == 0 {
        Ok((turn, request))
    } else {
        match fetched_topic(broker, turn, request) {
            Ok((turn, rest)) => fetched_topics(broker, turn, (count - 1) as nat, rest),
            Err(failure) => Err(failure),
        }
    }
}

/// What stands before the topics of a Fetch: a replica, a wait, a least and
/// a most, an isolation level, and how many topics follow.
pub open spec fn fetch_head(request: Seq<u8>) -> Parsed<nat> {
    match taken(request, 17) {
        Ok((_, rest)) => count_at(rest),
        Err(failure) => Err(failure),
    }
}

/// Fetch v4: the records from the offset on, in one batch.
pub open spec fn fetched(broker: Broker, request: Seq<u8>) -> Answered {
    Answered {
        broker,
        reply: match fetch_head(request) {
            Ok((topics, rest)) => match fetched_topics(
                broker,
                Fetching { answer: be(0, 4) + count_field(topics), fetched: None },
                topics,
                rest,
            ) {
                Ok((turn, _)) => Ok((turn.answer, turn.fetched)),
                Err(failure) => Err(failure),
            },
            Err(failure) => Err(failure),
        },
    }
}

/// The next `count` topic names of a Metadata request behind `names`.
pub open spec fn names_at(names: Seq<Seq<char>>, count: nat, request: Seq<u8>) -> Parsed<
    Seq<Seq<char>>,
>
    decreases count,
{
    if count == 0 {
        Ok((names, request))
    } else {
        match text_at(request) {
            Ok((name, rest)) => names_at(names.push(name), (count - 1) as nat, rest),
            Err(failure) => Err(failure),
        }
    }
}

/// The host and the port of an address, port 0 where it names none.
pub open spec fn host_and_port(address: Seq<char>) -> (Seq<char>, int) {
    match split_at_last(address, ':') {
        Some((host, port)) => (
            host,
            match parsed_i32(port) {
                Some(number) => number,
                None => 0,
            },
        ),
        None => (address, 0),
    }
}

/// What a Metadata answer says of one topic: no error, not internal, and
/// partition 0 led, kept and in sync at broker 0.
pub open spec fn topic_answer(name: Seq<char>) -> Seq<u8> {
    be(0, 2) + string_field(Some(name)) + be(0, 1) + count_field(1) + be(0, 2) + be(0, 4) + be(0, 4)
        + count_field(1) + be(0, 4) + count_field(1) + be(0, 4)
}

/// What a Metadata answer says of each of `names`.
pub open spec fn topic_answers(names: Seq<Seq<char>>) -> Seq<u8>
    decreases names.len(),
{
    if names.len() == 0 {
        Seq::empty()
    } else {
        topic_answers(names.drop_last()) + topic_answer(names.last())
    }
}

/// What a Metadata answer says of the brokers: one, broker 0 at `local`, in
/// no rack, and the controller.
pub open spec fn broker_answer(local: Seq<char>) -> Seq<u8> {
    count_field(1) + be(0, 4) + string_field(Some(host_and_port(local).0)) + be(
        host_and_port(local).1,
        4,
    ) + string_field(None) + be(0, 4)
}

/// Metadata v1: this session is broker 0 and leads partition 0 of every
/// topic asked for.
pub open spec fn described(broker: Broker, request: Seq<u8>) -> Answered {
    Answered {
        broker,
        reply: match count_at(request) {
            Ok((count, rest)) => match names_at(Seq::empty(), count, rest) {
                Ok((names, _)) => Ok(
                    (
                        broker_answer(broker.local) + count_field(names.len()) + topic_answers(
                            names,
                        ),
                        None,
                    ),
                ),
                Err(failure) => Err(failure),
            },
            Err(failure) => Err(failure),
        },
    }
}

/// The one version of an api that is served.
pub open spec fn version_answer(api_key: int, version: int) -> Seq<u8> {
    be(api_key, 2) + be(version, 2) + be(version, 2)
}

/// The versions that are served: Produce 3, Fetch 4, Metadata 1.
pub open spec fn versions_answer() -> Seq<u8> {
    be(0, 2) + count_field(3) + version_answer(API_PRODUCE as int, 3) + version_answer(
        API_FETCH as int,
        4,
    ) + version_answer(API_METADATA as int, 1)
}

/// The failure of a request for an api that is not served.
pub open spec fn not_served(api_key: int) -> Failure {
    permanent("api key "@ + decimal(api_key) + " is not served here"@)
}

/// What a request with this api key and body comes to.
pub open spec fn served(broker: Broker, api_key: int, request: Seq<u8>) -> Answered {
    if api_key == API_VERSIONS {
        Answered { broker, reply: Ok((versions_answer(), None)) }
    } else if api_key == API_METADATA {
        described(broker, request)
    } else if api_key == API_PRODUCE {
        produced(broker, request)
    } else if api_key == API_FETCH {
        fetched(broker, request)
    } else {
        Answered { broker, reply: Err(not_served(api_key)) }
    }
}

/// What a message from the client comes to: the session behind it, and the
/// bytes to send back with what the client did, or the failure.
pub open spec fn heard(broker: Broker, message: Seq<u8>) -> Answered {
    match header_at(message) {
        Ok((header, body)) => {
            let answered = served(broker, header.api_key, body);
            Answered {
                reply: match answered.reply {
                    Ok((answer, event)) => Ok(
                        (framed(response_message(header.correlation, answer)), event),
                    ),
                    Err(failure) => Err(failure),
                },
                ..answered
            }
        },
        Err(failure) => Answered { broker, reply: Err(failure) },
    }
}

/// A position in a log as an offset.
fn offset_at(position: usize) -> (offset: i64)
    ensures
        offset == as_offset(position as nat),
{
    if position as u64 <= i64::MAX as u64 {
        position as i64
    } else {
        0
    }
}

impl Session {
    /// A session with the client at `peer`, on the connection that ends here
    /// at `local`, nothing kept yet.
    #[must_use]
    pub fn new(peer: &str, local: &str) -> (session: Self)
        ensures
            session@ == (Broker {
                peer: peer@,
                local: local@,
                logs: Map::empty(),
                pending: Seq::empty(),
            }),
    {
        let session = Session {
            peer: peer.to_string(),
            local: local.to_string(),
            logs: Logs::new(),
            pending: Vec::new(),
        };
        assert(session@.pending =~= Seq::empty());
        session
    }

    /// Hold `values` in `topic`'s partition 0 for a consumer to fetch.
    #[must_use]
    pub fn with_records(self, topic: &str, values: &[&[u8]]) -> (session: Self)
        ensures
            session@ == (Broker {
                logs: self@.logs.insert(
                    (topic@, 0),
                    log_of(self@.logs, (topic@, 0)) + kept(
                        log_of(self@.logs, (topic@, 0)).len(),
                        values@,
                    ),
                ),
                ..self@
            }),
    {
        let mut session = self;
        let topic: String = topic.to_string();
        let ghost place: Place = (topic@, 0);
        let ghost log = log_of(self@.logs, place);
        let ghost more = kept(log.len(), values@);
        let mut length: usize = session.logs.open(&topic, 0);
        let mut at: usize = 0;
        assert(log + more.take(0) =~= log);
        while at < values.len()
            invariant
                at <= values@.len(),
                place == (topic@, 0int),
                log == log_of(self@.logs, place),
                more == kept(log.len(), values@),
                length == log_of(session.logs@, place).len(),
                session@ == (Broker {
                    logs: self@.logs.insert(place, log + more.take(at as int)),
                    ..self@
                }),
            decreases values@.len() - at,
        {
            let offset: i64 = offset_at(length);
            let record = Record {
                offset,
                key: None,
                value: Some(vstd::slice::slice_to_vec(values[at])),
            };
            session.logs.push(&topic, 0, record);
            length = session.logs.open(&topic, 0);
            proof {
                assert(record@ == more[at as int]);
                assert((log + more.take(at as int)).push(record@) =~= log + more.take(at + 1));
                assert(session@.logs =~= self@.logs.insert(place, log + more.take(at + 1)));
            }
            at += 1;
        }
        assert(more.take(at as int) =~= more);
        session
    }

    /// Append the records of `set` to the log; the base offset, and the
    /// first Stream into `first`, the rest pending.
    fn append(
        &mut self,
        topic: &String,
        partition: i32,
        set: &[u8],
        first: &mut Option<Arrived>,
    ) -> (base: Result<i64, TransportError>)
        ensures
            match batches_of(set@) {
                Ok(records) => {
                    let place = (topic@, partition as int);
                    let log = log_of(old(self)@.logs, place);
                    let more = placed(log.len(), records);
                    let news = announced(old(self)@.peer, place, more);
                    &&& base == Ok::<i64, TransportError>(as_offset(log.len()) as i64)
                    &&& final(self)@ == (Broker {
                        logs: old(self)@.logs.insert(place, log + more),
                        pending: old(self)@.pending + behind_first(delivery(*old(first)), news),
                        ..old(self)@
                    })
                    &&& delivery(*final(first)) == or_first(delivery(*old(first)), news)
                },
                Err(failure) => {
                    &&& base matches Err(e)
                    &&& e@ == failure
                    &&& final(self)@ == old(self)@
                    &&& *final(first) == *old(first)
                },
            },
    {
        let records: Vec<Record> = decode_batches(set)?;
        let ghost place: Place = (topic@, partition as int);
        let ghost log = log_of(self@.logs, place);
        let ghost more = placed(log.len(), stored(records@));
        let ghost news = announced(self@.peer, place, more);
        let ghost held_first = delivery(*first);
        let length: usize = self.logs.open(topic, partition);
        let base: i64 = offset_at(length);
        let mut at: usize = 0;
        proof {
            assert(log + more.take(0) =~= log);
            assert(news.take(0) =~= Seq::<Delivery>::empty());
            assert(self@.pending =~= old(self)@.pending + behind_first(held_first, news.take(0)));
        }
        while at < records.len()
            invariant
                at <= records@.len(),
                place == (topic@, partition as int),
                log == log_of(old(self)@.logs, place),
                more == placed(log.len(), stored(records@)),
                news == announced(old(self)@.peer, place, more),
                held_first == delivery(*old(first)),
                base == as_offset(log.len()),
                self@ == (Broker {
                    logs: old(self)@.logs.insert(place, log + more.take(at as int)),
                    pending: old(self)@.pending + behind_first(held_first, news.take(at as int)),
                    ..old(self)@
                }),
                delivery(*first) == or_first(held_first, news.take(at as int)),
            decreases records@.len() - at,
        {
            let offset: i64 = base.wrapping_add(offset_at(at));
            let value: Option<Vec<u8>> = copied(&records[at].value);
            let arrived = Arrived {
                origin_uri: origin_uri(self.peer.as_str(), topic.as_str(), partition, offset),
                bytes: match copied(&records[at].value) {
                    Some(bytes) => bytes,
                    None => Vec::new(),
                },
            };
            let record = Record { offset, key: copied(&records[at].key), value };
            let ghost before = self@;
            proof {
                assert(record@ == more[at as int]);
                assert(arrived@ == news[at as int]) by {
                    assert(arrived@.bytes =~= payload(more[at as int].value));
                }
                assert(news.take(at + 1) =~= news.take(at as int).push(arrived@));
            }
            if first.is_none() {
                *first = Some(arrived);
            } else {
                self.pending.push(arrived);
                assert(self@.pending =~= before.pending.push(arrived@));
            }
            self.logs.push(topic, partition, record);
            proof {
                assert((log + more.take(at as int)).push(record@) =~= log + more.take(at + 1));
                assert(self@.logs =~= old(self)@.logs.insert(place, log + more.take(at + 1)));
                assert(self@.pending =~= old(self)@.pending + behind_first(
                    held_first,
                    news.take(at + 1),
                ));
            }
            at += 1;
        }
        proof {
            assert(more.take(at as int) =~= more);
            assert(news.take(at as int) =~= news);
        }
        Ok(base)
    }

    /// One partition's part of a Produce.
    fn produce_partition(
        &mut self,
        topic: &String,
        reader: &mut Cursor<'_>,
        answer: &mut Vec<u8>,
        first: &mut Option<Arrived>,
    ) -> (done: Result<(), TransportError>)
        ensures
            ({
                let turn = Producing {
                    broker: old(self)@,
                    first: delivery(*old(first)),
                    answer: old(answer)@,
                };
                let (after, rest) = produced_partition(turn, topic@, old(reader)@);
                &&& final(self)@ == after.broker
                &&& match rest {
                    Ok(rest) => done is Ok && final(reader)@ == rest && delivery(*final(first))
                        == after.first && final(answer)@ == after.answer,
                    Err(failure) => done matches Err(e) && e@ == failure,
                }
            }),
    {
        let partition: i32 = reader.i32_be()?;
        let set: &[u8] = match reader.nullable_bytes()? {
            Some(bytes) => bytes,
            None => &[],
        };
        let base: i64 = self.append(topic, partition, set, first)?;
        answer.i32_be(partition).i16_be(0).i64_be(base).i64_be(-1);
        Ok(())
    }

    /// One topic's part of a Produce.
    fn produce_topic(
        &mut self,
        reader: &mut Cursor<'_>,
        answer: &mut Vec<u8>,
        first: &mut Option<Arrived>,
    ) -> (done: Result<(), TransportError>)
        ensures
            ({
                let turn = Producing {
                    broker: old(self)@,
                    first: delivery(*old(first)),
                    answer: old(answer)@,
                };
                let (after, rest) = produced_topic(turn, old(reader)@);
                &&& final(self)@ == after.broker
                &&& match rest {
                    Ok(rest) => done is Ok && final(reader)@ == rest && delivery(*final(first))
                        == after.first && final(answer)@ == after.answer,
                    Err(failure) => done matches Err(e) && e@ == failure,
                }
            }),
    {
        let topic: String = text(reader)?;
        let partitions: usize = reader.count()?;
        answer.nullable_string(Some(topic.as_str())).count(partitions);
        let ghost whole = produced_topic(
            Producing { broker: self@, first: delivery(*first), answer: old(answer)@ },
            old(reader)@,
        );
        let mut done: usize = 0;
        while done < partitions
            invariant
                done <= partitions,
                whole == produced_topic(
                    Producing {
                        broker: old(self)@,
                        first: delivery(*old(first)),
                        answer: old(answer)@,
                    },
                    old(reader)@,
                ),
                whole == produced_partitions(
                    Producing { broker: self@, first: delivery(*first), answer: answer@ },
                    topic@,
                    (partitions - done) as nat,
                    reader@,
                ),
            decreases partitions - done,
        {
            self.produce_partition(&topic, reader, answer, first)?;
            done += 1;
        }
        Ok(())
    }

    /// Produce v3: append every batch, answer the base offset of each.
    fn answer_produce(&mut self, reader: &mut Cursor<'_>, answer: &mut Vec<u8>) -> (event: Result<
        Option<Event>,
        TransportError,
    >)
        requires
            old(answer)@.len() == 0,
        ensures
            final(self)@ == produced(old(self)@, old(reader)@).broker,
            match produced(old(self)@, old(reader)@).reply {
                Ok((body, done)) => event matches Ok(e) && happened(e) == done && final(answer)@
                    == body,
                Err(failure) => event matches Err(e) && e@ == failure,
            },
    {
        reader.nullable_string()?;  // transaction
        let ghost behind = reader@;
        reader.i16_be()?;  // acknowledgements
        reader.i32_be()?;  // timeout
        assert(reader@ =~= behind.skip(6));
        let topics: usize = reader.count()?;
        answer.count(topics);
        assert(answer@ =~= count_field(topics as nat));
        let mut first: Option<Arrived> = None;
        let ghost whole = produced_topics(
            Producing { broker: self@, first: None, answer: answer@ },
            topics as nat,
            reader@,
        );
        let mut done: usize = 0;
        while done < topics
            invariant
                done <= topics,
                produced(old(self)@, old(reader)@) == (match whole {
                    (turn, Ok(_)) => Answered {
                        broker: turn.broker,
                        reply: Ok(
                            (
                                turn.answer + be(0, 4),
                                match turn.first {
                                    Some(first) => Some(Happened::Produced(first)),
                                    None => None,
                                },
                            ),
                        ),
                    },
                    (turn, Err(failure)) => Answered { broker: turn.broker, reply: Err(failure) },
                }),
                whole == produced_topics(
                    Producing { broker: self@, first: delivery(first), answer: answer@ },
                    (topics - done) as nat,
                    reader@,
                ),
            decreases topics - done,
        {
            self.produce_topic(reader, answer, &mut first)?;
            done += 1;
        }
        answer.i32_be(0);
        match first {
            Some(arrived) => Ok(Some(Event::Produced(arrived))),
            None => Ok(None),
        }
    }

    /// The records of `topic`'s `partition` from `offset` on, in one batch,
    /// and how many records the partition has.
    fn read_log(&self, topic: &String, partition: i32, offset: i64) -> (read: (Vec<u8>, i64))
        ensures
            ({
                let log = log_of(self@.logs, (topic@, partition as int));
                read.0@ == record_set(log, offset as int) && read.1 == as_offset(log.len())
            }),
    {
        let log: &Vec<Record> = match self.logs.get(topic, partition) {
            Some(log) => log,
            None => {
                return (Vec::new(), 0);
            },
        };
        let ghost kept_log = log_of(self@.logs, (topic@, partition as int));
        let high: i64 = offset_at(log.len());
        let from: usize = if offset < 0 {
            0
        } else if offset as u64 <= log.len() as u64 {
            offset as usize
        } else {
            log.len()
        };
        if from == log.len() {
            return (Vec::new(), high);
        }
        let mut entries: Vec<Entry<'_>> = Vec::new();
        let mut at: usize = from;
        while at < log.len()
            invariant
                from <= at <= log@.len(),
                entries@.len() == at - from,
                forall|i: int|
                    0 <= i < at - from ==> lent((#[trigger] entries@[i]).0) == held(
                        log@[from + i].key,
                    ) && lent(entries@[i].1) == held(log@[from + i].value),
            decreases log@.len() - at,
        {
            let record: &Record = &log[at];
            let key: Option<&[u8]> = match &record.key {
                Some(bytes) => Some(bytes.as_slice()),
                None => None,
            };
            let value: Option<&[u8]> = match &record.value {
                Some(bytes) => Some(bytes.as_slice()),
                None => None,
            };
            entries.push((key, value));
            at += 1;
        }
        assert(fields(entries@) =~= entries_of(kept_log.skip(from as int))) by {
            assert forall|i: int| 0 <= i < entries@.len() implies fields(entries@)[i]
                == #[trigger] entries_of(kept_log.skip(from as int))[i] by {
                assert(lent(entries@[i].0) == held(log@[from + i].key));
                assert(kept_log[from + i] == log@[from + i]@);
            }
        }
        (encode_batch(offset_at(from), entries.as_slice()), high)
    }

    /// One topic's part of a Fetch.
    fn fetch_topic(
        &self,
        reader: &mut Cursor<'_>,
        answer: &mut Vec<u8>,
        last: &mut Option<Event>,
    ) -> (done: Result<(), TransportError>)
        ensures
            match fetched_topic(
                self@,
                Fetching { answer: old(answer)@, fetched: happened(*old(last)) },
                old(reader)@,
            ) {
                Ok((turn, rest)) => done is Ok && final(reader)@ == rest && final(answer)@
                    == turn.answer && happened(*final(last)) == turn.fetched,
                Err(failure) => done matches Err(e) && e@ == failure,
            },
    {
        let topic: String = text(reader)?;
        let partitions: usize = reader.count()?;
        answer.nullable_string(Some(topic.as_str())).count(partitions);
        let mut done: usize = 0;
        while done < partitions
            invariant
                done <= partitions,
                fetched_topic(
                    self@,
                    Fetching { answer: old(answer)@, fetched: happened(*old(last)) },
                    old(reader)@,
                ) == fetched_partitions(
                    self@,
                    Fetching { answer: answer@, fetched: happened(*last) },
                    topic@,
                    (partitions - done) as nat,
                    reader@,
                ),
            decreases partitions - done,
        {
            let ghost behind = reader@;
            let partition: i32 = reader.i32_be()?;
            let offset: i64 = reader.i64_be()?;
            reader.i32_be()?;  // how much is wanted
            assert(behind.skip(4).take(8) =~= behind.subrange(4, 12));
            assert(reader@ =~= behind.skip(16));
            let ghost log = log_of(self@.logs, (topic@, partition as int));
            let ghost before = answer@;
            let (set, high) = self.read_log(&topic, partition, offset);
            answer.i32_be(partition).i16_be(0).i64_be(high).i64_be(high).count(0).nullable_bytes(
                Some(set.as_slice()),
            );
            assert(answer@ =~= before + partition_answer(log, partition as int, offset as int));
            *last = Some(Event::Fetched { topic: topic.clone(), offset });
            done += 1;
        }
        Ok(())
    }

    /// Fetch v4: the records from the offset on, in one batch.
    fn answer_fetch(&self, reader: &mut Cursor<'_>, answer: &mut Vec<u8>) -> (event: Result<
        Option<Event>,
        TransportError,
    >)
        requires
            old(answer)@.len() == 0,
        ensures
            match fetched(self@, old(reader)@).reply {
                Ok((body, done)) => event matches Ok(e) && happened(e) == done && final(answer)@
                    == body,
                Err(failure) => event matches Err(e) && e@ == failure,
            },
    {
        let ghost whole = reader@;
        reader.i32_be()?;  // replica
        reader.i32_be()?;  // wait
        reader.i32_be()?;  // least
        reader.i32_be()?;  // most
        reader.i8()?;  // isolation level
        assert(reader@ =~= whole.skip(17));
        let topics: usize = reader.count()?;
        answer.i32_be(0).count(topics);
        assert(answer@ =~= be(0, 4) + count_field(topics as nat));
        let mut event: Option<Event> = None;
        let mut done: usize = 0;
        while done < topics
            invariant
                done <= topics,
                fetched(self@, old(reader)@).reply == (match fetched_topics(
                    self@,
                    Fetching { answer: answer@, fetched: happened(event) },
                    (topics - done) as nat,
                    reader@,
                ) {
                    Ok((turn, _)) => Ok((turn.answer, turn.fetched)),
                    Err(failure) => Err(failure),
                }),
            decreases topics - done,
        {
            self.fetch_topic(reader, answer, &mut event)?;
            done += 1;
        }
        Ok(event)
    }

    /// Metadata v1: this session is broker 0 and leads partition 0 of every
    /// topic asked for.
    fn answer_metadata(&self, reader: &mut Cursor<'_>, answer: &mut Vec<u8>) -> (done: Result<
        (),
        TransportError,
    >)
        requires
            old(answer)@.len() == 0,
        ensures
            match described(self@, old(reader)@).reply {
                Ok((body, event)) => done is Ok && final(answer)@ == body && event is None,
                Err(failure) => done matches Err(e) && e@ == failure,
            },
    {
        let count: usize = reader.count()?;
        let mut topics: Vec<String> = Vec::new();
        let ghost mut names: Seq<Seq<char>> = Seq::empty();
        let ghost whole = names_at(names, count as nat, reader@);
        while topics.len() < count
            invariant
                topics@.len() <= count,
                names.len() == topics@.len(),
                forall|i: int| 0 <= i < names.len() ==> names[i] == (#[trigger] topics@[i])@,
                count_at(old(reader)@) matches Ok((n, rest)) && n == count && whole == names_at(
                    Seq::empty(),
                    count as nat,
                    rest,
                ),
                whole == names_at(names, (count - topics@.len()) as nat, reader@),
            decreases count - topics@.len(),
        {
            let topic: String = text(reader)?;
            proof {
                names = names.push(topic@);
            }
            topics.push(topic);
        }
        let (host, port) = match rsplit_once(self.local.as_str(), ':') {
            Some((host, port)) => (
                host,
                match parse_i32(port) {
                    Some(number) => number,
                    None => 0,
                },
            ),
            None => (self.local.as_str(), 0),
        };
        answer.count(1).i32_be(0).nullable_string(Some(host)).i32_be(port).nullable_string(
            None,
        ).i32_be(0);
        assert(answer@ =~= broker_answer(self@.local));
        answer.count(topics.len());
        let ghost head = answer@;
        let mut at: usize = 0;
        assert(names.take(0) =~= Seq::empty());
        assert(answer@ =~= head + topic_answers(names.take(0)));
        while at < topics.len()
            invariant
                at <= topics@.len() == names.len(),
                forall|i: int| 0 <= i < names.len() ==> names[i] == (#[trigger] topics@[i])@,
                answer@ == head + topic_answers(names.take(at as int)),
            decreases topics@.len() - at,
        {
            let ghost before = answer@;
            answer.i16_be(0).nullable_string(Some(topics[at].as_str())).i8(0).count(1).i16_be(
                0,
            ).i32_be(0).i32_be(0).count(1).i32_be(0).count(1).i32_be(0);
            proof {
                assert(names[at as int] == topics@[at as int]@);
                assert(answer@ =~= before + topic_answer(names[at as int]));
                assert(names.take(at + 1).drop_last() =~= names.take(at as int));
                assert(answer@ =~= head + topic_answers(names.take(at + 1)));
            }
            at += 1;
        }
        assert(names.take(at as int) =~= names);
        Ok(())
    }

    /// The next thing the client did, told by the `message` it sent: what to
    /// send back, and what to report. Where there is nothing to report, the
    /// next message is to be heard. A produce of several records reports the
    /// first here and the rest through [`Session::next_produce`].
    ///
    /// # Errors
    /// Where the client asked for what this session does not serve, or
    /// broke the protocol.
    pub fn next_event(&mut self, message: &[u8]) -> (reply: Result<Reply, TransportError>)
        ensures
            final(self)@ == heard(old(self)@, message@).broker,
            match heard(old(self)@, message@).reply {
                Ok((bytes, event)) => reply matches Ok(r) && r.bytes@ == bytes && happened(r.event)
                    == event,
                Err(failure) => reply matches Err(e) && e@ == failure,
            },
    {
        let (header, body) = read_request(message)?;
        let mut reader = Cursor::new(body);
        let mut answer: Vec<u8> = Vec::new();
        let event: Option<Event> = if header.api_key == API_VERSIONS {
            answer.i16_be(0).count(3);
            answer.i16_be(API_PRODUCE).i16_be(3).i16_be(3);
            answer.i16_be(API_FETCH).i16_be(4).i16_be(4);
            answer.i16_be(API_METADATA).i16_be(1).i16_be(1);
            assert(answer@ =~= versions_answer());
            None
        } else if header.api_key == API_METADATA {
            self.answer_metadata(&mut reader, &mut answer)?;
            None
        } else if header.api_key == API_PRODUCE {
            self.answer_produce(&mut reader, &mut answer)?
        } else if header.api_key == API_FETCH {
            self.answer_fetch(&mut reader, &mut answer)?
        } else {
            let mut message: String = "api key ".to_string();
            push_decimal(&mut message, header.api_key as i64);
            message.append(" is not served here");
            return Err(TransportError::permanent(message));
        };
        let bytes: Vec<u8> = response(header.correlation, answer.as_slice());
        Ok(Reply { bytes, event })
    }

    /// One step of the wait for the next record the client produces: what to
    /// do next, now that the connection came to `event`. Records left over
    /// from an earlier produce come first, in order; metadata and fetches
    /// are answered on the way.
    pub fn next_produce(&mut self, event: Heard) -> (next: Next)
        ensures
            match event {
                Heard::Event(Event::Produced(arrived)) => {
                    &&& next matches Next::Done(Some(a))
                    &&& a@ == arrived@
                    &&& final(self)@ == old(self)@
                },
                Heard::Closed => {
                    &&& next == Next::Done(None)
                    &&& final(self)@ == old(self)@
                },
                _ => if old(self)@.pending.len() > 0 {
                    &&& next matches Next::Done(Some(a))
                    &&& a@ == old(self)@.pending[0]
                    &&& final(self)@ == (Broker {
                        pending: old(self)@.pending.skip(1),
                        ..old(self)@
                    })
                } else {
                    &&& next == Next::Listen
                    &&& final(self)@ == old(self)@
                },
            },
    {
        match event {
            Heard::Event(Event::Produced(arrived)) => Next::Done(Some(arrived)),
            Heard::Closed => Next::Done(None),
            _ => if self.pending.len() > 0 {
                let arrived: Arrived = self.pending.remove(0);
                assert(self@.pending =~= old(self)@.pending.skip(1));
                Next::Done(Some(arrived))
            } else {
                Next::Listen
            },
        }
    }
}

/// The record that a wait for one ended with.
///
/// # Errors
/// Where the client closed first.
pub fn take_one(arrived: Option<Arrived>) -> (one: Result<Arrived, TransportError>)
    ensures
        match arrived {
            Some(a) => one == Ok::<Arrived, TransportError>(a),
            None => one matches Err(e) && e@ == permanent("the client closed without producing"@),
        },
{
    match arrived {
        Some(arrived) => Ok(arrived),
        None => Err(protocol_error("the client closed without producing")),
    }
}

} // verus!
