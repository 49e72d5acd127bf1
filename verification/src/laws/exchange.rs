//! A client and a session that speak to each other: what one asks the other
//! answers, what was produced is fetched, and a Location reads on from where
//! it was.

use vstd::prelude::*;
use vstd::utf8::encode_utf8;

use crate::client::{
    answer_of, called, fetch_body, fetched_from, from_on, partition_of, passed_array,
    produce_body, produced_at, Caller,
};
use crate::cursor::{past_the_end, taken};
use crate::error::Failure;
use crate::integer::{be, lemma_be_len, lemma_signed_round_trip, lemma_spans};
use crate::laws::batches::{law_a_batch_round_trips, written};
use crate::laws::grouping::{
    lemma_found_behind, lemma_group_1_1_3, lemma_group_3_5, lemma_group_5, lemma_group_tail,
};
use crate::laws::messages::{
    law_a_count_round_trips, law_a_message_round_trips, law_a_request_round_trips,
    law_a_string_round_trips, law_an_answer_is_taken, law_an_integer_round_trips,
    law_bytes_round_trip, law_no_string_round_trips,
};
use crate::logs::{log_of, Place};
use crate::records::{batch_bytes, body_bytes, Fields, Stored};
use crate::session::{
    as_offset, entries_of, fetch_head, fetched, fetched_partitions, fetched_topics, heard,
    partition_answer, placed, produce_head, produced, produced_partition, produced_partitions,
    produced_topics, read_from, record_set, served, Answered, Broker, Fetching, Happened,
    Producing,
};
use crate::stream::{announced, origin, payload, Delivery};
use crate::transport::moved_past;
use crate::wire::{
    bytes_field, count_field, framed, message_at, request_message, response_message, string_field,
    API_FETCH, API_PRODUCE, MAX_MESSAGE,
};

verus! {

/// A whole exchange over a connection: the request in its frame, read off
/// the connection, served, answered in a frame, read off the connection, and
/// taken for the answer. What the client is left with is the body of the
/// answer; what the session reports stands beside it.
pub open spec fn conversed(
    broker: Broker,
    caller: Caller,
    api_key: int,
    api_version: int,
    body: Seq<u8>,
) -> (Broker, Caller, Result<(Seq<u8>, Option<Happened>), Failure>) {
    let (caller, sent) = called(caller, api_key, api_version, body);
    match message_at(sent) {
        Ok((Some(message), _)) => {
            let answered = heard(broker, message);
            (
                answered.broker,
                caller,
                match answered.reply {
                    Ok((bytes, event)) => match message_at(bytes) {
                        Ok((answer, _)) => match answer_of(caller, answer) {
                            Ok(body) => Ok((body, event)),
                            Err(failure) => Err(failure),
                        },
                        Err(failure) => Err(failure),
                    },
                    Err(failure) => Err(failure),
                },
            )
        },
        Ok((None, _)) => (broker, caller, Err(past_the_end())),
        Err(failure) => (broker, caller, Err(failure)),
    }
}

/// Whether a client's name and correlation id are ones that a request can
/// carry.
pub open spec fn can_call(caller: Caller) -> bool {
    &&& encode_utf8(caller.name).len() <= i16::MAX
    &&& i32::MIN <= caller.correlation <= i32::MAX
}

/// The client gets what the session served, and the session served what the
/// client asked for, as long as neither message is too long to be read.
pub proof fn law_a_call_is_answered(
    broker: Broker,
    caller: Caller,
    api_key: int,
    api_version: int,
    body: Seq<u8>,
)
    requires
        can_call(caller),
        i16::MIN <= api_key <= i16::MAX,
        i16::MIN <= api_version <= i16::MAX,
        10 + encode_utf8(caller.name).len() + body.len() <= MAX_MESSAGE,
        served(broker, api_key, body).reply matches Ok((answer, _)) ==> 4 + answer.len()
            <= MAX_MESSAGE,
    ensures
        conversed(broker, caller, api_key, api_version, body) == (
            served(broker, api_key, body).broker,
            called(caller, api_key, api_version, body).0,
            served(broker, api_key, body).reply,
        ),
        can_call(called(caller, api_key, api_version, body).0),
{
    let (next, sent) = called(caller, api_key, api_version, body);
    let message = request_message(api_key, api_version, next.correlation, caller.name, body);
    lemma_be_len(api_key, 2);
    lemma_be_len(api_version, 2);
    lemma_be_len(next.correlation, 4);
    lemma_be_len(crate::wire::capped_i16(encode_utf8(caller.name).len()), 2);
    law_a_message_round_trips(message, Seq::empty());
    assert(framed(message) + Seq::<u8>::empty() =~= framed(message));
    law_a_request_round_trips(api_key, api_version, next.correlation, caller.name, body);
    if let Ok((answer, _)) = served(broker, api_key, body).reply {
        let response = response_message(next.correlation, answer);
        law_a_message_round_trips(response, Seq::empty());
        assert(framed(response) + Seq::<u8>::empty() =~= framed(response));
        law_an_answer_is_taken(next, answer);
    }
}

/// A field of a known length is taken whole.
pub(crate) proof fn lemma_taken(field: Seq<u8>, rest: Seq<u8>)
    ensures
        taken(field + rest, field.len()) == Ok::<(Seq<u8>, Seq<u8>), Failure>((field, rest)),
{
    assert((field + rest).take(field.len() as int) =~= field);
    assert((field + rest).skip(field.len() as int) =~= rest);
}

/// Whether a topic and a partition are ones that a request can carry.
pub open spec fn can_name(topic: Seq<char>, partition: int) -> bool {
    &&& encode_utf8(topic).len() <= i16::MAX
    &&& i32::MIN <= partition <= i32::MAX
}

/// Whether entries are few and short enough for a batch of them to be
/// carried in a message.
pub open spec fn can_carry(entries: Seq<Fields>) -> bool {
    body_bytes(entries).len() + 21 <= i32::MAX
}

/// The record that `record` is once it is produced behind `log`.
pub open spec fn newest(log: Seq<Stored>, record: Fields) -> Stored {
    Stored { offset: as_offset(log.len()), key: record.key, value: record.value }
}

/// A session once `record` was produced at `place`.
pub open spec fn with_newest(broker: Broker, place: Place, record: Fields) -> Broker {
    let log = log_of(broker.logs, place);
    Broker { logs: broker.logs.insert(place, log.push(newest(log, record))), ..broker }
}

/// What a session answers to a Produce of one record that it puts at
/// `offset`.
pub open spec fn produce_answer(topic: Seq<char>, partition: int, offset: int) -> Seq<u8> {
    count_field(1) + string_field(Some(topic)) + count_field(1) + be(partition, 4) + be(0, 2) + be(
        offset,
        8,
    ) + be(-1, 8) + be(0, 4)
}

/// What stands before the topics of a client's Produce.
proof fn lemma_produce_head(rest: Seq<u8>)
    ensures
        produce_head(
            string_field(None) + be(1, 2) + be(10_000, 4) + count_field(1) + rest,
        ) == Ok::<(nat, Seq<u8>), Failure>((1, rest)),
{
    let count = count_field(1) + rest;
    let settings = be(1, 2) + be(10_000, 4);
    lemma_be_len(1, 2);
    lemma_be_len(10_000, 4);
    law_no_string_round_trips(settings + count);
    lemma_taken(settings, count);
    law_a_count_round_trips(1, rest);
    assert(string_field(None) + be(1, 2) + be(10_000, 4) + count_field(1) + rest =~= string_field(
        None,
    ) + (settings + count));
}

/// One partition's part of a client's Produce.
proof fn lemma_produced_partition(
    turn: Producing,
    topic: Seq<char>,
    partition: int,
    record: Fields,
)
    requires
        can_name(topic, partition),
        can_carry(seq![record]),
        turn.first is None,
    ensures
        ({
            let place = (topic, partition);
            let offset = as_offset(log_of(turn.broker.logs, place).len());
            produced_partition(
                turn,
                topic,
                be(partition, 4) + bytes_field(Some(batch_bytes(0, seq![record]))),
            ) == (
                Producing {
                    broker: with_newest(turn.broker, place, record),
                    first: Some(
                        Delivery {
                            origin: origin(turn.broker.peer, topic, partition, offset),
                            bytes: payload(record.value),
                        },
                    ),
                    answer: turn.answer + be(partition, 4) + be(0, 2) + be(offset, 8) + be(-1, 8),
                },
                Ok::<Seq<u8>, Failure>(Seq::empty()),
            )
        }),
{
    let place = (topic, partition);
    let log = log_of(turn.broker.logs, place);
    let set = batch_bytes(0, seq![record]);
    let none = Seq::<u8>::empty();
    lemma_spans();
    lemma_batch_length(0, seq![record]);
    law_an_integer_round_trips(partition, 4, bytes_field(Some(set)));
    law_bytes_round_trip(Some(set), none);
    assert(bytes_field(Some(set)) + none =~= bytes_field(Some(set)));
    law_a_batch_round_trips(0, seq![record]);
    let records = written(0, seq![record]);
    let more = placed(log.len(), records);
    let news = announced(turn.broker.peer, place, more);
    assert(more =~= seq![newest(log, record)]);
    assert(log + more =~= log.push(newest(log, record)));
    assert(news.skip(1) =~= Seq::<Delivery>::empty());
    assert(turn.broker.pending + news.skip(1) =~= turn.broker.pending);
}

/// How long a batch is.
pub(crate) proof fn lemma_batch_length(base_offset: int, entries: Seq<Fields>)
    ensures
        batch_bytes(base_offset, entries).len() == 21 + body_bytes(entries).len(),
{
    let body = body_bytes(entries);
    lemma_be_len(base_offset, 8);
    lemma_be_len(crate::wire::capped_i32(body.len() + 9), 4);
    lemma_be_len(-1, 4);
    lemma_be_len(crate::crc::crc32c(body) as int, 4);
}

/// What a session makes of a client's Produce.
proof fn lemma_produced(broker: Broker, topic: Seq<char>, partition: int, record: Fields)
    requires
        can_name(topic, partition),
        can_carry(seq![record]),
    ensures
        ({
            let place = (topic, partition);
            let offset = as_offset(log_of(broker.logs, place).len());
            produced(broker, produce_body(topic, partition, record)) == (Answered {
                broker: with_newest(broker, place, record),
                reply: Ok(
                    (
                        produce_answer(topic, partition, offset),
                        Some(
                            Happened::Produced(
                                Delivery {
                                    origin: origin(broker.peer, topic, partition, offset),
                                    bytes: payload(record.value),
                                },
                            ),
                        ),
                    ),
                ),
            })
        }),
{
    let set = bytes_field(Some(batch_bytes(0, seq![record])));
    let part = be(partition, 4) + set;
    let parts = count_field(1) + part;
    let named_topic = string_field(Some(topic)) + parts;
    assert(produce_body(topic, partition, record) =~= string_field(None) + be(1, 2) + be(10_000, 4)
        + count_field(1) + named_topic);
    lemma_produce_head(named_topic);
    law_a_string_round_trips(topic, parts);
    law_a_count_round_trips(1, part);
    let start = Producing { broker, first: None, answer: count_field(1) };
    let opened = Producing {
        answer: count_field(1) + string_field(Some(topic)) + count_field(1),
        ..start
    };
    lemma_produced_partition(opened, topic, partition, record);
    let (end, rest) = produced_partition(opened, topic, part);
    assert(produced_partitions(opened, topic, 1, part) == (end, rest)) by {
        reveal_with_fuel(produced_partitions, 2);
    }
    assert(produced_topics(start, 1, named_topic) == (end, rest)) by {
        reveal_with_fuel(produced_topics, 2);
    }
}

/// What a client makes of the answer to its Produce.
proof fn lemma_produced_at(topic: Seq<char>, partition: int, offset: int)
    requires
        can_name(topic, partition),
        i64::MIN <= offset <= i64::MAX,
    ensures
        produced_at(produce_answer(topic, partition, offset)) == Ok::<int, Failure>(offset),
{
    let part = be(partition, 4) + be(0, 2) + be(offset, 8) + be(-1, 8) + be(0, 4);
    lemma_one_place("produce"@, topic, part);
    lemma_group_3_5(
        count_field(1),
        string_field(Some(topic)),
        count_field(1),
        be(partition, 4),
        be(0, 2),
        be(offset, 8),
        be(-1, 8),
        be(0, 4),
    );
    lemma_spans();
    lemma_be_len(partition, 4);
    lemma_signed_round_trip(0, 2);
    lemma_signed_round_trip(offset, 8);
    lemma_group_tail(be(partition, 4) + be(0, 2) + be(offset, 8), be(-1, 8), be(0, 4));
    lemma_found_behind(be(partition, 4), be(0, 2), be(offset, 8), be(-1, 8) + be(0, 4));
}

/// The one topic and the one partition of an answer are come to.
proof fn lemma_one_place(what: Seq<char>, topic: Seq<char>, part: Seq<u8>)
    requires
        encode_utf8(topic).len() <= i16::MAX,
    ensures
        partition_of(
            what,
            count_field(1) + (string_field(Some(topic)) + (count_field(1) + part)),
        ) == Ok::<Seq<u8>, Failure>(part),
{
    let parts = count_field(1) + part;
    law_a_count_round_trips(1, string_field(Some(topic)) + parts);
    law_a_string_round_trips(topic, parts);
    law_a_count_round_trips(1, part);
}

/// A record that a client produces is put behind its partition's log, is
/// reported as the Stream it is, and the client is told the offset it was
/// written at.
pub proof fn law_a_produced_record_is_appended(
    broker: Broker,
    topic: Seq<char>,
    partition: int,
    record: Fields,
)
    requires
        can_name(topic, partition),
        can_carry(seq![record]),
    ensures
        ({
            let place = (topic, partition);
            let offset = as_offset(log_of(broker.logs, place).len());
            served(broker, API_PRODUCE as int, produce_body(topic, partition, record)) matches
                Answered { broker: after, reply: Ok((answer, event)) } && after == with_newest(
                broker,
                place,
                record,
            ) && event == Some(
                Happened::Produced(
                    Delivery {
                        origin: origin(broker.peer, topic, partition, offset),
                        bytes: payload(record.value),
                    },
                ),
            ) && produced_at(answer) == Ok::<int, Failure>(offset)
        }),
{
    lemma_produced(broker, topic, partition, record);
    lemma_produced_at(
        topic,
        partition,
        as_offset(log_of(broker.logs, (topic, partition)).len()),
    );
}

/// What a session answers to a Fetch of one partition.
pub open spec fn fetch_answer(
    log: Seq<Stored>,
    topic: Seq<char>,
    partition: int,
    offset: int,
) -> Seq<u8> {
    be(0, 4) + count_field(1) + string_field(Some(topic)) + count_field(1) + partition_answer(
        log,
        partition,
        offset,
    )
}

/// What stands before the topics of a client's Fetch.
proof fn lemma_fetch_head(rest: Seq<u8>)
    ensures
        fetch_head(
            be(-1, 4) + be(100, 4) + be(1, 4) + be(0x10_0000, 4) + be(0, 1) + count_field(1) + rest,
        ) == Ok::<(nat, Seq<u8>), Failure>((1, rest)),
{
    let settings = be(-1, 4) + be(100, 4) + be(1, 4) + be(0x10_0000, 4) + be(0, 1);
    lemma_be_len(-1, 4);
    lemma_be_len(100, 4);
    lemma_be_len(1, 4);
    lemma_be_len(0x10_0000, 4);
    lemma_be_len(0, 1);
    lemma_taken(settings, count_field(1) + rest);
    law_a_count_round_trips(1, rest);
    assert(settings + count_field(1) + rest =~= settings + (count_field(1) + rest));
}

/// What a session makes of a client's Fetch.
proof fn lemma_fetched(broker: Broker, topic: Seq<char>, partition: int, offset: int)
    requires
        can_name(topic, partition),
        i64::MIN <= offset <= i64::MAX,
    ensures
        fetched(broker, fetch_body(topic, partition, offset)) == (Answered {
            broker,
            reply: Ok(
                (
                    fetch_answer(
                        log_of(broker.logs, (topic, partition)),
                        topic,
                        partition,
                        offset,
                    ),
                    Some(Happened::Fetched { topic, offset }),
                ),
            ),
        }),
{
    let part = be(partition, 4) + be(offset, 8) + be(0x10_0000, 4);
    let parts = count_field(1) + part;
    let named_topic = string_field(Some(topic)) + parts;
    lemma_group_1_1_3(
        be(-1, 4) + be(100, 4) + be(1, 4) + be(0x10_0000, 4) + be(0, 1) + count_field(1),
        string_field(Some(topic)),
        count_field(1),
        be(partition, 4),
        be(offset, 8),
        be(0x10_0000, 4),
    );
    lemma_fetch_head(named_topic);
    law_a_string_round_trips(topic, parts);
    law_a_count_round_trips(1, part);
    lemma_spans();
    lemma_signed_round_trip(partition, 4);
    lemma_signed_round_trip(offset, 8);
    lemma_be_len(0x10_0000, 4);
    let none = Seq::<u8>::empty();
    lemma_found_behind(be(partition, 4), be(offset, 8), be(0x10_0000, 4), none);
    assert(part + none =~= part);
    let start = Fetching { answer: be(0, 4) + count_field(1), fetched: None };
    let opened = Fetching {
        answer: be(0, 4) + count_field(1) + string_field(Some(topic)) + count_field(1),
        ..start
    };
    let log = log_of(broker.logs, (topic, partition));
    let end = Fetching {
        answer: fetch_answer(log, topic, partition, offset),
        fetched: Some(Happened::Fetched { topic, offset }),
    };
    assert(fetched_partitions(broker, opened, topic, 1, part) == Ok::<
        (Fetching, Seq<u8>),
        Failure,
    >((end, Seq::empty()))) by {
        reveal_with_fuel(fetched_partitions, 2);
    }
    assert(fetched_topics(broker, start, 1, named_topic) == Ok::<(Fetching, Seq<u8>), Failure>(
        (end, Seq::empty()),
    )) by {
        reveal_with_fuel(fetched_topics, 2);
    }
}

/// The records that a Fetch of `log` from `offset` on comes to.
pub open spec fn read_on(log: Seq<Stored>, offset: int) -> Seq<Stored> {
    let from = read_from(log.len(), offset);
    from_on(offset, written(as_offset(from as nat), entries_of(log.skip(from))))
}

/// Where all of `records` stand at `offset` or behind it, none is left out.
proof fn lemma_none_before(offset: int, records: Seq<Stored>)
    requires
        forall|i: int| 0 <= i < records.len() ==> (#[trigger] records[i]).offset >= offset,
    ensures
        from_on(offset, records) == records,
    decreases records.len(),
{
    reveal(Seq::filter);
    if records.len() > 0 {
        let front = records.drop_last();
        assert forall|i: int| 0 <= i < front.len() implies (#[trigger] front[i]).offset
            >= offset by {
            assert(front[i] == records[i]);
        }
        lemma_none_before(offset, front);
        assert(records.last() == records[records.len() - 1]);
        assert(front.push(records.last()) =~= records);
    }
}

/// What a client makes of the answer to its Fetch.
proof fn lemma_fetched_from(log: Seq<Stored>, topic: Seq<char>, partition: int, offset: int)
    requires
        can_name(topic, partition),
        i64::MIN <= offset <= i64::MAX,
        can_carry(entries_of(log.skip(read_from(log.len(), offset)))),
    ensures
        fetched_from(offset, fetch_answer(log, topic, partition, offset)) == Ok::<Seq<Stored>, Failure>(
            read_on(log, offset),
        ),
{
    let set = record_set(log, offset);
    let high = as_offset(log.len());
    let none = Seq::<u8>::empty();
    let set_field = bytes_field(Some(set));
    let aborted = count_field(0) + set_field;
    let part = partition_answer(log, partition, offset);
    let placed_part = count_field(1) + (string_field(Some(topic)) + (count_field(1) + part));
    lemma_be_len(0, 4);
    lemma_taken(be(0, 4), placed_part);
    lemma_group_5(be(0, 4), count_field(1), string_field(Some(topic)), count_field(1), part);
    lemma_one_place("fetch"@, topic, part);
    lemma_spans();
    lemma_be_len(partition, 4);
    lemma_signed_round_trip(0, 2);
    lemma_be_len(high, 8);
    let marks = be(high, 8) + be(high, 8);
    lemma_group_tail(be(partition, 4) + be(0, 2), be(high, 8), be(high, 8));
    lemma_group_tail(be(partition, 4) + be(0, 2) + marks, count_field(0), set_field);
    lemma_found_behind(be(partition, 4), be(0, 2), marks, aborted);
    law_a_count_round_trips(0, set_field);
    lemma_taken(none, set_field);
    assert(none + set_field =~= set_field);
    assert(passed_array(aborted, 16) == Ok::<Seq<u8>, Failure>(set_field));
    let from = read_from(log.len(), offset);
    let base = as_offset(from as nat);
    let entries = entries_of(log.skip(from));
    lemma_batch_length(base, entries);
    law_bytes_round_trip(Some(set), none);
    assert(set_field + none =~= set_field);
    if entries.len() == 0 {
        assert(written(base, entries) =~= Seq::<Stored>::empty());
    } else {
        law_a_batch_round_trips(base, entries);
    }
}

/// What a client fetches from an offset on are the records of the partition
/// from there on.
pub proof fn law_a_fetch_reads_on(broker: Broker, topic: Seq<char>, partition: int, offset: int)
    requires
        can_name(topic, partition),
        i64::MIN <= offset <= i64::MAX,
        can_carry(
            entries_of(
                log_of(broker.logs, (topic, partition)).skip(
                    read_from(log_of(broker.logs, (topic, partition)).len(), offset),
                ),
            ),
        ),
    ensures
        served(broker, API_FETCH as int, fetch_body(topic, partition, offset)) matches Answered {
            broker: after,
            reply: Ok((answer, event)),
        } && after == broker && event == Some(Happened::Fetched { topic, offset })
            && fetched_from(offset, answer) == Ok::<Seq<Stored>, Failure>(
            read_on(log_of(broker.logs, (topic, partition)), offset),
        ),
{
    lemma_fetched(broker, topic, partition, offset);
    lemma_fetched_from(log_of(broker.logs, (topic, partition)), topic, partition, offset);
}

/// Where the records of a log stand at their offsets, what is fetched from an
/// offset on are those records themselves: all of them from before the
/// beginning, and none from the end on.
pub proof fn law_records_are_fetched_at_their_offsets(log: Seq<Stored>, offset: int)
    requires
        forall|i: int| 0 <= i < log.len() ==> (#[trigger] log[i]).offset == i,
        log.len() <= i64::MAX,
    ensures
        offset < 0 ==> read_on(log, offset) == log,
        0 <= offset <= log.len() ==> read_on(log, offset) == log.skip(offset),
        offset >= log.len() ==> read_on(log, offset) == Seq::<Stored>::empty(),
{
    let from = read_from(log.len(), offset);
    let read = written(as_offset(from as nat), entries_of(log.skip(from)));
    assert forall|i: int| 0 <= i < log.len() - from implies read[i] == #[trigger] log.skip(
        from,
    )[i] by {
        assert(log[from + i].offset == from + i);
    }
    assert(read =~= log.skip(from));
    assert forall|i: int| 0 <= i < read.len() implies (#[trigger] read[i]).offset >= offset by {
        assert(log[from + i].offset == from + i);
    }
    lemma_none_before(offset, read);
    if offset < 0 {
        assert(log.skip(0) =~= log);
    }
    if offset >= log.len() {
        assert(log.skip(from) =~= Seq::<Stored>::empty());
    }
}

/// How long the answer to a Produce of one record is.
proof fn lemma_produce_answer_length(topic: Seq<char>, partition: int, offset: int)
    requires
        encode_utf8(topic).len() <= i16::MAX,
    ensures
        produce_answer(topic, partition, offset).len() == 36 + encode_utf8(topic).len(),
{
    lemma_be_len(1, 4);
    lemma_be_len(encode_utf8(topic).len() as int, 2);
    lemma_be_len(partition, 4);
    lemma_be_len(0, 2);
    lemma_be_len(offset, 8);
    lemma_be_len(-1, 8);
    lemma_be_len(0, 4);
}

/// How long a Fetch of one partition is.
proof fn lemma_fetch_body_length(topic: Seq<char>, partition: int, offset: int)
    requires
        encode_utf8(topic).len() <= i16::MAX,
    ensures
        fetch_body(topic, partition, offset).len() == 43 + encode_utf8(topic).len(),
{
    lemma_be_len(-1, 4);
    lemma_be_len(100, 4);
    lemma_be_len(1, 4);
    lemma_be_len(0x10_0000, 4);
    lemma_be_len(0, 1);
    lemma_be_len(encode_utf8(topic).len() as int, 2);
    lemma_be_len(partition, 4);
    lemma_be_len(offset, 8);
}

/// A client that produces a record over a connection is told the offset, and
/// the session holds the record there and reports it, as long as the request
/// is not too long to be read.
pub proof fn law_a_record_is_produced(
    broker: Broker,
    caller: Caller,
    topic: Seq<char>,
    partition: int,
    record: Fields,
)
    requires
        can_call(caller),
        can_name(topic, partition),
        10 + encode_utf8(caller.name).len() + produce_body(topic, partition, record).len()
            <= MAX_MESSAGE,
    ensures
        ({
            let body = produce_body(topic, partition, record);
            let place = (topic, partition);
            let offset = as_offset(log_of(broker.logs, place).len());
            let (after, next, reply) = conversed(broker, caller, API_PRODUCE as int, 3, body);
            &&& after == with_newest(broker, place, record)
            &&& next == called(caller, API_PRODUCE as int, 3, body).0
            &&& can_call(next)
            &&& reply matches Ok((answer, event)) && produced_at(answer) == Ok::<int, Failure>(
                offset,
            ) && event == Some(
                Happened::Produced(
                    Delivery {
                        origin: origin(broker.peer, topic, partition, offset),
                        bytes: payload(record.value),
                    },
                ),
            )
        }),
{
    let offset = as_offset(log_of(broker.logs, (topic, partition)).len());
    lemma_batch_length(0, seq![record]);
    lemma_produced(broker, topic, partition, record);
    lemma_produced_at(topic, partition, offset);
    lemma_produce_answer_length(topic, partition, offset);
    law_a_call_is_answered(
        broker,
        caller,
        API_PRODUCE as int,
        3,
        produce_body(topic, partition, record),
    );
}

/// A client that fetches over a connection gets the records of the partition
/// from the offset on, as long as the answer is not too long to be read.
pub proof fn law_records_are_fetched(
    broker: Broker,
    caller: Caller,
    topic: Seq<char>,
    partition: int,
    offset: int,
)
    requires
        can_call(caller),
        can_name(topic, partition),
        i64::MIN <= offset <= i64::MAX,
        can_carry(
            entries_of(
                log_of(broker.logs, (topic, partition)).skip(
                    read_from(log_of(broker.logs, (topic, partition)).len(), offset),
                ),
            ),
        ),
        4 + fetch_answer(
            log_of(broker.logs, (topic, partition)),
            topic,
            partition,
            offset,
        ).len() <= MAX_MESSAGE,
    ensures
        ({
            let body = fetch_body(topic, partition, offset);
            let (after, next, reply) = conversed(broker, caller, API_FETCH as int, 4, body);
            &&& after == broker
            &&& next == called(caller, API_FETCH as int, 4, body).0
            &&& can_call(next)
            &&& reply matches Ok((answer, event)) && fetched_from(offset, answer) == Ok::<
                Seq<Stored>,
                Failure,
            >(read_on(log_of(broker.logs, (topic, partition)), offset)) && event == Some(
                Happened::Fetched { topic, offset },
            )
        }),
{
    lemma_fetched(broker, topic, partition, offset);
    lemma_fetched_from(log_of(broker.logs, (topic, partition)), topic, partition, offset);
    lemma_fetch_body_length(topic, partition, offset);
    law_a_call_is_answered(
        broker,
        caller,
        API_FETCH as int,
        4,
        fetch_body(topic, partition, offset),
    );
}

/// A record that a client produced is what it gets when it fetches from the
/// offset it was told.
pub proof fn law_what_was_produced_is_fetched(
    broker: Broker,
    caller: Caller,
    topic: Seq<char>,
    partition: int,
    record: Fields,
)
    requires
        can_call(caller),
        can_name(topic, partition),
        log_of(broker.logs, (topic, partition)).len() < i64::MAX,
        10 + encode_utf8(caller.name).len() + produce_body(topic, partition, record).len()
            <= MAX_MESSAGE,
        4 + fetch_answer(
            log_of(with_newest(broker, (topic, partition), record).logs, (topic, partition)),
            topic,
            partition,
            log_of(broker.logs, (topic, partition)).len() as int,
        ).len() <= MAX_MESSAGE,
    ensures
        ({
            let log = log_of(broker.logs, (topic, partition));
            let (after, next, produced_reply) = conversed(
                broker,
                caller,
                API_PRODUCE as int,
                3,
                produce_body(topic, partition, record),
            );
            let (_, _, fetched_reply) = conversed(
                after,
                next,
                API_FETCH as int,
                4,
                fetch_body(topic, partition, log.len() as int),
            );
            &&& produced_reply matches Ok((told, _)) && produced_at(told) == Ok::<int, Failure>(
                log.len() as int,
            )
            &&& fetched_reply matches Ok((carried, _)) && fetched_from(
                log.len() as int,
                carried,
            ) == Ok::<
                Seq<Stored>,
                Failure,
            >(seq![newest(log, record)])
        }),
{
    let log = log_of(broker.logs, (topic, partition));
    let offset = log.len() as int;
    let body = produce_body(topic, partition, record);
    let after = with_newest(broker, (topic, partition), record);
    let next = called(caller, API_PRODUCE as int, 3, body).0;
    law_a_record_is_produced(broker, caller, topic, partition, record);
    lemma_read_back(log, record);
    lemma_batch_length(0, seq![record]);
    law_records_are_fetched(after, next, topic, partition, offset);
}

/// What is read of a log from its newest record on.
proof fn lemma_read_back(log: Seq<Stored>, record: Fields)
    requires
        log.len() < i64::MAX,
    ensures
        ({
            let grown = log.push(newest(log, record));
            let offset = log.len() as int;
            &&& entries_of(grown.skip(read_from(grown.len(), offset))) == seq![record]
            &&& read_on(grown, offset) == seq![newest(log, record)]
        }),
{
    let grown = log.push(newest(log, record));
    let offset = log.len() as int;
    assert(grown.skip(offset) =~= seq![newest(log, record)]);
    assert(entries_of(grown.skip(offset)) =~= seq![record]);
    let read = written(offset, seq![record]);
    assert(read =~= seq![newest(log, record)]);
    lemma_none_before(offset, read);
}

/// Both ends on one machine: whatever payload a client produces to a fresh
/// session, however its bytes look, is reported whole, at offset 0 of its
/// partition.
pub proof fn law_the_loopback_returns_the_payload(
    peer: Seq<char>,
    local: Seq<char>,
    caller: Caller,
    topic: Seq<char>,
    partition: int,
    bytes: Seq<u8>,
)
    requires
        can_call(caller),
        can_name(topic, partition),
        10 + encode_utf8(caller.name).len() + produce_body(
            topic,
            partition,
            Fields { key: None, value: Some(bytes) },
        ).len() <= MAX_MESSAGE,
    ensures
        ({
            let fresh = Broker { peer, local, logs: Map::empty(), pending: Seq::empty() };
            conversed(
                fresh,
                caller,
                API_PRODUCE as int,
                3,
                produce_body(topic, partition, Fields { key: None, value: Some(bytes) }),
            ).2 matches Ok((answer, event)) && produced_at(answer) == Ok::<int, Failure>(0)
                && event == Some(
                Happened::Produced(Delivery { origin: origin(peer, topic, partition, 0), bytes }),
            )
        }),
{
    law_a_record_is_produced(
        Broker { peer, local, logs: Map::empty(), pending: Seq::empty() },
        caller,
        topic,
        partition,
        Fields { key: None, value: Some(bytes) },
    );
}

/// A Location that receives what it fetched from its cursor on, and later
/// fetches from where its cursor then is, gets every record from its cursor
/// on once, though the log has grown meanwhile. The cursor moves to the end
/// of what there was to read, and stays where there was nothing.
pub proof fn law_the_cursor_reads_on(log: Seq<Stored>, later: Seq<Stored>, cursor: int)
    requires
        forall|i: int| 0 <= i < later.len() ==> (#[trigger] later[i]).offset == i,
        log.is_prefix_of(later),
        later.len() <= i64::MAX,
        i64::MIN <= cursor <= i64::MAX,
    ensures
        moved_past(cursor, read_on(log, cursor)) == if read_from(log.len(), cursor) < log.len() {
            log.len() as int
        } else {
            cursor
        },
        read_on(log, cursor) + read_on(later, moved_past(cursor, read_on(log, cursor)))
            == later.skip(read_from(later.len(), cursor)),
{
    assert forall|i: int| 0 <= i < log.len() implies (#[trigger] log[i]).offset == i by {
        assert(log[i] == later[i]);
    }
    let from = read_from(log.len(), cursor);
    let read = log.skip(from);
    law_records_are_fetched_at_their_offsets(log, cursor);
    assert(read_on(log, cursor) =~= read);
    if from < log.len() {
        assert(read.last() == log[log.len() - 1]);
        law_records_are_fetched_at_their_offsets(later, log.len() as int);
        assert(read + later.skip(log.len() as int) =~= later.skip(from));
    } else {
        law_records_are_fetched_at_their_offsets(later, cursor);
        let behind = later.skip(read_from(later.len(), cursor));
        assert(read_on(later, cursor) =~= behind);
        assert(read + behind =~= behind);
    }
}

/// A broker that answers with whole batches, the first of which begins before
/// the cursor, has a Location read on from the cursor all the same: the
/// records before it are left out, and those from it on are kept.
pub proof fn law_whole_batches_are_read_from_the_cursor_on(
    log: Seq<Stored>,
    start: int,
    cursor: int,
)
    requires
        forall|i: int| 0 <= i < log.len() ==> (#[trigger] log[i]).offset == i,
        0 <= start <= cursor <= log.len(),
    ensures
        from_on(cursor, log.skip(start)) == log.skip(cursor),
{
    let before = log.subrange(start, cursor);
    let behind = log.skip(cursor);
    assert(log.skip(start) =~= before + behind);
    Seq::filter_distributes_over_add(before, behind, |r: Stored| r.offset >= cursor);
    assert forall|i: int| 0 <= i < before.len() implies (#[trigger] before[i]).offset < cursor by {
        assert(before[i] == log[start + i]);
    }
    lemma_all_before(cursor, before);
    assert forall|i: int| 0 <= i < behind.len() implies (#[trigger] behind[i]).offset
        >= cursor by {
        assert(behind[i] == log[cursor + i]);
    }
    lemma_none_before(cursor, behind);
    assert(Seq::<Stored>::empty() + behind =~= behind);
}

/// Where all of `records` stand before `offset`, all are left out.
proof fn lemma_all_before(offset: int, records: Seq<Stored>)
    requires
        forall|i: int| 0 <= i < records.len() ==> (#[trigger] records[i]).offset < offset,
    ensures
        from_on(offset, records) == Seq::<Stored>::empty(),
    decreases records.len(),
{
    reveal(Seq::filter);
    if records.len() > 0 {
        let front = records.drop_last();
        assert forall|i: int| 0 <= i < front.len() implies (#[trigger] front[i]).offset < offset by {
            assert(front[i] == records[i]);
        }
        lemma_all_before(offset, front);
        assert(records.last() == records[records.len() - 1]);
    }
}

/// Whatever records a broker answers with, receiving those from the cursor on
/// never moves the cursor back, short of the highest offset there is.
pub proof fn law_the_cursor_never_moves_back(cursor: int, records: Seq<Stored>)
    requires
        i64::MIN <= cursor <= i64::MAX,
        forall|i: int| 0 <= i < records.len() ==> (#[trigger] records[i]).offset < i64::MAX,
    ensures
        moved_past(cursor, from_on(cursor, records)) >= cursor,
        from_on(cursor, records).len() > 0 ==> moved_past(cursor, from_on(cursor, records))
            > cursor,
{
    lemma_kept(cursor, records);
}

/// What is kept stands at `offset` or behind it, and stood among `records`.
proof fn lemma_kept(offset: int, records: Seq<Stored>)
    ensures
        from_on(offset, records).len() > 0 ==> from_on(offset, records).last().offset >= offset
            && records.contains(from_on(offset, records).last()),
    decreases records.len(),
{
    reveal(Seq::filter);
    if records.len() > 0 {
        let front = records.drop_last();
        lemma_kept(offset, front);
        assert(records.last() == records[records.len() - 1]);
        if records.last().offset < offset && from_on(offset, front).len() > 0 {
            let one = from_on(offset, front).last();
            let at = choose|i: int| 0 <= i < front.len() && front[i] == one;
            assert(records[at] == one);
        }
    }
}

} // verus!
