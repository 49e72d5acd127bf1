//! Calls: what the functions give back, by themselves and one after another.

use std::time::Duration;

use vstd::prelude::*;
use vstd::utf8::encode_utf8;

use crate::client::{produce_body, Client, TopicMetadata};
use crate::error::TransportError;
use crate::integer::signed;
use crate::laws::answers::{
    law_a_partition_that_is_not_told_of_has_no_leader, law_the_last_leader_told_counts,
};
use crate::laws::batches::{law_a_batch_round_trips, written};
use crate::laws::exchange::{
    can_call, can_carry, can_name, fetch_answer, law_a_record_is_produced,
    law_records_are_fetched, law_records_are_fetched_at_their_offsets, read_on,
};
use crate::laws::fetches::{is_counted, wanted};
use crate::laws::format::{batch_before, can_send, Batch};
use crate::laws::locations::{
    law_a_target_is_a_topic, law_a_target_names_a_broker_alone,
    law_a_target_names_broker_and_topic,
};
use crate::laws::messages::law_a_message_round_trips;
use crate::laws::producers::{law_any_batch_is_read, offset_behind, read_as};
use crate::laws::values::law_a_decimal_reads_back;
use crate::logs::{log_of, Place};
use crate::records::{
    body_bytes, decode_batches, encode_batch, fields, lent, stored, Entry, Fields, Record,
    Stored,
};
use crate::session::{entries_of, read_from, take_one, Event, Heard, Next, Reply, Session};
use crate::stream::{deliveries, Arrived};
use crate::text::{decimal, parse_i32, push_decimal};
use crate::transport::KafkaTransport;
use crate::wire::{frame, message_size, read_message, MAX_MESSAGE};

verus! {

/// A Location is what it is built as: the broker and the topic it is given,
/// the partition, the offset, whatever it is, and the timeout.
pub proof fn law_a_location_is_as_built(
    bootstrap: &str,
    topic: &str,
    partition: i32,
    offset: i64,
    timeout: Duration,
    plain: KafkaTransport,
    placed: KafkaTransport,
    started: KafkaTransport,
    timed: KafkaTransport,
)
    requires
        call_ensures(KafkaTransport::new, (bootstrap, topic), plain),
        call_ensures(KafkaTransport::on_partition, (plain, partition), placed),
        call_ensures(KafkaTransport::from_offset, (placed, offset), started),
        call_ensures(KafkaTransport::timing_out_after, (started, timeout), timed),
    ensures
        plain@.partition == 0,
        plain@.cursor == 0,
        plain@.timeout is None,
        forall|n: i64| call_ensures(KafkaTransport::cursor, (&timed,), n) ==> n == offset,
        forall|n: i32| call_ensures(KafkaTransport::partition, (&timed,), n) ==> n == partition,
        forall|s: &str| call_ensures(KafkaTransport::bootstrap, (&timed,), s) ==> s@ == bootstrap@,
        forall|s: &str| call_ensures(KafkaTransport::topic, (&timed,), s) ==> s@ == topic@,
        forall|s: &str| call_ensures(KafkaTransport::client, (&timed,), s) ==> s@ == "xmip"@,
        forall|t: Option<Duration>|
            call_ensures(KafkaTransport::timeout, (&timed,), t) ==> t == Some(timeout),
{
}

/// The near end of a loopback speaks of the same topic and partition, to the
/// far end, with the same timeout.
pub proof fn law_both_ends_speak_of_the_same(
    location: KafkaTransport,
    address: &str,
    near: KafkaTransport,
)
    requires
        call_ensures(KafkaTransport::send_to, (&location, address), near),
    ensures
        near@.bootstrap == address@,
        near@.topic == location@.topic,
        near@.partition == location@.partition,
        near@.timeout == location@.timeout,
{
}

/// A Location connects on to the last leader told for its own partition: to
/// nowhere else where that is its bootstrap broker, and not at all where there
/// is none or the partition is not told of.
pub proof fn law_a_location_connects_to_its_own_leader(
    location: KafkaTransport,
    metadata: TopicMetadata,
    onward: Result<Option<&str>, TransportError>,
    at: int,
)
    requires
        call_ensures(KafkaTransport::connect, (&location, &metadata), onward),
        metadata.leaders@.len() == metadata.partitions@.len(),
        -1 <= at < metadata.partitions@.len(),
        at >= 0 ==> metadata.partitions@[at] == location@.partition,
        forall|i: int|
            at < i < metadata.partitions@.len() ==> metadata.partitions@[i] != location@.partition,
        i32::MIN <= location@.partition <= i32::MAX,
    ensures
        at < 0 || metadata.leaders@[at]@.len() == 0 ==> onward is Err,
        at >= 0 && metadata.leaders@[at]@.len() > 0 ==> (if metadata.leaders@[at]@
            == location@.bootstrap {
            onward matches Ok(None)
        } else {
            onward matches Ok(Some(leader)) && leader@ == metadata.leaders@[at]@
        }),
{
    let partition = location@.partition as i32;
    if at >= 0 {
        law_the_last_leader_told_counts(metadata@, partition, at);
    } else {
        law_a_partition_that_is_not_told_of_has_no_leader(metadata@, partition);
    }
}

/// What is received are the values of the records, one Stream each, in order,
/// each told with the offset it had; the cursor is one past the last.
pub proof fn law_what_is_received_is_what_was_fetched(
    location: &mut KafkaTransport,
    records: Vec<Record>,
    arrived: Vec<Arrived>,
    at: int,
)
    requires
        call_ensures(KafkaTransport::receive, (location, &records), arrived),
        0 <= at < records@.len(),
    ensures
        arrived@.len() == records@.len(),
        records@[at].value matches Some(bytes) ==> arrived@[at].bytes@ == bytes@,
        records@[at].value is None ==> arrived@[at].bytes@.len() == 0,
        arrived@[at].origin_uri@ == "kafka://"@ + old(location)@.bootstrap + "/"@ + old(
            location,
        )@.topic + "/"@ + decimal(old(location)@.partition) + "?offset="@ + decimal(
            records@[at].offset as int,
        ),
        records@[records@.len() - 1].offset < i64::MAX ==> final(location)@.cursor
            == records@[records@.len() - 1].offset + 1,
        final(location)@.topic == old(location)@.topic,
        final(location)@.partition == old(location)@.partition,
{
    assert(deliveries(arrived@).len() == stored(records@).len());
    assert(deliveries(arrived@)[at] == arrived@[at]@);
    assert(stored(records@)[at] == records@[at]@);
    assert(stored(records@).last() == records@[records@.len() - 1]@);
}

/// What waits is handed up in the order it came, one at a time, and before
/// anything more is heard.
pub proof fn law_what_waits_is_handed_up_in_order(session: &mut Session, heard: Heard, next: Next)
    requires
        call_ensures(Session::next_produce, (session, heard), next),
        heard is Nothing || (heard matches Heard::Event(event) && event is Fetched),
    ensures
        old(session)@.pending.len() == 0 ==> next == Next::Listen && final(session)@ == old(
            session,
        )@,
        old(session)@.pending.len() > 0 ==> (next matches Next::Done(Some(one)) && seq![one@]
            + final(session)@.pending == old(session)@.pending && final(session)@.logs == old(
            session,
        )@.logs),
{
    if old(session)@.pending.len() > 0 {
        let pending = old(session)@.pending;
        assert(seq![pending[0]] + pending.skip(1) =~= pending);
    }
}

/// A record that was heard of is the one that a wait ends with, and a client
/// that closed ends it without.
pub proof fn law_a_wait_ends_with_what_was_heard(
    session: &mut Session,
    heard: Heard,
    next: Next,
)
    requires
        call_ensures(Session::next_produce, (session, heard), next),
    ensures
        heard matches Heard::Event(Event::Produced(arrived)) ==> next matches Next::Done(Some(one))
            && one@ == arrived@ && final(session)@ == old(session)@,
        heard is Closed ==> next == Next::Done(None),
{
}

/// A wait that ended without a record is an error, and any other is its
/// record.
pub proof fn law_one_is_taken(
    arrived: Option<Arrived>,
    one: Result<Arrived, TransportError>,
)
    requires
        call_ensures(take_one, (arrived,), one),
    ensures
        arrived is None <==> one is Err,
        arrived matches Some(record) ==> one matches Ok(taken) && taken@ == record@,
{
}

/// What one call encodes another decodes: as many records, in order, each with
/// its own key, its own value, and its own offset.
pub proof fn law_what_is_encoded_decodes(
    base_offset: i64,
    entries: &[Entry<'_>],
    batch: Vec<u8>,
    bytes: &[u8],
    decoded: Result<Vec<Record>, TransportError>,
    at: int,
)
    requires
        call_ensures(encode_batch, (base_offset, entries), batch),
        bytes@ == batch@,
        call_ensures(decode_batches, (bytes,), decoded),
        body_bytes(fields(entries@)).len() + 9 <= i32::MAX,
        0 <= at < entries@.len(),
        base_offset + entries@.len() <= i64::MAX,
    ensures
        decoded matches Ok(records) && records@.len() == entries@.len() && records@[at].offset
            == base_offset + at && (match entries@[at].0 {
            Some(key) => records@[at].key matches Some(k) && k@ == key@,
            None => records@[at].key is None,
        }) && (match entries@[at].1 {
            Some(value) => records@[at].value matches Some(v) && v@ == value@,
            None => records@[at].value is None,
        }),
{
    let all = fields(entries@);
    law_a_batch_round_trips(base_offset as int, all);
    if let Ok(records) = decoded {
        assert(stored(records@).len() == written(base_offset as int, all).len());
        assert(stored(records@)[at] == records@[at]@);
    }
}

/// A message of a size that will be read is read off as it was framed, and
/// what stands behind it is left.
pub proof fn law_a_framed_message_is_read(
    message: &[u8],
    framed_message: Vec<u8>,
    reader: &mut &[u8],
    rest: Seq<u8>,
    read: Result<Option<Vec<u8>>, TransportError>,
)
    requires
        call_ensures(frame, (message,), framed_message),
        message@.len() <= MAX_MESSAGE,
        old(reader)@ == framed_message@ + rest,
        call_ensures(read_message, (reader,), read),
    ensures
        read matches Ok(Some(taken)) && taken@ == message@,
        final(reader)@ == rest,
{
    law_a_message_round_trips(message@, rest);
}

/// A target is taken apart into the broker and the topic that it means.
pub proof fn law_a_target_is_resolved(
    location: KafkaTransport,
    target: &str,
    place: (&str, &str),
    peer: Seq<char>,
    topic: Seq<char>,
)
    requires
        call_ensures(KafkaTransport::resolve, (&location, target), place),
        !peer.contains('/'),
    ensures
        target@ == "kafka://"@ + peer + "/"@ + topic && topic.len() > 0 ==> place.0@ == peer
            && place.1@ == topic,
        target@ == "kafka://"@ + peer || target@ == "kafka://"@ + peer + "/"@ ==> place.0@ == peer
            && place.1@ == location@.topic,
        !"kafka://"@.is_prefix_of(target@) ==> place.0@ == location@.bootstrap && place.1@
            == target@,
{
    if topic.len() > 0 {
        law_a_target_names_broker_and_topic(location@, peer, topic);
    }
    law_a_target_names_a_broker_alone(location@, peer);
    if !"kafka://"@.is_prefix_of(target@) {
        law_a_target_is_a_topic(location@, target@);
    }
}

/// A number that is written is the number that is parsed.
pub proof fn law_a_number_is_parsed_as_written(
    out: &mut String,
    value: i32,
    text: &str,
    parsed: Option<i32>,
)
    requires
        call_ensures(push_decimal, (out, value as i64), ()),
        old(out)@.len() == 0,
        text@ == final(out)@,
        call_ensures(parse_i32, (text,), parsed),
    ensures
        parsed == Some(value),
{
    law_a_decimal_reads_back(value as int);
    assert(old(out)@ + decimal(value as int) =~= decimal(value as int));
}

/// A record that one side sends, the other appends, reports whole and answers
/// with its offset, which the first is told: the calls of both sides, one
/// after another, over what each hands the other.
pub proof fn law_a_record_is_sent_and_acknowledged(
    client: &mut Client,
    session: &mut Session,
    topic: &str,
    partition: i32,
    key: Option<&[u8]>,
    value: &[u8],
    sent: Vec<u8>,
    arriving: &mut &[u8],
    message: Vec<u8>,
    reply: Reply,
    returning: &mut &[u8],
    answer: Vec<u8>,
    asked: Client,
    told: Result<i64, TransportError>,
)
    requires
        call_ensures(Client::ask_produce, (client, topic, partition, key, value), sent),
        old(arriving)@ == sent@,
        call_ensures(
            read_message,
            (arriving,),
            Ok::<Option<Vec<u8>>, TransportError>(Some(message)),
        ),
        exists|bytes: &[u8]|
            bytes@ == message@ && #[trigger] call_ensures(
                Session::next_event,
                (session, bytes),
                Ok::<Reply, TransportError>(reply),
            ),
        old(returning)@ == reply.bytes@,
        call_ensures(
            read_message,
            (returning,),
            Ok::<Option<Vec<u8>>, TransportError>(Some(answer)),
        ),
        asked@ == final(client)@,
        exists|bytes: &[u8]|
            bytes@ == answer@ && #[trigger] call_ensures(
                Client::produce,
                (&asked, Some(bytes)),
                told,
            ),
        can_call(old(client)@),
        can_name(topic@, partition as int),
        log_of(old(session)@.logs, (topic@, partition as int)).len() < i64::MAX,
        10 + encode_utf8(old(client)@.name).len() + produce_body(
            topic@,
            partition as int,
            Fields { key: lent(key), value: Some(value@) },
        ).len() <= MAX_MESSAGE,
    ensures
        ({
            let before = log_of(old(session)@.logs, (topic@, partition as int));
            let after = log_of(final(session)@.logs, (topic@, partition as int));
            &&& told matches Ok(offset) && offset == before.len()
            &&& after.len() == before.len() + 1
            &&& after.drop_last() == before
            &&& after.last().offset == before.len()
            &&& after.last().key == lent(key)
            &&& after.last().value == Some(value@)
            &&& reply.event matches Some(Event::Produced(arrived)) && arrived.bytes@ == value@
        }),
{
    let place = (topic@, partition as int);
    let record = Fields { key: lent(key), value: Some(value@) };
    law_a_record_is_produced(old(session)@, old(client)@, topic@, partition as int, record);
    let before = log_of(old(session)@.logs, place);
    let after = log_of(final(session)@.logs, place);
    assert(after.drop_last() =~= before);
}

/// The records that one side asks for, from an offset on, the other answers
/// with, and the first gets: those of the log, each as it stands there.
pub proof fn law_records_are_asked_for_and_got(
    client: &mut Client,
    session: &mut Session,
    topic: &str,
    partition: i32,
    offset: i64,
    sent: Vec<u8>,
    arriving: &mut &[u8],
    message: Vec<u8>,
    reply: Reply,
    returning: &mut &[u8],
    answer: Vec<u8>,
    asked: Client,
    got: Result<Vec<Record>, TransportError>,
)
    requires
        call_ensures(Client::ask_fetch, (client, topic, partition, offset), sent),
        old(arriving)@ == sent@,
        call_ensures(
            read_message,
            (arriving,),
            Ok::<Option<Vec<u8>>, TransportError>(Some(message)),
        ),
        exists|bytes: &[u8]|
            bytes@ == message@ && #[trigger] call_ensures(
                Session::next_event,
                (session, bytes),
                Ok::<Reply, TransportError>(reply),
            ),
        old(returning)@ == reply.bytes@,
        call_ensures(
            read_message,
            (returning,),
            Ok::<Option<Vec<u8>>, TransportError>(Some(answer)),
        ),
        asked@ == final(client)@,
        exists|bytes: &[u8]|
            bytes@ == answer@ && #[trigger] call_ensures(
                Client::fetch,
                (&asked, offset, Some(bytes)),
                got,
            ),
        can_call(old(client)@),
        can_name(topic@, partition as int),
        is_counted(log_of(old(session)@.logs, (topic@, partition as int))),
        can_carry(
            entries_of(
                log_of(old(session)@.logs, (topic@, partition as int)).skip(
                    read_from(
                        log_of(old(session)@.logs, (topic@, partition as int)).len(),
                        offset as int,
                    ),
                ),
            ),
        ),
        4 + fetch_answer(
            log_of(old(session)@.logs, (topic@, partition as int)),
            topic@,
            partition as int,
            offset as int,
        ).len() <= MAX_MESSAGE,
    ensures
        got matches Ok(records) && stored(records@) == wanted(
            log_of(old(session)@.logs, (topic@, partition as int)),
            offset as int,
        ),
        reply.event matches Some(Event::Fetched { topic: t, offset: o }) && t@ == topic@ && o
            == offset,
        final(session)@ == old(session)@,
{
    let log = log_of(old(session)@.logs, (topic@, partition as int));
    law_records_are_fetched(
        old(session)@,
        old(client)@,
        topic@,
        partition as int,
        offset as int,
    );
    law_records_are_fetched_at_their_offsets(log, offset as int);
    assert(read_on(log, offset as int) =~= wanted(log, offset as int));
}

/// The values that a session is given to hold stand behind what it held, in
/// order, each as it is, without a key; no other log changes.
pub proof fn law_given_values_are_held(
    plain: Session,
    topic: &str,
    values: &[&[u8]],
    session: Session,
    at: int,
)
    requires
        call_ensures(Session::with_records, (plain, topic, values), session),
        0 <= at < values@.len(),
        log_of(plain@.logs, (topic@, 0)).len() + values@.len() <= i64::MAX,
    ensures
        ({
            let before = log_of(plain@.logs, (topic@, 0));
            let after = log_of(session@.logs, (topic@, 0));
            &&& after.len() == before.len() + values@.len()
            &&& after.take(before.len() as int) == before
            &&& after[before.len() + at].offset == before.len() + at
            &&& after[before.len() + at].key is None
            &&& after[before.len() + at].value == Some(values@[at]@)
            &&& forall|place: Place|
                place != (topic@, 0int) ==> log_of(plain@.logs, place) == #[trigger] log_of(
                    session@.logs,
                    place,
                )
        }),
        session@.pending == plain@.pending,
{
    let before = log_of(plain@.logs, (topic@, 0));
    let after = log_of(session@.logs, (topic@, 0));
    assert(after.take(before.len() as int) =~= before);
}

/// A batch from any producer decodes to its records, in order, each with its
/// own key, its own value, and the offset of its own delta.
pub proof fn law_any_batch_decodes(
    batch: Batch,
    bytes: &[u8],
    decoded: Result<Vec<Record>, TransportError>,
    at: int,
)
    requires
        can_send(batch),
        bytes@ == batch_before(batch, Seq::empty()),
        call_ensures(decode_batches, (bytes,), decoded),
        0 <= at < batch.records.len(),
    ensures
        decoded matches Ok(records) && records@.len() == batch.records.len() && records@[at]@.offset
            == offset_behind(batch.base_offset, batch.records[at].delta) && records@[at]@.key
            == batch.records[at].key && records@[at]@.value == batch.records[at].value,
{
    law_any_batch_is_read(batch, Seq::empty());
    let read = read_as(batch.base_offset, batch.records);
    assert(read + Seq::<Stored>::empty() =~= read);
    if let Ok(records) = decoded {
        assert(stored(records@).len() == read.len());
        assert(stored(records@)[at] == records@[at]@);
    }
}

/// What a size field says is the size, where a message of that size will be
/// read; any other is an error.
pub proof fn law_a_size_is_read(size: [u8; 4], length: Result<usize, TransportError>)
    requires
        call_ensures(message_size, (size,), length),
    ensures
        length matches Ok(n) ==> n == signed(size@),
        length is Ok <==> 0 <= signed(size@) <= MAX_MESSAGE,
{
}

} // verus!
