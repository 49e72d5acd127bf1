//! Sessions: offsets count, and whatever a client sends, nothing is
//! forgotten.

use vstd::prelude::*;

use crate::cursor::signed_at;
use crate::error::Failure;
use crate::integer::{be, lemma_signed_round_trip, lemma_spans};
use crate::laws::format::{is_i16, is_i32, is_short, lemma_text, text_before};
use crate::logs::{log_of, Place};
use crate::records::{batches_of, Stored};
use crate::session::{
    behind_first, heard, kept, not_served, or_first, placed, produce_head, produced,
    produced_partition, produced_partitions, produced_topic, produced_topics, served, Answered,
    Broker, Happened, Producing,
};
use crate::stream::{announced, payload, Delivery};
use crate::text::decimal;
use crate::wire::{
    bytes_at, count_at, count_field, framed, header_at, string_field, text_at, API_FETCH, API_METADATA,
    API_PRODUCE, API_VERSIONS,
};

verus! {

/// Whether the records of every partition stand at their offsets: the first
/// at 0, and each one behind at the next.
pub open spec fn counted(logs: Map<Place, Seq<Stored>>) -> bool {
    forall|place: Place, i: int|
        #![trigger logs[place][i]]
        logs.dom().contains(place) && 0 <= i < logs[place].len() && i <= i64::MAX
            ==> logs[place][i].offset == i
}

/// Where the records put behind a log that counts stand at the offsets of
/// their places, every log goes on counting.
proof fn lemma_appended_counts(logs: Map<Place, Seq<Stored>>, place: Place, more: Seq<Stored>)
    requires
        counted(logs),
        forall|i: int|
            0 <= i < more.len() && log_of(logs, place).len() + i <= i64::MAX ==> (
            #[trigger] more[i]).offset == log_of(logs, place).len() + i,
    ensures
        counted(logs.insert(place, log_of(logs, place) + more)),
{
    let log = log_of(logs, place);
    let after = logs.insert(place, log + more);
    assert forall|p: Place, i: int|
        #![trigger after[p][i]]
        after.dom().contains(p) && 0 <= i < after[p].len() && i <= i64::MAX implies after[p][i].offset
        == i by {
        if p == place {
            if i < log.len() {
                assert(after[p][i] == log[i]);
                assert(logs[place][i].offset == i);
            } else {
                assert(after[p][i] == more[i - log.len()]);
            }
        } else {
            assert(after[p] == logs[p]);
        }
    }
}

/// A session that holds nothing yet counts.
pub proof fn law_a_fresh_session_counts()
    ensures
        counted(Map::<Place, Seq<Stored>>::empty()),
{
}

/// Values that a session is given to hold count on from what it holds.
pub proof fn law_held_records_count(
    logs: Map<Place, Seq<Stored>>,
    place: Place,
    values: Seq<&[u8]>,
)
    requires
        counted(logs),
    ensures
        counted(
            logs.insert(place, log_of(logs, place) + kept(log_of(logs, place).len(), values)),
        ),
{
    lemma_appended_counts(logs, place, kept(log_of(logs, place).len(), values));
}

/// Whether `after` is `before` with, at most, more records behind each log
/// and more Streams behind those that wait.
pub open spec fn grown(before: Broker, after: Broker) -> bool {
    &&& after.peer == before.peer
    &&& after.local == before.local
    &&& before.pending.is_prefix_of(after.pending)
    &&& forall|place: Place|
        #![trigger log_of(after.logs, place)]
        log_of(before.logs, place).is_prefix_of(log_of(after.logs, place))
    &&& before.logs.dom().subset_of(after.logs.dom())
}

/// Growing twice is growing.
proof fn lemma_grown_twice(a: Broker, b: Broker, c: Broker)
    requires
        grown(a, b),
        grown(b, c),
    ensures
        grown(a, c),
{
    assert forall|place: Place|
        #![trigger log_of(c.logs, place)]
        log_of(a.logs, place).is_prefix_of(log_of(c.logs, place)) by {
        let x = log_of(a.logs, place);
        let y = log_of(b.logs, place);
        let z = log_of(c.logs, place);
        assert(x.is_prefix_of(y) && y.is_prefix_of(z));
        assert(x =~= z.subrange(0, x.len() as int));
    }
    assert(a.pending =~= c.pending.subrange(0, a.pending.len() as int));
}

/// Nothing changed is grown.
proof fn lemma_grown_not_at_all(broker: Broker)
    ensures
        grown(broker, broker),
{
    assert(broker.pending =~= broker.pending.subrange(0, broker.pending.len() as int));
    assert forall|place: Place|
        #![trigger log_of(broker.logs, place)]
        log_of(broker.logs, place).is_prefix_of(log_of(broker.logs, place)) by {
        let log = log_of(broker.logs, place);
        assert(log =~= log.subrange(0, log.len() as int));
    }
}

/// One partition's part of a Produce grows the session and goes on counting.
proof fn lemma_partition_grows(turn: Producing, topic: Seq<char>, request: Seq<u8>)
    ensures
        grown(turn.broker, produced_partition(turn, topic, request).0.broker),
        counted(turn.broker.logs) ==> counted(
            produced_partition(turn, topic, request).0.broker.logs,
        ),
{
    let before = turn.broker;
    let (after_turn, result) = produced_partition(turn, topic, request);
    let after = after_turn.broker;
    lemma_grown_not_at_all(before);
    if result is Ok {
        let (partition, rest) = signed_at(request, 4)->Ok_0;
        let (set, _) = bytes_at(rest)->Ok_0;
        let records = batches_of(payload(set))->Ok_0;
        let place = (topic, partition);
        let log = log_of(before.logs, place);
        let more = placed(log.len(), records);
        assert(after.logs == before.logs.insert(place, log + more));
        if counted(before.logs) {
            lemma_appended_counts(before.logs, place, more);
        }
        assert forall|p: Place|
            #![trigger log_of(after.logs, p)]
            log_of(before.logs, p).is_prefix_of(log_of(after.logs, p)) by {
            if p == place {
                assert(log =~= (log + more).subrange(0, log.len() as int));
            } else {
                assert(log_of(before.logs, p).is_prefix_of(log_of(before.logs, p)));
            }
        }
        assert(before.pending =~= after.pending.subrange(0, before.pending.len() as int));
    }
}

proof fn lemma_partitions_grow(turn: Producing, topic: Seq<char>, count: nat, request: Seq<u8>)
    ensures
        grown(turn.broker, produced_partitions(turn, topic, count, request).0.broker),
        counted(turn.broker.logs) ==> counted(
            produced_partitions(turn, topic, count, request).0.broker.logs,
        ),
    decreases count,
{
    if count == 0 {
        lemma_grown_not_at_all(turn.broker);
    } else {
        lemma_partition_grows(turn, topic, request);
        let (next, result) = produced_partition(turn, topic, request);
        if let Ok(rest) = result {
            lemma_partitions_grow(next, topic, (count - 1) as nat, rest);
            lemma_grown_twice(
                turn.broker,
                next.broker,
                produced_partitions(next, topic, (count - 1) as nat, rest).0.broker,
            );
        }
    }
}

proof fn lemma_topics_grow(turn: Producing, count: nat, request: Seq<u8>)
    ensures
        grown(turn.broker, produced_topics(turn, count, request).0.broker),
        counted(turn.broker.logs) ==> counted(
            produced_topics(turn, count, request).0.broker.logs,
        ),
    decreases count,
{
    lemma_grown_not_at_all(turn.broker);
    if count > 0 {
        let (next, result) = produced_topic(turn, request);
        if let Ok((topic, rest)) = text_at(request) {
            if let Ok((partitions, rest)) = count_at(rest) {
                let opened = Producing {
                    answer: turn.answer + string_field(Some(topic)) + count_field(partitions),
                    ..turn
                };
                lemma_partitions_grow(opened, topic, partitions, rest);
            }
        }
        if let Ok(rest) = result {
            lemma_topics_grow(next, (count - 1) as nat, rest);
            lemma_grown_twice(
                turn.broker,
                next.broker,
                produced_topics(next, (count - 1) as nat, rest).0.broker,
            );
        }
    }
}

/// Whatever a client sends, answered or refused, a session forgets nothing:
/// every log keeps its records in their places and at most gains some behind
/// them, what waits to be handed up goes on waiting, and the addresses stay.
pub proof fn law_a_session_forgets_nothing(broker: Broker, message: Seq<u8>)
    ensures
        grown(broker, heard(broker, message).broker),
{
    lemma_heard(broker, message);
}

/// Whatever a client sends, the records of every partition go on standing at
/// their offsets.
pub proof fn law_offsets_count(broker: Broker, message: Seq<u8>)
    requires
        counted(broker.logs),
    ensures
        counted(heard(broker, message).broker.logs),
{
    lemma_heard(broker, message);
}

proof fn lemma_heard(broker: Broker, message: Seq<u8>)
    ensures
        grown(broker, heard(broker, message).broker),
        counted(broker.logs) ==> counted(heard(broker, message).broker.logs),
{
    lemma_grown_not_at_all(broker);
    if let Ok((header, body)) = header_at(message) {
        if header.api_key == API_PRODUCE {
            if let Ok((topics, rest)) = produce_head(body) {
                lemma_topics_grow(
                    Producing { broker, first: None, answer: count_field(topics) },
                    topics,
                    rest,
                );
            }
        }
    }
}

/// Only a Produce changes a session.
pub proof fn law_only_a_produce_changes_a_session(broker: Broker, message: Seq<u8>)
    requires
        header_at(message) matches Ok((header, _)) ==> header.api_key != API_PRODUCE,
    ensures
        heard(broker, message).broker == broker,
{
}

/// A request for an api that is not served is refused with its key.
pub proof fn law_an_unserved_request_is_refused(broker: Broker, api_key: int, body: Seq<u8>)
    requires
        api_key != API_PRODUCE,
        api_key != API_FETCH,
        api_key != API_METADATA,
        api_key != API_VERSIONS,
    ensures
        served(broker, api_key, body) == (Answered {
            broker,
            reply: Err(not_served(api_key)),
        }),
        not_served(api_key).message == "api key "@ + decimal(api_key) + " is not served here"@,
        !not_served(api_key).retryable,
{
}

/// Whoever asks, with a name or without, in whatever version: a request is
/// answered with what is served for its api key and its body, under the
/// correlation id that it came with.
pub proof fn law_any_request_is_answered(
    broker: Broker,
    api_key: int,
    api_version: int,
    correlation: int,
    client: Option<Seq<char>>,
    body: Seq<u8>,
)
    requires
        is_i16(api_key),
        is_i16(api_version),
        is_i32(correlation),
        is_short(client),
    ensures
        ({
            let message = be(api_key, 2) + (be(api_version, 2) + (be(correlation, 4) + text_before(
                client,
                body,
            )));
            let answered = served(broker, api_key, body);
            let after = heard(broker, message);
            &&& after.broker == answered.broker
            &&& match answered.reply {
                Ok((answer, event)) => after.reply == Ok::<
                    (Seq<u8>, Option<Happened>),
                    Failure,
                >((framed(be(correlation, 4) + answer), event)),
                Err(failure) => after.reply == Err::<(Seq<u8>, Option<Happened>), Failure>(
                    failure,
                ),
            }
        }),
{
    let named = text_before(client, body);
    let message = be(api_key, 2) + (be(api_version, 2) + (be(correlation, 4) + named));
    lemma_spans();
    lemma_signed_round_trip(api_key, 2);
    lemma_signed_round_trip(api_version, 2);
    lemma_signed_round_trip(correlation, 4);
    lemma_text(client, body);
    assert(message.subrange(0, 2) =~= be(api_key, 2));
    assert(message.subrange(4, 8) =~= be(correlation, 4));
    assert(message.skip(8) =~= named);
}

/// What a Produce hands up so far, the Stream to report first before those
/// that wait, leaving out the `waiting` ones that waited before it.
pub open spec fn handed_up(turn: Producing, waiting: nat) -> Seq<Delivery> {
    match turn.first {
        Some(first) => seq![first] + turn.broker.pending.skip(waiting as int),
        None => turn.broker.pending.skip(waiting as int),
    }
}

/// The Streams that one partition's part of a Produce brings.
pub open spec fn partition_news(turn: Producing, topic: Seq<char>, request: Seq<u8>) -> Seq<
    Delivery,
> {
    match signed_at(request, 4) {
        Ok((partition, rest)) => match bytes_at(rest) {
            Ok((set, _)) => match batches_of(payload(set)) {
                Ok(records) => announced(
                    turn.broker.peer,
                    (topic, partition),
                    placed(log_of(turn.broker.logs, (topic, partition)).len(), records),
                ),
                Err(_) => Seq::empty(),
            },
            Err(_) => Seq::empty(),
        },
        Err(_) => Seq::empty(),
    }
}

/// The Streams that the next `count` partitions of a Produce bring, one
/// partition's behind another's.
pub open spec fn partitions_news(
    turn: Producing,
    topic: Seq<char>,
    count: nat,
    request: Seq<u8>,
) -> Seq<Delivery>
    decreases count,
{
    if count == 0 {
        Seq::empty()
    } else {
        partition_news(turn, topic, request) + (match produced_partition(turn, topic, request) {
            (next, Ok(rest)) => partitions_news(next, topic, (count - 1) as nat, rest),
            _ => Seq::empty(),
        })
    }
}

/// The Streams that one topic's part of a Produce brings.
pub open spec fn topic_news(turn: Producing, request: Seq<u8>) -> Seq<Delivery> {
    match text_at(request) {
        Ok((topic, rest)) => match count_at(rest) {
            Ok((partitions, rest)) => partitions_news(turn, topic, partitions, rest),
            Err(_) => Seq::empty(),
        },
        Err(_) => Seq::empty(),
    }
}

/// The Streams that the next `count` topics of a Produce bring, one topic's
/// behind another's.
pub open spec fn topics_news(turn: Producing, count: nat, request: Seq<u8>) -> Seq<Delivery>
    decreases count,
{
    if count == 0 {
        Seq::empty()
    } else {
        topic_news(turn, request) + (match produced_topic(turn, request) {
            (next, Ok(rest)) => topics_news(next, (count - 1) as nat, rest),
            _ => Seq::empty(),
        })
    }
}

/// Whether nothing waits that came before the Stream to report first.
spec fn in_order(turn: Producing, waiting: nat) -> bool {
    &&& waiting <= turn.broker.pending.len()
    &&& turn.first is None ==> waiting == turn.broker.pending.len()
}

/// The answer so far is none of what a partition brings.
proof fn lemma_news_apart(
    turn: Producing,
    answer: Seq<u8>,
    topic: Seq<char>,
    count: nat,
    request: Seq<u8>,
)
    ensures
        partitions_news(Producing { answer, ..turn }, topic, count, request) == partitions_news(
            turn,
            topic,
            count,
            request,
        ),
    decreases count,
{
    if count > 0 {
        let (next, result) = produced_partition(turn, topic, request);
        let (other, _) = produced_partition(Producing { answer, ..turn }, topic, request);
        if let Ok(rest) = result {
            lemma_news_apart(next, other.answer, topic, (count - 1) as nat, rest);
        }
    }
}

/// What one partition brings is handed up behind what was before.
proof fn lemma_partition_handed_up(
    turn: Producing,
    topic: Seq<char>,
    request: Seq<u8>,
    waiting: nat,
)
    requires
        in_order(turn, waiting),
        produced_partition(turn, topic, request).1 is Ok,
    ensures
        in_order(produced_partition(turn, topic, request).0, waiting),
        handed_up(produced_partition(turn, topic, request).0, waiting) == handed_up(turn, waiting)
            + partition_news(turn, topic, request),
{
    let after = produced_partition(turn, topic, request).0;
    let news = partition_news(turn, topic, request);
    assert(after.broker.pending == turn.broker.pending + behind_first(turn.first, news));
    assert(after.first == or_first(turn.first, news));
    assert(handed_up(after, waiting) =~= handed_up(turn, waiting) + news);
}

proof fn lemma_partitions_handed_up(
    turn: Producing,
    topic: Seq<char>,
    count: nat,
    request: Seq<u8>,
    waiting: nat,
)
    requires
        in_order(turn, waiting),
        produced_partitions(turn, topic, count, request).1 is Ok,
    ensures
        in_order(produced_partitions(turn, topic, count, request).0, waiting),
        handed_up(produced_partitions(turn, topic, count, request).0, waiting) == handed_up(
            turn,
            waiting,
        ) + partitions_news(turn, topic, count, request),
    decreases count,
{
    let before = handed_up(turn, waiting);
    if count == 0 {
        assert(before + Seq::<Delivery>::empty() =~= before);
    } else {
        let (next, result) = produced_partition(turn, topic, request);
        let rest = result->Ok_0;
        let more = partitions_news(next, topic, (count - 1) as nat, rest);
        lemma_partition_handed_up(turn, topic, request, waiting);
        lemma_partitions_handed_up(next, topic, (count - 1) as nat, rest, waiting);
        assert(before + partition_news(turn, topic, request) + more =~= before + (partition_news(
            turn,
            topic,
            request,
        ) + more));
    }
}

proof fn lemma_topics_handed_up(turn: Producing, count: nat, request: Seq<u8>, waiting: nat)
    requires
        in_order(turn, waiting),
        produced_topics(turn, count, request).1 is Ok,
    ensures
        handed_up(produced_topics(turn, count, request).0, waiting) == handed_up(turn, waiting)
            + topics_news(turn, count, request),
    decreases count,
{
    let before = handed_up(turn, waiting);
    if count == 0 {
        assert(before + Seq::<Delivery>::empty() =~= before);
    } else {
        let (next, result) = produced_topic(turn, request);
        let behind = result->Ok_0;
        let (topic, rest) = text_at(request)->Ok_0;
        let (partitions, rest) = count_at(rest)->Ok_0;
        let opened = Producing {
            answer: turn.answer + string_field(Some(topic)) + count_field(partitions),
            ..turn
        };
        let more = topics_news(next, (count - 1) as nat, behind);
        lemma_partitions_handed_up(opened, topic, partitions, rest, waiting);
        lemma_news_apart(turn, opened.answer, topic, partitions, rest);
        lemma_topics_handed_up(next, (count - 1) as nat, behind, waiting);
        assert(before + topic_news(turn, request) + more =~= before + (topic_news(turn, request)
            + more));
    }
}

/// Every record of a Produce that is answered is handed up once, in the order
/// the partitions got them: the first is reported, and the rest wait, in
/// order, behind whatever waited before.
pub proof fn law_every_record_is_handed_up(broker: Broker, request: Seq<u8>)
    ensures
        ({
            let after = produced(broker, request);
            after.reply matches Ok((_, event)) ==> produce_head(request) matches Ok((topics, rest))
                && (match event {
                Some(Happened::Produced(first)) => seq![first],
                _ => Seq::empty(),
            }) + after.broker.pending.skip(broker.pending.len() as int) == topics_news(
                Producing { broker, first: None, answer: count_field(topics) },
                topics,
                rest,
            )
        }),
{
    if produced(broker, request).reply is Ok {
        let (topics, rest) = produce_head(request)->Ok_0;
        let start = Producing { broker, first: None, answer: count_field(topics) };
        let waiting = broker.pending.len();
        lemma_topics_handed_up(start, topics, rest, waiting);
        let end = produced_topics(start, topics, rest).0;
        let none = Seq::<Delivery>::empty();
        assert(handed_up(start, waiting) =~= none);
        assert(none + topics_news(start, topics, rest) =~= topics_news(start, topics, rest));
        assert(none + end.broker.pending.skip(waiting as int) =~= end.broker.pending.skip(
            waiting as int,
        ));
    }
}

} // verus!
