//! Produces from any client: however many topics, partitions and records one
//! carries, each record is appended to its own log as it is, its offset is
//! answered, and it is handed up as a Stream.

use vstd::prelude::*;
use vstd::utf8::encode_utf8;

use crate::error::Failure;
use crate::integer::{be, lemma_be_len, lemma_spans};
use crate::laws::exchange::lemma_taken;
use crate::laws::format::{
    are_few, bytes_before, can_load, is_i32, is_short, lemma_bytes, lemma_count, lemma_text,
    loaded_before, loads_before, produce_before, said, text_before, Load, Loaded,
};
use crate::laws::messages::law_an_integer_round_trips;
use crate::laws::sessions::handed_up;
use crate::logs::{log_of, Place};
use crate::records::{batches_of, Stored};
use crate::session::{
    behind_first, or_first, placed, produced, produced_partition, produced_partitions,
    produced_topic, produced_topics, Broker, Happened, Producing,
};
use crate::stream::{announced, Delivery};
use crate::text::decimal;
use crate::wire::{count_field, string_field};

verus! {

/// The record set of a load, an empty one where there is none.
pub open spec fn carried(load: Load) -> Seq<u8> {
    match load.set {
        Some(bytes) => bytes,
        None => Seq::empty(),
    }
}

/// Whether the record sets of a topic can all be read.
pub open spec fn all_read(topic: Loaded) -> bool {
    forall|i: int|
        0 <= i < topic.loads.len() ==> batches_of(carried(#[trigger] topic.loads[i])) is Ok
}

/// Records that a Produce brings to a place.
pub struct Part {
    pub place: Place,
    pub records: Seq<Stored>,
}

/// What one load brings.
pub open spec fn part(topic: Seq<char>, load: Load) -> Part {
    Part { place: (topic, load.partition), records: batches_of(carried(load))->Ok_0 }
}

/// What the loads of a topic bring, in order, behind `done`.
pub open spec fn with_loads(done: Seq<Part>, topic: Seq<char>, loads: Seq<Load>) -> Seq<Part>
    decreases loads.len(),
{
    if loads.len() == 0 {
        done
    } else {
        with_loads(done.push(part(topic, loads[0])), topic, loads.skip(1))
    }
}

/// What the topics of a Produce bring, in order, behind `done`.
pub open spec fn with_topics(done: Seq<Part>, topics: Seq<Loaded>) -> Seq<Part>
    decreases topics.len(),
{
    if topics.len() == 0 {
        done
    } else {
        with_topics(
            with_loads(done, said(topics[0].name), topics[0].loads),
            topics.skip(1),
        )
    }
}

/// The records that `parts` bring to `place`, in order.
pub open spec fn brought(parts: Seq<Part>, place: Place) -> Seq<Stored>
    decreases parts.len(),
{
    if parts.len() == 0 {
        Seq::empty()
    } else if parts.last().place == place {
        brought(parts.drop_last(), place) + parts.last().records
    } else {
        brought(parts.drop_last(), place)
    }
}

/// Where the next record at `place` stands, once `done` is brought.
pub open spec fn base_at(logs: Map<Place, Seq<Stored>>, done: Seq<Part>, place: Place) -> int {
    (log_of(logs, place).len() + brought(done, place).len()) as int
}

/// Whether every log, with what `parts` bring, is one that offsets can count.
pub open spec fn can_count(logs: Map<Place, Seq<Stored>>, parts: Seq<Part>) -> bool {
    forall|place: Place| (#[trigger] base_at(logs, parts, place)) <= i64::MAX
}

/// Whether `after` is `before` with `new` behind it: every record in its
/// place, with its own key and its own value, at the offset of that place.
pub open spec fn is_appended(before: Seq<Stored>, new: Seq<Stored>, after: Seq<Stored>) -> bool {
    &&& after.len() == before.len() + new.len()
    &&& forall|i: int| 0 <= i < before.len() ==> (#[trigger] after[i]) == before[i]
    &&& forall|i: int|
        before.len() <= i < after.len() ==> (#[trigger] after[i]).offset == i && after[i].key
            == new[i - before.len()].key && after[i].value == new[i - before.len()].value
}

/// The Streams that the records of `parts` are handed up as, in order.
pub open spec fn streams(
    peer: Seq<char>,
    logs: Map<Place, Seq<Stored>>,
    parts: Seq<Part>,
) -> Seq<Delivery>
    decreases parts.len(),
{
    if parts.len() == 0 {
        Seq::empty()
    } else {
        let done = parts.drop_last();
        let last = parts.last();
        streams(peer, logs, done) + Seq::new(
            last.records.len(),
            |i: int|
                Delivery {
                    origin: "kafka://"@ + peer + "/"@ + last.place.0 + "/"@ + decimal(last.place.1)
                        + "?offset="@ + decimal(base_at(logs, done, last.place) + i),
                    bytes: match last.records[i].value {
                        Some(bytes) => bytes,
                        None => Seq::empty(),
                    },
                },
        )
    }
}

/// What is answered about the loads of a topic: for each its partition, no
/// error, the offset of its first record, and no timestamp.
pub open spec fn loads_answer(
    logs: Map<Place, Seq<Stored>>,
    done: Seq<Part>,
    topic: Seq<char>,
    loads: Seq<Load>,
) -> Seq<u8>
    decreases loads.len(),
{
    if loads.len() == 0 {
        Seq::empty()
    } else {
        let one = part(topic, loads[0]);
        be(loads[0].partition, 4) + be(0, 2) + be(base_at(logs, done, one.place), 8) + be(-1, 8)
            + loads_answer(logs, done.push(one), topic, loads.skip(1))
    }
}

/// What is answered about the topics of a Produce.
pub open spec fn loaded_answer(
    logs: Map<Place, Seq<Stored>>,
    done: Seq<Part>,
    topics: Seq<Loaded>,
) -> Seq<u8>
    decreases topics.len(),
{
    if topics.len() == 0 {
        Seq::empty()
    } else {
        let name = said(topics[0].name);
        be(encode_utf8(name).len() as int, 2) + encode_utf8(name) + be(
            topics[0].loads.len() as int,
            4,
        ) + loads_answer(logs, done, name, topics[0].loads) + loaded_answer(
            logs,
            with_loads(done, name, topics[0].loads),
            topics.skip(1),
        )
    }
}

/// Appending twice is appending what both bring.
proof fn lemma_appended_twice(
    a: Seq<Stored>,
    new: Seq<Stored>,
    b: Seq<Stored>,
    more: Seq<Stored>,
    c: Seq<Stored>,
)
    requires
        is_appended(a, new, b),
        is_appended(b, more, c),
    ensures
        is_appended(a, new + more, c),
{
    assert forall|i: int| 0 <= i < a.len() implies (#[trigger] c[i]) == a[i] by {
        assert(c[i] == b[i]);
        assert(b[i] == a[i]);
    }
    assert forall|i: int| a.len() <= i < c.len() implies (#[trigger] c[i]).offset == i && c[i].key
        == (new + more)[i - a.len()].key && c[i].value == (new + more)[i - a.len()].value by {
        if i < b.len() {
            assert(c[i] == b[i]);
            assert(b[i].offset == i);
        }
    }
}

/// What was brought stays brought.
proof fn lemma_brought_more(parts: Seq<Part>, more: Seq<Part>, place: Place)
    requires
        parts.is_prefix_of(more),
    ensures
        brought(parts, place).len() <= brought(more, place).len(),
    decreases more.len(),
{
    if parts.len() == more.len() {
        assert(parts =~= more);
    } else {
        assert(parts =~= more.drop_last().subrange(0, parts.len() as int));
        lemma_brought_more(parts, more.drop_last(), place);
    }
}

/// Loads stand behind what was done.
proof fn lemma_with_loads(done: Seq<Part>, topic: Seq<char>, loads: Seq<Load>)
    ensures
        done.is_prefix_of(with_loads(done, topic, loads)),
    decreases loads.len(),
{
    if loads.len() == 0 {
        assert(done =~= done.subrange(0, done.len() as int));
    } else {
        let next = done.push(part(topic, loads[0]));
        lemma_with_loads(next, topic, loads.skip(1));
        let all = with_loads(done, topic, loads);
        assert(done =~= all.subrange(0, done.len() as int)) by {
            assert forall|i: int| 0 <= i < done.len() implies done[i] == all[i] by {
                assert(next[i] == all.subrange(0, next.len() as int)[i]);
            }
        }
    }
}

/// Topics stand behind what was done.
proof fn lemma_with_topics(done: Seq<Part>, topics: Seq<Loaded>)
    ensures
        done.is_prefix_of(with_topics(done, topics)),
    decreases topics.len(),
{
    if topics.len() == 0 {
        assert(done =~= done.subrange(0, done.len() as int));
    } else {
        let next = with_loads(done, said(topics[0].name), topics[0].loads);
        lemma_with_loads(done, said(topics[0].name), topics[0].loads);
        lemma_with_topics(next, topics.skip(1));
        let all = with_topics(done, topics);
        assert(done =~= all.subrange(0, done.len() as int)) by {
            assert forall|i: int| 0 <= i < done.len() implies done[i] == all[i] by {
                assert(done[i] == next.subrange(0, done.len() as int)[i]);
                assert(next[i] == all.subrange(0, next.len() as int)[i]);
            }
        }
    }
}

/// Fewer parts can be counted where more can.
proof fn lemma_can_count_fewer(
    logs: Map<Place, Seq<Stored>>,
    parts: Seq<Part>,
    more: Seq<Part>,
)
    requires
        can_count(logs, more),
        parts.is_prefix_of(more),
    ensures
        can_count(logs, parts),
{
    assert forall|place: Place| (#[trigger] base_at(logs, parts, place)) <= i64::MAX by {
        lemma_brought_more(parts, more, place);
        assert(base_at(logs, more, place) <= i64::MAX);
    }
}

/// What holds of a Produce half way through, once `done` is brought to the
/// session that `start` was.
spec fn holds(start: Broker, turn: Producing, done: Seq<Part>) -> bool {
    &&& turn.broker.peer == start.peer
    &&& turn.broker.local == start.local
    &&& forall|place: Place|
        is_appended(
            log_of(start.logs, place),
            brought(done, place),
            #[trigger] log_of(turn.broker.logs, place),
        )
    &&& start.pending.is_prefix_of(turn.broker.pending)
    &&& turn.first is None ==> turn.broker.pending.len() == start.pending.len()
    &&& handed_up(turn, start.pending.len()) == streams(start.peer, start.logs, done)
}

/// One load is appended, handed up and answered.
proof fn lemma_load(
    start: Broker,
    turn: Producing,
    done: Seq<Part>,
    topic: Seq<char>,
    load: Load,
    rest: Seq<u8>,
)
    requires
        holds(start, turn, done),
        is_i32(load.partition),
        are_few(load.set),
        batches_of(carried(load)) is Ok,
        can_count(start.logs, done.push(part(topic, load))),
    ensures
        ({
            let one = part(topic, load);
            let (next, result) = produced_partition(
                turn,
                topic,
                be(load.partition, 4) + bytes_before(load.set, rest),
            );
            &&& result == Ok::<Seq<u8>, Failure>(rest)
            &&& holds(start, next, done.push(one))
            &&& next.answer == turn.answer + be(load.partition, 4) + be(0, 2) + be(
                base_at(start.logs, done, one.place),
                8,
            ) + be(-1, 8)
        }),
{
    let one = part(topic, load);
    let all = done.push(one);
    let place = one.place;
    let records = one.records;
    let behind = bytes_before(load.set, rest);
    lemma_spans();
    law_an_integer_round_trips(load.partition, 4, behind);
    lemma_bytes(load.set, rest);
    let (next, result) = produced_partition(turn, topic, be(load.partition, 4) + behind);
    let log = log_of(turn.broker.logs, place);
    let more = placed(log.len(), records);
    let news = announced(turn.broker.peer, place, more);
    assert(all.drop_last() =~= done);
    assert(all.last() == one);
    assert(brought(all, place) == brought(done, place) + records);
    assert(is_appended(log_of(start.logs, place), brought(done, place), log));
    assert(log.len() == base_at(start.logs, done, place));
    assert(base_at(start.logs, all, place) <= i64::MAX);
    assert(next.broker.logs == turn.broker.logs.insert(place, log + more));
    assert forall|p: Place|
        is_appended(
            log_of(start.logs, p),
            brought(all, p),
            #[trigger] log_of(next.broker.logs, p),
        ) by {
        assert(is_appended(
            log_of(start.logs, p),
            brought(done, p),
            log_of(turn.broker.logs, p),
        ));
        if p == place {
            assert(is_appended(log, records, log + more));
            lemma_appended_twice(
                log_of(start.logs, p),
                brought(done, p),
                log,
                records,
                log + more,
            );
        } else {
            assert(brought(all, p) == brought(done, p));
        }
    }
    let waiting = start.pending.len();
    assert(next.broker.pending == turn.broker.pending + behind_first(turn.first, news));
    assert(next.first == or_first(turn.first, news));
    assert(handed_up(next, waiting) =~= handed_up(turn, waiting) + news);
    assert(news =~= streams(start.peer, start.logs, all).skip(
        streams(start.peer, start.logs, done).len() as int,
    ));
    assert(streams(start.peer, start.logs, all) =~= streams(start.peer, start.logs, done) + news);
    assert(start.pending =~= next.broker.pending.subrange(0, waiting as int)) by {
        assert(start.pending == turn.broker.pending.subrange(0, waiting as int));
    }
}

/// All loads of a topic are appended, handed up and answered, in order.
proof fn lemma_loads(
    start: Broker,
    turn: Producing,
    done: Seq<Part>,
    topic: Seq<char>,
    loads: Seq<Load>,
    rest: Seq<u8>,
)
    requires
        holds(start, turn, done),
        forall|i: int|
            0 <= i < loads.len() ==> is_i32((#[trigger] loads[i]).partition) && are_few(
                loads[i].set,
            ) && batches_of(carried(loads[i])) is Ok,
        can_count(start.logs, with_loads(done, topic, loads)),
    ensures
        ({
            let (next, result) = produced_partitions(
                turn,
                topic,
                loads.len(),
                loads_before(loads, rest),
            );
            &&& result == Ok::<Seq<u8>, Failure>(rest)
            &&& holds(start, next, with_loads(done, topic, loads))
            &&& next.answer == turn.answer + loads_answer(start.logs, done, topic, loads)
        }),
    decreases loads.len(),
{
    if loads.len() == 0 {
        assert(turn.answer + Seq::<u8>::empty() =~= turn.answer);
    } else {
        let one = part(topic, loads[0]);
        let more = loads.skip(1);
        let behind = loads_before(more, rest);
        assert(is_i32(loads[0].partition));
        assert forall|i: int| 0 <= i < more.len() implies is_i32((#[trigger] more[i]).partition)
            && are_few(more[i].set) && batches_of(carried(more[i])) is Ok by {
            assert(more[i] == loads[i + 1]);
        }
        lemma_with_loads(done.push(one), topic, more);
        lemma_can_count_fewer(start.logs, done.push(one), with_loads(done, topic, loads));
        lemma_load(start, turn, done, topic, loads[0], behind);
        let next = produced_partition(
            turn,
            topic,
            be(loads[0].partition, 4) + bytes_before(loads[0].set, behind),
        ).0;
        lemma_loads(start, next, done.push(one), topic, more, rest);
        lemma_answer_grows(
            turn.answer,
            be(loads[0].partition, 4),
            be(0, 2),
            be(base_at(start.logs, done, one.place), 8),
            be(-1, 8),
            loads_answer(start.logs, done.push(one), topic, more),
        );
    }
}

/// How an answer is put together does not matter.
proof fn lemma_answer_grows(
    answer: Seq<u8>,
    a: Seq<u8>,
    b: Seq<u8>,
    c: Seq<u8>,
    d: Seq<u8>,
    more: Seq<u8>,
)
    ensures
        answer + a + b + c + d + more == answer + (a + b + c + d + more),
{
    assert(answer + a + b + c + d + more =~= answer + (a + b + c + d + more));
}

/// All topics are appended, handed up and answered, in order.
proof fn lemma_loaded(
    start: Broker,
    turn: Producing,
    done: Seq<Part>,
    topics: Seq<Loaded>,
    rest: Seq<u8>,
)
    requires
        holds(start, turn, done),
        forall|i: int|
            0 <= i < topics.len() ==> can_load(#[trigger] topics[i]) && all_read(topics[i]),
        can_count(start.logs, with_topics(done, topics)),
    ensures
        ({
            let (next, result) = produced_topics(turn, topics.len(), loaded_before(topics, rest));
            &&& result == Ok::<Seq<u8>, Failure>(rest)
            &&& holds(start, next, with_topics(done, topics))
            &&& next.answer == turn.answer + loaded_answer(start.logs, done, topics)
        }),
    decreases topics.len(),
{
    if topics.len() == 0 {
        assert(turn.answer + Seq::<u8>::empty() =~= turn.answer);
    } else {
        let topic = topics[0];
        let name = said(topic.name);
        let more = topics.skip(1);
        let behind = loaded_before(more, rest);
        let loads = loads_before(topic.loads, behind);
        let count = be(topic.loads.len() as int, 4) + loads;
        assert(can_load(topic) && all_read(topic));
        assert forall|i: int| 0 <= i < more.len() implies can_load(#[trigger] more[i]) && all_read(
            more[i],
        ) by {
            assert(more[i] == topics[i + 1]);
        }
        assert forall|i: int| 0 <= i < topic.loads.len() implies is_i32(
            (#[trigger] topic.loads[i]).partition,
        ) && are_few(topic.loads[i].set) && batches_of(carried(topic.loads[i])) is Ok by {}
        let then = with_loads(done, name, topic.loads);
        lemma_with_topics(then, more);
        lemma_can_count_fewer(start.logs, then, with_topics(done, topics));
        lemma_text(topic.name, count);
        lemma_count(topic.loads.len(), loads);
        let opened = Producing {
            answer: turn.answer + string_field(Some(name)) + count_field(topic.loads.len()),
            ..turn
        };
        lemma_loads(start, opened, done, name, topic.loads, behind);
        let next = produced_topic(turn, text_before(topic.name, count)).0;
        lemma_loaded(start, next, then, more, rest);
        lemma_said_short(topic.name);
        lemma_topic_answer_grows(
            turn.answer,
            be(encode_utf8(name).len() as int, 2),
            encode_utf8(name),
            be(topic.loads.len() as int, 4),
            loads_answer(start.logs, done, name, topic.loads),
            loaded_answer(start.logs, then, more),
        );
    }
}

/// What a short string says is short.
pub(crate) proof fn lemma_said_short(text: Option<Seq<char>>)
    requires
        is_short(text),
    ensures
        encode_utf8(said(text)).len() <= i16::MAX,
{
    if text is None {
        reveal_with_fuel(encode_utf8, 1);
        assert(encode_utf8(Seq::<char>::empty()).len() == 0);
    }
}

/// How an answer is put together does not matter.
pub(crate) proof fn lemma_topic_answer_grows(
    answer: Seq<u8>,
    a: Seq<u8>,
    b: Seq<u8>,
    c: Seq<u8>,
    d: Seq<u8>,
    more: Seq<u8>,
)
    ensures
        answer + (a + b) + c + d + more == answer + (a + b + c + d + more),
{
    assert(answer + (a + b) + c + d + more =~= answer + (a + b + c + d + more));
}

/// However many topics, partitions and records a Produce carries: every log
/// that it names has the records meant for it behind those it had, in order,
/// each with its own key and value, at the offset of its place; no other log
/// changes. The offset of the first record of each part is answered. The
/// first record of all is reported, and the others wait, in order, behind
/// what waited before.
pub proof fn law_a_produce_appends_every_record(
    broker: Broker,
    transaction: Option<Seq<char>>,
    acknowledgements: int,
    timeout: int,
    topics: Seq<Loaded>,
    rest: Seq<u8>,
)
    requires
        is_short(transaction),
        topics.len() <= i32::MAX,
        forall|i: int|
            0 <= i < topics.len() ==> can_load(#[trigger] topics[i]) && all_read(topics[i]),
        can_count(broker.logs, with_topics(Seq::empty(), topics)),
    ensures
        ({
            let parts = with_topics(Seq::empty(), topics);
            let after = produced(
                broker,
                produce_before(transaction, acknowledgements, timeout, topics, rest),
            );
            &&& forall|place: Place|
                is_appended(
                    log_of(broker.logs, place),
                    brought(parts, place),
                    #[trigger] log_of(after.broker.logs, place),
                )
            &&& after.broker.peer == broker.peer
            &&& after.broker.local == broker.local
            &&& broker.pending.is_prefix_of(after.broker.pending)
            &&& after.reply matches Ok((answer, event)) && answer == be(topics.len() as int, 4)
                + loaded_answer(broker.logs, Seq::empty(), topics) + be(0, 4) && (match event {
                Some(Happened::Produced(first)) => seq![first] + after.broker.pending.skip(
                    broker.pending.len() as int,
                ) == streams(broker.peer, broker.logs, parts),
                Some(_) => false,
                None => parts_are_empty(parts) && after.broker.pending == broker.pending,
            })
        }),
{
    let none = Seq::<Part>::empty();
    let parts = with_topics(none, topics);
    let all = loaded_before(topics, rest);
    let count = be(topics.len() as int, 4) + all;
    let request = produce_before(transaction, acknowledgements, timeout, topics, rest);
    let settings = be(acknowledgements, 2) + be(timeout, 4);
    lemma_be_len(acknowledgements, 2);
    lemma_be_len(timeout, 4);
    lemma_text(transaction, be(acknowledgements, 2) + (be(timeout, 4) + count));
    assert(be(acknowledgements, 2) + (be(timeout, 4) + count) =~= settings + count);
    lemma_taken(settings, count);
    lemma_count(topics.len(), all);
    let start = Producing { broker, first: None, answer: count_field(topics.len()) };
    let waiting = broker.pending.len();
    assert(broker.pending =~= broker.pending.subrange(0, waiting as int));
    assert(handed_up(start, waiting) =~= streams(broker.peer, broker.logs, none));
    assert forall|place: Place|
        is_appended(
            log_of(broker.logs, place),
            brought(none, place),
            #[trigger] log_of(start.broker.logs, place),
        ) by {}
    lemma_loaded(broker, start, none, topics, rest);
    let end = produced_topics(start, topics.len(), all).0;
    if end.first is None {
        assert(end.broker.pending.skip(waiting as int) =~= Seq::<Delivery>::empty());
        lemma_no_streams(broker.peer, broker.logs, parts);
        assert(end.broker.pending =~= broker.pending);
    }
}

/// Whether `parts` bring no record at all.
pub open spec fn parts_are_empty(parts: Seq<Part>) -> bool {
    forall|i: int| 0 <= i < parts.len() ==> (#[trigger] parts[i]).records.len() == 0
}

/// Where no Stream is handed up, no record was brought.
proof fn lemma_no_streams(peer: Seq<char>, logs: Map<Place, Seq<Stored>>, parts: Seq<Part>)
    requires
        streams(peer, logs, parts).len() == 0,
    ensures
        parts_are_empty(parts),
    decreases parts.len(),
{
    if parts.len() > 0 {
        lemma_no_streams(peer, logs, parts.drop_last());
        assert forall|i: int| 0 <= i < parts.len() implies (#[trigger] parts[i]).records.len()
            == 0 by {
            if i < parts.len() - 1 {
                assert(parts.drop_last()[i] == parts[i]);
            }
        }
    }
}

/// Partitions that were taken leave the others to be taken.
proof fn lemma_partitions_split(
    turn: Producing,
    topic: Seq<char>,
    count: nat,
    more: nat,
    request: Seq<u8>,
)
    requires
        produced_partitions(turn, topic, count, request).1 is Ok,
    ensures
        ({
            let (next, result) = produced_partitions(turn, topic, count, request);
            produced_partitions(turn, topic, count + more, request) == produced_partitions(
                next,
                topic,
                more,
                result->Ok_0,
            )
        }),
    decreases count,
{
    if count > 0 {
        let (next, result) = produced_partition(turn, topic, request);
        lemma_partitions_split(next, topic, (count - 1) as nat, more, result->Ok_0);
    }
}

/// Topics that were taken leave the others to be taken.
proof fn lemma_topics_split(turn: Producing, count: nat, more: nat, request: Seq<u8>)
    requires
        produced_topics(turn, count, request).1 is Ok,
    ensures
        ({
            let (next, result) = produced_topics(turn, count, request);
            produced_topics(turn, count + more, request) == produced_topics(
                next,
                more,
                result->Ok_0,
            )
        }),
    decreases count,
{
    if count > 0 {
        let (next, result) = produced_topic(turn, request);
        lemma_topics_split(next, (count - 1) as nat, more, result->Ok_0);
    }
}

/// A Produce that carries a record set that cannot be read is refused for
/// that, and what it brought before stays appended, each record as it is.
pub proof fn law_what_came_before_a_broken_set_stays(
    broker: Broker,
    transaction: Option<Seq<char>>,
    acknowledgements: int,
    timeout: int,
    topics: Seq<Loaded>,
    more_topics: nat,
    broken: Loaded,
    more_loads: nat,
    load: Load,
    rest: Seq<u8>,
)
    requires
        is_short(transaction),
        topics.len() + 1 + more_topics <= i32::MAX,
        broken.loads.len() + 1 + more_loads <= i32::MAX,
        forall|i: int|
            0 <= i < topics.len() ==> can_load(#[trigger] topics[i]) && all_read(topics[i]),
        can_load(broken),
        all_read(broken),
        is_i32(load.partition),
        are_few(load.set),
        batches_of(carried(load)) is Err,
        can_count(broker.logs, with_topics(Seq::empty(), topics.push(broken))),
    ensures
        ({
            let parts = with_topics(Seq::empty(), topics.push(broken));
            let request = text_before(
                transaction,
                be(acknowledgements, 2) + (be(timeout, 4) + (be(
                    (topics.len() + 1 + more_topics) as int,
                    4,
                ) + loaded_before(
                    topics,
                    text_before(
                        broken.name,
                        be((broken.loads.len() + 1 + more_loads) as int, 4) + loads_before(
                            broken.loads,
                            be(load.partition, 4) + bytes_before(load.set, rest),
                        ),
                    ),
                ))),
            );
            let after = produced(broker, request);
            &&& after.reply == Err::<(Seq<u8>, Option<Happened>), Failure>(
                batches_of(carried(load))->Err_0,
            )
            &&& forall|place: Place|
                is_appended(
                    log_of(broker.logs, place),
                    brought(parts, place),
                    #[trigger] log_of(after.broker.logs, place),
                )
        }),
{
    let none = Seq::<Part>::empty();
    let name = said(broken.name);
    let unread = be(load.partition, 4) + bytes_before(load.set, rest);
    let loads = loads_before(broken.loads, unread);
    let loads_count = broken.loads.len() + 1 + more_loads;
    let named = text_before(broken.name, be(loads_count as int, 4) + loads);
    let all = loaded_before(topics, named);
    let topics_count = topics.len() + 1 + more_topics;
    let count = be(topics_count as int, 4) + all;
    let settings = be(acknowledgements, 2) + be(timeout, 4);
    lemma_be_len(acknowledgements, 2);
    lemma_be_len(timeout, 4);
    lemma_text(transaction, be(acknowledgements, 2) + (be(timeout, 4) + count));
    assert(be(acknowledgements, 2) + (be(timeout, 4) + count) =~= settings + count);
    lemma_taken(settings, count);
    lemma_count(topics_count, all);
    let start = Producing { broker, first: None, answer: count_field(topics_count) };
    assert(holds(broker, start, none)) by {
        let waiting = broker.pending.len();
        assert(broker.pending =~= broker.pending.subrange(0, waiting as int));
        assert(handed_up(start, waiting) =~= streams(broker.peer, broker.logs, none));
    }
    let whole = with_topics(none, topics);
    let parts = with_loads(whole, name, broken.loads);
    lemma_with_topics_push(none, topics, broken);
    lemma_with_loads(whole, name, broken.loads);
    lemma_can_count_fewer(broker.logs, whole, parts);
    lemma_loaded(broker, start, none, topics, named);
    lemma_topics_split(start, topics.len(), 1 + more_topics, all);
    let next = produced_topics(start, topics.len(), all).0;
    lemma_text(broken.name, be(loads_count as int, 4) + loads);
    lemma_count(loads_count, loads);
    let opened = Producing {
        answer: next.answer + string_field(Some(name)) + count_field(loads_count),
        ..next
    };
    assert forall|i: int| 0 <= i < broken.loads.len() implies is_i32(
        (#[trigger] broken.loads[i]).partition,
    ) && are_few(broken.loads[i].set) && batches_of(carried(broken.loads[i])) is Ok by {}
    lemma_loads(broker, opened, whole, name, broken.loads, unread);
    lemma_partitions_split(opened, name, broken.loads.len(), 1 + more_loads, loads);
    let last = produced_partitions(opened, name, broken.loads.len(), loads).0;
    lemma_spans();
    law_an_integer_round_trips(load.partition, 4, bytes_before(load.set, rest));
    lemma_bytes(load.set, rest);
    let failure = batches_of(carried(load))->Err_0;
    assert(produced_partitions(last, name, 1 + more_loads, unread) == (
        last,
        Err::<Seq<u8>, Failure>(failure),
    ));
    assert(produced_topics(next, 1 + more_topics, named) == (
        last,
        Err::<Seq<u8>, Failure>(failure),
    ));
}

/// One topic more stands behind the others.
proof fn lemma_with_topics_push(done: Seq<Part>, topics: Seq<Loaded>, last: Loaded)
    ensures
        with_topics(done, topics.push(last)) == with_loads(
            with_topics(done, topics),
            said(last.name),
            last.loads,
        ),
    decreases topics.len(),
{
    let all = topics.push(last);
    if topics.len() == 0 {
        assert(all[0] == last);
        assert(all.skip(1) =~= Seq::<Loaded>::empty());
        assert(with_topics(with_loads(done, said(last.name), last.loads), all.skip(1))
            == with_loads(done, said(last.name), last.loads));
    } else {
        assert(all[0] == topics[0]);
        assert(all.skip(1) =~= topics.skip(1).push(last));
        lemma_with_topics_push(
            with_loads(done, said(topics[0].name), topics[0].loads),
            topics.skip(1),
            last,
        );
    }
}

} // verus!
