//! Fetches and Metadata requests from any client: however many topics and
//! partitions one asks for, each is answered, in order.

use vstd::prelude::*;
use vstd::utf8::encode_utf8;

use crate::client::{fetch_body, metadata_body, produce_body};
use crate::error::Failure;
use crate::integer::{be, lemma_be_len, lemma_signed_round_trip, lemma_spans};
use crate::laws::batches::{law_a_batch_round_trips, written};
use crate::laws::exchange::{lemma_batch_length, lemma_taken};
use crate::laws::format::{
    asked_before, asks_before, brokers_before, can_ask, fetch_before, is_i32, is_i64, is_short,
    lemma_count, lemma_text, loaded_before, loads_before, metadata_before, names_before,
    node_before, nodes_before, partition_before, partitions_before, produce_before, said,
    text_before, told_before, topics_before, Ask, Asked, Load, Loaded, Node, Partition, Told,
};
use crate::laws::grouping::lemma_group_7;
use crate::laws::produces::{lemma_said_short, lemma_topic_answer_grows};
use crate::logs::{log_of, Place};
use crate::records::{batch_bytes, batches_of, Fields, Stored};
use crate::session::{
    as_offset, broker_answer, described, entries_of, fetch_head, fetched, fetched_partition,
    fetched_partitions, fetched_topic, fetched_topics, host_and_port, names_at, read_from, record_set, topic_answer, topic_answers, Answered, Broker, Fetching, Happened,
};
use crate::wire::{bytes_field, count_field, string_field};

verus! {

/// What is answered about one partition: how many records it has, and the
/// record set.
pub struct Share {
    pub partition: int,
    pub high: int,
    pub set: Seq<u8>,
}

/// What is answered about one topic.
pub struct Shared {
    pub name: Seq<char>,
    pub shares: Seq<Share>,
}

/// The answer about partitions: for each its number, no error, how many
/// records it has, up to where they are stable, no aborted transactions, and
/// the record set.
pub open spec fn shares_bytes(shares: Seq<Share>) -> Seq<u8>
    decreases shares.len(),
{
    if shares.len() == 0 {
        Seq::empty()
    } else {
        let one = shares[0];
        be(one.partition, 4) + be(0, 2) + be(one.high, 8) + be(one.high, 8) + be(0, 4) + (be(
            one.set.len() as int,
            4,
        ) + one.set) + shares_bytes(shares.skip(1))
    }
}

/// The answer about topics.
pub open spec fn shared_bytes(topics: Seq<Shared>) -> Seq<u8>
    decreases topics.len(),
{
    if topics.len() == 0 {
        Seq::empty()
    } else {
        let one = topics[0];
        be(encode_utf8(one.name).len() as int, 2) + encode_utf8(one.name) + be(
            one.shares.len() as int,
            4,
        ) + shares_bytes(one.shares) + shared_bytes(topics.skip(1))
    }
}

/// The records that are asked for: those of the log from the offset on, all
/// of them from before the beginning.
pub open spec fn wanted(log: Seq<Stored>, offset: int) -> Seq<Stored> {
    if offset < 0 {
        log
    } else if offset <= log.len() {
        log.skip(offset)
    } else {
        Seq::empty()
    }
}

/// Whether `share` answers `ask`: for its partition, with a record set that is
/// read as the records of the log from the offset on.
pub open spec fn is_share(
    logs: Map<Place, Seq<Stored>>,
    topic: Seq<char>,
    ask: Ask,
    share: Share,
) -> bool {
    let log = log_of(logs, (topic, ask.partition));
    &&& share.partition == ask.partition
    &&& share.high == log.len()
    &&& batches_of(share.set) == Ok::<Seq<Stored>, Failure>(wanted(log, ask.offset))
}

/// Whether `shared` answers `asked`: for its topic, with each of its
/// partitions in order.
pub open spec fn is_shared(logs: Map<Place, Seq<Stored>>, asked: Asked, shared: Shared) -> bool {
    &&& shared.name == said(asked.name)
    &&& shared.shares.len() == asked.asks.len()
    &&& forall|i: int|
        0 <= i < asked.asks.len() ==> is_share(
            logs,
            said(asked.name),
            asked.asks[i],
            #[trigger] shared.shares[i],
        )
}

/// Whether a log's records stand at their offsets, as many as can be counted.
pub open spec fn is_counted(log: Seq<Stored>) -> bool {
    &&& log.len() <= i64::MAX
    &&& forall|i: int| 0 <= i < log.len() ==> (#[trigger] log[i]).offset == i
}

/// Whether what a topic's part of a Fetch asks for can be answered: the logs
/// counted, and no record set longer than its length field can say.
pub open spec fn can_share(logs: Map<Place, Seq<Stored>>, asked: Asked) -> bool {
    forall|i: int|
        0 <= i < asked.asks.len() ==> is_counted(
            log_of(logs, (said(asked.name), (#[trigger] asked.asks[i]).partition)),
        ) && record_set(
            log_of(logs, (said(asked.name), asked.asks[i].partition)),
            asked.asks[i].offset,
        ).len() <= i32::MAX
}

/// A record set is read as the records asked for.
proof fn lemma_set(log: Seq<Stored>, offset: int)
    requires
        is_counted(log),
        record_set(log, offset).len() <= i32::MAX,
    ensures
        batches_of(record_set(log, offset)) == Ok::<Seq<Stored>, Failure>(wanted(log, offset)),
{
    let from = read_from(log.len(), offset);
    let entries = entries_of(log.skip(from));
    if entries.len() == 0 {
        assert(wanted(log, offset) =~= Seq::<Stored>::empty());
    } else {
        let base = as_offset(from as nat);
        lemma_batch_length(base, entries);
        law_a_batch_round_trips(base, entries);
        let read = written(base, entries);
        assert forall|i: int| 0 <= i < read.len() implies read[i] == #[trigger] log.skip(
            from,
        )[i] by {
            assert(log[from + i].offset == from + i);
        }
        assert(read =~= log.skip(from));
        assert(log.skip(0) =~= log);
    }
}

/// What is answered to `ask`.
spec fn share(logs: Map<Place, Seq<Stored>>, topic: Seq<char>, ask: Ask) -> Share {
    let log = log_of(logs, (topic, ask.partition));
    Share {
        partition: ask.partition,
        high: log.len() as int,
        set: record_set(log, ask.offset),
    }
}

/// What is answered to `asks`.
spec fn shares(logs: Map<Place, Seq<Stored>>, topic: Seq<char>, asks: Seq<Ask>) -> Seq<Share> {
    Seq::new(asks.len(), |i: int| share(logs, topic, asks[i]))
}

/// What is answered to `asked`.
spec fn shared(logs: Map<Place, Seq<Stored>>, asked: Asked) -> Shared {
    Shared { name: said(asked.name), shares: shares(logs, said(asked.name), asked.asks) }
}

/// What is answered to `topics`.
spec fn all_shared(logs: Map<Place, Seq<Stored>>, topics: Seq<Asked>) -> Seq<Shared> {
    Seq::new(topics.len(), |i: int| shared(logs, topics[i]))
}

/// What was fetched last, `last` where nothing more was asked for.
spec fn last_of(last: Option<Happened>, topic: Seq<char>, asks: Seq<Ask>) -> Option<Happened> {
    if asks.len() == 0 {
        last
    } else {
        Some(Happened::Fetched { topic, offset: asks.last().offset })
    }
}

/// What was fetched last of all, `last` where nothing more was asked for.
spec fn last_of_all(last: Option<Happened>, topics: Seq<Asked>) -> Option<Happened>
    decreases topics.len(),
{
    if topics.len() == 0 {
        last
    } else {
        last_of_all(last_of(last, said(topics[0].name), topics[0].asks), topics.skip(1))
    }
}

/// One partition is answered.
proof fn lemma_ask(broker: Broker, turn: Fetching, topic: Seq<char>, ask: Ask, rest: Seq<u8>)
    requires
        is_i32(ask.partition),
        is_i64(ask.offset),
        log_of(broker.logs, (topic, ask.partition)).len() <= i64::MAX,
        record_set(log_of(broker.logs, (topic, ask.partition)), ask.offset).len() <= i32::MAX,
    ensures
        ({
            let one = share(broker.logs, topic, ask);
            fetched_partition(
                broker,
                turn,
                topic,
                be(ask.partition, 4) + (be(ask.offset, 8) + (be(ask.most, 4) + rest)),
            ) == Ok::<(Fetching, Seq<u8>), Failure>(
                (
                    Fetching {
                        answer: turn.answer + (be(one.partition, 4) + be(0, 2) + be(one.high, 8)
                            + be(one.high, 8) + be(0, 4) + (be(one.set.len() as int, 4)
                            + one.set)),
                        fetched: Some(Happened::Fetched { topic, offset: ask.offset }),
                    },
                    rest,
                ),
            )
        }),
{
    let request = be(ask.partition, 4) + (be(ask.offset, 8) + (be(ask.most, 4) + rest));
    lemma_spans();
    lemma_signed_round_trip(ask.partition, 4);
    lemma_signed_round_trip(ask.offset, 8);
    lemma_be_len(ask.most, 4);
    assert(request.take(4) =~= be(ask.partition, 4));
    assert(request.subrange(4, 12) =~= be(ask.offset, 8));
    assert(request.skip(16) =~= rest);
}

/// How an answer is put together does not matter.
proof fn lemma_answer_grows(answer: Seq<u8>, one: Seq<u8>, more: Seq<u8>)
    ensures
        answer + one + more == answer + (one + more),
{
    assert(answer + one + more =~= answer + (one + more));
}

/// All partitions of a topic are answered, in order.
proof fn lemma_asks(
    broker: Broker,
    turn: Fetching,
    topic: Seq<char>,
    asks: Seq<Ask>,
    rest: Seq<u8>,
)
    requires
        forall|i: int|
            0 <= i < asks.len() ==> is_i32((#[trigger] asks[i]).partition) && is_i64(
                asks[i].offset,
            ) && log_of(broker.logs, (topic, asks[i].partition)).len() <= i64::MAX && record_set(
                log_of(broker.logs, (topic, asks[i].partition)),
                asks[i].offset,
            ).len() <= i32::MAX,
    ensures
        fetched_partitions(broker, turn, topic, asks.len(), asks_before(asks, rest)) == Ok::<
            (Fetching, Seq<u8>),
            Failure,
        >(
            (
                Fetching {
                    answer: turn.answer + shares_bytes(shares(broker.logs, topic, asks)),
                    fetched: last_of(turn.fetched, topic, asks),
                },
                rest,
            ),
        ),
    decreases asks.len(),
{
    let all = shares(broker.logs, topic, asks);
    if asks.len() == 0 {
        assert(turn.answer + Seq::<u8>::empty() =~= turn.answer);
    } else {
        let more = asks.skip(1);
        let behind = asks_before(more, rest);
        assert(is_i32(asks[0].partition));
        assert forall|i: int| 0 <= i < more.len() implies is_i32((#[trigger] more[i]).partition)
            && is_i64(more[i].offset) && log_of(broker.logs, (topic, more[i].partition)).len()
            <= i64::MAX && record_set(
            log_of(broker.logs, (topic, more[i].partition)),
            more[i].offset,
        ).len() <= i32::MAX by {
            assert(more[i] == asks[i + 1]);
        }
        lemma_ask(broker, turn, topic, asks[0], behind);
        let one = share(broker.logs, topic, asks[0]);
        let bytes = be(one.partition, 4) + be(0, 2) + be(one.high, 8) + be(one.high, 8) + be(0, 4)
            + (be(one.set.len() as int, 4) + one.set);
        let next = Fetching {
            answer: turn.answer + bytes,
            fetched: Some(Happened::Fetched { topic, offset: asks[0].offset }),
        };
        lemma_asks(broker, next, topic, more, rest);
        assert(all[0] == one);
        assert(all.skip(1) =~= shares(broker.logs, topic, more));
        lemma_answer_grows(turn.answer, bytes, shares_bytes(shares(broker.logs, topic, more)));
        assert(last_of(next.fetched, topic, more) == last_of(turn.fetched, topic, asks));
    }
}

/// All topics are answered, in order.
proof fn lemma_asked(broker: Broker, turn: Fetching, topics: Seq<Asked>, rest: Seq<u8>)
    requires
        forall|i: int|
            0 <= i < topics.len() ==> can_ask(#[trigger] topics[i]) && can_share(
                broker.logs,
                topics[i],
            ),
    ensures
        fetched_topics(broker, turn, topics.len(), asked_before(topics, rest)) == Ok::<
            (Fetching, Seq<u8>),
            Failure,
        >(
            (
                Fetching {
                    answer: turn.answer + shared_bytes(all_shared(broker.logs, topics)),
                    fetched: last_of_all(turn.fetched, topics),
                },
                rest,
            ),
        ),
    decreases topics.len(),
{
    let all = all_shared(broker.logs, topics);
    if topics.len() == 0 {
        assert(turn.answer + Seq::<u8>::empty() =~= turn.answer);
    } else {
        let topic = topics[0];
        let name = said(topic.name);
        let more = topics.skip(1);
        let behind = asked_before(more, rest);
        let asks = asks_before(topic.asks, behind);
        let count = be(topic.asks.len() as int, 4) + asks;
        assert(can_ask(topic) && can_share(broker.logs, topic));
        assert forall|i: int| 0 <= i < more.len() implies can_ask(#[trigger] more[i]) && can_share(
            broker.logs,
            more[i],
        ) by {
            assert(more[i] == topics[i + 1]);
        }
        lemma_text(topic.name, count);
        lemma_count(topic.asks.len(), asks);
        let opened = Fetching {
            answer: turn.answer + string_field(Some(name)) + count_field(topic.asks.len()),
            ..turn
        };
        lemma_asks(broker, opened, name, topic.asks, behind);
        let own = shares_bytes(shares(broker.logs, name, topic.asks));
        let next = Fetching {
            answer: opened.answer + own,
            fetched: last_of(turn.fetched, name, topic.asks),
        };
        assert(fetched_topic(broker, turn, text_before(topic.name, count)) == Ok::<
            (Fetching, Seq<u8>),
            Failure,
        >((next, behind)));
        lemma_asked(broker, next, more, rest);
        lemma_said_short(topic.name);
        assert(all[0] == shared(broker.logs, topic));
        assert(all.skip(1) =~= all_shared(broker.logs, more));
        lemma_topic_answer_grows(
            turn.answer,
            be(encode_utf8(name).len() as int, 2),
            encode_utf8(name),
            be(topic.asks.len() as int, 4),
            own,
            shared_bytes(all_shared(broker.logs, more)),
        );
    }
}

/// Where nothing is asked for, what was fetched last stays.
proof fn lemma_last_stays(last: Option<Happened>, topics: Seq<Asked>)
    requires
        forall|i: int| 0 <= i < topics.len() ==> (#[trigger] topics[i]).asks.len() == 0,
    ensures
        last_of_all(last, topics) == last,
    decreases topics.len(),
{
    if topics.len() > 0 {
        let more = topics.skip(1);
        assert(topics[0].asks.len() == 0);
        assert forall|i: int| 0 <= i < more.len() implies (#[trigger] more[i]).asks.len() == 0 by {
            assert(more[i] == topics[i + 1]);
        }
        lemma_last_stays(last, more);
    }
}

/// What was fetched last is the last partition of the last topic of which any
/// was asked for.
proof fn lemma_last(last: Option<Happened>, topics: Seq<Asked>, at: int)
    requires
        0 <= at < topics.len(),
        topics[at].asks.len() > 0,
        forall|i: int| at < i < topics.len() ==> (#[trigger] topics[i]).asks.len() == 0,
    ensures
        last_of_all(last, topics) == Some(
            Happened::Fetched {
                topic: said(topics[at].name),
                offset: topics[at].asks.last().offset,
            },
        ),
    decreases at,
{
    let more = topics.skip(1);
    let next = last_of(last, said(topics[0].name), topics[0].asks);
    if at == 0 {
        assert forall|i: int| 0 <= i < more.len() implies (#[trigger] more[i]).asks.len() == 0 by {
            assert(more[i] == topics[i + 1]);
        }
        lemma_last_stays(next, more);
    } else {
        assert(more[at - 1] == topics[at]);
        assert forall|i: int| at - 1 < i < more.len() implies (#[trigger] more[i]).asks.len()
            == 0 by {
            assert(more[i] == topics[i + 1]);
        }
        lemma_last(next, more, at - 1);
    }
}

/// However many topics and partitions a Fetch asks for: the answer tells of as
/// many topics, in the same order, each with as many partitions, in the same
/// order, and each of these carries a record set that is read as the records
/// of its own log from the offset asked for on. The session stays as it is.
pub proof fn law_a_fetch_answers_every_partition(
    broker: Broker,
    replica: int,
    wait: int,
    least: int,
    most: int,
    isolation: int,
    topics: Seq<Asked>,
    rest: Seq<u8>,
) -> (answers: Seq<Shared>)
    requires
        topics.len() <= i32::MAX,
        forall|i: int|
            0 <= i < topics.len() ==> can_ask(#[trigger] topics[i]) && can_share(
                broker.logs,
                topics[i],
            ),
    ensures
        answers.len() == topics.len(),
        forall|i: int|
            0 <= i < topics.len() ==> is_shared(broker.logs, topics[i], #[trigger] answers[i]),
        ({
            let after = fetched(
                broker,
                fetch_before(replica, wait, least, most, isolation, topics, rest),
            );
            &&& after.broker == broker
            &&& after.reply matches Ok((answer, event)) && answer == be(0, 4) + be(
                topics.len() as int,
                4,
            ) + shared_bytes(answers)
        }),
{
    let all = asked_before(topics, rest);
    lemma_fetch_settings(replica, wait, least, most, isolation, topics, rest);
    lemma_asked(
        broker,
        Fetching { answer: be(0, 4) + count_field(topics.len()), fetched: None },
        topics,
        rest,
    );
    let answers = all_shared(broker.logs, topics);
    assert forall|i: int| 0 <= i < topics.len() implies is_shared(
        broker.logs,
        topics[i],
        #[trigger] answers[i],
    ) by {
        let name = said(topics[i].name);
        assert(can_share(broker.logs, topics[i]));
        assert forall|k: int| 0 <= k < topics[i].asks.len() implies is_share(
            broker.logs,
            name,
            topics[i].asks[k],
            #[trigger] answers[i].shares[k],
        ) by {
            let ask = topics[i].asks[k];
            lemma_set(log_of(broker.logs, (name, ask.partition)), ask.offset);
        }
    }
    answers
}

/// What stands before the topics of a Fetch is passed over.
proof fn lemma_fetch_settings(
    replica: int,
    wait: int,
    least: int,
    most: int,
    isolation: int,
    topics: Seq<Asked>,
    rest: Seq<u8>,
)
    requires
        topics.len() <= i32::MAX,
    ensures
        fetch_head(fetch_before(replica, wait, least, most, isolation, topics, rest)) == Ok::<
            (nat, Seq<u8>),
            Failure,
        >((topics.len(), asked_before(topics, rest))),
{
    let all = asked_before(topics, rest);
    let count = be(topics.len() as int, 4) + all;
    let settings = be(replica, 4) + be(wait, 4) + be(least, 4) + be(most, 4) + be(isolation, 1);
    lemma_be_len(replica, 4);
    lemma_be_len(wait, 4);
    lemma_be_len(least, 4);
    lemma_be_len(most, 4);
    lemma_be_len(isolation, 1);
    assert(fetch_before(replica, wait, least, most, isolation, topics, rest) =~= settings + count);
    lemma_taken(settings, count);
    lemma_count(topics.len(), all);
}

/// What is reported of a Fetch is the last partition asked for: that of the
/// last topic of which any partition was.
pub proof fn law_the_last_partition_fetched_is_reported(
    broker: Broker,
    replica: int,
    wait: int,
    least: int,
    most: int,
    isolation: int,
    topics: Seq<Asked>,
    rest: Seq<u8>,
    at: int,
)
    requires
        topics.len() <= i32::MAX,
        forall|i: int|
            0 <= i < topics.len() ==> can_ask(#[trigger] topics[i]) && can_share(
                broker.logs,
                topics[i],
            ),
        0 <= at < topics.len(),
        topics[at].asks.len() > 0,
        forall|i: int| at < i < topics.len() ==> (#[trigger] topics[i]).asks.len() == 0,
    ensures
        fetched(
            broker,
            fetch_before(replica, wait, least, most, isolation, topics, rest),
        ).reply matches Ok((_, event)) && event == Some(
            Happened::Fetched {
                topic: said(topics[at].name),
                offset: topics[at].asks.last().offset,
            },
        ),
{
    lemma_fetch_settings(replica, wait, least, most, isolation, topics, rest);
    lemma_asked(
        broker,
        Fetching { answer: be(0, 4) + count_field(topics.len()), fetched: None },
        topics,
        rest,
    );
    lemma_last(None, topics, at);
}

/// A Fetch that asks for no partition is not reported.
pub proof fn law_a_fetch_of_nothing_is_not_reported(
    broker: Broker,
    replica: int,
    wait: int,
    least: int,
    most: int,
    isolation: int,
    topics: Seq<Asked>,
    rest: Seq<u8>,
)
    requires
        topics.len() <= i32::MAX,
        forall|i: int|
            0 <= i < topics.len() ==> can_ask(#[trigger] topics[i]) && topics[i].asks.len() == 0,
    ensures
        fetched(
            broker,
            fetch_before(replica, wait, least, most, isolation, topics, rest),
        ).reply matches Ok((_, event)) && event is None,
{
    lemma_fetch_settings(replica, wait, least, most, isolation, topics, rest);
    assert forall|i: int| 0 <= i < topics.len() implies can_ask(#[trigger] topics[i]) && can_share(
        broker.logs,
        topics[i],
    ) by {}
    lemma_asked(
        broker,
        Fetching { answer: be(0, 4) + count_field(topics.len()), fetched: None },
        topics,
        rest,
    );
    lemma_last_stays(None, topics);
}

/// What is told of a topic by `name`: partition 0 alone, led, kept and in sync
/// at broker 0.
pub open spec fn led_here(name: Seq<char>) -> Told {
    Told {
        error: 0,
        name: Some(name),
        internal: 0,
        partitions: seq![
            Partition {
                error: 0,
                partition: 0,
                leader: 0,
                replicas: seq![0int],
                in_sync: seq![0int],
            },
        ],
    }
}

/// What is told of each of `names`.
pub open spec fn all_led_here(names: Seq<Seq<char>>) -> Seq<Told> {
    Seq::new(names.len(), |i: int| led_here(names[i]))
}

/// What each of `names` says.
pub open spec fn all_said(names: Seq<Option<Seq<char>>>) -> Seq<Seq<char>> {
    Seq::new(names.len(), |i: int| said(names[i]))
}

/// All names are read, in order.
proof fn lemma_names(before: Seq<Seq<char>>, names: Seq<Option<Seq<char>>>, rest: Seq<u8>)
    requires
        forall|i: int| 0 <= i < names.len() ==> is_short(#[trigger] names[i]),
    ensures
        names_at(before, names.len(), names_before(names, rest)) == Ok::<
            (Seq<Seq<char>>, Seq<u8>),
            Failure,
        >((before + all_said(names), rest)),
    decreases names.len(),
{
    if names.len() == 0 {
        assert(before + all_said(names) =~= before);
    } else {
        let more = names.skip(1);
        assert(is_short(names[0]));
        assert forall|i: int| 0 <= i < more.len() implies is_short(#[trigger] more[i]) by {
            assert(more[i] == names[i + 1]);
        }
        lemma_text(names[0], names_before(more, rest));
        lemma_names(before.push(said(names[0])), more, rest);
        assert(before.push(said(names[0])) + all_said(more) =~= before + all_said(names));
    }
}

/// The fields of a topic, however they are put together.
proof fn lemma_topic_fields(
    a: Seq<u8>,
    b: Seq<u8>,
    c: Seq<u8>,
    d: Seq<u8>,
    e: Seq<u8>,
    f: Seq<u8>,
    g: Seq<u8>,
    h: Seq<u8>,
    i: Seq<u8>,
    j: Seq<u8>,
    k: Seq<u8>,
    rest: Seq<u8>,
)
    ensures
        a + b + c + d + e + f + g + h + i + j + k + rest == a + (b + (c + (d + (e + (f + (g + (h
            + (i + (j + (k + rest)))))))))),
{
    lemma_answer_grows(a + b + c + d + e + f + g + h + i + j, k, rest);
    lemma_answer_grows(a + b + c + d + e + f + g + h + i, j, k + rest);
    lemma_answer_grows(a + b + c + d + e + f + g + h, i, j + (k + rest));
    lemma_answer_grows(a + b + c + d + e + f + g, h, i + (j + (k + rest)));
    lemma_answer_grows(a + b + c + d + e + f, g, h + (i + (j + (k + rest))));
    lemma_answer_grows(a + b + c + d + e, f, g + (h + (i + (j + (k + rest)))));
    lemma_answer_grows(a + b + c + d, e, f + (g + (h + (i + (j + (k + rest))))));
    lemma_answer_grows(a + b + c, d, e + (f + (g + (h + (i + (j + (k + rest)))))));
    lemma_answer_grows(a + b, c, d + (e + (f + (g + (h + (i + (j + (k + rest))))))));
    lemma_answer_grows(a, b, c + (d + (e + (f + (g + (h + (i + (j + (k + rest)))))))));
}

/// One topic is told of as it is.
proof fn lemma_topic_told(name: Seq<char>, rest: Seq<u8>)
    requires
        encode_utf8(name).len() <= i16::MAX,
    ensures
        topic_answer(name) + rest == told_before(led_here(name), rest),
{
    let zero = seq![0u8];
    lemma_be_len(0, 1);
    assert(be(0, 1)[0] == 0u8);
    assert(be(0, 1) =~= zero);
    lemma_topic_fields(
        be(0, 2),
        string_field(Some(name)),
        be(0, 1),
        count_field(1),
        be(0, 2),
        be(0, 4),
        be(0, 4),
        count_field(1),
        be(0, 4),
        count_field(1),
        be(0, 4),
        rest,
    );
    let told = led_here(name);
    let one = told.partitions[0];
    let none = Seq::<int>::empty();
    assert(one.in_sync.skip(1) =~= none);
    let in_sync = be(0, 4) + rest;
    assert(nodes_before(none, rest) == rest);
    assert(nodes_before(one.in_sync, rest) == in_sync);
    let replicas = be(0, 4) + (be(1, 4) + in_sync);
    assert(nodes_before(none, be(1, 4) + in_sync) == be(1, 4) + in_sync);
    assert(nodes_before(one.replicas, be(1, 4) + in_sync) == replicas);
    assert(told.partitions.skip(1) =~= Seq::<Partition>::empty());
    assert(partitions_before(told.partitions.skip(1), rest) == rest);
    let partitions = partition_before(one, rest);
    assert(partitions_before(told.partitions, rest) == partitions);
    let internal = zero + (be(1, 4) + partitions);
    lemma_answer_grows(
        be(encode_utf8(name).len() as int, 2),
        encode_utf8(name),
        internal,
    );
}

/// One topic more stands behind the others.
proof fn lemma_topics_push(topics: Seq<Told>, last: Told, rest: Seq<u8>)
    ensures
        topics_before(topics.push(last), rest) == topics_before(topics, told_before(last, rest)),
    decreases topics.len(),
{
    let all = topics.push(last);
    if topics.len() == 0 {
        assert(all[0] == last);
        assert(all.skip(1) =~= Seq::<Told>::empty());
        assert(topics_before(all.skip(1), rest) == rest);
    } else {
        assert(all[0] == topics[0]);
        assert(all.skip(1) =~= topics.skip(1).push(last));
        lemma_topics_push(topics.skip(1), last, rest);
    }
}

/// All topics are told of as they are, in order.
proof fn lemma_topics_told(names: Seq<Seq<char>>, rest: Seq<u8>)
    requires
        forall|i: int| 0 <= i < names.len() ==> encode_utf8(#[trigger] names[i]).len() <= i16::MAX,
    ensures
        topic_answers(names) + rest == topics_before(all_led_here(names), rest),
    decreases names.len(),
{
    if names.len() == 0 {
        assert(topic_answers(names) + rest =~= rest);
    } else {
        let front = names.drop_last();
        assert forall|i: int| 0 <= i < front.len() implies encode_utf8(#[trigger] front[i]).len()
            <= i16::MAX by {
            assert(front[i] == names[i]);
        }
        assert(names.last() == names[names.len() - 1]);
        lemma_topic_told(names.last(), rest);
        lemma_topics_told(front, told_before(led_here(names.last()), rest));
        lemma_answer_grows(topic_answers(front), topic_answer(names.last()), rest);
        lemma_topics_push(all_led_here(front), led_here(names.last()), rest);
        assert(all_led_here(front).push(led_here(names.last())) =~= all_led_here(names));
    }
}

/// However many topics a Metadata request asks for, the answer lists the
/// session as the one broker, at its own host and port, and tells of every
/// topic, in the same order, that it leads it. The session stays as it is,
/// and nothing is reported.
pub proof fn law_every_topic_asked_for_is_told_of(
    broker: Broker,
    names: Seq<Option<Seq<char>>>,
    rest: Seq<u8>,
)
    requires
        names.len() <= i32::MAX,
        forall|i: int| 0 <= i < names.len() ==> is_short(#[trigger] names[i]),
        encode_utf8(host_and_port(broker.local).0).len() <= i16::MAX,
    ensures
        ({
            let (host, port) = host_and_port(broker.local);
            described(broker, be(names.len() as int, 4) + names_before(names, rest)) == (Answered {
                broker,
                reply: Ok(
                    (
                        metadata_before(
                            seq![Node { node: 0, host: Some(host), port, rack: None }],
                            0,
                            all_led_here(all_said(names)),
                            Seq::empty(),
                        ),
                        None,
                    ),
                ),
            })
        }),
{
    let (host, port) = host_and_port(broker.local);
    let none = Seq::<u8>::empty();
    let all = all_said(names);
    lemma_count(names.len(), names_before(names, rest));
    lemma_names(Seq::empty(), names, rest);
    assert(Seq::<Seq<char>>::empty() + all =~= all);
    assert forall|i: int| 0 <= i < all.len() implies encode_utf8(#[trigger] all[i]).len()
        <= i16::MAX by {
        assert(is_short(names[i]));
        lemma_said_short(names[i]);
    }
    lemma_topics_told(all, none);
    assert(topic_answers(all) + none =~= topic_answers(all));
    let told = be(all.len() as int, 4) + topic_answers(all);
    let one = Node { node: 0, host: Some(host), port, rack: None };
    let brokers = seq![one];
    assert(brokers.skip(1) =~= Seq::<Node>::empty());
    let behind = be(0, 4) + told;
    assert(brokers_before(brokers.skip(1), behind) == behind);
    assert(brokers_before(brokers, behind) == node_before(one, behind));
    lemma_answer_grows(broker_answer(broker.local), be(all.len() as int, 4), topic_answers(all));
    lemma_group_7(
        count_field(1),
        be(0, 4),
        string_field(Some(host)),
        be(port, 4),
        string_field(None),
        be(0, 4),
        told,
    );
    lemma_answer_grows(
        be(encode_utf8(host).len() as int, 2),
        encode_utf8(host),
        be(port, 4) + (string_field(None) + behind),
    );
}

/// A client's own requests are requests as any client may send them: Metadata
/// for one topic.
pub proof fn law_metadata_is_asked_for_one_topic(topic: Seq<char>)
    requires
        encode_utf8(topic).len() <= i16::MAX,
    ensures
        metadata_body(topic) == be(1, 4) + names_before(seq![Some(topic)], Seq::empty()),
{
    let none = Seq::<u8>::empty();
    let names = seq![Some(topic)];
    assert(names.skip(1) =~= Seq::<Option<Seq<char>>>::empty());
    assert(names_before(names.skip(1), none) == none);
    assert(string_field(Some(topic)) =~= text_before(Some(topic), none));
}

/// A client's Produce carries one record, of one partition, in one batch, and
/// asks for the leader's acknowledgement within ten seconds.
pub proof fn law_one_record_is_produced(topic: Seq<char>, partition: int, record: Fields)
    requires
        encode_utf8(topic).len() <= i16::MAX,
        batch_bytes(0, seq![record]).len() <= i32::MAX,
    ensures
        produce_body(topic, partition, record) == produce_before(
            None,
            1,
            10_000,
            seq![
                Loaded {
                    name: Some(topic),
                    loads: seq![
                        Load { partition, set: Some(batch_bytes(0, seq![record])) },
                    ],
                },
            ],
            Seq::empty(),
        ),
{
    let none = Seq::<u8>::empty();
    let batch = batch_bytes(0, seq![record]);
    let load = Load { partition, set: Some(batch) };
    let loads = seq![load];
    let topics = seq![Loaded { name: Some(topic), loads }];
    assert(loads.skip(1) =~= Seq::<Load>::empty());
    assert(loads_before(loads.skip(1), none) == none);
    assert(topics.skip(1) =~= Seq::<Loaded>::empty());
    assert(loaded_before(topics.skip(1), none) == none);
    let set = be(batch.len() as int, 4) + (batch + none);
    assert(bytes_field(Some(batch)) =~= set);
    assert(loads_before(loads, none) == be(partition, 4) + set);
    let parts = be(1, 4) + (be(partition, 4) + set);
    assert(text_before(Some(topic), parts) =~= string_field(Some(topic)) + parts);
    assert(loaded_before(topics, none) == string_field(Some(topic)) + parts);
    let head = string_field(None) + be(1, 2) + be(10_000, 4) + be(1, 4);
    lemma_answer_grows(
        head + string_field(Some(topic)) + be(1, 4),
        be(partition, 4),
        bytes_field(Some(batch)),
    );
    lemma_answer_grows(head + string_field(Some(topic)), be(1, 4), be(partition, 4) + set);
    lemma_answer_grows(head, string_field(Some(topic)), parts);
    let named = string_field(Some(topic)) + parts;
    lemma_answer_grows(string_field(None) + be(1, 2) + be(10_000, 4), be(1, 4), named);
    lemma_answer_grows(string_field(None) + be(1, 2), be(10_000, 4), be(1, 4) + named);
    lemma_answer_grows(string_field(None), be(1, 2), be(10_000, 4) + (be(1, 4) + named));
}

/// A client's Fetch asks for one partition from one offset on: as no replica,
/// waiting a tenth of a second, for at least a byte and at most a mebibyte.
pub proof fn law_one_partition_is_fetched(topic: Seq<char>, partition: int, offset: int)
    requires
        encode_utf8(topic).len() <= i16::MAX,
    ensures
        fetch_body(topic, partition, offset) == fetch_before(
            -1,
            100,
            1,
            0x10_0000,
            0,
            seq![
                Asked {
                    name: Some(topic),
                    asks: seq![Ask { partition, offset, most: 0x10_0000 }],
                },
            ],
            Seq::empty(),
        ),
{
    let none = Seq::<u8>::empty();
    let most = be(0x10_0000, 4);
    let asks = seq![Ask { partition, offset, most: 0x10_0000 }];
    let topics = seq![Asked { name: Some(topic), asks }];
    assert(asks.skip(1) =~= Seq::<Ask>::empty());
    assert(asks_before(asks.skip(1), none) == none);
    assert(topics.skip(1) =~= Seq::<Asked>::empty());
    assert(asked_before(topics.skip(1), none) == none);
    assert(most + none =~= most);
    let ask = be(partition, 4) + (be(offset, 8) + most);
    assert(asks_before(asks, none) == ask);
    let parts = be(1, 4) + ask;
    assert(text_before(Some(topic), parts) =~= string_field(Some(topic)) + parts);
    let named = string_field(Some(topic)) + parts;
    assert(asked_before(topics, none) == named);
    let settings = be(-1, 4) + be(100, 4) + be(1, 4) + most + be(0, 1);
    let head = settings + be(1, 4);
    lemma_answer_grows(
        head + string_field(Some(topic)) + be(1, 4) + be(partition, 4),
        be(offset, 8),
        most,
    );
    lemma_answer_grows(
        head + string_field(Some(topic)) + be(1, 4),
        be(partition, 4),
        be(offset, 8) + most,
    );
    lemma_answer_grows(head + string_field(Some(topic)), be(1, 4), ask);
    lemma_answer_grows(head, string_field(Some(topic)), parts);
    lemma_answer_grows(settings, be(1, 4), named);
    let counted = be(1, 4) + named;
    lemma_answer_grows(be(-1, 4) + be(100, 4) + be(1, 4) + most, be(0, 1), counted);
    lemma_answer_grows(be(-1, 4) + be(100, 4) + be(1, 4), most, be(0, 1) + counted);
    lemma_answer_grows(be(-1, 4) + be(100, 4), be(1, 4), most + (be(0, 1) + counted));
    lemma_answer_grows(be(-1, 4), be(100, 4), be(1, 4) + (most + (be(0, 1) + counted)));
}

} // verus!
