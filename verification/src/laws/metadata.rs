//! Metadata: a session leads every topic it is asked about, at its own
//! address.

use vstd::prelude::*;
use vstd::utf8::encode_utf8;

use crate::client::{
    address_of, broker_at, brokers_at, called, leader_of, metadata_body, metadata_of,
    partition_at, partitions_at, passed_array, topic_among, topic_at, untold, Caller, Topic,
};
use crate::cursor::{signed_at, taken};
use crate::error::Failure;
use crate::integer::{
    be, lemma_be_len, lemma_signed_bounds, lemma_signed_round_trip, lemma_spans, signed,
};
use crate::laws::exchange::{can_call, conversed, law_a_call_is_answered, lemma_taken};
use crate::laws::grouping::lemma_group_7;
use crate::laws::messages::{
    law_a_count_round_trips, law_a_string_round_trips, law_an_integer_round_trips,
    law_no_string_round_trips,
};
use crate::session::{
    broker_answer, described, host_and_port, names_at, served, topic_answer, topic_answers,
    Answered, Broker,
};
use crate::text::{decimal, digit, digits, digits_value, is_digit, parsed_i32};
use crate::wire::{count_at, count_field, string_field, text_at, API_METADATA};

verus! {

/// A topic of partition 0 alone, led at `address`.
pub open spec fn led_at(address: Seq<char>) -> Topic {
    Topic { partitions: seq![0i32], leader: address, leaders: seq![address] }
}

/// An array of one element is passed over.
proof fn lemma_passed_one(element: Seq<u8>, rest: Seq<u8>)
    ensures
        passed_array(count_field(1) + (element + rest), element.len()) == Ok::<
            Seq<u8>,
            Failure,
        >(rest),
{
    law_a_count_round_trips(1, element + rest);
    lemma_taken(element, rest);
    assert(1 * element.len() == element.len());
}

/// What a session says of one topic, behind the brokers and the controller.
spec fn told_of_topic(topic: Seq<char>) -> Seq<u8> {
    count_field(1) + topic_answer(topic)
}

/// What a session at `local` answers to a Metadata request for `topic`.
proof fn lemma_described(broker: Broker, topic: Seq<char>)
    requires
        encode_utf8(topic).len() <= i16::MAX,
    ensures
        described(broker, metadata_body(topic)) == (Answered {
            broker,
            reply: Ok((broker_answer(broker.local) + told_of_topic(topic), None)),
        }),
{
    let none = Seq::<u8>::empty();
    law_a_count_round_trips(1, string_field(Some(topic)));
    law_a_string_round_trips(topic, none);
    assert(string_field(Some(topic)) + none =~= string_field(Some(topic)));
    reveal_with_fuel(names_at, 2);
    let names = Seq::<Seq<char>>::empty().push(topic);
    assert(names_at(Seq::empty(), 1, string_field(Some(topic))) == Ok::<
        (Seq<Seq<char>>, Seq<u8>),
        Failure,
    >((names, none)));
    reveal_with_fuel(topic_answers, 2);
    assert(names.drop_last() =~= Seq::empty());
    assert(topic_answers(names) =~= topic_answer(topic));
    assert(broker_answer(broker.local) + count_field(1) + topic_answers(names) =~= broker_answer(
        broker.local,
    ) + told_of_topic(topic));
}

/// What a client makes of the one broker of an answer.
proof fn lemma_one_broker(host: Seq<char>, port: int, rest: Seq<u8>)
    requires
        encode_utf8(host).len() <= i16::MAX,
        i32::MIN <= port <= i32::MAX,
    ensures
        brokers_at(
            Seq::empty(),
            1,
            be(0, 4) + (string_field(Some(host)) + (be(port, 4) + (string_field(None) + rest))),
        ) == Ok::<(Seq<(int, Seq<char>)>, Seq<u8>), Failure>(
            (seq![(0int, host + ":"@ + decimal(port))], rest),
        ),
{
    let rack = string_field(None) + rest;
    let port_field = be(port, 4) + rack;
    let host_field = string_field(Some(host)) + port_field;
    let node = be(0, 4) + host_field;
    lemma_spans();
    law_an_integer_round_trips(0, 4, host_field);
    law_a_string_round_trips(host, port_field);
    law_an_integer_round_trips(port, 4, rack);
    law_no_string_round_trips(rest);
    let one = (0int, host + ":"@ + decimal(port));
    assert(broker_at(node) == Ok::<((int, Seq<char>), Seq<u8>), Failure>((one, rest)));
    assert(Seq::<(int, Seq<char>)>::empty().push(one) =~= seq![one]);
    reveal_with_fuel(brokers_at, 2);
}

/// What a client makes of the one partition of a topic, led by broker 0.
proof fn lemma_one_partition(brokers: Seq<(int, Seq<char>)>, partition: Seq<u8>)
    requires
        partition == be(0, 2) + be(0, 4) + be(0, 4) + count_field(1) + be(0, 4) + count_field(1)
            + be(0, 4),
    ensures
        partitions_at(brokers, untold(), 1, partition) == Ok::<(Topic, Seq<u8>), Failure>(
            (led_at(address_of(brokers, 0)), Seq::empty()),
        ),
{
    let none = Seq::<u8>::empty();
    lemma_spans();
    lemma_be_len(0, 2);
    lemma_be_len(0, 4);
    lemma_signed_round_trip(0, 4);
    let in_sync = count_field(1) + (be(0, 4) + none);
    let replicas = count_field(1) + (be(0, 4) + in_sync);
    lemma_be_len(1, 4);
    assert(partition.subrange(2, 6) =~= be(0, 4));
    assert(partition.subrange(6, 10) =~= be(0, 4));
    assert(partition.skip(10) =~= replicas);
    lemma_passed_one(be(0, 4), in_sync);
    lemma_passed_one(be(0, 4), none);
    let blank = untold();
    assert(blank.partitions.push(0i32) =~= seq![0i32]);
    assert(blank.leaders.push(address_of(brokers, 0)) =~= seq![address_of(brokers, 0)]);
    let known = led_at(address_of(brokers, 0));
    assert(partition_at(brokers, blank, partition) == Ok::<(Topic, Seq<u8>), Failure>(
        (known, none),
    ));
    reveal_with_fuel(partitions_at, 2);
}

/// What a client makes of the one topic of an answer.
proof fn lemma_one_topic(brokers: Seq<(int, Seq<char>)>, topic: Seq<char>)
    requires
        encode_utf8(topic).len() <= i16::MAX,
    ensures
        topic_at(brokers, topic_answer(topic)) == Ok::<((int, Seq<char>, Topic), Seq<u8>), Failure>(
            ((0, topic, led_at(address_of(brokers, 0))), Seq::empty()),
        ),
{
    lemma_spans();
    lemma_be_len(0, 1);
    let partition = be(0, 2) + be(0, 4) + be(0, 4) + count_field(1) + be(0, 4) + count_field(1)
        + be(0, 4);
    let partitions = count_field(1) + partition;
    let internal = be(0, 1) + partitions;
    let name = string_field(Some(topic)) + internal;
    assert(topic_answer(topic) =~= be(0, 2) + name);
    law_an_integer_round_trips(0, 2, name);
    law_a_string_round_trips(topic, internal);
    lemma_taken(be(0, 1), partitions);
    law_a_count_round_trips(1, partition);
    lemma_one_partition(brokers, partition);
}

/// What a client makes of an answer that tells of one broker and one topic.
proof fn lemma_told(host: Seq<char>, port: int, topic: Seq<char>)
    requires
        encode_utf8(topic).len() <= i16::MAX,
        encode_utf8(host).len() <= i16::MAX,
        i32::MIN <= port <= i32::MAX,
    ensures
        metadata_of(
            topic,
            count_field(1) + (be(0, 4) + (string_field(Some(host)) + (be(port, 4) + (string_field(
                None,
            ) + (be(0, 4) + told_of_topic(topic)))))),
        ) == Ok::<Topic, Failure>(
            led_at(host + ":"@ + decimal(port)),
        ),
{
    let told = told_of_topic(topic);
    let controller = be(0, 4) + told;
    let node = be(0, 4) + (string_field(Some(host)) + (be(port, 4) + (string_field(None)
        + controller)));
    law_a_count_round_trips(1, node);
    lemma_one_broker(host, port, controller);
    lemma_be_len(0, 4);
    lemma_taken(be(0, 4), told);
    law_a_count_round_trips(1, topic_answer(topic));
    let address = host + ":"@ + decimal(port);
    let brokers = seq![(0int, address)];
    let known = led_at(address);
    lemma_one_topic(brokers, topic);
    assert(address_of(brokers, 0) == address);
    assert(topic_among(topic, brokers, None, 1, topic_answer(topic)) == Ok::<
        Option<Topic>,
        Failure,
    >(Some(known))) by {
        reveal_with_fuel(topic_among, 2);
    }
}

/// What a session at `local` answers about `topic`, a client reads as:
/// partition 0 alone, led at the host and the port of `local`.
pub proof fn law_a_session_leads_every_topic(broker: Broker, topic: Seq<char>)
    requires
        encode_utf8(topic).len() <= i16::MAX,
        encode_utf8(host_and_port(broker.local).0).len() <= i16::MAX,
    ensures
        served(broker, API_METADATA as int, metadata_body(topic)) matches Answered {
            broker: after,
            reply: Ok((answer, event)),
        } && after == broker && event is None && metadata_of(topic, answer) == Ok::<
            Topic,
            Failure,
        >(
            led_at(
                host_and_port(broker.local).0 + ":"@ + decimal(host_and_port(broker.local).1),
            ),
        ),
{
    let (host, port) = host_and_port(broker.local);
    lemma_described(broker, topic);
    lemma_told(host, port, topic);
    lemma_group_7(
        count_field(1),
        be(0, 4),
        string_field(Some(host)),
        be(port, 4),
        string_field(None),
        be(0, 4),
        told_of_topic(topic),
    );
}

/// Whether a topic has a leader told for each of its partitions, and that of
/// partition 0 beside them.
spec fn leaders_agree(topic: Topic) -> bool {
    &&& topic.leaders.len() == topic.partitions.len()
    &&& topic.leader == leader_of(topic, 0)
}

/// One partition more goes on agreeing.
proof fn lemma_partition_agrees(brokers: Seq<(int, Seq<char>)>, topic: Topic, answer: Seq<u8>)
    requires
        leaders_agree(topic),
    ensures
        partition_at(brokers, topic, answer) matches Ok((more, _)) ==> leaders_agree(more),
{
    if let Ok((more, _)) = partition_at(brokers, topic, answer) {
        let partition = signed(answer.subrange(2, 6));
        lemma_signed_bounds(answer.subrange(2, 6));
        lemma_spans();
        assert(more.partitions == topic.partitions.push(partition as i32));
        topic.partitions.index_of_last_ensures(0i32);
        more.partitions.index_of_last_ensures(0i32);
        let last = topic.partitions.len() as int;
        if partition == 0 {
            assert(more.partitions[last] == 0);
            assert(more.partitions.contains(0i32));
        } else if let Some(at) = topic.partitions.index_of_last(0i32) {
            assert(more.partitions[at] == 0);
            assert(more.partitions.contains(0i32));
        } else if let Some(at) = more.partitions.index_of_last(0i32) {
            assert(topic.partitions[at] == 0);
        }
    }
}

proof fn lemma_partitions_agree(
    brokers: Seq<(int, Seq<char>)>,
    topic: Topic,
    count: nat,
    answer: Seq<u8>,
)
    requires
        leaders_agree(topic),
    ensures
        partitions_at(brokers, topic, count, answer) matches Ok((all, _)) ==> leaders_agree(all),
    decreases count,
{
    if count > 0 {
        lemma_partition_agrees(brokers, topic, answer);
        if let Ok((more, rest)) = partition_at(brokers, topic, answer) {
            lemma_partitions_agree(brokers, more, (count - 1) as nat, rest);
        }
    }
}

proof fn lemma_topic_agrees(brokers: Seq<(int, Seq<char>)>, answer: Seq<u8>)
    ensures
        topic_at(brokers, answer) matches Ok(((_, _, topic), _)) ==> leaders_agree(topic),
{
    untold().partitions.index_of_last_ensures(0i32);
    assert(leaders_agree(untold()));
    if let Ok((_, rest)) = signed_at(answer, 2) {
        if let Ok((_, rest)) = text_at(rest) {
            if let Ok((_, rest)) = taken(rest, 1) {
                if let Ok((count, rest)) = count_at(rest) {
                    lemma_partitions_agree(brokers, untold(), count, rest);
                }
            }
        }
    }
}

proof fn lemma_topics_agree(
    wanted: Seq<char>,
    brokers: Seq<(int, Seq<char>)>,
    known: Option<Topic>,
    count: nat,
    answer: Seq<u8>,
)
    requires
        known matches Some(topic) ==> leaders_agree(topic),
    ensures
        topic_among(wanted, brokers, known, count, answer) matches Ok(Some(topic))
            ==> leaders_agree(topic),
    decreases count,
{
    if count > 0 {
        lemma_topic_agrees(brokers, answer);
        if let Ok(((_, _, topic), rest)) = topic_at(brokers, answer) {
            lemma_topics_agree(wanted, brokers, known, (count - 1) as nat, rest);
            lemma_topics_agree(wanted, brokers, Some(topic), (count - 1) as nat, rest);
        }
    }
}

/// Whatever a broker answers about a topic, a leader or none is told for each
/// of its partitions, and the one told of by itself is partition 0's.
pub proof fn law_every_partition_is_told_a_leader(wanted: Seq<char>, answer: Seq<u8>)
    ensures
        metadata_of(wanted, answer) matches Ok(topic) ==> topic.leaders.len()
            == topic.partitions.len() && topic.leader == leader_of(topic, 0),
{
    if let Ok((count, rest)) = count_at(answer) {
        if let Ok((brokers, rest)) = brokers_at(Seq::empty(), count, rest) {
            if let Ok((_, rest)) = taken(rest, 4) {
                if let Ok((count, rest)) = count_at(rest) {
                    lemma_topics_agree(wanted, brokers, None, count, rest);
                }
            }
        }
    }
}

/// How long the answer about one topic is.
proof fn lemma_described_length(broker: Broker, topic: Seq<char>)
    requires
        encode_utf8(topic).len() <= i16::MAX,
        encode_utf8(host_and_port(broker.local).0).len() <= i16::MAX,
    ensures
        metadata_body(topic).len() == 6 + encode_utf8(topic).len(),
        (broker_answer(broker.local) + told_of_topic(topic)).len() == 59 + encode_utf8(
            host_and_port(broker.local).0,
        ).len() + encode_utf8(topic).len(),
{
    lemma_be_len(0, 1);
    lemma_be_len(0, 2);
    lemma_be_len(-1, 2);
    lemma_be_len(0, 4);
    lemma_be_len(1, 4);
    lemma_be_len(host_and_port(broker.local).1, 4);
    lemma_be_len(encode_utf8(topic).len() as int, 2);
    lemma_be_len(encode_utf8(host_and_port(broker.local).0).len() as int, 2);
}

/// A client that asks about a topic over a connection is told that the
/// session leads it, at the session's own address.
pub proof fn law_the_leader_is_told(broker: Broker, caller: Caller, topic: Seq<char>)
    requires
        can_call(caller),
        encode_utf8(topic).len() <= i16::MAX,
        encode_utf8(host_and_port(broker.local).0).len() <= i16::MAX,
    ensures
        ({
            let body = metadata_body(topic);
            let (after, next, reply) = conversed(broker, caller, API_METADATA as int, 1, body);
            &&& after == broker
            &&& next == called(caller, API_METADATA as int, 1, body).0
            &&& can_call(next)
            &&& reply matches Ok((answer, event)) && event is None && metadata_of(topic, answer)
                == Ok::<Topic, Failure>(
                led_at(
                    host_and_port(broker.local).0 + ":"@ + decimal(host_and_port(broker.local).1),
                ),
            )
        }),
{
    law_a_session_leads_every_topic(broker, topic);
    lemma_described(broker, topic);
    lemma_described_length(broker, topic);
    law_a_call_is_answered(broker, caller, API_METADATA as int, 1, metadata_body(topic));
}

/// A number's digits write that number, and are digits.
pub(crate) proof fn lemma_digits(value: nat)
    ensures
        digits(value).len() > 0,
        digits_value(digits(value)) == Some(value),
        forall|i: int| 0 <= i < digits(value).len() ==> is_digit(#[trigger] digits(value)[i]),
    decreases value,
{
    let text = digits(value);
    if value < 10 {
        assert(text.drop_last() =~= Seq::<char>::empty());
        assert(digits_value(text.drop_last()) == Some(0nat));
        assert(text.last() == digit(value as int));
    } else {
        lemma_digits(value / 10);
        assert(text.drop_last() =~= digits(value / 10));
        assert(text.last() == digit((value % 10) as int));
        assert forall|i: int| 0 <= i < text.len() implies is_digit(#[trigger] text[i]) by {
            if i < text.len() - 1 {
                assert(text[i] == digits(value / 10)[i]);
            }
        }
    }
}

/// The address that a session is told of, `host:port`, is the one it tells
/// clients to find the leader at.
pub proof fn law_an_address_survives(host: Seq<char>, port: nat)
    requires
        port <= i32::MAX,
    ensures
        host_and_port(host + ":"@ + decimal(port as int)) == (host, port as int),
{
    let address = host + ":"@ + decimal(port as int);
    reveal_strlit(":");
    lemma_digits(port);
    let text = digits(port);
    assert(text[0] != '+' && text[0] != '-') by {
        assert(is_digit(text[0]));
    }
    assert(parsed_i32(text) == Some(port as int));
    let at = host.len() as int;
    assert(address[at] == ':');
    assert forall|i: int| at < i < address.len() implies address[i] != ':' by {
        assert(address[i] == text[i - at - 1]);
        assert(is_digit(text[i - at - 1]));
    }
    address.index_of_last_ensures(':');
    assert(address.contains(':'));
    assert(address.index_of_last(':') == Some(at));
    assert(address.take(at) =~= host);
    assert(address.skip(at + 1) =~= text);
}

} // verus!
