//! Answers from any broker: what a client makes of them, whatever the broker
//! lists, in whatever order.

use vstd::prelude::*;

use crate::client::{
    address_of, broker_at, brokers_at, fetched_from, from_on, leader_of, metadata_of,
    partition_at, partition_of, partitions_at, passed_array, produced_at, topic_among, topic_at,
    untold, Listed, Topic,
};
use crate::error::{permanent, Failure};
use crate::integer::{be, lemma_be_len, lemma_signed_round_trip, lemma_spans};
use crate::laws::exchange::lemma_taken;
use crate::laws::format::{
    are_few, brokers_before, bytes_before, can_answer, can_list, can_tell, can_tell_partition,
    is_i16, is_i64, is_short, lemma_bytes, lemma_count, lemma_text, metadata_before,
    node_before, nodes_before, partition_before, partitions_before, said, text_before,
    told_before, topics_before, Node, Partition, Told,
};
use crate::laws::messages::law_an_integer_round_trips;
use crate::laws::metadata::law_every_partition_is_told_a_leader;
use crate::records::{batches_of, Stored};
use crate::text::decimal;

verus! {

/// The address told for a node is that of the first broker listed with its
/// id, wherever that stands in the list.
pub proof fn law_the_first_broker_of_a_node_has_its_address(
    brokers: Seq<Listed>,
    node: int,
    at: int,
)
    requires
        0 <= at < brokers.len(),
        brokers[at].0 == node,
        forall|i: int| 0 <= i < at ==> (#[trigger] brokers[i]).0 != node,
    ensures
        address_of(brokers, node) == brokers[at].1,
    decreases at,
{
    if at > 0 {
        let more = brokers.skip(1);
        assert(brokers[0].0 != node);
        assert forall|i: int| 0 <= i < at - 1 implies (#[trigger] more[i]).0 != node by {
            assert(more[i] == brokers[i + 1]);
        }
        law_the_first_broker_of_a_node_has_its_address(more, node, at - 1);
    }
}

/// A node that no broker is listed with has no address.
pub proof fn law_a_node_that_is_not_listed_has_no_address(brokers: Seq<Listed>, node: int)
    requires
        forall|i: int| 0 <= i < brokers.len() ==> (#[trigger] brokers[i]).0 != node,
    ensures
        address_of(brokers, node) == Seq::<char>::empty(),
    decreases brokers.len(),
{
    if brokers.len() > 0 {
        let more = brokers.skip(1);
        assert(brokers[0].0 != node);
        assert forall|i: int| 0 <= i < more.len() implies (#[trigger] more[i]).0 != node by {
            assert(more[i] == brokers[i + 1]);
        }
        law_a_node_that_is_not_listed_has_no_address(more, node);
    }
}

/// The leader of a partition is the last one told for it.
pub proof fn law_the_last_leader_told_counts(topic: Topic, partition: i32, at: int)
    requires
        0 <= at < topic.partitions.len(),
        topic.leaders.len() == topic.partitions.len(),
        topic.partitions[at] == partition,
        forall|i: int| at < i < topic.partitions.len() ==> topic.partitions[i] != partition,
    ensures
        leader_of(topic, partition) == topic.leaders[at],
{
    topic.partitions.index_of_last_ensures(partition);
    assert(topic.partitions.contains(partition));
}

/// A partition that is not told of has no leader.
pub proof fn law_a_partition_that_is_not_told_of_has_no_leader(topic: Topic, partition: i32)
    requires
        !topic.partitions.contains(partition),
    ensures
        leader_of(topic, partition) == Seq::<char>::empty(),
{
    topic.partitions.index_of_last_ensures(partition);
}

/// The address of a broker that is listed.
pub open spec fn address(broker: Node) -> Seq<char> {
    said(broker.host) + ":"@ + decimal(broker.port)
}

/// Whether `told` is the address of the first of `brokers` with the id
/// `node`, or nothing where none has it.
pub open spec fn is_address(brokers: Seq<Node>, node: int, told: Seq<char>) -> bool {
    ||| exists|at: int|
        #![trigger brokers[at]]
        0 <= at < brokers.len() && brokers[at].node == node && told == address(brokers[at]) && (
        forall|i: int| 0 <= i < at ==> (#[trigger] brokers[i]).node != node)
    ||| told.len() == 0 && forall|i: int|
        0 <= i < brokers.len() ==> (#[trigger] brokers[i]).node != node
}

/// The brokers that are listed, by node id and address.
spec fn addresses(brokers: Seq<Node>) -> Seq<Listed> {
    Seq::new(brokers.len(), |i: int| (brokers[i].node, address(brokers[i])))
}

/// What is told for a node is its address.
proof fn lemma_is_address(brokers: Seq<Node>, node: int)
    ensures
        is_address(brokers, node, address_of(addresses(brokers), node)),
{
    let listed = addresses(brokers);
    if exists|at: int| 0 <= at < brokers.len() && (#[trigger] brokers[at]).node == node {
        let any = choose|at: int| 0 <= at < brokers.len() && (#[trigger] brokers[at]).node == node;
        let at = lemma_first(brokers, node, any);
        assert forall|i: int| 0 <= i < at implies (#[trigger] listed[i]).0 != node by {
            assert(brokers[i].node != node);
        }
        law_the_first_broker_of_a_node_has_its_address(listed, node, at);
        assert(address_of(listed, node) == address(brokers[at]));
    } else {
        assert forall|i: int| 0 <= i < listed.len() implies (#[trigger] listed[i]).0 != node by {
            assert(brokers[i].node != node);
        }
        law_a_node_that_is_not_listed_has_no_address(listed, node);
    }
}

/// Where there is a broker with this id there is a first one.
proof fn lemma_first(brokers: Seq<Node>, node: int, any: int) -> (at: int)
    requires
        0 <= any < brokers.len(),
        brokers[any].node == node,
    ensures
        0 <= at <= any,
        brokers[at].node == node,
        forall|i: int| 0 <= i < at ==> (#[trigger] brokers[i]).node != node,
    decreases any,
{
    if exists|i: int| 0 <= i < any && (#[trigger] brokers[i]).node == node {
        let before = choose|i: int| 0 <= i < any && (#[trigger] brokers[i]).node == node;
        lemma_first(brokers, node, before)
    } else {
        any
    }
}

/// One broker is read.
proof fn lemma_node(broker: Node, rest: Seq<u8>)
    requires
        can_list(broker),
    ensures
        broker_at(node_before(broker, rest)) == Ok::<(Listed, Seq<u8>), Failure>(
            ((broker.node, address(broker)), rest),
        ),
{
    let rack = text_before(broker.rack, rest);
    let port = be(broker.port, 4) + rack;
    let host = text_before(broker.host, port);
    lemma_spans();
    law_an_integer_round_trips(broker.node, 4, host);
    lemma_text(broker.host, port);
    law_an_integer_round_trips(broker.port, 4, rack);
    lemma_text(broker.rack, rest);
}

/// All brokers are read, in order.
proof fn lemma_brokers(before: Seq<Listed>, brokers: Seq<Node>, rest: Seq<u8>)
    requires
        forall|i: int| 0 <= i < brokers.len() ==> can_list(#[trigger] brokers[i]),
    ensures
        brokers_at(before, brokers.len(), brokers_before(brokers, rest)) == Ok::<
            (Seq<Listed>, Seq<u8>),
            Failure,
        >((before + addresses(brokers), rest)),
    decreases brokers.len(),
{
    if brokers.len() == 0 {
        assert(before + addresses(brokers) =~= before);
    } else {
        let more = brokers.skip(1);
        assert(can_list(brokers[0]));
        assert forall|i: int| 0 <= i < more.len() implies can_list(#[trigger] more[i]) by {
            assert(more[i] == brokers[i + 1]);
        }
        let one = (brokers[0].node, address(brokers[0]));
        lemma_node(brokers[0], brokers_before(more, rest));
        lemma_brokers(before.push(one), more, rest);
        assert(before.push(one) + addresses(more) =~= before + addresses(brokers));
    }
}

/// Node ids are as long as they are many.
proof fn lemma_nodes(nodes: Seq<int>, rest: Seq<u8>)
    ensures
        nodes_before(nodes, rest).len() == 4 * nodes.len() + rest.len(),
        nodes_before(nodes, rest).skip(4 * nodes.len() as int) == rest,
    decreases nodes.len(),
{
    if nodes.len() == 0 {
        assert(rest.skip(0) =~= rest);
    } else {
        let more = nodes_before(nodes.skip(1), rest);
        lemma_be_len(nodes[0], 4);
        lemma_nodes(nodes.skip(1), rest);
        let all = nodes_before(nodes, rest);
        assert(all == be(nodes[0], 4) + more);
        assert(all.skip(4 * nodes.len() as int) =~= more.skip(4 * (nodes.len() - 1) as int));
    }
}

/// An array of node ids is passed over.
proof fn lemma_nodes_passed(nodes: Seq<int>, rest: Seq<u8>)
    requires
        nodes.len() <= i32::MAX,
    ensures
        passed_array(be(nodes.len() as int, 4) + nodes_before(nodes, rest), 4) == Ok::<
            Seq<u8>,
            Failure,
        >(rest),
{
    lemma_count(nodes.len(), nodes_before(nodes, rest));
    lemma_nodes(nodes, rest);
    assert(nodes.len() * 4 == 4 * nodes.len());
}

/// One partition is read behind what is known.
proof fn lemma_partition(listed: Seq<Listed>, known: Topic, partition: Partition, rest: Seq<u8>)
    requires
        can_tell_partition(partition),
    ensures
        partition_at(listed, known, partition_before(partition, rest)) matches Ok((topic, behind))
            && behind == rest && topic.partitions == known.partitions.push(
            partition.partition as i32,
        ) && topic.leaders == known.leaders.push(address_of(listed, partition.leader)),
{
    let in_sync = be(partition.in_sync.len() as int, 4) + nodes_before(partition.in_sync, rest);
    let replicas = be(partition.replicas.len() as int, 4) + nodes_before(
        partition.replicas,
        in_sync,
    );
    let bytes = partition_before(partition, rest);
    lemma_spans();
    lemma_be_len(partition.error, 2);
    lemma_signed_round_trip(partition.partition, 4);
    lemma_signed_round_trip(partition.leader, 4);
    assert(bytes.subrange(2, 6) =~= be(partition.partition, 4));
    assert(bytes.subrange(6, 10) =~= be(partition.leader, 4));
    assert(bytes.skip(10) =~= replicas);
    lemma_nodes_passed(partition.replicas, in_sync);
    lemma_nodes_passed(partition.in_sync, rest);
}

/// The ids of partitions.
spec fn ids(partitions: Seq<Partition>) -> Seq<i32> {
    Seq::new(partitions.len(), |i: int| partitions[i].partition as i32)
}

/// The addresses of the leaders of partitions.
spec fn leads(listed: Seq<Listed>, partitions: Seq<Partition>) -> Seq<Seq<char>> {
    Seq::new(partitions.len(), |i: int| address_of(listed, partitions[i].leader))
}

/// All partitions are read, in order.
proof fn lemma_partitions(
    listed: Seq<Listed>,
    known: Topic,
    partitions: Seq<Partition>,
    rest: Seq<u8>,
)
    requires
        forall|i: int|
            0 <= i < partitions.len() ==> can_tell_partition(#[trigger] partitions[i]),
    ensures
        partitions_at(listed, known, partitions.len(), partitions_before(partitions, rest)) matches
            Ok((topic, behind)) && behind == rest && topic.partitions == known.partitions + ids(
            partitions,
        ) && topic.leaders == known.leaders + leads(listed, partitions),
    decreases partitions.len(),
{
    if partitions.len() == 0 {
        assert(known.partitions + ids(partitions) =~= known.partitions);
        assert(known.leaders + leads(listed, partitions) =~= known.leaders);
    } else {
        let more = partitions.skip(1);
        let behind = partitions_before(more, rest);
        assert(can_tell_partition(partitions[0]));
        assert forall|i: int| 0 <= i < more.len() implies can_tell_partition(
            #[trigger] more[i],
        ) by {
            assert(more[i] == partitions[i + 1]);
        }
        lemma_partition(listed, known, partitions[0], behind);
        let next = partition_at(listed, known, partition_before(partitions[0], behind))->Ok_0.0;
        lemma_partitions(listed, next, more, rest);
        assert(next.partitions + ids(more) =~= known.partitions + ids(partitions));
        assert(next.leaders + leads(listed, more) =~= known.leaders + leads(listed, partitions));
    }
}

/// Whether `topic` is what an answer tells of `told`: its partitions in
/// order, and for each the address of its leader.
pub open spec fn is_told(brokers: Seq<Node>, told: Told, topic: Topic) -> bool {
    &&& topic.partitions.len() == told.partitions.len()
    &&& topic.leaders.len() == told.partitions.len()
    &&& forall|i: int|
        0 <= i < told.partitions.len() ==> (#[trigger] topic.partitions[i])
            == told.partitions[i].partition
    &&& forall|i: int|
        0 <= i < told.partitions.len() ==> is_address(
            brokers,
            told.partitions[i].leader,
            #[trigger] topic.leaders[i],
        )
}

/// One topic is read.
proof fn lemma_topic(brokers: Seq<Node>, told: Told, rest: Seq<u8>)
    requires
        can_tell(told),
    ensures
        topic_at(addresses(brokers), told_before(told, rest)) matches Ok(
            ((error, name, topic), behind),
        ) && error == told.error && name == said(told.name) && behind == rest && is_told(
            brokers,
            told,
            topic,
        ),
{
    let listed = addresses(brokers);
    let partitions = partitions_before(told.partitions, rest);
    let count = be(told.partitions.len() as int, 4) + partitions;
    let internal = seq![told.internal] + count;
    let name = text_before(told.name, internal);
    lemma_spans();
    law_an_integer_round_trips(told.error, 2, name);
    lemma_text(told.name, internal);
    lemma_taken(seq![told.internal], count);
    lemma_count(told.partitions.len(), partitions);
    lemma_partitions(listed, untold(), told.partitions, rest);
    let topic = partitions_at(listed, untold(), told.partitions.len(), partitions)->Ok_0.0;
    assert(topic.partitions =~= ids(told.partitions));
    assert(topic.leaders =~= leads(listed, told.partitions));
    assert forall|i: int| 0 <= i < told.partitions.len() implies (#[trigger] topic.partitions[i])
        == told.partitions[i].partition by {
        assert(can_tell_partition(told.partitions[i]));
    }
    assert forall|i: int| 0 <= i < told.partitions.len() implies is_address(
        brokers,
        told.partitions[i].leader,
        #[trigger] topic.leaders[i],
    ) by {
        lemma_is_address(brokers, told.partitions[i].leader);
    }
}

/// What stands before the topics of an answer is read.
proof fn lemma_metadata_head(
    wanted: Seq<char>,
    brokers: Seq<Node>,
    controller: int,
    topics: Seq<Told>,
    rest: Seq<u8>,
)
    requires
        can_answer(brokers, controller, topics),
    ensures
        metadata_of(wanted, metadata_before(brokers, controller, topics, rest)) == (
        match topic_among(
            wanted,
            addresses(brokers),
            None,
            topics.len(),
            topics_before(topics, rest),
        ) {
            Ok(Some(topic)) => Ok(topic),
            Ok(None) => Err(permanent("no metadata for "@ + wanted)),
            Err(failure) => Err(failure),
        }),
{
    let all = topics_before(topics, rest);
    let count = be(topics.len() as int, 4) + all;
    let behind = be(controller, 4) + count;
    lemma_count(brokers.len(), brokers_before(brokers, behind));
    lemma_brokers(Seq::empty(), brokers, behind);
    assert(Seq::<Listed>::empty() + addresses(brokers) =~= addresses(brokers));
    lemma_be_len(controller, 4);
    lemma_taken(be(controller, 4), count);
    lemma_count(topics.len(), all);
}

/// Topics by another name change nothing.
proof fn lemma_others(
    wanted: Seq<char>,
    brokers: Seq<Node>,
    known: Option<Topic>,
    topics: Seq<Told>,
    rest: Seq<u8>,
)
    requires
        forall|i: int|
            0 <= i < topics.len() ==> can_tell(#[trigger] topics[i]) && said(topics[i].name)
                != wanted,
    ensures
        topic_among(
            wanted,
            addresses(brokers),
            known,
            topics.len(),
            topics_before(topics, rest),
        ) == Ok::<Option<Topic>, Failure>(known),
    decreases topics.len(),
{
    if topics.len() > 0 {
        let more = topics.skip(1);
        assert(can_tell(topics[0]));
        assert forall|i: int| 0 <= i < more.len() implies can_tell(#[trigger] more[i]) && said(
            more[i].name,
        ) != wanted by {
            assert(more[i] == topics[i + 1]);
        }
        lemma_topic(brokers, topics[0], topics_before(more, rest));
        lemma_others(wanted, brokers, known, more, rest);
    }
}

/// One topic, unless it is an error for the one asked for, changes nothing but
/// what is known.
proof fn lemma_pass(
    wanted: Seq<char>,
    brokers: Seq<Node>,
    known: Option<Topic>,
    told: Told,
    more: nat,
    rest: Seq<u8>,
) -> (then: Option<Topic>)
    requires
        can_tell(told),
        said(told.name) == wanted ==> told.error == 0,
    ensures
        topic_among(wanted, addresses(brokers), known, more + 1, told_before(told, rest))
            == topic_among(wanted, addresses(brokers), then, more, rest),
{
    lemma_topic(brokers, told, rest);
    if said(told.name) == wanted {
        Some(topic_at(addresses(brokers), told_before(told, rest))->Ok_0.0.2)
    } else {
        known
    }
}

/// The topics before `at` change nothing but what is known.
proof fn lemma_come_to(
    wanted: Seq<char>,
    brokers: Seq<Node>,
    known: Option<Topic>,
    topics: Seq<Told>,
    rest: Seq<u8>,
    at: int,
) -> (then: Option<Topic>)
    requires
        0 <= at <= topics.len(),
        forall|i: int| 0 <= i < topics.len() ==> can_tell(#[trigger] topics[i]),
        forall|i: int|
            0 <= i < at && said((#[trigger] topics[i]).name) == wanted ==> topics[i].error == 0,
    ensures
        topic_among(
            wanted,
            addresses(brokers),
            known,
            topics.len(),
            topics_before(topics, rest),
        ) == topic_among(
            wanted,
            addresses(brokers),
            then,
            (topics.len() - at) as nat,
            topics_before(topics.skip(at), rest),
        ),
    decreases topics.len(),
{
    if at == 0 {
        assert(topics.skip(0) =~= topics);
        known
    } else {
        let more = topics.skip(1);
        assert(can_tell(topics[0]));
        assert forall|i: int| 0 <= i < more.len() implies can_tell(#[trigger] more[i]) by {
            assert(more[i] == topics[i + 1]);
        }
        assert forall|i: int|
            0 <= i < at - 1 && said((#[trigger] more[i]).name) == wanted implies more[i].error
            == 0 by {
            assert(more[i] == topics[i + 1]);
        }
        let behind = topics_before(more, rest);
        let next = lemma_pass(wanted, brokers, known, topics[0], more.len(), behind);
        assert(more.skip(at - 1) =~= topics.skip(at));
        lemma_come_to(wanted, brokers, next, more, rest, at - 1)
    }
}

/// Whatever brokers an answer lists and whatever topics it tells of, in
/// whatever order: a client that asked for `wanted` is told of the last topic
/// by that name, its partitions in order, and for each the address of the
/// broker that leads it; the leader told by itself is that of partition 0.
pub proof fn law_a_topic_is_told_of(
    wanted: Seq<char>,
    brokers: Seq<Node>,
    controller: int,
    topics: Seq<Told>,
    rest: Seq<u8>,
    at: int,
)
    requires
        can_answer(brokers, controller, topics),
        0 <= at < topics.len(),
        said(topics[at].name) == wanted,
        forall|i: int| at < i < topics.len() ==> said((#[trigger] topics[i]).name) != wanted,
        forall|i: int|
            0 <= i < topics.len() && said((#[trigger] topics[i]).name) == wanted
                ==> topics[i].error == 0,
    ensures
        metadata_of(wanted, metadata_before(brokers, controller, topics, rest)) matches Ok(topic)
            && is_told(brokers, topics[at], topic) && topic.leader == leader_of(topic, 0),
{
    lemma_metadata_head(wanted, brokers, controller, topics, rest);
    let then = lemma_come_to(wanted, brokers, None, topics, rest, at);
    let ending = topics.skip(at);
    let more = topics.skip(at + 1);
    let behind = topics_before(more, rest);
    assert(ending[0] == topics[at]);
    assert(ending.skip(1) =~= more);
    assert(can_tell(topics[at]));
    lemma_topic(brokers, topics[at], behind);
    let topic = topic_at(addresses(brokers), told_before(topics[at], behind))->Ok_0.0.2;
    assert forall|i: int| 0 <= i < more.len() implies can_tell(#[trigger] more[i]) && said(
        more[i].name,
    ) != wanted by {
        assert(more[i] == topics[at + 1 + i]);
    }
    lemma_others(wanted, brokers, Some(topic), more, rest);
    law_every_partition_is_told_a_leader(
        wanted,
        metadata_before(brokers, controller, topics, rest),
    );
}

/// An answer that tells of no topic by the name asked for is refused.
pub proof fn law_a_topic_that_is_not_told_of_is_refused(
    wanted: Seq<char>,
    brokers: Seq<Node>,
    controller: int,
    topics: Seq<Told>,
    rest: Seq<u8>,
)
    requires
        can_answer(brokers, controller, topics),
        forall|i: int| 0 <= i < topics.len() ==> said((#[trigger] topics[i]).name) != wanted,
    ensures
        metadata_of(wanted, metadata_before(brokers, controller, topics, rest)) == Err::<
            Topic,
            Failure,
        >(permanent("no metadata for "@ + wanted)),
{
    lemma_metadata_head(wanted, brokers, controller, topics, rest);
    lemma_others(wanted, brokers, None, topics, rest);
}

/// The broker error codes that trying again may mend.
pub open spec fn retriable_codes() -> Seq<int> {
    seq![3, 5, 6, 7, 8, 9, 13, 14, 15, 16, 19, 20]
}

/// Whether `failure` says that the broker answered `what` with this error.
pub open spec fn is_broker_error(failure: Failure, what: Seq<char>, code: int) -> bool {
    &&& failure.message == "the broker answered "@ + what + " with error "@ + decimal(code)
    &&& failure.retryable <==> retriable_codes().contains(code)
}

/// The codes are told apart.
proof fn lemma_codes(code: int)
    ensures
        retriable_codes().contains(code) <==> crate::client::is_retriable(code),
{
    let codes = retriable_codes();
    assert(codes[0] == 3 && codes[1] == 5 && codes[2] == 6 && codes[3] == 7 && codes[4] == 8
        && codes[5] == 9 && codes[6] == 13 && codes[7] == 14 && codes[8] == 15 && codes[9] == 16
        && codes[10] == 19 && codes[11] == 20);
}

/// An error for the topic asked for is the answer, whatever else is told.
pub proof fn law_an_error_for_a_topic_is_told(
    wanted: Seq<char>,
    brokers: Seq<Node>,
    controller: int,
    topics: Seq<Told>,
    rest: Seq<u8>,
    at: int,
)
    requires
        can_answer(brokers, controller, topics),
        0 <= at < topics.len(),
        said(topics[at].name) == wanted,
        topics[at].error != 0,
        forall|i: int|
            0 <= i < at && said((#[trigger] topics[i]).name) == wanted ==> topics[i].error == 0,
    ensures
        metadata_of(wanted, metadata_before(brokers, controller, topics, rest)) matches Err(failure)
            && is_broker_error(failure, "metadata for "@ + wanted, topics[at].error),
{
    lemma_metadata_head(wanted, brokers, controller, topics, rest);
    let then = lemma_come_to(wanted, brokers, None, topics, rest, at);
    let ending = topics.skip(at);
    assert(ending[0] == topics[at]);
    assert(can_tell(topics[at]));
    lemma_topic(brokers, topics[at], topics_before(ending.skip(1), rest));
    lemma_codes(topics[at].error);
}

/// The one partition of an answer is come to, however many topics and
/// partitions it says there are.
proof fn lemma_come_to_partition(
    what: Seq<char>,
    topics: nat,
    name: Option<Seq<char>>,
    partitions: nat,
    rest: Seq<u8>,
)
    requires
        0 < topics <= i32::MAX,
        0 < partitions <= i32::MAX,
        is_short(name),
    ensures
        partition_of(
            what,
            be(topics as int, 4) + text_before(name, be(partitions as int, 4) + rest),
        ) == Ok::<Seq<u8>, Failure>(rest),
{
    let count = be(partitions as int, 4) + rest;
    lemma_count(topics, text_before(name, count));
    lemma_text(name, count);
    lemma_count(partitions, rest);
}

/// An answer that tells of no topic, or of a topic but none of its partitions,
/// is refused.
pub proof fn law_an_answer_without_a_partition_is_refused(
    what: Seq<char>,
    none: int,
    topics: nat,
    name: Option<Seq<char>>,
    rest: Seq<u8>,
)
    requires
        i32::MIN <= none <= 0,
        0 < topics <= i32::MAX,
        is_short(name),
    ensures
        partition_of(what, be(none, 4) + rest) == Err::<Seq<u8>, Failure>(
            permanent("a "@ + what + " answered without a topic"@),
        ),
        partition_of(
            what,
            be(topics as int, 4) + text_before(name, be(none, 4) + rest),
        ) == Err::<Seq<u8>, Failure>(permanent("a "@ + what + " answered without a partition"@)),
{
    lemma_spans();
    law_an_integer_round_trips(none, 4, rest);
    lemma_count(topics, text_before(name, be(none, 4) + rest));
    lemma_text(name, be(none, 4) + rest);
}

/// The offset that any broker answers a Produce with is the offset told, or
/// its error the error.
pub proof fn law_a_produce_answer_is_read(
    topics: nat,
    name: Option<Seq<char>>,
    partitions: nat,
    partition: int,
    error: int,
    offset: int,
    rest: Seq<u8>,
)
    requires
        0 < topics <= i32::MAX,
        0 < partitions <= i32::MAX,
        is_short(name),
        is_i16(error),
        is_i64(offset),
    ensures
        ({
            let answer = be(topics as int, 4) + text_before(
                name,
                be(partitions as int, 4) + (be(partition, 4) + (be(error, 2) + (be(offset, 8)
                    + rest))),
            );
            if error == 0 {
                produced_at(answer) == Ok::<int, Failure>(offset)
            } else {
                produced_at(answer) matches Err(failure) && is_broker_error(
                    failure,
                    "the produce"@,
                    error,
                )
            }
        }),
{
    let part = be(partition, 4) + (be(error, 2) + (be(offset, 8) + rest));
    lemma_come_to_partition("produce"@, topics, name, partitions, part);
    lemma_spans();
    lemma_be_len(partition, 4);
    lemma_signed_round_trip(error, 2);
    lemma_signed_round_trip(offset, 8);
    assert(part.subrange(4, 6) =~= be(error, 2));
    assert(part.subrange(6, 14) =~= be(offset, 8));
    lemma_codes(error);
}

/// The records that any broker answers a Fetch with, behind however many
/// aborted transactions, are those read, from the offset asked for on; or its
/// error is the error.
pub proof fn law_a_fetch_answer_is_read(
    asked: int,
    throttle: int,
    topics: nat,
    name: Option<Seq<char>>,
    partitions: nat,
    partition: int,
    error: int,
    high: int,
    stable: int,
    aborted: Seq<u8>,
    transactions: nat,
    set: Option<Seq<u8>>,
    rest: Seq<u8>,
)
    requires
        0 < topics <= i32::MAX,
        0 < partitions <= i32::MAX,
        transactions <= i32::MAX,
        aborted.len() == 16 * transactions,
        is_short(name),
        is_i16(error),
        are_few(set),
    ensures
        ({
            let answer = be(throttle, 4) + (be(topics as int, 4) + text_before(
                name,
                be(partitions as int, 4) + (be(partition, 4) + (be(error, 2) + (be(high, 8) + (be(
                    stable,
                    8,
                ) + (be(transactions as int, 4) + (aborted + bytes_before(set, rest))))))),
            ));
            let carried = batches_of(
                match set {
                    Some(bytes) => bytes,
                    None => Seq::empty(),
                },
            );
            if error != 0 {
                fetched_from(asked, answer) matches Err(failure) && is_broker_error(
                    failure,
                    "the fetch"@,
                    error,
                )
            } else {
                match carried {
                    Ok(records) => fetched_from(asked, answer) == Ok::<Seq<Stored>, Failure>(
                        records.filter(|r: Stored| r.offset >= asked),
                    ),
                    Err(failure) => fetched_from(asked, answer) == Err::<Seq<Stored>, Failure>(
                        failure,
                    ),
                }
            }
        }),
{
    let ending = bytes_before(set, rest);
    let listed = aborted + ending;
    let array = be(transactions as int, 4) + listed;
    let part = be(partition, 4) + (be(error, 2) + (be(high, 8) + (be(stable, 8) + array)));
    let placed = be(topics as int, 4) + text_before(name, be(partitions as int, 4) + part);
    lemma_be_len(throttle, 4);
    lemma_taken(be(throttle, 4), placed);
    lemma_come_to_partition("fetch"@, topics, name, partitions, part);
    lemma_spans();
    lemma_be_len(partition, 4);
    lemma_signed_round_trip(error, 2);
    lemma_be_len(high, 8);
    lemma_be_len(stable, 8);
    assert(part.subrange(4, 6) =~= be(error, 2));
    assert(part.skip(22) =~= array);
    lemma_count(transactions, listed);
    lemma_taken(aborted, ending);
    assert(transactions * 16 == 16 * transactions);
    assert(passed_array(array, 16) == Ok::<Seq<u8>, Failure>(ending));
    lemma_bytes(set, rest);
    lemma_codes(error);
    if let Some(bytes) = set {
        if let Ok(records) = batches_of(bytes) {
            assert(from_on(asked, records) == records.filter(|r: Stored| r.offset >= asked));
        }
    }
}

/// What is kept of records from an offset on are those at the offset or
/// behind it, all of them, and no other.
pub proof fn law_records_from_an_offset_on_are_kept(offset: int, records: Seq<Stored>)
    ensures
        forall|i: int|
            0 <= i < from_on(offset, records).len() ==> (#[trigger] from_on(
                offset,
                records,
            )[i]).offset >= offset,
        forall|i: int|
            0 <= i < records.len() && (#[trigger] records[i]).offset >= offset ==> from_on(
                offset,
                records,
            ).contains(records[i]),
        forall|i: int|
            0 <= i < from_on(offset, records).len() ==> records.contains(
                #[trigger] from_on(offset, records)[i],
            ),
    decreases records.len(),
{
    reveal(Seq::filter);
    if records.len() > 0 {
        let front = records.drop_last();
        let last = records.last();
        let kept = from_on(offset, front);
        let all = from_on(offset, records);
        law_records_from_an_offset_on_are_kept(offset, front);
        assert forall|i: int| 0 <= i < records.len() && (#[trigger] records[i]).offset
            >= offset implies all.contains(records[i]) by {
            if i < front.len() {
                assert(front[i] == records[i]);
                let at = choose|j: int| 0 <= j < kept.len() && kept[j] == front[i];
                assert(all[at] == records[i]);
            } else {
                assert(all[all.len() - 1] == records[i]);
            }
        }
        assert forall|i: int| 0 <= i < all.len() implies records.contains(#[trigger] all[i]) by {
            if i < kept.len() {
                assert(all[i] == kept[i]);
                let at = choose|j: int| 0 <= j < front.len() && front[j] == kept[i];
                assert(records[at] == all[i]);
            } else {
                assert(records[records.len() - 1] == all[i]);
            }
        }
    }
}

} // verus!
