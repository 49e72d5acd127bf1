//! The format itself: what a peer, any peer, writes on the wire. A function
//! named `.._before` writes its thing before `rest`.

use vstd::prelude::*;
use vstd::utf8::encode_utf8;

use crate::crc::crc32c;
use crate::error::Failure;
use crate::integer::be;
use crate::laws::messages::{
    law_a_count_round_trips, law_a_string_round_trips, law_bytes_round_trip,
    law_no_string_round_trips,
};
use crate::varint::{varint, zigzagged};
use crate::wire::{bytes_at, bytes_field, count_at, string_at, string_field, text_at};

verus! {

/// A signed integer as a record carries it.
pub open spec fn folded_before(value: int, rest: Seq<u8>) -> Seq<u8> {
    varint(zigzagged(value) as nat) + rest
}

/// A record's key or value: behind its length, or -1.
pub open spec fn field_before(field: Option<Seq<u8>>, rest: Seq<u8>) -> Seq<u8> {
    match field {
        Some(bytes) => folded_before(bytes.len() as int, bytes + rest),
        None => folded_before(-1, rest),
    }
}

/// A record as any producer may send it.
pub struct Sent {
    pub attributes: u8,
    /// Milliseconds behind the first record of the batch.
    pub time: int,
    /// Offsets behind the base offset of the batch.
    pub delta: int,
    pub key: Option<Seq<u8>>,
    pub value: Option<Seq<u8>>,
    /// How many headers there are, and the headers.
    pub headers: Seq<u8>,
}

/// The bytes of a record.
pub open spec fn sent_bytes(record: Sent) -> Seq<u8> {
    seq![record.attributes] + folded_before(
        record.time,
        folded_before(
            record.delta,
            field_before(record.key, field_before(record.value, record.headers)),
        ),
    )
}

/// Records, each behind its length.
pub open spec fn records_before(records: Seq<Sent>, rest: Seq<u8>) -> Seq<u8>
    decreases records.len(),
{
    if records.len() == 0 {
        rest
    } else {
        let record = sent_bytes(records[0]);
        folded_before(record.len() as int, record + records_before(records.skip(1), rest))
    }
}

/// A batch as any producer may send it.
pub struct Batch {
    pub base_offset: int,
    /// The partition leader epoch.
    pub epoch: Seq<u8>,
    /// Attributes, last offset delta, timestamps and producer.
    pub head: Seq<u8>,
    pub records: Seq<Sent>,
    /// What stands behind the records.
    pub tail: Seq<u8>,
}

/// The part of a batch that its checksum covers.
pub open spec fn covered(batch: Batch) -> Seq<u8> {
    batch.head + (be(batch.records.len() as int, 4) + records_before(batch.records, batch.tail))
}

/// A batch: base offset, length, leader epoch, magic, checksum, and the part
/// that it covers.
pub open spec fn batch_before(batch: Batch, rest: Seq<u8>) -> Seq<u8> {
    let body = covered(batch);
    be(batch.base_offset, 8) + (be(body.len() as int + 9, 4) + (batch.epoch + (seq![2u8] + (be(
        crc32c(body) as int,
        4,
    ) + (body + rest)))))
}

/// Whether an integer is one that 16 bits hold.
pub open spec fn is_i16(value: int) -> bool {
    i16::MIN <= value <= i16::MAX
}

/// Whether an integer is one that 32 bits hold.
pub open spec fn is_i32(value: int) -> bool {
    i32::MIN <= value <= i32::MAX
}

/// Whether an integer is one that 64 bits hold.
pub open spec fn is_i64(value: int) -> bool {
    i64::MIN <= value <= i64::MAX
}

/// Whether a batch is one that can be sent: its fields as wide as they are,
/// and its length one that the length field can say.
pub open spec fn can_send(batch: Batch) -> bool {
    &&& is_i64(batch.base_offset)
    &&& batch.epoch.len() == 4
    &&& batch.head.len() == 36
    &&& covered(batch).len() + 9 <= i32::MAX
    &&& forall|i: int|
        0 <= i < batch.records.len() ==> is_i64((#[trigger] batch.records[i]).time) && is_i64(
            batch.records[i].delta,
        )
}

/// A string, or none: its UTF-8 bytes behind their length, or -1.
pub open spec fn text_before(text: Option<Seq<char>>, rest: Seq<u8>) -> Seq<u8> {
    match text {
        Some(text) => be(encode_utf8(text).len() as int, 2) + (encode_utf8(text) + rest),
        None => be(-1, 2) + rest,
    }
}

/// What a string says, where none says nothing.
pub open spec fn said(text: Option<Seq<char>>) -> Seq<char> {
    match text {
        Some(text) => text,
        None => Seq::empty(),
    }
}

/// Whether a string is short enough for its length field.
pub open spec fn is_short(text: Option<Seq<char>>) -> bool {
    text matches Some(text) ==> encode_utf8(text).len() <= i16::MAX
}

/// Bytes, or none: behind their length, or -1.
pub open spec fn bytes_before(bytes: Option<Seq<u8>>, rest: Seq<u8>) -> Seq<u8> {
    match bytes {
        Some(bytes) => be(bytes.len() as int, 4) + (bytes + rest),
        None => be(-1, 4) + rest,
    }
}

/// Whether bytes are few enough for their length field.
pub open spec fn are_few(bytes: Option<Seq<u8>>) -> bool {
    bytes matches Some(bytes) ==> bytes.len() <= i32::MAX
}

/// Node ids one behind another.
pub open spec fn nodes_before(nodes: Seq<int>, rest: Seq<u8>) -> Seq<u8>
    decreases nodes.len(),
{
    if nodes.len() == 0 {
        rest
    } else {
        be(nodes[0], 4) + nodes_before(nodes.skip(1), rest)
    }
}

/// A broker as a Metadata answer lists it.
pub struct Node {
    pub node: int,
    pub host: Option<Seq<char>>,
    pub port: int,
    pub rack: Option<Seq<char>>,
}

pub open spec fn node_before(broker: Node, rest: Seq<u8>) -> Seq<u8> {
    be(broker.node, 4) + text_before(
        broker.host,
        be(broker.port, 4) + text_before(broker.rack, rest),
    )
}

pub open spec fn brokers_before(brokers: Seq<Node>, rest: Seq<u8>) -> Seq<u8>
    decreases brokers.len(),
{
    if brokers.len() == 0 {
        rest
    } else {
        node_before(brokers[0], brokers_before(brokers.skip(1), rest))
    }
}

/// A partition as a Metadata answer tells of it.
pub struct Partition {
    pub error: int,
    pub partition: int,
    pub leader: int,
    pub replicas: Seq<int>,
    pub in_sync: Seq<int>,
}

pub open spec fn partition_before(partition: Partition, rest: Seq<u8>) -> Seq<u8> {
    be(partition.error, 2) + (be(partition.partition, 4) + (be(partition.leader, 4) + (be(
        partition.replicas.len() as int,
        4,
    ) + nodes_before(
        partition.replicas,
        be(partition.in_sync.len() as int, 4) + nodes_before(partition.in_sync, rest),
    ))))
}

pub open spec fn partitions_before(partitions: Seq<Partition>, rest: Seq<u8>) -> Seq<u8>
    decreases partitions.len(),
{
    if partitions.len() == 0 {
        rest
    } else {
        partition_before(partitions[0], partitions_before(partitions.skip(1), rest))
    }
}

/// A topic as a Metadata answer tells of it.
pub struct Told {
    pub error: int,
    pub name: Option<Seq<char>>,
    pub internal: u8,
    pub partitions: Seq<Partition>,
}

pub open spec fn told_before(topic: Told, rest: Seq<u8>) -> Seq<u8> {
    be(topic.error, 2) + text_before(
        topic.name,
        seq![topic.internal] + (be(topic.partitions.len() as int, 4) + partitions_before(
            topic.partitions,
            rest,
        )),
    )
}

pub open spec fn topics_before(topics: Seq<Told>, rest: Seq<u8>) -> Seq<u8>
    decreases topics.len(),
{
    if topics.len() == 0 {
        rest
    } else {
        told_before(topics[0], topics_before(topics.skip(1), rest))
    }
}

/// The body of a Metadata answer.
pub open spec fn metadata_before(
    brokers: Seq<Node>,
    controller: int,
    topics: Seq<Told>,
    rest: Seq<u8>,
) -> Seq<u8> {
    be(brokers.len() as int, 4) + brokers_before(
        brokers,
        be(controller, 4) + (be(topics.len() as int, 4) + topics_before(topics, rest)),
    )
}

/// Whether a broker is one that an answer can list.
pub open spec fn can_list(broker: Node) -> bool {
    &&& is_i32(broker.node)
    &&& is_i32(broker.port)
    &&& is_short(broker.host)
    &&& is_short(broker.rack)
}

/// Whether a partition is one that an answer can tell of.
pub open spec fn can_tell_partition(partition: Partition) -> bool {
    &&& is_i16(partition.error)
    &&& is_i32(partition.partition)
    &&& is_i32(partition.leader)
    &&& partition.replicas.len() <= i32::MAX
    &&& partition.in_sync.len() <= i32::MAX
}

/// Whether a topic is one that an answer can tell of.
pub open spec fn can_tell(topic: Told) -> bool {
    &&& is_i16(topic.error)
    &&& is_short(topic.name)
    &&& topic.partitions.len() <= i32::MAX
    &&& forall|i: int|
        0 <= i < topic.partitions.len() ==> can_tell_partition(#[trigger] topic.partitions[i])
}

/// Whether an answer is one that can be given.
pub open spec fn can_answer(brokers: Seq<Node>, controller: int, topics: Seq<Told>) -> bool {
    &&& brokers.len() <= i32::MAX
    &&& topics.len() <= i32::MAX
    &&& is_i32(controller)
    &&& forall|i: int| 0 <= i < brokers.len() ==> can_list(#[trigger] brokers[i])
    &&& forall|i: int| 0 <= i < topics.len() ==> can_tell(#[trigger] topics[i])
}

/// Names one behind another.
pub open spec fn names_before(names: Seq<Option<Seq<char>>>, rest: Seq<u8>) -> Seq<u8>
    decreases names.len(),
{
    if names.len() == 0 {
        rest
    } else {
        text_before(names[0], names_before(names.skip(1), rest))
    }
}

/// The record set that a Produce carries for one partition.
pub struct Load {
    pub partition: int,
    pub set: Option<Seq<u8>>,
}

pub open spec fn loads_before(loads: Seq<Load>, rest: Seq<u8>) -> Seq<u8>
    decreases loads.len(),
{
    if loads.len() == 0 {
        rest
    } else {
        be(loads[0].partition, 4) + bytes_before(
            loads[0].set,
            loads_before(loads.skip(1), rest),
        )
    }
}

/// What a Produce carries for one topic.
pub struct Loaded {
    pub name: Option<Seq<char>>,
    pub loads: Seq<Load>,
}

pub open spec fn loaded_before(topics: Seq<Loaded>, rest: Seq<u8>) -> Seq<u8>
    decreases topics.len(),
{
    if topics.len() == 0 {
        rest
    } else {
        text_before(
            topics[0].name,
            be(topics[0].loads.len() as int, 4) + loads_before(
                topics[0].loads,
                loaded_before(topics.skip(1), rest),
            ),
        )
    }
}

/// The body of a Produce request: a transaction, the acknowledgements wanted,
/// a timeout, and the topics.
pub open spec fn produce_before(
    transaction: Option<Seq<char>>,
    acknowledgements: int,
    timeout: int,
    topics: Seq<Loaded>,
    rest: Seq<u8>,
) -> Seq<u8> {
    text_before(
        transaction,
        be(acknowledgements, 2) + (be(timeout, 4) + (be(topics.len() as int, 4) + loaded_before(
            topics,
            rest,
        ))),
    )
}

/// Whether a topic's part of a Produce is one that can be sent.
pub open spec fn can_load(topic: Loaded) -> bool {
    &&& is_short(topic.name)
    &&& topic.loads.len() <= i32::MAX
    &&& forall|i: int|
        0 <= i < topic.loads.len() ==> is_i32((#[trigger] topic.loads[i]).partition) && are_few(
            topic.loads[i].set,
        )
}

/// What a Fetch asks for of one partition.
pub struct Ask {
    pub partition: int,
    pub offset: int,
    pub most: int,
}

pub open spec fn asks_before(asks: Seq<Ask>, rest: Seq<u8>) -> Seq<u8>
    decreases asks.len(),
{
    if asks.len() == 0 {
        rest
    } else {
        be(asks[0].partition, 4) + (be(asks[0].offset, 8) + (be(asks[0].most, 4) + asks_before(
            asks.skip(1),
            rest,
        )))
    }
}

/// What a Fetch asks for of one topic.
pub struct Asked {
    pub name: Option<Seq<char>>,
    pub asks: Seq<Ask>,
}

pub open spec fn asked_before(topics: Seq<Asked>, rest: Seq<u8>) -> Seq<u8>
    decreases topics.len(),
{
    if topics.len() == 0 {
        rest
    } else {
        text_before(
            topics[0].name,
            be(topics[0].asks.len() as int, 4) + asks_before(
                topics[0].asks,
                asked_before(topics.skip(1), rest),
            ),
        )
    }
}

/// The body of a Fetch request: a replica, a wait, a least, a most, an
/// isolation level, and the topics.
pub open spec fn fetch_before(
    replica: int,
    wait: int,
    least: int,
    most: int,
    isolation: int,
    topics: Seq<Asked>,
    rest: Seq<u8>,
) -> Seq<u8> {
    be(replica, 4) + (be(wait, 4) + (be(least, 4) + (be(most, 4) + (be(isolation, 1) + (be(
        topics.len() as int,
        4,
    ) + asked_before(topics, rest))))))
}

/// Whether a topic's part of a Fetch is one that can be sent.
pub open spec fn can_ask(topic: Asked) -> bool {
    &&& is_short(topic.name)
    &&& topic.asks.len() <= i32::MAX
    &&& forall|i: int|
        0 <= i < topic.asks.len() ==> is_i32((#[trigger] topic.asks[i]).partition) && is_i64(
            topic.asks[i].offset,
        )
}

/// A string reads back as what was written.
pub(crate) proof fn lemma_text(text: Option<Seq<char>>, rest: Seq<u8>)
    requires
        is_short(text),
    ensures
        string_at(text_before(text, rest)) == Ok::<(Option<Seq<char>>, Seq<u8>), Failure>(
            (text, rest),
        ),
        text_at(text_before(text, rest)) == Ok::<(Seq<char>, Seq<u8>), Failure>(
            (said(text), rest),
        ),
{
    match text {
        Some(inner) => {
            law_a_string_round_trips(inner, rest);
            assert(string_field(text) + rest =~= text_before(text, rest));
        },
        None => {
            law_no_string_round_trips(rest);
        },
    }
}

/// Bytes read back as what was written.
pub(crate) proof fn lemma_bytes(bytes: Option<Seq<u8>>, rest: Seq<u8>)
    requires
        are_few(bytes),
    ensures
        bytes_at(bytes_before(bytes, rest)) == Ok::<(Option<Seq<u8>>, Seq<u8>), Failure>(
            (bytes, rest),
        ),
{
    law_bytes_round_trip(bytes, rest);
    assert(bytes_field(bytes) + rest =~= bytes_before(bytes, rest));
}

/// A count reads back as what was written.
pub(crate) proof fn lemma_count(count: nat, rest: Seq<u8>)
    requires
        count <= i32::MAX,
    ensures
        count_at(be(count as int, 4) + rest) == Ok::<(nat, Seq<u8>), Failure>((count, rest)),
{
    law_a_count_round_trips(count, rest);
}

} // verus!
