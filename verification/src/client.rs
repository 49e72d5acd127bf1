//! The client's side of one connection to a broker: metadata, produce,
//! fetch — the three requests a Location needs to append to a partition
//! and to read on from an offset.
//!
//! A client reads and writes no socket. Each request is asked for with one
//! method, sent by whoever holds the connection, and what came back is made
//! sense of with another.

use vstd::prelude::*;

use crate::cursor::{past_the_end, signed_at, taken, Cursor, Parsed};
use crate::error::{permanent, protocol_error, retryable, Failure, TransportError};
use crate::integer::{be, signed};
use crate::records::{
    batch_bytes, batches_of, decode_batches, encode_batch, fields, lent, stored, Fields, Record,
    Stored,
};
use crate::stream::payload;
use crate::text::{decimal, push_decimal};
use crate::wire::{
    bytes_at, bytes_field, count_at, count_field, framed, request, request_message, string_at,
    string_field, text, text_at, Kafka, KafkaWrite, API_FETCH, API_METADATA, API_PRODUCE,
};
use crate::writer::ByteWriter;

verus! {

/// What a Metadata answered about one topic.
#[derive(Clone, Debug, PartialEq, Eq)]
pub struct TopicMetadata {
    pub partitions: Vec<i32>,
    /// The leader of partition 0, as `host:port`.
    pub leader: String,
    /// The leader of each of `partitions`, as `host:port`, or nothing where
    /// it has none.
    pub leaders: Vec<String>,
}

/// The mathematical content of a [`TopicMetadata`].
pub struct Topic {
    pub partitions: Seq<i32>,
    pub leader: Seq<char>,
    pub leaders: Seq<Seq<char>>,
}

/// What each of `strings` says.
pub open spec fn texts(strings: Seq<String>) -> Seq<Seq<char>> {
    Seq::new(strings.len(), |i: int| strings[i]@)
}

impl View for TopicMetadata {
    type V = Topic;

    open spec fn view(&self) -> Topic {
        Topic {
            partitions: self.partitions@,
            leader: self.leader@,
            leaders: texts(self.leaders@),
        }
    }
}

/// The leader of `partition`, nothing where it has none or is not told of;
/// the last word about it counts.
pub open spec fn leader_of(topic: Topic, partition: i32) -> Seq<char> {
    match topic.partitions.index_of_last(partition) {
        Some(at) if at < topic.leaders.len() => topic.leaders[at],
        _ => Seq::empty(),
    }
}

impl TopicMetadata {
    /// The leader of `partition`, as `host:port`, or nothing where it has
    /// none or the broker did not tell of it.
    #[must_use]
    pub fn leader_of(&self, partition: i32) -> (leader: &str)
        ensures
            leader@ == leader_of(self@, partition),
    {
        let mut end: usize = self.partitions.len();
        proof {
            reveal_strlit("");
            self.partitions@.index_of_last_ensures(partition);
        }
        while end > 0
            invariant
                end <= self.partitions@.len(),
                forall|i: int| end <= i < self.partitions@.len() ==> self.partitions@[i] != partition,
            ensures
                end <= self.partitions@.len(),
                forall|i: int| end <= i < self.partitions@.len() ==> self.partitions@[i] != partition,
                end > 0 ==> self.partitions@[end - 1] == partition,
            decreases end,
        {
            if self.partitions[end - 1] == partition {
                break;
            }
            end -= 1;
        }
        proof {
            if end > 0 {
                assert(self.partitions@.contains(partition));
                assert(self.partitions@.index_of_last(partition) == Some(end - 1));
            }
            assert(""@ =~= Seq::<char>::empty());
        }
        if end > 0 && end <= self.leaders.len() {
            self.leaders[end - 1].as_str()
        } else {
            ""
        }
    }
}

/// The client's side of one connection: the name it goes by, and the
/// correlation id of its last request.
pub struct Client {
    name: String,
    correlation: i32,
}

/// The mathematical content of a [`Client`].
pub struct Caller {
    pub name: Seq<char>,
    pub correlation: int,
}

impl View for Client {
    type V = Caller;

    closed spec fn view(&self) -> Caller {
        Caller { name: self.name@, correlation: self.correlation as int }
    }
}

/// The correlation id behind `correlation`, the lowest behind the highest.
pub open spec fn next_correlation(correlation: int) -> int {
    if correlation >= i32::MAX {
        i32::MIN as int
    } else {
        correlation + 1
    }
}

/// Whether a broker's error code is one that trying again may mend.
pub open spec fn is_retriable(code: int) -> bool {
    code == 3 || 5 <= code <= 9 || 13 <= code <= 16 || code == 19 || code == 20
}

/// The failure that a broker's error code is.
pub open spec fn broker_failure(code: int, what: Seq<char>) -> Failure {
    Failure {
        message: "the broker answered "@ + what + " with error "@ + decimal(code),
        retryable: is_retriable(code),
    }
}

/// A broker error code as an error: the retriable ones retryable.
fn broker_error(code: i16, what: &str) -> (error: TransportError)
    ensures
        error@ == broker_failure(code as int, what@),
{
    let mut message: String = "the broker answered ".to_string();
    message.append(what);
    message.append(" with error ");
    push_decimal(&mut message, code as i64);
    match code {
        3 | 5 | 6 | 7 | 8 | 9 | 13 | 14 | 15 | 16 | 19 | 20 => TransportError::retryable(message),
        _ => TransportError::permanent(message),
    }
}

/// The caller once it has made another request, and the request it made.
pub open spec fn called(caller: Caller, api_key: int, api_version: int, body: Seq<u8>) -> (
    Caller,
    Seq<u8>,
) {
    let correlation = next_correlation(caller.correlation);
    (
        Caller { correlation, ..caller },
        framed(request_message(api_key, api_version, correlation, caller.name, body)),
    )
}

/// The body of the answer to the caller's last request, from the message
/// that came back or from none where the broker closed.
pub open spec fn answer_of(caller: Caller, message: Option<Seq<u8>>) -> Result<Seq<u8>, Failure> {
    match message {
        Some(answer) => match signed_at(answer, 4) {
            Ok((correlation, body)) => if correlation == caller.correlation {
                Ok(body)
            } else {
                Err(permanent("an answer to another request"@))
            },
            Err(failure) => Err(failure),
        },
        None => Err(permanent("the broker closed before answering"@)),
    }
}

/// The body of a Metadata request.
pub open spec fn metadata_body(topic: Seq<char>) -> Seq<u8> {
    count_field(1) + string_field(Some(topic))
}

/// The body of a Produce request: no transaction, the leader's
/// acknowledgement, ten seconds, and one batch of one record.
pub open spec fn produce_body(topic: Seq<char>, partition: int, record: Fields) -> Seq<u8> {
    string_field(None) + be(1, 2) + be(10_000, 4) + count_field(1) + string_field(Some(topic))
        + count_field(1) + be(partition, 4) + bytes_field(Some(batch_bytes(0, seq![record])))
}

/// The body of a Fetch request: no replica, a tenth of a second, at least
/// one byte and at most a mebibyte, uncommitted records too, of one
/// partition from `offset` on.
pub open spec fn fetch_body(topic: Seq<char>, partition: int, offset: int) -> Seq<u8> {
    be(-1, 4) + be(100, 4) + be(1, 4) + be(0x10_0000, 4) + be(0, 1) + count_field(1)
        + string_field(Some(topic)) + count_field(1) + be(partition, 4) + be(offset, 8) + be(
        0x10_0000,
        4,
    )
}

/// A broker that a Metadata answer lists: its node id and its address.
pub type Listed = (int, Seq<char>);

/// A broker read off a Metadata answer: node, host, port and rack.
pub open spec fn broker_at(answer: Seq<u8>) -> Parsed<Listed> {
    match signed_at(answer, 4) {
        Ok((node, rest)) => match text_at(rest) {
            Ok((host, rest)) => match signed_at(rest, 4) {
                Ok((port, rest)) => match string_at(rest) {
                    Ok((_, rest)) => Ok(((node, host + ":"@ + decimal(port)), rest)),
                    Err(failure) => Err(failure),
                },
                Err(failure) => Err(failure),
            },
            Err(failure) => Err(failure),
        },
        Err(failure) => Err(failure),
    }
}

/// The next `count` brokers behind `brokers`.
pub open spec fn brokers_at(brokers: Seq<Listed>, count: nat, answer: Seq<u8>) -> Parsed<
    Seq<Listed>,
>
    decreases count,
{
    if count == 0 {
        Ok((brokers, answer))
    } else {
        match broker_at(answer) {
            Ok((broker, rest)) => brokers_at(brokers.push(broker), (count - 1) as nat, rest),
            Err(failure) => Err(failure),
        }
    }
}

/// The address of the first of `brokers` with this node id, or nothing.
pub open spec fn address_of(brokers: Seq<Listed>, node: int) -> Seq<char>
    decreases brokers.len(),
{
    if brokers.len() == 0 {
        Seq::empty()
    } else if brokers[0].0 == node {
        brokers[0].1
    } else {
        address_of(brokers.skip(1), node)
    }
}

/// An array of `width` bytes an element, passed over.
pub open spec fn passed_array(bytes: Seq<u8>, width: nat) -> Result<Seq<u8>, Failure> {
    match count_at(bytes) {
        Ok((count, rest)) => match taken(rest, count * width) {
            Ok((_, rest)) => Ok(rest),
            Err(failure) => Err(failure),
        },
        Err(failure) => Err(failure),
    }
}

/// A partition read off a Metadata answer, behind what is known of its topic:
/// error, partition, leader, replicas and those in sync.
pub open spec fn partition_at(brokers: Seq<Listed>, topic: Topic, answer: Seq<u8>) -> Parsed<
    Topic,
> {
    if answer.len() < 10 {
        Err(past_the_end())
    } else {
        let partition = signed(answer.subrange(2, 6));
        let leader = signed(answer.subrange(6, 10));
        match passed_array(answer.skip(10), 4) {
            Ok(rest) => match passed_array(rest, 4) {
                Ok(rest) => Ok(
                    (
                        Topic {
                            partitions: topic.partitions.push(partition as i32),
                            leader: if partition == 0 {
                                address_of(brokers, leader)
                            } else {
                                topic.leader
                            },
                            leaders: topic.leaders.push(address_of(brokers, leader)),
                        },
                        rest,
                    ),
                ),
                Err(failure) => Err(failure),
            },
            Err(failure) => Err(failure),
        }
    }
}

/// The next `count` partitions of a topic.
pub open spec fn partitions_at(
    brokers: Seq<Listed>,
    topic: Topic,
    count: nat,
    answer: Seq<u8>,
) -> Parsed<Topic>
    decreases count,
{
    if count == 0 {
        Ok((topic, answer))
    } else {
        match partition_at(brokers, topic, answer) {
            Ok((topic, rest)) => partitions_at(brokers, topic, (count - 1) as nat, rest),
            Err(failure) => Err(failure),
        }
    }
}

/// A topic of which nothing is known yet.
pub open spec fn untold() -> Topic {
    Topic { partitions: Seq::empty(), leader: Seq::empty(), leaders: Seq::empty() }
}

/// A topic read off a Metadata answer: its error code, its name, and what is
/// known of it.
pub open spec fn topic_at(brokers: Seq<Listed>, answer: Seq<u8>) -> Parsed<
    (int, Seq<char>, Topic),
> {
    match signed_at(answer, 2) {
        Ok((error, rest)) => match text_at(rest) {
            Ok((name, rest)) => match taken(rest, 1) {
                Ok((_, rest)) => match count_at(rest) {
                    Ok((count, rest)) => match partitions_at(
                        brokers,
                        untold(),
                        count,
                        rest,
                    ) {
                        Ok((topic, rest)) => Ok(((error, name, topic), rest)),
                        Err(failure) => Err(failure),
                    },
                    Err(failure) => Err(failure),
                },
                Err(failure) => Err(failure),
            },
            Err(failure) => Err(failure),
        },
        Err(failure) => Err(failure),
    }
}

/// What the next `count` topics say of the one `wanted`: the last word counts,
/// and an error for it ends the search.
pub open spec fn topic_among(
    wanted: Seq<char>,
    brokers: Seq<Listed>,
    known: Option<Topic>,
    count: nat,
    answer: Seq<u8>,
) -> Result<Option<Topic>, Failure>
    decreases count,
{
    if count == 0 {
        Ok(known)
    } else {
        match topic_at(brokers, answer) {
            Ok(((error, name, topic), rest)) => if name != wanted {
                topic_among(wanted, brokers, known, (count - 1) as nat, rest)
            } else if error != 0 {
                Err(broker_failure(error, "metadata for "@ + wanted))
            } else {
                topic_among(wanted, brokers, Some(topic), (count - 1) as nat, rest)
            },
            Err(failure) => Err(failure),
        }
    }
}

/// What the body of a Metadata answer says of `wanted`: the brokers, the
/// controller, and the topics.
pub open spec fn metadata_of(wanted: Seq<char>, answer: Seq<u8>) -> Result<Topic, Failure> {
    match count_at(answer) {
        Ok((count, rest)) => match brokers_at(Seq::empty(), count, rest) {
            Ok((brokers, rest)) => match taken(rest, 4) {
                Ok((_, rest)) => match count_at(rest) {
                    Ok((count, rest)) => match topic_among(wanted, brokers, None, count, rest) {
                        Ok(Some(topic)) => Ok(topic),
                        Ok(None) => Err(permanent("no metadata for "@ + wanted)),
                        Err(failure) => Err(failure),
                    },
                    Err(failure) => Err(failure),
                },
                Err(failure) => Err(failure),
            },
            Err(failure) => Err(failure),
        },
        Err(failure) => Err(failure),
    }
}

/// What stands before the one partition of an answer: a topic and its name.
/// `what` names the request.
pub open spec fn partition_of(what: Seq<char>, answer: Seq<u8>) -> Result<Seq<u8>, Failure> {
    match count_at(answer) {
        Ok((topics, rest)) => if topics == 0 {
            Err(permanent("a "@ + what + " answered without a topic"@))
        } else {
            match string_at(rest) {
                Ok((_, rest)) => match count_at(rest) {
                    Ok((partitions, rest)) => if partitions == 0 {
                        Err(permanent("a "@ + what + " answered without a partition"@))
                    } else {
                        Ok(rest)
                    },
                    Err(failure) => Err(failure),
                },
                Err(failure) => Err(failure),
            }
        },
        Err(failure) => Err(failure),
    }
}

/// The offset that the body of a Produce answer says the record was written
/// at: partition, error, and offset.
pub open spec fn produced_at(answer: Seq<u8>) -> Result<int, Failure> {
    match partition_of("produce"@, answer) {
        Ok(rest) => if rest.len() < 14 {
            Err(past_the_end())
        } else if signed(rest.subrange(4, 6)) != 0 {
            Err(broker_failure(signed(rest.subrange(4, 6)), "the produce"@))
        } else {
            Ok(signed(rest.subrange(6, 14)))
        },
        Err(failure) => Err(failure),
    }
}

/// Those of `records` that stand at `offset` or behind it.
pub open spec fn from_on(offset: int, records: Seq<Stored>) -> Seq<Stored> {
    records.filter(|r: Stored| r.offset >= offset)
}

/// The records from `offset` on that the body of a Fetch answer carries: a
/// throttle, then partition, error, high watermark, last stable offset,
/// aborted transactions, and the record set. A broker answers with whole
/// batches, and the first may begin before the offset.
pub open spec fn fetched_from(offset: int, answer: Seq<u8>) -> Result<Seq<Stored>, Failure> {
    match taken(answer, 4) {
        Ok((_, rest)) => match partition_of("fetch"@, rest) {
            Ok(rest) => if rest.len() < 22 {
                Err(past_the_end())
            } else {
                let error = signed(rest.subrange(4, 6));
                match passed_array(rest.skip(22), 16) {
                    Ok(rest) => match bytes_at(rest) {
                        Ok((set, _)) => if error != 0 {
                            Err(broker_failure(error, "the fetch"@))
                        } else {
                            match batches_of(payload(set)) {
                                Ok(records) => Ok(from_on(offset, records)),
                                Err(failure) => Err(failure),
                            }
                        },
                        Err(failure) => Err(failure),
                    },
                    Err(failure) => Err(failure),
                }
            },
            Err(failure) => Err(failure),
        },
        Err(failure) => Err(failure),
    }
}

/// The brokers in a list of node ids and addresses.
spec fn listed(brokers: Seq<(i32, String)>) -> Seq<Listed> {
    Seq::new(brokers.len(), |i: int| (brokers[i].0 as int, brokers[i].1@))
}

/// The next `count` brokers of a Metadata answer.
fn read_brokers(reader: &mut Cursor<'_>, count: usize) -> (brokers: Result<
    Vec<(i32, String)>,
    TransportError,
>)
    ensures
        match brokers_at(Seq::empty(), count as nat, old(reader)@) {
            Ok((all, rest)) => brokers matches Ok(b) && listed(b@) == all && final(reader)@ == rest,
            Err(failure) => brokers matches Err(e) && e@ == failure,
        },
{
    let mut brokers: Vec<(i32, String)> = Vec::new();
    assert(listed(brokers@) =~= Seq::empty());
    while brokers.len() < count
        invariant
            brokers@.len() <= count,
            brokers_at(Seq::empty(), count as nat, old(reader)@) == brokers_at(
                listed(brokers@),
                (count - brokers@.len()) as nat,
                reader@,
            ),
        decreases count - brokers@.len(),
    {
        let ghost before = brokers@;
        let node: i32 = reader.i32_be()?;
        let mut address: String = text(reader)?;
        let port: i32 = reader.i32_be()?;
        reader.nullable_string()?;  // rack
        address.append(":");
        push_decimal(&mut address, port as i64);
        brokers.push((node, address));
        assert(listed(brokers@) =~= listed(before).push((node as int, address@)));
    }
    Ok(brokers)
}

/// The address of the first of `brokers` with this node id, or nothing.
fn address(brokers: &Vec<(i32, String)>, node: i32) -> (address: String)
    ensures
        address@ == address_of(listed(brokers@), node as int),
{
    let mut at: usize = 0;
    assert(listed(brokers@).skip(0) =~= listed(brokers@));
    while at < brokers.len()
        invariant
            at <= brokers@.len(),
            address_of(listed(brokers@), node as int) == address_of(
                listed(brokers@).skip(at as int),
                node as int,
            ),
        decreases brokers@.len() - at,
    {
        assert(listed(brokers@).skip(at as int)[0] == (
            brokers@[at as int].0 as int,
            brokers@[at as int].1@,
        ));
        assert(listed(brokers@).skip(at as int).skip(1) =~= listed(brokers@).skip(at + 1));
        if brokers[at].0 == node {
            return brokers[at].1.clone();
        }
        at += 1;
    }
    String::new()
}

/// Pass over an array of elements of `width` bytes each.
fn pass_array(reader: &mut Cursor<'_>, width: usize) -> (done: Result<(), TransportError>)
    ensures
        match passed_array(old(reader)@, width as nat) {
            Ok(rest) => done is Ok && final(reader)@ == rest,
            Err(failure) => done matches Err(e) && e@ == failure,
        },
{
    let count: usize = reader.count()?;
    let ghost array = reader@;
    let mut passed: usize = 0;
    assert(array.skip(0) =~= array);
    assert(0 * width == 0) by (nonlinear_arith);
    while passed < count
        invariant
            passed <= count,
            count_at(old(reader)@) == Ok::<(nat, Seq<u8>), Failure>((count as nat, array)),
            passed * width <= array.len(),
            reader@ == array.skip((passed * width) as int),
        decreases count - passed,
    {
        assert((passed + 1) * width == passed * width + width) by (nonlinear_arith);
        assert(passed + 1 <= count ==> (passed + 1) * width <= count * width) by (nonlinear_arith);
        reader.skip(width)?;
        passed += 1;
        assert(reader@ =~= array.skip((passed * width) as int));
    }
    Ok(())
}

/// The next `count` partitions of a topic.
fn read_partitions(
    reader: &mut Cursor<'_>,
    brokers: &Vec<(i32, String)>,
    count: usize,
) -> (topic: Result<TopicMetadata, TransportError>)
    ensures
        match partitions_at(listed(brokers@), untold(), count as nat, old(reader)@) {
            Ok((known, rest)) => topic matches Ok(t) && t@ == known && final(reader)@ == rest,
            Err(failure) => topic matches Err(e) && e@ == failure,
        },
{
    let mut partitions: Vec<i32> = Vec::new();
    let mut leader: String = String::new();
    let mut leaders: Vec<String> = Vec::new();
    assert(texts(leaders@) =~= Seq::empty());
    while partitions.len() < count
        invariant
            partitions@.len() <= count,
            partitions_at(listed(brokers@), untold(), count as nat, old(reader)@) == partitions_at(
                listed(brokers@),
                Topic { partitions: partitions@, leader: leader@, leaders: texts(leaders@) },
                (count - partitions@.len()) as nat,
                reader@,
            ),
        decreases count - partitions@.len(),
    {
        let ghost answer = reader@;
        reader.i16_be()?;  // partition error
        let partition: i32 = reader.i32_be()?;
        let leader_node: i32 = reader.i32_be()?;
        assert(answer.skip(2).take(4) =~= answer.subrange(2, 6));
        assert(answer.skip(2).skip(4).take(4) =~= answer.subrange(6, 10));
        assert(reader@ =~= answer.skip(10));
        pass_array(reader, 4)?;  // replicas
        pass_array(reader, 4)?;  // in sync
        let ghost before = leaders@;
        if partition == 0 {
            leader = address(brokers, leader_node);
        }
        leaders.push(address(brokers, leader_node));
        partitions.push(partition);
        assert(texts(leaders@) =~= texts(before).push(
            address_of(listed(brokers@), leader_node as int),
        ));
    }
    Ok(TopicMetadata { partitions, leader, leaders })
}

/// What the next `count` topics say of `wanted`.
fn find_topic(
    reader: &mut Cursor<'_>,
    brokers: &Vec<(i32, String)>,
    count: usize,
    wanted: &String,
) -> (known: Result<Option<TopicMetadata>, TransportError>)
    ensures
        match topic_among(wanted@, listed(brokers@), None, count as nat, old(reader)@) {
            Ok(Some(topic)) => known matches Ok(Some(k)) && k@ == topic,
            Ok(None) => known == Ok::<Option<TopicMetadata>, TransportError>(None),
            Err(failure) => known matches Err(e) && e@ == failure,
        },
{
    let mut metadata: Option<TopicMetadata> = None;
    let ghost mut known: Option<Topic> = None;
    let mut done: usize = 0;
    while done < count
        invariant
            done <= count,
            known == (match metadata {
                Some(topic) => Some(topic@),
                None => None,
            }),
            topic_among(wanted@, listed(brokers@), None, count as nat, old(reader)@)
                == topic_among(
                wanted@,
                listed(brokers@),
                known,
                (count - done) as nat,
                reader@,
            ),
        decreases count - done,
    {
        let error: i16 = reader.i16_be()?;
        let name: String = text(reader)?;
        reader.i8()?;  // internal
        let partitions: usize = reader.count()?;
        let topic: TopicMetadata = read_partitions(reader, brokers, partitions)?;
        if name == *wanted {
            if error != 0 {
                let mut what: String = "metadata for ".to_string();
                what.append(wanted.as_str());
                return Err(broker_error(error, what.as_str()));
            }
            proof {
                known = Some(topic@);
            }
            metadata = Some(topic);
        }
        done += 1;
    }
    Ok(metadata)
}

/// Come to the one partition of an answer; `what` names the request.
fn come_to_partition(reader: &mut Cursor<'_>, what: &str) -> (done: Result<(), TransportError>)
    ensures
        match partition_of(what@, old(reader)@) {
            Ok(rest) => done is Ok && final(reader)@ == rest,
            Err(failure) => done matches Err(e) && e@ == failure,
        },
{
    if reader.count()? == 0 {
        return Err(answered_without(what, " answered without a topic"));
    }
    reader.nullable_string()?;
    if reader.count()? == 0 {
        return Err(answered_without(what, " answered without a partition"));
    }
    Ok(())
}

/// Those of `records` that stand at `offset` or behind it.
fn at_or_behind(offset: i64, records: Vec<Record>) -> (kept: Vec<Record>)
    ensures
        stored(kept@) == from_on(offset as int, stored(records@)),
{
    let mut kept: Vec<Record> = Vec::new();
    let ghost all = stored(records@);
    proof {
        reveal(Seq::filter);
        assert(stored(kept@) =~= from_on(offset as int, all.take(0)));
    }
    for record in iter: records
        invariant
            all == stored(iter.seq()),
            stored(kept@) == from_on(offset as int, all.take(iter.index() as int)),
    {
        let ghost before = kept@;
        proof {
            reveal(Seq::filter);
            let next = all.take(iter.index() + 1);
            assert(next.drop_last() =~= all.take(iter.index() as int));
            assert(next.last() == record@);
        }
        if record.offset >= offset {
            kept.push(record);
            assert(stored(kept@) =~= stored(before).push(record@));
        }
    }
    assert(all.take(all.len() as int) =~= all);
    kept
}

/// An answer that leaves out what it must say.
fn answered_without(what: &str, lack: &str) -> (error: TransportError)
    ensures
        error@ == permanent("a "@ + what@ + lack@),
{
    let mut message: String = "a ".to_string();
    message.append(what);
    message.append(lack);
    TransportError::permanent(message)
}

impl Client {
    /// A client that goes by the name `client`, before its first request.
    #[must_use]
    pub fn new(client: &str) -> (caller: Self)
        ensures
            caller@ == (Caller { name: client@, correlation: 0 }),
    {
        Client { name: client.to_string(), correlation: 0 }
    }

    /// The next request, to send to the broker.
    pub fn call(&mut self, api_key: i16, api_version: i16, body: &[u8]) -> (message: Vec<u8>)
        ensures
            (final(self)@, message@) == called(
                old(self)@,
                api_key as int,
                api_version as int,
                body@,
            ),
    {
        self.correlation = self.correlation.wrapping_add(1);
        request(api_key, api_version, self.correlation, self.name.as_str(), body)
    }

    /// The body of the answer to the last request, from the `message` that
    /// came back, or from none where the broker closed.
    ///
    /// # Errors
    /// Where the broker closed, or answered another request.
    pub fn answer<'a>(&self, message: Option<&'a [u8]>) -> (body: Result<
        &'a [u8],
        TransportError,
    >)
        ensures
            match answer_of(self@, lent(message)) {
                Ok(bytes) => body matches Ok(b) && b@ == bytes,
                Err(failure) => body matches Err(e) && e@ == failure,
            },
    {
        match message {
            Some(answer) => {
                let mut reader = Cursor::new(answer);
                if reader.i32_be()? != self.correlation {
                    return Err(protocol_error("an answer to another request"));
                }
                Ok(reader.take_rest())
            },
            None => Err(protocol_error("the broker closed before answering")),
        }
    }

    /// Metadata v1 for `topic`, to send to the broker.
    pub fn ask_metadata(&mut self, topic: &str) -> (message: Vec<u8>)
        ensures
            (final(self)@, message@) == called(
                old(self)@,
                API_METADATA as int,
                1,
                metadata_body(topic@),
            ),
    {
        let mut body: Vec<u8> = Vec::new();
        body.count(1).nullable_string(Some(topic));
        assert(body@ =~= metadata_body(topic@));
        self.call(API_METADATA, 1, body.as_slice())
    }

    /// Metadata v1: what the broker's answer says of `topic`.
    ///
    /// # Errors
    /// Where the broker went away, or answered an error for the topic.
    pub fn metadata(&self, topic: &str, message: Option<&[u8]>) -> (metadata: Result<
        TopicMetadata,
        TransportError,
    >)
        ensures
            match answer_of(self@, lent(message)) {
                Ok(answer) => match metadata_of(topic@, answer) {
                    Ok(known) => metadata matches Ok(m) && m@ == known,
                    Err(failure) => metadata matches Err(e) && e@ == failure,
                },
                Err(failure) => metadata matches Err(e) && e@ == failure,
            },
    {
        let mut reader = Cursor::new(self.answer(message)?);
        let listed: usize = reader.count()?;
        let brokers: Vec<(i32, String)> = read_brokers(&mut reader, listed)?;
        reader.i32_be()?;  // controller
        let topics: usize = reader.count()?;
        match find_topic(&mut reader, &brokers, topics, &topic.to_string())? {
            Some(metadata) => Ok(metadata),
            None => {
                let mut message: String = "no metadata for ".to_string();
                message.append(topic);
                Err(TransportError::permanent(message))
            },
        }
    }

    /// Produce v3: one record to `partition` of `topic`, to be acknowledged
    /// by the leader, to send to the broker.
    pub fn ask_produce(
        &mut self,
        topic: &str,
        partition: i32,
        key: Option<&[u8]>,
        value: &[u8],
    ) -> (message: Vec<u8>)
        ensures
            (final(self)@, message@) == called(
                old(self)@,
                API_PRODUCE as int,
                3,
                produce_body(
                    topic@,
                    partition as int,
                    Fields { key: lent(key), value: Some(value@) },
                ),
            ),
    {
        let record = (key, Some(value));
        let batch: Vec<u8> = encode_batch(0, &[record]);
        let mut body: Vec<u8> = Vec::new();
        body.nullable_string(None).i16_be(1).i32_be(10_000).count(1).nullable_string(
            Some(topic),
        ).count(1).i32_be(partition).nullable_bytes(Some(batch.as_slice()));
        proof {
            let one = Fields { key: lent(key), value: Some(value@) };
            assert(fields([record]@) =~= seq![one]);
            assert(body@ =~= produce_body(topic@, partition as int, one));
        }
        self.call(API_PRODUCE, 3, body.as_slice())
    }

    /// Produce v3: the offset that the broker's answer says the record was
    /// written at.
    ///
    /// # Errors
    /// Where the broker went away or answered an error.
    pub fn produce(&self, message: Option<&[u8]>) -> (offset: Result<i64, TransportError>)
        ensures
            match answer_of(self@, lent(message)) {
                Ok(answer) => match produced_at(answer) {
                    Ok(at) => offset matches Ok(o) && o == at,
                    Err(failure) => offset matches Err(e) && e@ == failure,
                },
                Err(failure) => offset matches Err(e) && e@ == failure,
            },
    {
        let mut reader = Cursor::new(self.answer(message)?);
        come_to_partition(&mut reader, "produce")?;
        let ghost rest = reader@;
        reader.i32_be()?;
        let error: i16 = reader.i16_be()?;
        assert(rest.skip(4).take(2) =~= rest.subrange(4, 6));
        let base_offset: i64 = reader.i64_be()?;
        assert(rest.skip(4).skip(2).take(8) =~= rest.subrange(6, 14));
        if error != 0 {
            return Err(broker_error(error, "the produce"));
        }
        Ok(base_offset)
    }

    /// Fetch v4: the records of `partition` of `topic` from `offset` on, to
    /// send to the broker.
    pub fn ask_fetch(&mut self, topic: &str, partition: i32, offset: i64) -> (message: Vec<u8>)
        ensures
            (final(self)@, message@) == called(
                old(self)@,
                API_FETCH as int,
                4,
                fetch_body(topic@, partition as int, offset as int),
            ),
    {
        let mut body: Vec<u8> = Vec::new();
        body.i32_be(-1).i32_be(100).i32_be(1).i32_be(0x10_0000).i8(0).count(1).nullable_string(
            Some(topic),
        ).count(1).i32_be(partition).i64_be(offset).i32_be(0x10_0000);
        assert(body@ =~= fetch_body(topic@, partition as int, offset as int));
        self.call(API_FETCH, 4, body.as_slice())
    }

    /// Fetch v4: the records from `offset` on, out of the broker's answer.
    ///
    /// # Errors
    /// Where the broker went away or answered an error.
    pub fn fetch(&self, offset: i64, message: Option<&[u8]>) -> (records: Result<
        Vec<Record>,
        TransportError,
    >)
        ensures
            match answer_of(self@, lent(message)) {
                Ok(answer) => match fetched_from(offset as int, answer) {
                    Ok(all) => records matches Ok(r) && stored(r@) == all,
                    Err(failure) => records matches Err(e) && e@ == failure,
                },
                Err(failure) => records matches Err(e) && e@ == failure,
            },
    {
        let mut reader = Cursor::new(self.answer(message)?);
        reader.i32_be()?;  // throttle
        come_to_partition(&mut reader, "fetch")?;
        let ghost rest = reader@;
        reader.i32_be()?;
        let error: i16 = reader.i16_be()?;
        assert(rest.skip(4).take(2) =~= rest.subrange(4, 6));
        reader.i64_be()?;  // high watermark
        reader.i64_be()?;  // last stable offset
        assert(reader@ =~= rest.skip(22));
        pass_array(&mut reader, 16)?;  // aborted transactions
        let set: &[u8] = match reader.nullable_bytes()? {
            Some(bytes) => bytes,
            None => &[],
        };
        if error != 0 {
            return Err(broker_error(error, "the fetch"));
        }
        let records: Vec<Record> = decode_batches(set)?;
        Ok(at_or_behind(offset, records))
    }
}

} // verus!
