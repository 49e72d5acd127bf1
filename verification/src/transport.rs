//! A Location's own side of Kafka: which cluster, which topic, which
//! partition, and how far it has read.

use std::time::Duration;

use vstd::prelude::*;

use crate::client::{
    answer_of, called, fetch_body, fetched_from, leader_of, produce_body, Client, TopicMetadata,
};
use crate::error::{retryable, Failure, TransportError};
use crate::integer::wrapped;
use crate::records::{copied, lent, stored, Fields, Record, Stored};
use crate::stream::{announced, deliveries, origin_uri, payload, Arrived};
use crate::text::{decimal, push_decimal, split_at_first, split_once, strip_prefix};
use crate::wire::{API_FETCH, API_PRODUCE};

verus! {

/// Where a Location reads and writes, and the cursor it reads on from.
pub struct KafkaTransport {
    bootstrap: String,
    topic: String,
    partition: i32,
    client: String,
    cursor: i64,
    timeout: Option<Duration>,
}

/// The mathematical content of a [`KafkaTransport`].
pub struct Location {
    pub bootstrap: Seq<char>,
    pub topic: Seq<char>,
    pub partition: int,
    pub client: Seq<char>,
    pub cursor: int,
    pub timeout: Option<Duration>,
}

impl View for KafkaTransport {
    type V = Location;

    closed spec fn view(&self) -> Location {
        Location {
            bootstrap: self.bootstrap@,
            topic: self.topic@,
            partition: self.partition as int,
            client: self.client@,
            cursor: self.cursor as int,
            timeout: self.timeout,
        }
    }
}

/// The broker and the topic that a target names itself, as
/// `kafka://host:9092/orders`; the topic empty where it names none.
pub open spec fn named(target: Seq<char>) -> Option<(Seq<char>, Seq<char>)> {
    if "kafka://"@.is_prefix_of(target) {
        let rest = target.skip("kafka://"@.len() as int);
        match split_at_first(rest, '/') {
            Some(pair) => Some(pair),
            None => Some((rest, Seq::empty())),
        }
    } else {
        None
    }
}

/// The broker and the topic that `target` means to `location`.
pub open spec fn resolved(location: Location, target: Seq<char>) -> (Seq<char>, Seq<char>) {
    match named(target) {
        Some((peer, topic)) => if topic.len() == 0 {
            (peer, location.topic)
        } else {
            (peer, topic)
        },
        None => (location.bootstrap, target),
    }
}

/// The failure to find the leader of a topic's partition.
pub open spec fn no_leader(topic: Seq<char>, partition: int) -> Failure {
    retryable("no leader for partition "@ + decimal(partition) + " of "@ + topic)
}

/// The cursor once `records` have been received: one past the last, the
/// lowest offset behind the highest.
pub open spec fn moved_past(cursor: int, records: Seq<Stored>) -> int {
    if records.len() == 0 {
        cursor
    } else {
        wrapped(records.last().offset + 1)
    }
}

impl KafkaTransport {
    /// Speak to the cluster at `bootstrap` about `topic`, partition 0,
    /// reading from its beginning.
    #[must_use]
    pub fn new(bootstrap: &str, topic: &str) -> (transport: Self)
        ensures
            transport@ == (Location {
                bootstrap: bootstrap@,
                topic: topic@,
                partition: 0,
                client: "xmip"@,
                cursor: 0,
                timeout: None,
            }),
    {
        KafkaTransport {
            bootstrap: bootstrap.to_string(),
            topic: topic.to_string(),
            partition: 0,
            client: "xmip".to_string(),
            cursor: 0,
            timeout: None,
        }
    }

    /// This partition rather than 0.
    #[must_use]
    pub fn on_partition(self, partition: i32) -> (transport: Self)
        ensures
            transport@ == (Location { partition: partition as int, ..self@ }),
    {
        let mut transport = self;
        transport.partition = partition;
        transport
    }

    /// Start reading from this offset rather than the beginning.
    #[must_use]
    pub fn from_offset(self, offset: i64) -> (transport: Self)
        ensures
            transport@ == (Location { cursor: offset as int, ..self@ }),
    {
        let mut transport = self;
        transport.cursor = offset;
        transport
    }

    /// Give up on a broker that stops mid-message.
    #[must_use]
    pub fn timing_out_after(self, timeout: Duration) -> (transport: Self)
        ensures
            transport@ == (Location { timeout: Some(timeout), ..self@ }),
    {
        let mut transport = self;
        transport.timeout = Some(timeout);
        transport
    }

    /// The offset the next receive reads from.
    #[must_use]
    pub fn cursor(&self) -> (offset: i64)
        ensures
            offset == self@.cursor,
    {
        self.cursor
    }

    /// The broker to ask first.
    #[must_use]
    pub fn bootstrap(&self) -> (address: &str)
        ensures
            address@ == self@.bootstrap,
    {
        self.bootstrap.as_str()
    }

    /// The topic spoken about.
    #[must_use]
    pub fn topic(&self) -> (topic: &str)
        ensures
            topic@ == self@.topic,
    {
        self.topic.as_str()
    }

    /// The partition spoken about.
    #[must_use]
    pub fn partition(&self) -> (partition: i32)
        ensures
            partition == self@.partition,
    {
        self.partition
    }

    /// The name to go by.
    #[must_use]
    pub fn client(&self) -> (name: &str)
        ensures
            name@ == self@.client,
    {
        self.client.as_str()
    }

    /// How long to wait for a broker that stops mid-message.
    #[must_use]
    pub fn timeout(&self) -> (timeout: Option<Duration>)
        ensures
            timeout == self@.timeout,
    {
        self.timeout
    }

    /// The scheme of the URIs this transport speaks of.
    #[must_use]
    pub fn name(&self) -> (name: &'static str)
        ensures
            name@ == "kafka"@,
    {
        "kafka"
    }

    /// Where to connect on to, now that the bootstrap broker answered
    /// `metadata`: this partition's leader, or nowhere else, where that is
    /// the bootstrap broker itself.
    ///
    /// # Errors
    /// Where the partition has no leader; it may have one another time.
    pub fn connect<'a>(&self, metadata: &'a TopicMetadata) -> (onward: Result<
        Option<&'a str>,
        TransportError,
    >)
        ensures
            ({
                let leader = leader_of(metadata@, self@.partition as i32);
                if leader.len() == 0 {
                    onward matches Err(e) && e@ == no_leader(self@.topic, self@.partition)
                } else if leader == self@.bootstrap {
                    onward == Ok::<Option<&'a str>, TransportError>(None)
                } else {
                    onward matches Ok(Some(address)) && address@ == leader
                }
            }),
    {
        let leader: &'a str = metadata.leader_of(self.partition);
        if leader.is_empty() {
            let mut message: String = "no leader for partition ".to_string();
            push_decimal(&mut message, self.partition as i64);
            message.append(" of ");
            message.append(self.topic.as_str());
            return Err(TransportError::retryable(message));
        }
        if self.bootstrap == leader.to_string() {
            Ok(None)
        } else {
            Ok(Some(leader))
        }
    }

    /// Where a target names the broker and topic itself —
    /// `kafka://host:9092/orders` — or is a topic alone on this transport's
    /// cluster: the broker and the topic.
    pub fn resolve<'a>(&'a self, target: &'a str) -> (place: (&'a str, &'a str))
        ensures
            (place.0@, place.1@) == resolved(self@, target@),
    {
        match strip_prefix(target, "kafka://") {
            Some(rest) => match split_once(rest, '/') {
                Some((peer, topic)) => if topic.is_empty() {
                    (peer, self.topic.as_str())
                } else {
                    (peer, topic)
                },
                None => (rest, self.topic.as_str()),
            },
            None => (self.bootstrap.as_str(), target),
        }
    }

    /// The Streams that `records`, fetched from the cursor on, are, the cursor
    /// moved past the last.
    pub fn receive(&mut self, records: &Vec<Record>) -> (arrived: Vec<Arrived>)
        ensures
            deliveries(arrived@) == announced(
                old(self)@.bootstrap,
                (old(self)@.topic, old(self)@.partition),
                stored(records@),
            ),
            final(self)@ == (Location {
                cursor: moved_past(old(self)@.cursor, stored(records@)),
                ..old(self)@
            }),
    {
        let mut arrived: Vec<Arrived> = Vec::new();
        let mut at: usize = 0;
        let ghost all = stored(records@);
        let ghost news = announced(self@.bootstrap, (self@.topic, self@.partition), all);
        assert(deliveries(arrived@) =~= news.take(0));
        while at < records.len()
            invariant
                at <= records@.len(),
                all == stored(records@),
                news == announced(
                    old(self)@.bootstrap,
                    (old(self)@.topic, old(self)@.partition),
                    all,
                ),
                deliveries(arrived@) == news.take(at as int),
                self@ == (Location {
                    cursor: moved_past(old(self)@.cursor, all.take(at as int)),
                    ..old(self)@
                }),
            decreases records@.len() - at,
        {
            let record: &Record = &records[at];
            let one = Arrived {
                origin_uri: origin_uri(
                    self.bootstrap.as_str(),
                    self.topic.as_str(),
                    self.partition,
                    record.offset,
                ),
                bytes: match copied(&record.value) {
                    Some(bytes) => bytes,
                    None => Vec::new(),
                },
            };
            let ghost before = arrived@;
            arrived.push(one);
            self.cursor = record.offset.wrapping_add(1);
            proof {
                assert(all[at as int] == record@);
                assert(one@.bytes =~= payload(record@.value));
                assert(one@ == news[at as int]);
                assert(deliveries(arrived@) =~= deliveries(before).push(one@));
                assert(deliveries(arrived@) =~= news.take(at + 1));
                assert(all.take(at + 1).last() == record@);
            }
            at += 1;
        }
        proof {
            assert(news.take(at as int) =~= news);
            assert(all.take(at as int) =~= all);
        }
        arrived
    }

    /// What to send to the partition's leader for the records from the cursor
    /// on.
    pub fn ask_receive(&self, client: &mut Client) -> (message: Vec<u8>)
        ensures
            (final(client)@, message@) == called(
                old(client)@,
                API_FETCH as int,
                4,
                fetch_body(self@.topic, self@.partition, self@.cursor),
            ),
    {
        client.ask_fetch(self.topic.as_str(), self.partition, self.cursor)
    }

    /// The Streams from the cursor on, out of the leader's answer to
    /// [`KafkaTransport::ask_receive`], the cursor moved past the last.
    ///
    /// # Errors
    /// Where the broker went away or answered an error; the cursor stays.
    pub fn take_received(&mut self, client: &Client, message: Option<&[u8]>) -> (arrived: Result<
        Vec<Arrived>,
        TransportError,
    >)
        ensures
            match answer_of(client@, lent(message)) {
                Ok(answer) => match fetched_from(old(self)@.cursor, answer) {
                    Ok(records) => {
                        &&& arrived matches Ok(a)
                        &&& deliveries(a@) == announced(
                            old(self)@.bootstrap,
                            (old(self)@.topic, old(self)@.partition),
                            records,
                        )
                        &&& final(self)@ == (Location {
                            cursor: moved_past(old(self)@.cursor, records),
                            ..old(self)@
                        })
                    },
                    Err(failure) => arrived matches Err(e) && e@ == failure && final(self)@ == old(
                        self,
                    )@,
                },
                Err(failure) => arrived matches Err(e) && e@ == failure && final(self)@ == old(
                    self,
                )@,
            },
    {
        let records: Vec<Record> = client.fetch(self.cursor, message)?;
        Ok(self.receive(&records))
    }

    /// Where to connect to for `target`, and what to send there to produce
    /// `bytes`, without a key, to the topic it means and this partition.
    pub fn ask_send<'a>(&'a self, client: &mut Client, target: &'a str, bytes: &[u8]) -> (out: (
        &'a str,
        Vec<u8>,
    ))
        ensures
            out.0@ == resolved(self@, target@).0,
            (final(client)@, out.1@) == called(
                old(client)@,
                API_PRODUCE as int,
                3,
                produce_body(
                    resolved(self@, target@).1,
                    self@.partition,
                    Fields { key: None, value: Some(bytes@) },
                ),
            ),
    {
        let (broker, topic) = self.resolve(target);
        (broker, client.ask_produce(topic, self.partition, None, bytes))
    }

    /// Both ends on this machine: an ephemeral local port, one topic called
    /// `probe`, and this timeout.
    #[must_use]
    pub fn loopback(timeout: Duration) -> (transport: Self)
        ensures
            transport@ == (Location {
                bootstrap: "127.0.0.1:0"@,
                topic: "probe"@,
                partition: 0,
                client: "xmip"@,
                cursor: 0,
                timeout: Some(timeout),
            }),
    {
        KafkaTransport::new("127.0.0.1:0", "probe").timing_out_after(timeout)
    }

    /// The near end of a loopback: a transport to `address` for the same
    /// topic, partition and timeout.
    #[must_use]
    pub fn send_to(&self, address: &str) -> (near: Self)
        ensures
            near@ == (Location {
                bootstrap: address@,
                topic: self@.topic,
                partition: self@.partition,
                client: "xmip"@,
                cursor: 0,
                timeout: self@.timeout,
            }),
    {
        let mut near = KafkaTransport::new(address, self.topic.as_str()).on_partition(
            self.partition,
        );
        near.timeout = self.timeout;
        near
    }
}

} // verus!
