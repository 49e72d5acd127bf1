//! The records kept for each partition of each topic.

use vstd::prelude::*;

use crate::records::{stored, Record, Stored};

verus! {

/// A topic and a partition of it.
pub type Place = (Seq<char>, int);

/// The records of one partition of one topic.
struct Log {
    topic: String,
    partition: i32,
    records: Vec<Record>,
}

/// The records kept for each partition of each topic, in the order they were
/// put there.
pub struct Logs {
    logs: Vec<Log>,
}

/// The records kept for `place`: those of the first log that is for it.
spec fn found(logs: Seq<Log>, place: Place) -> Option<Seq<Stored>>
    decreases logs.len(),
{
    if logs.len() == 0 {
        None
    } else if (logs[0].topic@, logs[0].partition as int) == place {
        Some(stored(logs[0].records@))
    } else {
        found(logs.skip(1), place)
    }
}

impl View for Logs {
    type V = Map<Place, Seq<Stored>>;

    closed spec fn view(&self) -> Map<Place, Seq<Stored>> {
        Map::new(
            |place: Place| found(self.logs@, place) is Some,
            |place: Place| found(self.logs@, place)->0,
        )
    }
}

/// The records of `place`, none where it has no log.
pub open spec fn log_of(logs: Map<Place, Seq<Stored>>, place: Place) -> Seq<Stored> {
    if logs.dom().contains(place) {
        logs[place]
    } else {
        Seq::empty()
    }
}

/// The first log for a place is the one that `found` finds.
proof fn lemma_found(logs: Seq<Log>, at: int, place: Place)
    requires
        0 <= at <= logs.len(),
        forall|i: int|
            0 <= i < at ==> (#[trigger] logs[i].topic@, logs[i].partition as int) != place,
        at < logs.len() ==> (logs[at].topic@, logs[at].partition as int) == place,
    ensures
        at < logs.len() ==> found(logs, place) == Some(stored(logs[at].records@)),
        at == logs.len() ==> found(logs, place) is None,
    decreases logs.len(),
{
    if logs.len() > 0 && at > 0 {
        assert((logs[0].topic@, logs[0].partition as int) != place);
        assert forall|i: int| 0 <= i < at - 1 implies (
        #[trigger] logs.skip(1)[i].topic@, logs.skip(1)[i].partition as int) != place by {
            assert(logs.skip(1)[i] == logs[i + 1]);
        }
        lemma_found(logs.skip(1), at - 1, place);
    }
}

/// What every place finds once the first log for `place` is `log`.
proof fn lemma_found_update(logs: Seq<Log>, at: int, log: Log, place: Place, other: Place)
    requires
        0 <= at < logs.len(),
        forall|i: int|
            0 <= i < at ==> (#[trigger] logs[i].topic@, logs[i].partition as int) != place,
        (logs[at].topic@, logs[at].partition as int) == place,
        (log.topic@, log.partition as int) == place,
    ensures
        found(logs.update(at, log), other) == if other == place {
            Some(stored(log.records@))
        } else {
            found(logs, other)
        },
    decreases logs.len(),
{
    let updated = logs.update(at, log);
    if at > 0 {
        assert((logs[0].topic@, logs[0].partition as int) != place);
        assert forall|i: int| 0 <= i < at - 1 implies (
        #[trigger] logs.skip(1)[i].topic@, logs.skip(1)[i].partition as int) != place by {
            assert(logs.skip(1)[i] == logs[i + 1]);
        }
        lemma_found_update(logs.skip(1), at - 1, log, place, other);
        assert(updated.skip(1) =~= logs.skip(1).update(at - 1, log));
    } else {
        assert(updated.skip(1) =~= logs.skip(1));
    }
}

/// What every place finds once a log for a new `place` stands behind the
/// others.
proof fn lemma_found_push(logs: Seq<Log>, log: Log, other: Place)
    requires
        found(logs, (log.topic@, log.partition as int)) is None,
    ensures
        found(logs.push(log), other) == if other == (log.topic@, log.partition as int) {
            Some(stored(log.records@))
        } else {
            found(logs, other)
        },
    decreases logs.len(),
{
    let pushed = logs.push(log);
    if logs.len() > 0 {
        lemma_found_push(logs.skip(1), log, other);
        assert(pushed.skip(1) =~= logs.skip(1).push(log));
    } else {
        assert(pushed.skip(1) =~= logs);
    }
}

impl Logs {
    /// No log at all.
    pub fn new() -> (logs: Self)
        ensures
            logs@ == Map::<Place, Seq<Stored>>::empty(),
    {
        let logs = Logs { logs: Vec::new() };
        assert(logs@ =~= Map::<Place, Seq<Stored>>::empty());
        logs
    }

    /// Where the first log for `topic`'s `partition` stands, or where a new
    /// one would.
    fn index(&self, topic: &String, partition: i32) -> (index: usize)
        ensures
            index <= self.logs@.len(),
            forall|j: int|
                0 <= j < index ==> (#[trigger] self.logs@[j].topic@, self.logs@[j].partition as int)
                    != (topic@, partition as int),
            index < self.logs@.len() ==> (
                self.logs@[index as int].topic@,
                self.logs@[index as int].partition as int,
            ) == (topic@, partition as int),
    {
        let mut at: usize = 0;
        while at < self.logs.len()
            invariant
                at <= self.logs@.len(),
                forall|j: int|
                    0 <= j < at ==> (#[trigger] self.logs@[j].topic@, self.logs@[j].partition as int)
                        != (topic@, partition as int),
            decreases self.logs@.len() - at,
        {
            if self.logs[at].partition == partition && self.logs[at].topic == *topic {
                return at;
            }
            at += 1;
        }
        at
    }

    /// The records of `topic`'s `partition`, where it has a log.
    pub fn get(&self, topic: &String, partition: i32) -> (log: Option<&Vec<Record>>)
        ensures
            match log {
                Some(records) => self@.dom().contains((topic@, partition as int)) && stored(
                    records@,
                ) == self@[(topic@, partition as int)],
                None => !self@.dom().contains((topic@, partition as int)),
            },
    {
        let index: usize = self.index(topic, partition);
        proof {
            lemma_found(self.logs@, index as int, (topic@, partition as int));
        }
        if index < self.logs.len() {
            Some(&self.logs[index].records)
        } else {
            None
        }
    }

    /// Give `topic`'s `partition` a log, an empty one where it has none, and
    /// say how many records it holds.
    pub fn open(&mut self, topic: &String, partition: i32) -> (length: usize)
        ensures
            final(self)@ == old(self)@.insert(
                (topic@, partition as int),
                log_of(old(self)@, (topic@, partition as int)),
            ),
            length == log_of(old(self)@, (topic@, partition as int)).len(),
    {
        let ghost place: Place = (topic@, partition as int);
        let ghost before = self.logs@;
        let index: usize = self.index(topic, partition);
        proof {
            lemma_found(before, index as int, place);
        }
        if index < self.logs.len() {
            assert(self@ =~= old(self)@.insert(place, log_of(old(self)@, place)));
            return self.logs[index].records.len();
        }
        let log = Log { topic: topic.clone(), partition, records: Vec::new() };
        self.logs.push(log);
        proof {
            assert(stored(log.records@) =~= Seq::<Stored>::empty());
            assert forall|other: Place| #[trigger]
                found(self.logs@, other) == (if other == place {
                    Some(stored(log.records@))
                } else {
                    found(before, other)
                }) by {
                lemma_found_push(before, log, other);
            }
            assert(self@ =~= old(self)@.insert(place, log_of(old(self)@, place)));
        }
        0
    }

    /// Put `record` behind the log of `topic`'s `partition`.
    pub fn push(&mut self, topic: &String, partition: i32, record: Record)
        ensures
            final(self)@ == old(self)@.insert(
                (topic@, partition as int),
                log_of(old(self)@, (topic@, partition as int)).push(record@),
            ),
    {
        let ghost place: Place = (topic@, partition as int);
        self.open(topic, partition);
        let ghost before = self.logs@;
        let ghost opened = self@;
        let index: usize = self.index(topic, partition);
        proof {
            lemma_found(before, index as int, place);
            assert(opened.dom().contains(place));
            assert(found(before, place) is Some);
        }
        self.logs[index].records.push(record);
        proof {
            let log = self.logs@[index as int];
            assert(self.logs@ =~= before.update(index as int, log));
            assert(stored(log.records@) =~= stored(before[index as int].records@).push(record@));
            assert forall|other: Place| #[trigger]
                found(self.logs@, other) == (if other == place {
                    Some(stored(log.records@))
                } else {
                    found(before, other)
                }) by {
                lemma_found_update(before, index as int, log, place, other);
            }
            assert(opened[place] == log_of(old(self)@, place));
            assert(self@ =~= opened.insert(place, stored(log.records@)));
            assert(self@ =~= old(self)@.insert(place, log_of(old(self)@, place).push(record@)));
        }
    }
}

} // verus!
