//! Batches from any producer: how they are read, whatever its timestamps,
//! offset deltas and headers, and that what is encoded here is such a batch.

use vstd::prelude::*;

use crate::crc::crc32c;
use crate::cursor::{
    lemma_a_cut_varint_is_refused, lemma_varint_round_trip, past_the_end, varint_at,
};
use crate::error::{permanent, Failure};
use crate::integer::{
    be, lemma_be_len, lemma_signed_round_trip, lemma_spans, lemma_unsigned_round_trip, signed,
    unsigned,
};
use crate::laws::format::{
    batch_before, can_send, covered, field_before, folded_before, is_i64, records_before,
    sent_bytes, Batch, Sent,
};
use crate::records::{
    batch_bytes, batches_of, body_bytes, body_head, body_of, nullable_at, record_at, record_bytes,
    record_of, records_at, records_bytes, Fields, Stored,
};
use crate::varint::{unzigzagged, varint, zigzagged};

verus! {

/// The offset `delta` behind `base_offset`, in 64 bits.
pub open spec fn offset_behind(base_offset: int, delta: int) -> int {
    let sum = base_offset + delta;
    if sum > i64::MAX {
        sum - 0x1_0000_0000_0000_0000
    } else if sum < i64::MIN {
        sum + 0x1_0000_0000_0000_0000
    } else {
        sum
    }
}

/// A folded integer reads back.
proof fn lemma_folded(value: int, rest: Seq<u8>)
    requires
        is_i64(value),
    ensures
        varint_at(folded_before(value, rest)) == Ok::<(nat, Seq<u8>), Failure>(
            (zigzagged(value) as nat, rest),
        ),
        unzigzagged(zigzagged(value)) == value,
        folded_before(value, rest).len() > rest.len(),
{
    lemma_varint_round_trip(zigzagged(value) as nat, rest);
}

/// A key or a value reads back.
proof fn lemma_field(field: Option<Seq<u8>>, rest: Seq<u8>)
    requires
        field matches Some(bytes) ==> bytes.len() <= i32::MAX,
    ensures
        nullable_at(field_before(field, rest)) == Ok::<(Option<Seq<u8>>, Seq<u8>), Failure>(
            (field, rest),
        ),
{
    match field {
        Some(bytes) => {
            lemma_folded(bytes.len() as int, bytes + rest);
            assert((bytes + rest).take(bytes.len() as int) =~= bytes);
            assert((bytes + rest).skip(bytes.len() as int) =~= rest);
        },
        None => {
            lemma_folded(-1, rest);
        },
    }
}

/// A key or a value is no longer than what it is written in.
proof fn lemma_field_length(field: Option<Seq<u8>>, rest: Seq<u8>)
    ensures
        field_before(field, rest).len() >= rest.len(),
        field matches Some(bytes) ==> bytes.len() <= field_before(field, rest).len(),
{
}

/// Whatever its attributes, its timestamp and its headers, a record is read as
/// its key and its value at its offset: the base offset and its own delta.
pub proof fn law_any_record_is_read(base_offset: int, record: Sent)
    requires
        is_i64(base_offset),
        is_i64(record.time),
        is_i64(record.delta),
        sent_bytes(record).len() <= i32::MAX,
    ensures
        record_of(base_offset, sent_bytes(record)) matches Ok(read) && read.offset
            == offset_behind(base_offset, record.delta) && read.key == record.key && read.value
            == record.value,
{
    let from_value = field_before(record.value, record.headers);
    let from_key = field_before(record.key, from_value);
    let from_delta = folded_before(record.delta, from_key);
    let from_time = folded_before(record.time, from_delta);
    assert(sent_bytes(record).skip(1) =~= from_time);
    lemma_folded(record.time, from_delta);
    lemma_folded(record.delta, from_key);
    lemma_field_length(record.value, record.headers);
    lemma_field_length(record.key, from_value);
    lemma_field(record.key, from_value);
    lemma_field(record.value, record.headers);
}

/// What stands behind a whole front is cut where the whole is.
proof fn lemma_cut_behind(front: Seq<u8>, rest: Seq<u8>, length: int)
    requires
        0 <= length <= front.len() + rest.len(),
    ensures
        length < front.len() ==> (front + rest).take(length) == front.take(length),
        length >= front.len() ==> (front + rest).take(length) == front + rest.take(
            length - front.len(),
        ),
{
    if length < front.len() {
        assert((front + rest).take(length) =~= front.take(length));
    } else {
        assert((front + rest).take(length) =~= front + rest.take(length - front.len()));
    }
}

/// A folded integer that breaks off is refused; one that does not is read.
proof fn lemma_cut_folded(value: int, rest: Seq<u8>, length: int)
    requires
        is_i64(value),
        0 <= length <= folded_before(value, rest).len(),
    ensures
        ({
            let size = varint(zigzagged(value) as nat).len();
            let cut = folded_before(value, rest).take(length);
            if length < size {
                varint_at(cut) == Err::<(nat, Seq<u8>), Failure>(past_the_end())
            } else {
                varint_at(cut) == Ok::<(nat, Seq<u8>), Failure>(
                    (zigzagged(value) as nat, rest.take(length - size)),
                )
            }
        }),
        unzigzagged(zigzagged(value)) == value,
{
    let front = varint(zigzagged(value) as nat);
    lemma_cut_behind(front, rest, length);
    if length < front.len() {
        lemma_a_cut_varint_is_refused(zigzagged(value) as nat, length);
    } else {
        lemma_folded(value, rest.take(length - front.len()));
    }
}

/// How many bytes a key or a value takes.
pub open spec fn field_size(field: Option<Seq<u8>>) -> nat {
    field_before(field, Seq::empty()).len()
}

/// A key or a value that breaks off is refused; one that does not is read.
proof fn lemma_cut_field(field: Option<Seq<u8>>, rest: Seq<u8>, length: int)
    requires
        field matches Some(bytes) ==> bytes.len() <= i32::MAX,
        0 <= length <= field_before(field, rest).len(),
    ensures
        ({
            let cut = field_before(field, rest).take(length);
            if length < field_size(field) {
                nullable_at(cut) == Err::<(Option<Seq<u8>>, Seq<u8>), Failure>(past_the_end())
            } else {
                nullable_at(cut) == Ok::<(Option<Seq<u8>>, Seq<u8>), Failure>(
                    (field, rest.take(length - field_size(field))),
                )
            }
        }),
{
    match field {
        Some(bytes) => {
            let size = varint(zigzagged(bytes.len() as int) as nat).len();
            lemma_cut_folded(bytes.len() as int, bytes + rest, length);
            if length >= size {
                lemma_cut_behind(bytes, rest, length - size);
                if length - size >= bytes.len() {
                    let behind = rest.take(length - size - bytes.len());
                    assert((bytes + behind).take(bytes.len() as int) =~= bytes);
                    assert((bytes + behind).skip(bytes.len() as int) =~= behind);
                }
            }
        },
        None => {
            lemma_cut_folded(-1, rest, length);
        },
    }
}

/// A record that breaks off anywhere before its headers is refused.
pub proof fn law_a_cut_record_is_refused(base_offset: int, record: Sent, length: int)
    requires
        is_i64(record.time),
        is_i64(record.delta),
        sent_bytes(record).len() <= i32::MAX,
        0 <= length < sent_bytes(record).len() - record.headers.len(),
    ensures
        record_of(base_offset, sent_bytes(record).take(length)) == Err::<Stored, Failure>(
            past_the_end(),
        ),
{
    let from_value = field_before(record.value, record.headers);
    let from_key = field_before(record.key, from_value);
    let from_delta = folded_before(record.delta, from_key);
    let from_time = folded_before(record.time, from_delta);
    let cut = sent_bytes(record).take(length);
    lemma_field_length(record.value, record.headers);
    lemma_field_length(record.key, from_value);
    if length > 0 {
        let time = varint(zigzagged(record.time) as nat).len() as int;
        let delta = varint(zigzagged(record.delta) as nat).len() as int;
        let key = field_size(record.key) as int;
        assert(cut.skip(1) =~= from_time.take(length - 1));
        lemma_cut_folded(record.time, from_delta, length - 1);
        if length - 1 >= time {
            lemma_cut_folded(record.delta, from_key, length - 1 - time);
            if length - 1 - time >= delta {
                let left = length - 1 - time - delta;
                lemma_cut_field(record.key, from_value, left);
                if left >= key {
                    lemma_cut_field(record.value, record.headers, left - key);
                }
            }
        }
    }
}

/// How `records` of a batch that begins at `base_offset` are read.
pub open spec fn read_as(base_offset: int, records: Seq<Sent>) -> Seq<Stored> {
    Seq::new(
        records.len(),
        |i: int|
            Stored {
                offset: offset_behind(base_offset, records[i].delta),
                key: records[i].key,
                value: records[i].value,
            },
    )
}

/// Records one behind another are read one behind another, and what stands
/// behind them is left.
proof fn lemma_records_read(base_offset: int, records: Seq<Sent>, tail: Seq<u8>)
    requires
        is_i64(base_offset),
        records_before(records, tail).len() <= i32::MAX,
        forall|i: int|
            0 <= i < records.len() ==> is_i64((#[trigger] records[i]).time) && is_i64(
                records[i].delta,
            ),
    ensures
        records.len() <= records_before(records, tail).len(),
        records_at(base_offset, records_before(records, tail), records.len()) == Ok::<
            Seq<Stored>,
            Failure,
        >(read_as(base_offset, records)),
    decreases records.len(),
{
    if records.len() == 0 {
        assert(read_as(base_offset, records) =~= Seq::<Stored>::empty());
    } else {
        let more = records.skip(1);
        let record = sent_bytes(records[0]);
        let behind = records_before(more, tail);
        assert(is_i64(records[0].time));
        assert forall|i: int| 0 <= i < more.len() implies is_i64((#[trigger] more[i]).time)
            && is_i64(more[i].delta) by {
            assert(more[i] == records[i + 1]);
        }
        lemma_records_read(base_offset, more, tail);
        lemma_folded(record.len() as int, record + behind);
        assert((record + behind).take(record.len() as int) =~= record);
        assert((record + behind).skip(record.len() as int) =~= behind);
        law_any_record_is_read(base_offset, records[0]);
        let one = read_as(base_offset, records)[0];
        assert(record_at(base_offset, records_before(records, tail)) == Ok::<
            (Stored, Seq<u8>),
            Failure,
        >((one, behind)));
        assert(seq![one] + read_as(base_offset, more) =~= read_as(base_offset, records));
    }
}

/// Where the parts of a batch stand.
proof fn lemma_batch_places(batch: Batch, rest: Seq<u8>)
    requires
        can_send(batch),
    ensures
        ({
            let body = covered(batch);
            let bytes = batch_before(batch, rest);
            let inner = bytes.subrange(12, 21 + body.len() as int);
            &&& bytes.len() == 21 + body.len() + rest.len()
            &&& signed(bytes.take(8)) == batch.base_offset
            &&& signed(bytes.subrange(8, 12)) == body.len() + 9
            &&& inner.len() == 9 + body.len()
            &&& inner[4] == 2
            &&& unsigned(inner.subrange(5, 9)) == crc32c(body)
            &&& inner.skip(9) == body
            &&& bytes.skip(21 + body.len() as int) == rest
        }),
{
    let body = covered(batch);
    let bytes = batch_before(batch, rest);
    let length = body.len() as int + 9;
    let sum = crc32c(body) as int;
    lemma_spans();
    lemma_signed_round_trip(batch.base_offset, 8);
    lemma_signed_round_trip(length, 4);
    lemma_unsigned_round_trip(sum, 4);
    let inner = bytes.subrange(12, 12 + length);
    assert(bytes.take(8) =~= be(batch.base_offset, 8));
    assert(bytes.subrange(8, 12) =~= be(length, 4));
    assert(inner.subrange(5, 9) =~= be(sum, 4));
    assert(inner.skip(9) =~= body);
    assert(bytes.skip(12 + length) =~= rest);
}

/// A batch from any producer is read as its records, each at its own offset,
/// and what stands behind the batch is read as if it stood alone.
pub proof fn law_any_batch_is_read(batch: Batch, rest: Seq<u8>)
    requires
        can_send(batch),
    ensures
        match batches_of(rest) {
            Ok(more) => batches_of(batch_before(batch, rest)) == Ok::<Seq<Stored>, Failure>(
                read_as(batch.base_offset, batch.records) + more,
            ),
            Err(failure) => batches_of(batch_before(batch, rest)) == Err::<Seq<Stored>, Failure>(
                failure,
            ),
        },
{
    let body = covered(batch);
    let count = be(batch.records.len() as int, 4);
    let records = records_before(batch.records, batch.tail);
    lemma_batch_places(batch, rest);
    lemma_be_len(batch.records.len() as int, 4);
    assert(body.skip(40) =~= records);
    assert(body.subrange(36, 40) =~= count);
    lemma_records_read(batch.base_offset, batch.records, batch.tail);
    lemma_spans();
    lemma_signed_round_trip(batch.records.len() as int, 4);
}

/// A batch whose checksum is another than that of what it covers is refused,
/// whoever sent it.
pub proof fn law_a_wrong_checksum_is_refused(batch: Batch, rest: Seq<u8>, sum: Seq<u8>)
    requires
        can_send(batch),
        sum.len() == 4,
        unsigned(sum) != crc32c(covered(batch)),
    ensures
        ({
            let bytes = batch_before(batch, rest);
            batches_of(bytes.take(17) + sum + bytes.skip(21)) == Err::<Seq<Stored>, Failure>(
                permanent("a batch CRC that does not check"@),
            )
        }),
{
    let body = covered(batch);
    let bytes = batch_before(batch, rest);
    let length = body.len() as int + 9;
    let wrong = bytes.take(17) + sum + bytes.skip(21);
    lemma_batch_places(batch, rest);
    let inner = wrong.subrange(12, 12 + length);
    assert(wrong.take(8) =~= bytes.take(8));
    assert(wrong.subrange(8, 12) =~= bytes.subrange(8, 12));
    assert(inner[4] == bytes.subrange(12, 12 + length)[4]);
    assert(inner.subrange(5, 9) =~= sum);
    assert(inner.skip(9) =~= bytes.subrange(12, 12 + length).skip(9));
}

/// A batch that counts fewer than no records holds none.
pub proof fn law_a_negative_count_is_no_records(
    base_offset: int,
    head: Seq<u8>,
    count: int,
    rest: Seq<u8>,
)
    requires
        head.len() == 36,
        i32::MIN <= count <= 0,
    ensures
        body_of(base_offset, head + (be(count, 4) + rest)) == Ok::<Seq<Stored>, Failure>(
            Seq::empty(),
        ),
{
    lemma_spans();
    lemma_signed_round_trip(count, 4);
    assert((head + (be(count, 4) + rest)).subrange(36, 40) =~= be(count, 4));
}

/// A batch that counts more records than it holds is refused.
pub proof fn law_a_missing_record_is_refused(base_offset: int, records: Seq<Sent>, more: nat)
    requires
        is_i64(base_offset),
        more > 0,
        records_before(records, Seq::empty()).len() <= i32::MAX,
        forall|i: int|
            0 <= i < records.len() ==> is_i64((#[trigger] records[i]).time) && is_i64(
                records[i].delta,
            ),
    ensures
        records_at(base_offset, records_before(records, Seq::empty()), records.len() + more)
            == Err::<Seq<Stored>, Failure>(past_the_end()),
    decreases records.len(),
{
    if records.len() > 0 {
        let others = records.skip(1);
        let record = sent_bytes(records[0]);
        let behind = records_before(others, Seq::empty());
        assert(is_i64(records[0].time));
        assert forall|i: int| 0 <= i < others.len() implies is_i64((#[trigger] others[i]).time)
            && is_i64(others[i].delta) by {
            assert(others[i] == records[i + 1]);
        }
        law_a_missing_record_is_refused(base_offset, others, more);
        lemma_folded(record.len() as int, record + behind);
        assert((record + behind).take(record.len() as int) =~= record);
        assert((record + behind).skip(record.len() as int) =~= behind);
        law_any_record_is_read(base_offset, records[0]);
    }
}

/// A batch that says it is shorter than nothing is refused.
pub proof fn law_a_negative_batch_length_is_refused(bytes: Seq<u8>)
    requires
        bytes.len() >= 12,
        signed(bytes.subrange(8, 12)) < 0,
    ensures
        batches_of(bytes) == Err::<Seq<Stored>, Failure>(permanent("a negative batch length"@)),
{
}

/// A record that says it is shorter than nothing is refused.
pub proof fn law_a_negative_record_length_is_refused(base_offset: int, length: int, rest: Seq<u8>)
    requires
        i64::MIN <= length < 0,
    ensures
        record_at(base_offset, folded_before(length, rest)) == Err::<(Stored, Seq<u8>), Failure>(
            permanent("a negative record length"@),
        ),
{
    lemma_folded(length, rest);
}

/// A record that says it is longer than what is left is refused.
pub proof fn law_a_record_past_its_batch_is_refused(base_offset: int, length: int, rest: Seq<u8>)
    requires
        rest.len() < length <= i32::MAX,
    ensures
        record_at(base_offset, folded_before(length, rest)) == Err::<(Stored, Seq<u8>), Failure>(
            past_the_end(),
        ),
{
    lemma_folded(length, rest);
}

/// A key or a value of any negative length is none.
pub proof fn law_a_negative_length_is_no_field(length: int, rest: Seq<u8>)
    requires
        i64::MIN <= length < 0,
    ensures
        nullable_at(folded_before(length, rest)) == Ok::<(Option<Seq<u8>>, Seq<u8>), Failure>(
            (None, rest),
        ),
{
    lemma_folded(length, rest);
}

/// A key or a value that says it is longer than what is left of its record is
/// refused.
pub proof fn law_a_field_past_its_record_is_refused(length: int, rest: Seq<u8>)
    requires
        rest.len() < length <= i32::MAX,
    ensures
        nullable_at(folded_before(length, rest)) == Err::<(Option<Seq<u8>>, Seq<u8>), Failure>(
            past_the_end(),
        ),
{
    lemma_folded(length, rest);
}

/// The records that entries are sent as: no attributes, no timestamp, each one
/// offset behind the one before, and no headers.
pub open spec fn sent_as(entries: Seq<Fields>) -> Seq<Sent> {
    Seq::new(
        entries.len(),
        |i: int|
            Sent {
                attributes: 0,
                time: 0,
                delta: i,
                key: entries[i].key,
                value: entries[i].value,
                headers: seq![0u8],
            },
    )
}

/// One record more stands behind the others.
proof fn lemma_records_push(records: Seq<Sent>, last: Sent, rest: Seq<u8>)
    ensures
        records_before(records.push(last), rest) == records_before(
            records,
            folded_before(sent_bytes(last).len() as int, sent_bytes(last) + rest),
        ),
    decreases records.len(),
{
    let all = records.push(last);
    if records.len() == 0 {
        assert(all.skip(1) =~= Seq::<Sent>::empty());
        assert(records_before(all.skip(1), rest) == rest);
        assert(all[0] == last);
    } else {
        assert(all[0] == records[0]);
        assert(all.skip(1) =~= records.skip(1).push(last));
        lemma_records_push(records.skip(1), last, rest);
    }
}

/// An entry is encoded as the record it is sent as.
proof fn lemma_record_is_sent(index: nat, entry: Fields)
    requires
        record_bytes(index, entry).len() <= i64::MAX,
        index <= i64::MAX,
    ensures
        record_bytes(index, entry) == sent_bytes(
            Sent {
                attributes: 0,
                time: 0,
                delta: index as int,
                key: entry.key,
                value: entry.value,
                headers: seq![0u8],
            },
        ),
{
    let none = seq![0u8];
    assert(varint(0) =~= none);
    let sent = Sent {
        attributes: 0,
        time: 0,
        delta: index as int,
        key: entry.key,
        value: entry.value,
        headers: none,
    };
    assert(record_bytes(index, entry) =~= sent_bytes(sent));
}

/// Entries are encoded as the records they are sent as.
proof fn lemma_records_are_sent(entries: Seq<Fields>, rest: Seq<u8>)
    requires
        records_bytes(entries).len() <= i32::MAX,
    ensures
        entries.len() <= records_bytes(entries).len(),
        records_bytes(entries) + rest == records_before(sent_as(entries), rest),
    decreases entries.len(),
{
    if entries.len() == 0 {
        assert(records_bytes(entries) + rest =~= rest);
    } else {
        let front = entries.drop_last();
        let index = (entries.len() - 1) as nat;
        let record = record_bytes(index, entries.last());
        let behind = folded_before(record.len() as int, record + rest);
        lemma_records_are_sent(front, behind);
        lemma_record_is_sent(index, entries.last());
        assert(records_bytes(entries) + rest =~= records_bytes(front) + behind);
        lemma_records_push(sent_as(front), sent_as(entries).last(), rest);
        assert(sent_as(front).push(sent_as(entries).last()) =~= sent_as(entries));
    }
}

/// What is encoded is a batch as any consumer reads it: from the base offset
/// on, one record an entry with its key and its value, the header in accord
/// with them. The last offset delta says at which offset the last record
/// stands, the count how many there are; there is no compression, no
/// timestamp and no producer.
pub proof fn law_an_encoded_batch_is_one_that_any_consumer_reads(
    base_offset: int,
    entries: Seq<Fields>,
)
    requires
        is_i64(base_offset),
        body_bytes(entries).len() + 9 <= i32::MAX,
    ensures
        ({
            let bytes = batch_bytes(base_offset, entries);
            let batch = Batch {
                base_offset,
                epoch: bytes.subrange(12, 16),
                head: bytes.subrange(21, 57),
                records: sent_as(entries),
                tail: Seq::empty(),
            };
            &&& bytes == batch_before(batch, Seq::empty())
            &&& can_send(batch)
            &&& signed(bytes.subrange(12, 16)) == -1
            &&& signed(bytes.subrange(21, 23)) == 0
            &&& signed(bytes.subrange(23, 27)) == if entries.len() == 0 {
                0
            } else {
                entries.len() - 1
            }
            &&& signed(bytes.subrange(27, 35)) == 0
            &&& signed(bytes.subrange(35, 43)) == 0
            &&& signed(bytes.subrange(43, 51)) == -1
            &&& signed(bytes.subrange(51, 53)) == -1
            &&& signed(bytes.subrange(53, 57)) == -1
            &&& signed(bytes.subrange(57, 61)) == entries.len()
        }),
{
    let bytes = batch_bytes(base_offset, entries);
    let body = body_bytes(entries);
    let records = records_bytes(entries);
    let count = entries.len() as int;
    let last = if count == 0 {
        0
    } else {
        count - 1
    };
    lemma_spans();
    lemma_records_are_sent(entries, Seq::empty());
    assert(records + Seq::<u8>::empty() =~= records);
    lemma_be_len(base_offset, 8);
    lemma_be_len(body.len() as int + 9, 4);
    lemma_be_len(crc32c(body) as int, 4);
    lemma_signed_round_trip(0, 2);
    lemma_signed_round_trip(last, 4);
    lemma_signed_round_trip(0, 8);
    lemma_signed_round_trip(-1, 8);
    lemma_signed_round_trip(-1, 2);
    lemma_signed_round_trip(-1, 4);
    lemma_signed_round_trip(count, 4);
    assert(body_head(entries.len()).len() == 40);
    assert(bytes.subrange(12, 16) =~= be(-1, 4));
    assert(bytes.subrange(21, 23) =~= be(0, 2));
    assert(bytes.subrange(23, 27) =~= be(last, 4));
    assert(bytes.subrange(27, 35) =~= be(0, 8));
    assert(bytes.subrange(35, 43) =~= be(0, 8));
    assert(bytes.subrange(43, 51) =~= be(-1, 8));
    assert(bytes.subrange(51, 53) =~= be(-1, 2));
    assert(bytes.subrange(53, 57) =~= be(-1, 4));
    assert(bytes.subrange(57, 61) =~= be(count, 4));
    let batch = Batch {
        base_offset,
        epoch: bytes.subrange(12, 16),
        head: bytes.subrange(21, 57),
        records: sent_as(entries),
        tail: Seq::empty(),
    };
    assert(batch.head =~= body.take(36));
    assert(covered(batch) =~= body);
    assert(bytes =~= batch_before(batch, Seq::empty()));
}

/// The header of an encoded batch and its records say the same: the base
/// offset and the last offset delta are the offset that the last record is
/// read back at.
pub proof fn law_the_last_offset_is_that_of_the_last_record(
    base_offset: int,
    entries: Seq<Fields>,
)
    requires
        is_i64(base_offset),
        body_bytes(entries).len() + 9 <= i32::MAX,
        entries.len() > 0,
        base_offset + entries.len() <= i64::MAX,
    ensures
        ({
            let bytes = batch_bytes(base_offset, entries);
            &&& signed(bytes.subrange(23, 27)) == entries.len() - 1
            &&& batches_of(bytes) matches Ok(read) && read.len() == entries.len()
                && read.last().offset == signed(bytes.take(8)) + signed(bytes.subrange(23, 27))
        }),
{
    let bytes = batch_bytes(base_offset, entries);
    law_an_encoded_batch_is_one_that_any_consumer_reads(base_offset, entries);
    let batch = Batch {
        base_offset,
        epoch: bytes.subrange(12, 16),
        head: bytes.subrange(21, 57),
        records: sent_as(entries),
        tail: Seq::empty(),
    };
    law_any_batch_is_read(batch, Seq::empty());
    lemma_batch_places(batch, Seq::empty());
    let read = read_as(base_offset, batch.records);
    assert(read + Seq::<Stored>::empty() =~= read);
}

} // verus!
