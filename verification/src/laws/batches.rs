//! Record batches: what was encoded decodes, and what was damaged does not.

use vstd::prelude::*;

use crate::crc::{crc32c, lemma_damage_changes_the_checksum};
use crate::cursor::{lemma_varint_round_trip, past_the_end, varint_at};
use crate::error::{permanent, Failure};
use crate::integer::{
    be, lemma_be_len, lemma_signed_round_trip, lemma_spans, lemma_unsigned_round_trip, signed,
    unsigned, wrapped,
};
use crate::records::{
    batch_bytes, batches_of, body_bytes, body_head, body_of, joined, lemma_joined, length_field,
    nullable_at, nullable_field, record_bytes, record_of, records_at, records_bytes, Fields,
    Stored,
};
use crate::varint::{unzigzagged, zigzagged};

verus! {

/// The records that a batch of `entries` from `base_offset` on is read back
/// as: each entry at its place behind the base offset.
pub open spec fn written(base_offset: int, entries: Seq<Fields>) -> Seq<Stored> {
    Seq::new(
        entries.len(),
        |i: int|
            Stored {
                offset: wrapped(base_offset + i),
                key: entries[i].key,
                value: entries[i].value,
            },
    )
}

/// A length that fits a batch reads back.
proof fn lemma_length_field(length: nat, rest: Seq<u8>)
    requires
        length <= i32::MAX,
    ensures
        length_field(length).len() > 0,
        varint_at(length_field(length) + rest) == Ok::<(nat, Seq<u8>), Failure>(
            (zigzagged(length as int) as nat, rest),
        ),
        unzigzagged(zigzagged(length as int)) == length,
{
    lemma_varint_round_trip(zigzagged(length as int) as nat, rest);
}

/// A key or a value reads back.
proof fn lemma_nullable_field(field: Option<Seq<u8>>, rest: Seq<u8>)
    requires
        field matches Some(bytes) ==> bytes.len() <= i32::MAX,
    ensures
        nullable_at(nullable_field(field) + rest) == Ok::<(Option<Seq<u8>>, Seq<u8>), Failure>(
            (field, rest),
        ),
{
    match field {
        Some(bytes) => {
            lemma_length_field(bytes.len(), bytes + rest);
            assert(nullable_field(field) + rest =~= length_field(bytes.len()) + (bytes + rest));
            assert((bytes + rest).take(bytes.len() as int) =~= bytes);
            assert((bytes + rest).skip(bytes.len() as int) =~= rest);
        },
        None => {
            lemma_varint_round_trip(zigzagged(-1) as nat, rest);
        },
    }
}

/// A record reads back.
proof fn lemma_record(base_offset: int, index: nat, entry: Fields)
    requires
        index <= i32::MAX,
        record_bytes(index, entry).len() <= i32::MAX,
    ensures
        record_of(base_offset, record_bytes(index, entry)) == Ok::<Stored, Failure>(
            Stored {
                offset: wrapped(base_offset + index),
                key: entry.key,
                value: entry.value,
            },
        ),
{
    let record = record_bytes(index, entry);
    let from_value = nullable_field(entry.value) + length_field(0);
    let from_key = nullable_field(entry.key) + from_value;
    let from_delta = length_field(index) + from_key;
    let from_time = length_field(0) + from_delta;
    assert(record =~= seq![0u8] + from_time);
    assert(record.skip(1) =~= from_time);
    lemma_length_field(0, from_delta);
    lemma_length_field(index, from_key);
    if let Some(bytes) = entry.key {
        assert(bytes.len() <= record.len());
    }
    if let Some(bytes) = entry.value {
        assert(bytes.len() <= record.len());
    }
    lemma_nullable_field(entry.key, from_value);
    lemma_nullable_field(entry.value, length_field(0));
}

/// Records written one behind another read back, and the reading goes on
/// behind them.
proof fn lemma_records(base_offset: int, entries: Seq<Fields>, tail: Seq<u8>, more: nat)
    requires
        records_bytes(entries).len() <= i32::MAX,
    ensures
        entries.len() <= records_bytes(entries).len(),
        records_at(base_offset, records_bytes(entries) + tail, entries.len() + more) == joined(
            written(base_offset, entries),
            records_at(base_offset, tail, more),
        ),
    decreases entries.len(),
{
    if entries.len() == 0 {
        assert(records_bytes(entries) + tail =~= tail);
        assert(written(base_offset, entries) =~= Seq::<Stored>::empty());
        if let Ok(records) = records_at(base_offset, tail, more) {
            assert(Seq::<Stored>::empty() + records =~= records);
        }
    } else {
        let front = entries.drop_last();
        let index = (entries.len() - 1) as nat;
        let record = record_bytes(index, entries.last());
        let from_record = record + tail;
        let from_length = length_field(record.len()) + from_record;
        assert(records_bytes(entries) + tail =~= records_bytes(front) + from_length);
        lemma_records(base_offset, front, from_length, more + 1);
        lemma_length_field(record.len(), from_record);
        lemma_record(base_offset, index, entries.last());
        assert(from_record.take(record.len() as int) =~= record);
        assert(from_record.skip(record.len() as int) =~= tail);
        let last = Stored {
            offset: wrapped(base_offset + index),
            key: entries.last().key,
            value: entries.last().value,
        };
        lemma_joined(
            written(base_offset, front),
            seq![last],
            records_at(base_offset, tail, more),
        );
        assert(written(base_offset, front) + seq![last] =~= written(base_offset, entries));
    }
}

/// How long the parts of a batch are.
proof fn lemma_batch_parts(base_offset: int, entries: Seq<Fields>)
    requires
        i64::MIN <= base_offset <= i64::MAX,
        body_bytes(entries).len() + 9 <= i32::MAX,
    ensures
        ({
            let batch = batch_bytes(base_offset, entries);
            let body = body_bytes(entries);
            &&& batch.len() == 21 + body.len()
            &&& signed(batch.take(8)) == base_offset
            &&& signed(batch.subrange(8, 12)) == body.len() + 9
            &&& batch[16] == 2
            &&& batch.subrange(17, 21) == be(crc32c(body) as int, 4)
            &&& unsigned(batch.subrange(17, 21)) == crc32c(body)
            &&& batch.skip(21) == body
        }),
{
    let batch = batch_bytes(base_offset, entries);
    let body = body_bytes(entries);
    lemma_spans();
    lemma_signed_round_trip(base_offset, 8);
    lemma_signed_round_trip(body.len() as int + 9, 4);
    lemma_be_len(-1, 4);
    lemma_unsigned_round_trip(crc32c(body) as int, 4);
    assert(batch.take(8) =~= be(base_offset, 8));
    assert(batch.subrange(8, 12) =~= be(body.len() as int + 9, 4));
    assert(batch.subrange(17, 21) =~= be(crc32c(body) as int, 4));
    assert(batch.skip(21) =~= body);
}

/// The part of a batch that its checksum covers reads back.
proof fn lemma_body(base_offset: int, entries: Seq<Fields>)
    requires
        body_bytes(entries).len() <= i32::MAX,
    ensures
        body_of(base_offset, body_bytes(entries)) == Ok::<Seq<Stored>, Failure>(
            written(base_offset, entries),
        ),
{
    let body = body_bytes(entries);
    let count = entries.len();
    lemma_spans();
    lemma_be_len(0, 2);
    lemma_be_len(
        crate::wire::capped_i32(
            if count == 0 {
                0
            } else {
                (count - 1) as nat
            },
        ),
        4,
    );
    lemma_be_len(0, 8);
    lemma_be_len(-1, 8);
    lemma_be_len(-1, 2);
    lemma_be_len(-1, 4);
    lemma_be_len(crate::wire::capped_i32(count), 4);
    assert(body_head(count).len() == 40);
    lemma_records(base_offset, entries, Seq::empty(), 0);
    lemma_signed_round_trip(count as int, 4);
    assert(body.subrange(36, 40) =~= be(count as int, 4));
    assert(body.skip(40) =~= records_bytes(entries) + Seq::<u8>::empty());
    assert(written(base_offset, entries) + Seq::<Stored>::empty() =~= written(
        base_offset,
        entries,
    ));
}

/// A batch reads back as the records it was made of, each at its offset, and
/// what stands behind the batch is read as if it stood alone. The batch must
/// not be longer than its length field can say.
pub proof fn law_batches_round_trip(base_offset: int, entries: Seq<Fields>, rest: Seq<u8>)
    requires
        i64::MIN <= base_offset <= i64::MAX,
        body_bytes(entries).len() + 9 <= i32::MAX,
    ensures
        batches_of(batch_bytes(base_offset, entries) + rest) == joined(
            written(base_offset, entries),
            batches_of(rest),
        ),
{
    let batch = batch_bytes(base_offset, entries);
    let body = body_bytes(entries);
    let bytes = batch + rest;
    lemma_batch_parts(base_offset, entries);
    lemma_body(base_offset, entries);
    let length = body.len() as int + 9;
    let inner = bytes.subrange(12, 12 + length);
    assert(bytes.take(8) =~= batch.take(8));
    assert(bytes.subrange(8, 12) =~= batch.subrange(8, 12));
    assert(inner =~= batch.skip(12));
    assert(inner[4] == batch[16]);
    assert(inner.subrange(5, 9) =~= batch.subrange(17, 21));
    assert(inner.skip(9) =~= batch.skip(21));
    assert(bytes.skip(12 + length) =~= rest);
}

/// A batch alone reads back as the records it was made of.
pub proof fn law_a_batch_round_trips(base_offset: int, entries: Seq<Fields>)
    requires
        i64::MIN <= base_offset <= i64::MAX,
        body_bytes(entries).len() + 9 <= i32::MAX,
    ensures
        batches_of(batch_bytes(base_offset, entries)) == Ok::<Seq<Stored>, Failure>(
            written(base_offset, entries),
        ),
{
    let batch = batch_bytes(base_offset, entries);
    law_batches_round_trip(base_offset, entries, Seq::empty());
    assert(batch + Seq::<u8>::empty() =~= batch);
    assert(written(base_offset, entries) + Seq::<Stored>::empty() =~= written(
        base_offset,
        entries,
    ));
}

/// A batch whose format version was changed is refused as such.
pub proof fn law_another_magic_is_refused(base_offset: int, entries: Seq<Fields>, magic: u8)
    requires
        i64::MIN <= base_offset <= i64::MAX,
        body_bytes(entries).len() + 9 <= i32::MAX,
        magic != 2,
    ensures
        batches_of(batch_bytes(base_offset, entries).update(16, magic)) == Err::<
            Seq<Stored>,
            Failure,
        >(permanent("a batch that is not format version 2"@)),
{
    let batch = batch_bytes(base_offset, entries);
    let damaged = batch.update(16, magic);
    let body = body_bytes(entries);
    lemma_batch_parts(base_offset, entries);
    assert(damaged.take(8) =~= batch.take(8));
    assert(damaged.subrange(8, 12) =~= batch.subrange(8, 12));
    assert(damaged.subrange(12, 12 + (body.len() as int + 9))[4] == magic);
}

/// A batch of which any one byte was changed, from its checksum on, is
/// refused because the checksum does not check.
pub proof fn law_a_damaged_batch_is_refused(
    base_offset: int,
    entries: Seq<Fields>,
    at: int,
    byte: u8,
)
    requires
        i64::MIN <= base_offset <= i64::MAX,
        body_bytes(entries).len() + 9 <= i32::MAX,
        17 <= at < batch_bytes(base_offset, entries).len(),
        byte != batch_bytes(base_offset, entries)[at],
    ensures
        batches_of(batch_bytes(base_offset, entries).update(at, byte)) == Err::<
            Seq<Stored>,
            Failure,
        >(permanent("a batch CRC that does not check"@)),
{
    let batch = batch_bytes(base_offset, entries);
    let damaged = batch.update(at, byte);
    let body = body_bytes(entries);
    let length = body.len() as int + 9;
    lemma_batch_parts(base_offset, entries);
    assert(damaged.take(8) =~= batch.take(8));
    assert(damaged.subrange(8, 12) =~= batch.subrange(8, 12));
    let inner = damaged.subrange(12, 12 + length);
    assert(inner[4] == batch[16]);
    assert(inner.subrange(5, 9) =~= damaged.subrange(17, 21));
    assert(inner.skip(9) =~= damaged.skip(21));
    if at < 21 {
        assert(damaged.skip(21) =~= batch.skip(21));
        let sum = batch.subrange(17, 21);
        let other = damaged.subrange(17, 21);
        assert(other == sum.update(at - 17, byte));
        lemma_unsigned_tells(sum, at - 17, byte);
    } else {
        assert(damaged.subrange(17, 21) =~= batch.subrange(17, 21));
        let changed = damaged.skip(21);
        assert(changed =~= body.update(at - 21, byte));
        lemma_damage_changes_the_checksum(body, changed, at - 21);
    }
}

/// A change to any one byte changes the number that bytes write.
proof fn lemma_unsigned_tells(bytes: Seq<u8>, at: int, byte: u8)
    requires
        0 <= at < bytes.len(),
        byte != bytes[at],
    ensures
        unsigned(bytes.update(at, byte)) != unsigned(bytes),
    decreases bytes.len(),
{
    let changed = bytes.update(at, byte);
    if at == bytes.len() - 1 {
        assert(changed.drop_last() =~= bytes.drop_last());
    } else {
        lemma_unsigned_tells(bytes.drop_last(), at, byte);
        assert(changed.drop_last() =~= bytes.drop_last().update(at, byte));
    }
}

/// A batch that breaks off, wherever that is, is refused.
pub proof fn law_a_cut_batch_is_refused(base_offset: int, entries: Seq<Fields>, length: int)
    requires
        i64::MIN <= base_offset <= i64::MAX,
        body_bytes(entries).len() + 9 <= i32::MAX,
        0 < length < batch_bytes(base_offset, entries).len(),
    ensures
        batches_of(batch_bytes(base_offset, entries).take(length)) == Err::<Seq<Stored>, Failure>(
            past_the_end(),
        ),
{
    let batch = batch_bytes(base_offset, entries);
    let cut = batch.take(length);
    lemma_batch_parts(base_offset, entries);
    if length >= 12 {
        assert(cut.subrange(8, 12) =~= batch.subrange(8, 12));
    }
}

} // verus!
