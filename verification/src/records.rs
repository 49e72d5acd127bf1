//! The record batch, message format version 2: a header with a CRC-32C over
//! everything after it, then records each behind a varint length — the
//! unit a Produce carries and a Fetch returns.
//!
//! A record's fields are zig-zagged varints.

use vstd::prelude::*;

use crate::crc::{checksum, crc32c};
use crate::cursor::{past_the_end, taken, varint_at, Cursor, Parsed};
use crate::error::{permanent, protocol_error, Failure, TransportError};
use crate::integer::{be, signed, unsigned, wrapped};
use crate::varint::{unzigzag, unzigzagged, varint, zigzag, zigzagged};
use crate::wire::{capped, capped_i32};
use crate::writer::ByteWriter;

verus! {

/// One record as it was read: its offset in the partition, its key, its
/// value.
#[derive(Clone, Debug, PartialEq, Eq)]
pub struct Record {
    pub offset: i64,
    pub key: Option<Vec<u8>>,
    pub value: Option<Vec<u8>>,
}

/// The mathematical content of a [`Record`].
pub struct Stored {
    pub offset: int,
    pub key: Option<Seq<u8>>,
    pub value: Option<Seq<u8>>,
}

/// The bytes in a nullable vector.
pub open spec fn held(field: Option<Vec<u8>>) -> Option<Seq<u8>> {
    match field {
        Some(bytes) => Some(bytes@),
        None => None,
    }
}

impl View for Record {
    type V = Stored;

    open spec fn view(&self) -> Stored {
        Stored { offset: self.offset as int, key: held(self.key), value: held(self.value) }
    }
}

/// What each of `records` holds.
pub open spec fn stored(records: Seq<Record>) -> Seq<Stored> {
    Seq::new(records.len(), |i: int| records[i]@)
}

/// A record to write: its key and its value, each nullable.
pub type Entry<'a> = (Option<&'a [u8]>, Option<&'a [u8]>);

/// The mathematical content of an [`Entry`].
pub struct Fields {
    pub key: Option<Seq<u8>>,
    pub value: Option<Seq<u8>>,
}

/// The bytes in a nullable slice.
pub open spec fn lent(field: Option<&[u8]>) -> Option<Seq<u8>> {
    match field {
        Some(bytes) => Some(bytes@),
        None => None,
    }
}

/// What each of `entries` holds.
pub open spec fn fields(entries: Seq<Entry<'_>>) -> Seq<Fields> {
    Seq::new(
        entries.len(),
        |i: int| Fields { key: lent(entries[i].0), value: lent(entries[i].1) },
    )
}

/// `length` as a 64-bit field holds it: the most it can hold, where it is
/// more.
pub open spec fn capped_i64(length: nat) -> int {
    if length <= i64::MAX {
        length as int
    } else {
        i64::MAX as int
    }
}

/// A length or an index as a record carries it.
pub open spec fn length_field(length: nat) -> Seq<u8> {
    varint(zigzagged(capped_i64(length)) as nat)
}

/// A key or a value as a record carries it: behind its length, or -1.
pub open spec fn nullable_field(field: Option<Seq<u8>>) -> Seq<u8> {
    match field {
        Some(bytes) => length_field(bytes.len()) + bytes,
        None => varint(zigzagged(-1) as nat),
    }
}

/// The record at `index` of a batch: attributes, timestamp delta, offset
/// delta, key, value, and no headers.
pub open spec fn record_bytes(index: nat, entry: Fields) -> Seq<u8> {
    seq![0u8] + length_field(0) + length_field(index) + nullable_field(entry.key) + nullable_field(
        entry.value,
    ) + length_field(0)
}

/// The records of a batch, each behind its length.
pub open spec fn records_bytes(entries: Seq<Fields>) -> Seq<u8>
    decreases entries.len(),
{
    if entries.len() == 0 {
        Seq::empty()
    } else {
        let record = record_bytes((entries.len() - 1) as nat, entries.last());
        records_bytes(entries.drop_last()) + length_field(record.len()) + record
    }
}

/// What stands before the records in the part of a batch that its checksum
/// covers: no compression, the last offset delta, no timestamps, no producer,
/// and how many records there are.
pub open spec fn body_head(count: nat) -> Seq<u8> {
    be(0, 2) + be(
        capped_i32(
            if count == 0 {
                0
            } else {
                (count - 1) as nat
            },
        ),
        4,
    ) + be(0, 8) + be(0, 8) + be(-1, 8) + be(-1, 2) + be(-1, 4) + be(capped_i32(count), 4)
}

/// The part of a batch that its checksum covers.
pub open spec fn body_bytes(entries: Seq<Fields>) -> Seq<u8> {
    body_head(entries.len()) + records_bytes(entries)
}

/// One batch of `entries` starting at `base_offset`.
pub open spec fn batch_bytes(base_offset: int, entries: Seq<Fields>) -> Seq<u8> {
    let body = body_bytes(entries);
    be(base_offset, 8) + be(capped_i32(body.len() + 9), 4) + be(-1, 4) + seq![2u8] + be(
        crc32c(body) as int,
        4,
    ) + body
}

/// A key or a value read off the front: any length that no memory holds, -1
/// before all, is `None`.
pub open spec fn nullable_at(bytes: Seq<u8>) -> Parsed<Option<Seq<u8>>> {
    match varint_at(bytes) {
        Ok((folded, rest)) => {
            let length = unzigzagged(folded as int);
            if 0 <= length <= usize::MAX {
                match taken(rest, length as nat) {
                    Ok((field, rest)) => Ok((Some(field), rest)),
                    Err(failure) => Err(failure),
                }
            } else {
                Ok((None, rest))
            }
        },
        Err(failure) => Err(failure),
    }
}

/// The key and the value that `bytes` start with, of the record at `offset`.
pub open spec fn fields_at(offset: int, bytes: Seq<u8>) -> Result<Stored, Failure> {
    match nullable_at(bytes) {
        Ok((key, rest)) => match nullable_at(rest) {
            Ok((value, _)) => Ok(Stored { offset, key, value }),
            Err(failure) => Err(failure),
        },
        Err(failure) => Err(failure),
    }
}

/// The record that `bytes` are: attributes, timestamp delta, offset delta,
/// key and value, and whatever follows.
pub open spec fn record_of(base_offset: int, bytes: Seq<u8>) -> Result<Stored, Failure> {
    match taken(bytes, 1) {
        Ok((_, rest)) => match varint_at(rest) {
            Ok((_, rest)) => match varint_at(rest) {
                Ok((delta, rest)) => fields_at(
                    wrapped(base_offset + unzigzagged(delta as int)),
                    rest,
                ),
                Err(failure) => Err(failure),
            },
            Err(failure) => Err(failure),
        },
        Err(failure) => Err(failure),
    }
}

/// A record behind its length, read off the front.
pub open spec fn record_at(base_offset: int, bytes: Seq<u8>) -> Parsed<Stored> {
    match varint_at(bytes) {
        Ok((folded, rest)) => {
            let length = unzigzagged(folded as int);
            if 0 <= length <= usize::MAX {
                match taken(rest, length as nat) {
                    Ok((record, rest)) => match record_of(base_offset, record) {
                        Ok(record) => Ok((record, rest)),
                        Err(failure) => Err(failure),
                    },
                    Err(failure) => Err(failure),
                }
            } else {
                Err(permanent("a negative record length"@))
            }
        },
        Err(failure) => Err(failure),
    }
}

/// `first`, and `more` behind it where that was read.
pub open spec fn joined(first: Seq<Stored>, more: Result<Seq<Stored>, Failure>) -> Result<
    Seq<Stored>,
    Failure,
> {
    match more {
        Ok(records) => Ok(first + records),
        Err(failure) => Err(failure),
    }
}

/// The next `count` records.
pub open spec fn records_at(base_offset: int, bytes: Seq<u8>, count: nat) -> Result<
    Seq<Stored>,
    Failure,
>
    decreases count,
{
    if count == 0 {
        Ok(Seq::empty())
    } else {
        match record_at(base_offset, bytes) {
            Ok((record, rest)) => joined(
                seq![record],
                records_at(base_offset, rest, (count - 1) as nat),
            ),
            Err(failure) => Err(failure),
        }
    }
}

/// The records in the part of a batch that its checksum covers.
pub open spec fn body_of(base_offset: int, body: Seq<u8>) -> Result<Seq<Stored>, Failure> {
    if body.len() < 40 {
        Err(past_the_end())
    } else {
        let count = signed(body.subrange(36, 40));
        records_at(
            base_offset,
            body.skip(40),
            if count < 0 {
                0
            } else {
                count as nat
            },
        )
    }
}

/// The records of the batch that `batch` is behind its base offset and its
/// length: leader epoch, magic, checksum, and the part that it covers.
pub open spec fn batch_of(base_offset: int, batch: Seq<u8>) -> Result<Seq<Stored>, Failure> {
    if batch.len() < 5 {
        Err(past_the_end())
    } else if batch[4] != 2 {
        Err(permanent("a batch that is not format version 2"@))
    } else if batch.len() < 9 {
        Err(past_the_end())
    } else if crc32c(batch.skip(9)) != unsigned(batch.subrange(5, 9)) {
        Err(permanent("a batch CRC that does not check"@))
    } else {
        body_of(base_offset, batch.skip(9))
    }
}

/// Every record in `bytes`, one batch after another; too few bytes for a base
/// offset and a length are a batch that breaks off.
pub open spec fn batches_of(bytes: Seq<u8>) -> Result<Seq<Stored>, Failure>
    decreases bytes.len(),
{
    if bytes.len() == 0 {
        Ok(Seq::empty())
    } else if bytes.len() < 12 {
        Err(past_the_end())
    } else {
        let length = signed(bytes.subrange(8, 12));
        if length < 0 {
            Err(permanent("a negative batch length"@))
        } else if bytes.len() - 12 < length {
            Err(past_the_end())
        } else {
            match batch_of(signed(bytes.take(8)), bytes.subrange(12, 12 + length)) {
                Ok(records) => joined(records, batches_of(bytes.skip(12 + length))),
                Err(failure) => Err(failure),
            }
        }
    }
}

/// `value` zig-zagged, as a record's fields carry a signed integer.
fn signed_field(value: usize) -> (field: u64)
    ensures
        field == zigzagged(capped_i64(value as nat)),
{
    if value as u64 <= i64::MAX as u64 {
        zigzag(value as i64)
    } else {
        zigzag(i64::MAX)
    }
}

/// Write a key or a value behind its length.
fn push_nullable(record: &mut Vec<u8>, field: Option<&[u8]>)
    ensures
        final(record)@ == old(record)@ + nullable_field(lent(field)),
{
    match field {
        Some(bytes) => {
            record.varint(signed_field(bytes.len())).bytes(bytes);
            assert(record@ =~= old(record)@ + nullable_field(lent(field)));
        },
        None => {
            record.varint(zigzag(-1));
        },
    }
}

/// The record at `index` of a batch.
fn encode_record(index: usize, entry: &Entry<'_>) -> (record: Vec<u8>)
    ensures
        record@ == record_bytes(
            index as nat,
            Fields { key: lent(entry.0), value: lent(entry.1) },
        ),
{
    let mut record: Vec<u8> = Vec::new();
    record.byte(0)  // attributes
    .varint(signed_field(0))  // timestamp delta
    .varint(signed_field(index));  // offset delta
    push_nullable(&mut record, entry.0);
    push_nullable(&mut record, entry.1);
    record.varint(signed_field(0));  // headers
    assert(record@ =~= record_bytes(
        index as nat,
        Fields { key: lent(entry.0), value: lent(entry.1) },
    ));
    record
}

/// One batch of `records`, key and value each, starting at `base_offset`.
#[must_use]
pub fn encode_batch(base_offset: i64, records: &[Entry<'_>]) -> (batch: Vec<u8>)
    ensures
        batch@ == batch_bytes(base_offset as int, fields(records@)),
{
    let last: i32 = capped(records.len().saturating_sub(1));
    let mut body: Vec<u8> = Vec::new();
    body.i16_be(0)  // attributes: no compression
    .i32_be(last)  // last offset delta
    .i64_be(0)  // first timestamp
    .i64_be(0)  // max timestamp
    .i64_be(-1)  // producer id
    .i16_be(-1)  // producer epoch
    .i32_be(-1)  // base sequence
    .i32_be(capped(records.len()));
    assert(body@ =~= body_head(records@.len()));
    let mut index: usize = 0;
    let ghost all = fields(records@);
    assert(all.take(0) =~= Seq::<Fields>::empty());
    assert(body@ =~= body_head(all.len()) + records_bytes(all.take(0)));
    while index < records.len()
        invariant
            index <= records@.len(),
            all == fields(records@),
            body@ == body_head(all.len()) + records_bytes(all.take(index as int)),
        decreases records@.len() - index,
    {
        let record: Vec<u8> = encode_record(index, &records[index]);
        body.varint(signed_field(record.len())).bytes(&record);
        assert(all.take(index + 1).drop_last() =~= all.take(index as int));
        index += 1;
        assert(body@ =~= body_head(all.len()) + records_bytes(all.take(index as int)));
    }
    assert(all.take(index as int) =~= all);
    let mut out: Vec<u8> = Vec::new();
    out.i64_be(base_offset).i32_be(capped(body.len().saturating_add(9))).i32_be(
        -1,
    )  // partition leader epoch
    .byte(2)  // magic
    .u32_be(checksum(&body)).bytes(&body);
    assert(out@ =~= batch_bytes(base_offset as int, all));
    out
}

/// A copy of nullable bytes.
pub(crate) fn copied(field: &Option<Vec<u8>>) -> (copy: Option<Vec<u8>>)
    ensures
        held(copy) == held(*field),
{
    match field {
        Some(bytes) => Some(vstd::slice::slice_to_vec(bytes.as_slice())),
        None => None,
    }
}

/// A record's key or value: a zig-zagged length, -1 being `None`.
fn field(record: &mut Cursor<'_>) -> (value: Result<Option<Vec<u8>>, TransportError>)
    ensures
        match nullable_at(old(record)@) {
            Ok((bytes, rest)) => value matches Ok(v) && held(v) == bytes && final(record)@ == rest,
            Err(failure) => value matches Err(e) && e@ == failure,
        },
{
    let length: i64 = unzigzag(record.varint()?);
    if length < 0 || length as u64 > usize::MAX as u64 {
        return Ok(None);
    }
    let bytes: &[u8] = record.take(length as usize)?;
    Ok(Some(vstd::slice::slice_to_vec(bytes)))
}

/// The next record of a batch that starts at `base_offset`.
fn decode_record(body: &mut Cursor<'_>, base_offset: i64) -> (record: Result<
    Record,
    TransportError,
>)
    ensures
        match record_at(base_offset as int, old(body)@) {
            Ok((stored, rest)) => record matches Ok(r) && r@ == stored && final(body)@ == rest,
            Err(failure) => record matches Err(e) && e@ == failure,
        },
{
    let length: i64 = unzigzag(body.varint()?);
    if length < 0 || length as u64 > usize::MAX as u64 {
        return Err(protocol_error("a negative record length"));
    }
    let mut record = Cursor::new(body.take(length as usize)?);
    record.skip(1)?;  // attributes
    record.varint()?;  // timestamp delta
    let offset_delta: i64 = unzigzag(record.varint()?);
    let key: Option<Vec<u8>> = field(&mut record)?;
    let value: Option<Vec<u8>> = field(&mut record)?;
    Ok(Record { offset: base_offset.wrapping_add(offset_delta), key, value })
}

/// Every record of one batch behind its base offset and its length, written
/// behind `records`.
fn decode_batch(batch: &[u8], base_offset: i64, records: &mut Vec<Record>) -> (done: Result<
    (),
    TransportError,
>)
    ensures
        match batch_of(base_offset as int, batch@) {
            Ok(more) => done is Ok && stored(final(records)@) == stored(old(records)@) + more,
            Err(failure) => done matches Err(e) && e@ == failure,
        },
{
    let mut cursor = Cursor::new(batch);
    cursor.skip(4)?;  // partition leader epoch
    let magic: u8 = cursor.byte()?;
    assert(magic == batch@[4]);
    if magic != 2 {
        return Err(protocol_error("a batch that is not format version 2"));
    }
    assert(cursor@ =~= batch@.skip(5));
    let crc: u32 = cursor.u32_be()?;
    assert(batch@.skip(5).take(4) =~= batch@.subrange(5, 9));
    let covered: &[u8] = cursor.take_rest();
    assert(covered@ =~= batch@.skip(9));
    if checksum(covered) != crc {
        return Err(protocol_error("a batch CRC that does not check"));
    }
    let mut body = Cursor::new(covered);
    body.skip(36)?;  // attributes to base sequence
    let counted: i32 = body.i32_be()?;
    assert(covered@.skip(36).take(4) =~= covered@.subrange(36, 40));
    assert(body@ =~= covered@.skip(40));
    let count: u32 = if counted < 0 {
        0
    } else {
        counted as u32
    };
    let ghost whole = records_at(base_offset as int, covered@.skip(40), count as nat);
    let mut done: u32 = 0;
    let ghost mut read: Seq<Stored> = Seq::empty();
    assert(whole == joined(read, whole)) by {
        if let Ok(all) = whole {
            assert(read + all =~= all);
        }
    }
    assert(stored(records@) =~= stored(old(records)@) + read);
    while done < count
        invariant
            done <= count,
            whole == batch_of(base_offset as int, batch@),
            whole == joined(read, records_at(base_offset as int, body@, (count - done) as nat)),
            stored(records@) == stored(old(records)@) + read,
        decreases count - done,
    {
        let ghost before = records@;
        let record: Record = decode_record(&mut body, base_offset)?;
        records.push(record);
        done += 1;
        proof {
            lemma_joined(
                read,
                seq![record@],
                records_at(base_offset as int, body@, (count - done) as nat),
            );
            read = read + seq![record@];
            assert(stored(records@) =~= stored(before).push(record@));
            assert(stored(records@) =~= stored(old(records)@) + read);
        }
    }
    proof {
        assert(read + Seq::<Stored>::empty() =~= read);
    }
    Ok(())
}

/// Joining in two steps is joining in one.
pub(crate) proof fn lemma_joined(
    first: Seq<Stored>,
    next: Seq<Stored>,
    more: Result<Seq<Stored>, Failure>,
)
    ensures
        joined(first, joined(next, more)) == joined(first + next, more),
{
    if let Ok(records) = more {
        assert(first + (next + records) =~= first + next + records);
    }
}

/// Every record in `bytes`, one batch after another.
///
/// An offset past the ends of a 64-bit integer wraps around.
///
/// # Errors
/// A batch that breaks off, a magic that is not 2, a CRC that does not
/// check, or a record that runs past its length.
pub fn decode_batches(bytes: &[u8]) -> (decoded: Result<Vec<Record>, TransportError>)
    ensures
        match batches_of(bytes@) {
            Ok(records) => decoded matches Ok(d) && stored(d@) == records,
            Err(failure) => decoded matches Err(e) && e@ == failure,
        },
{
    let mut records: Vec<Record> = Vec::new();
    let mut batches = Cursor::new(bytes);
    proof {
        assert(stored(records@) =~= Seq::<Stored>::empty());
        if let Ok(all) = batches_of(bytes@) {
            assert(stored(records@) + all =~= all);
        }
    }
    while !batches.is_empty()
        invariant
            batches_of(bytes@) == joined(stored(records@), batches_of(batches@)),
        decreases batches@.len(),
    {
        let ghost rest = batches@;
        let base_offset: i64 = batches.i64_be()?;
        let announced: i32 = batches.i32_be()?;
        assert(rest.skip(8).take(4) =~= rest.subrange(8, 12));
        assert(batches@ =~= rest.skip(12));
        if announced < 0 {
            return Err(protocol_error("a negative batch length"));
        }
        let batch: &[u8] = batches.take(announced as usize)?;
        assert(batch@ =~= rest.subrange(12, 12 + announced));
        assert(batches@ =~= rest.skip(12 + announced));
        let ghost before = stored(records@);
        decode_batch(batch, base_offset, &mut records)?;
        proof {
            if let Ok(more) = batch_of(base_offset as int, batch@) {
                lemma_joined(before, more, batches_of(batches@));
            }
        }
    }
    proof {
        assert(stored(records@) + Seq::<Stored>::empty() =~= stored(records@));
    }
    Ok(records)
}

} // verus!
