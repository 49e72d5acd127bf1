//! Bytes read from the front: every read takes what it needs and leaves the
//! rest, or fails where there is not enough left.

use vstd::prelude::*;

use crate::error::{protocol_error, Failure, TransportError};
use crate::integer::{lemma_signed_bounds, lemma_spans, signed_of, unsigned_of};
use crate::varint::varint;

verus! {

/// What reading something off the front of a sequence of bytes comes to: the
/// thing and the bytes behind it, or the failure.
pub type Parsed<T> = Result<(T, Seq<u8>), Failure>;

/// The failure of a read that needs more bytes than are left.
pub open spec fn past_the_end() -> Failure {
    crate::error::permanent("a field that runs past the end of its message"@)
}

/// The failure of a varint that no 64-bit integer holds.
pub open spec fn varint_too_long() -> Failure {
    crate::error::permanent("a varint of more than 64 bits"@)
}

/// The next `count` bytes.
pub open spec fn taken(bytes: Seq<u8>, count: nat) -> Parsed<Seq<u8>> {
    if count <= bytes.len() {
        Ok((bytes.take(count as int), bytes.skip(count as int)))
    } else {
        Err(past_the_end())
    }
}

/// A big-endian integer of `width` bytes in two's complement.
pub open spec fn signed_at(bytes: Seq<u8>, width: nat) -> Parsed<int> {
    match taken(bytes, width) {
        Ok((field, rest)) => Ok((crate::integer::signed(field), rest)),
        Err(failure) => Err(failure),
    }
}

/// A big-endian integer of four bytes without a sign.
pub open spec fn unsigned_at(bytes: Seq<u8>) -> Parsed<int> {
    match taken(bytes, 4) {
        Ok((field, rest)) => Ok((crate::integer::unsigned(field), rest)),
        Err(failure) => Err(failure),
    }
}

/// A varint's digits to the base 128, the lowest first, at most `more` of
/// them behind the first.
pub open spec fn base128_at(bytes: Seq<u8>, more: nat) -> Parsed<nat>
    decreases more,
{
    if bytes.len() == 0 {
        Err(past_the_end())
    } else if bytes[0] < 128 {
        Ok((bytes[0] as nat, bytes.skip(1)))
    } else if more == 0 {
        Err(varint_too_long())
    } else {
        match base128_at(bytes.skip(1), (more - 1) as nat) {
            Ok((high, rest)) => Ok(((bytes[0] - 128) as nat + 128 * high, rest)),
            Err(failure) => Err(failure),
        }
    }
}

/// A varint of at most ten bytes that fits 64 bits.
pub open spec fn varint_at(bytes: Seq<u8>) -> Parsed<nat> {
    match base128_at(bytes, 9) {
        Ok((value, rest)) => if value <= u64::MAX {
            Ok((value, rest))
        } else {
            Err(varint_too_long())
        },
        Err(failure) => Err(failure),
    }
}

/// The bytes that are still to be read.
pub struct Cursor<'a> {
    rest: &'a [u8],
}

impl<'a> View for Cursor<'a> {
    type V = Seq<u8>;

    closed spec fn view(&self) -> Seq<u8> {
        self.rest@
    }
}

/// The error of a read that needs more bytes than are left.
fn past_the_end_error() -> (error: TransportError)
    ensures
        error@ == past_the_end(),
{
    protocol_error("a field that runs past the end of its message")
}

impl<'a> Cursor<'a> {
    /// At the front of `bytes`.
    pub fn new(bytes: &'a [u8]) -> (cursor: Self)
        ensures
            cursor@ == bytes@,
    {
        Cursor { rest: bytes }
    }

    /// The bytes that are still to be read, left where they are.
    pub fn remaining(&self) -> (rest: &'a [u8])
        ensures
            rest@ == self@,
    {
        self.rest
    }

    /// Whether everything has been read.
    pub fn is_empty(&self) -> (empty: bool)
        ensures
            empty == (self@.len() == 0),
    {
        self.rest.len() == 0
    }

    /// The next `count` bytes.
    pub fn take(&mut self, count: usize) -> (field: Result<&'a [u8], TransportError>)
        ensures
            match taken(old(self)@, count as nat) {
                Ok((bytes, rest)) => field matches Ok(f) && f@ == bytes && final(self)@ == rest,
                Err(failure) => field matches Err(e) && e@ == failure && final(self)@ == old(self)@,
            },
    {
        if count > self.rest.len() {
            return Err(past_the_end_error());
        }
        let (field, rest) = self.rest.split_at(count);
        self.rest = rest;
        Ok(field)
    }

    /// Everything that is still to be read.
    pub fn take_rest(&mut self) -> (rest: &'a [u8])
        ensures
            rest@ == old(self)@,
            final(self)@ == Seq::<u8>::empty(),
    {
        let (rest, end) = self.rest.split_at(self.rest.len());
        self.rest = end;
        assert(rest@ =~= old(self)@);
        assert(end@ =~= Seq::<u8>::empty());
        rest
    }

    /// Pass over the next `count` bytes.
    pub fn skip(&mut self, count: usize) -> (done: Result<(), TransportError>)
        ensures
            match taken(old(self)@, count as nat) {
                Ok((_, rest)) => done is Ok && final(self)@ == rest,
                Err(failure) => done matches Err(e) && e@ == failure && final(self)@ == old(self)@,
            },
    {
        self.take(count)?;
        Ok(())
    }

    /// The next byte.
    pub fn byte(&mut self) -> (value: Result<u8, TransportError>)
        ensures
            match taken(old(self)@, 1) {
                Ok((bytes, rest)) => value == Ok::<u8, TransportError>(bytes[0]) && final(self)@
                    == rest,
                Err(failure) => value matches Err(e) && e@ == failure && final(self)@ == old(self)@,
            },
    {
        let field: &[u8] = self.take(1)?;
        Ok(field[0])
    }

    /// A signed integer of one byte.
    pub fn i8(&mut self) -> (value: Result<i8, TransportError>)
        ensures
            match signed_at(old(self)@, 1) {
                Ok((n, rest)) => value matches Ok(v) && v == n && final(self)@ == rest,
                Err(failure) => value matches Err(e) && e@ == failure && final(self)@ == old(self)@,
            },
    {
        let field: &[u8] = self.take(1)?;
        proof {
            lemma_signed_bounds(field@);
            lemma_spans();
        }
        Ok(signed_of(field) as i8)
    }

    /// A signed integer of two bytes, big-endian.
    pub fn i16_be(&mut self) -> (value: Result<i16, TransportError>)
        ensures
            match signed_at(old(self)@, 2) {
                Ok((n, rest)) => value matches Ok(v) && v == n && final(self)@ == rest,
                Err(failure) => value matches Err(e) && e@ == failure && final(self)@ == old(self)@,
            },
    {
        let field: &[u8] = self.take(2)?;
        proof {
            lemma_signed_bounds(field@);
            lemma_spans();
        }
        Ok(signed_of(field) as i16)
    }

    /// A signed integer of four bytes, big-endian.
    pub fn i32_be(&mut self) -> (value: Result<i32, TransportError>)
        ensures
            match signed_at(old(self)@, 4) {
                Ok((n, rest)) => value matches Ok(v) && v == n && final(self)@ == rest,
                Err(failure) => value matches Err(e) && e@ == failure && final(self)@ == old(self)@,
            },
    {
        let field: &[u8] = self.take(4)?;
        proof {
            lemma_signed_bounds(field@);
            lemma_spans();
        }
        Ok(signed_of(field) as i32)
    }

    /// A signed integer of eight bytes, big-endian.
    pub fn i64_be(&mut self) -> (value: Result<i64, TransportError>)
        ensures
            match signed_at(old(self)@, 8) {
                Ok((n, rest)) => value matches Ok(v) && v == n && final(self)@ == rest,
                Err(failure) => value matches Err(e) && e@ == failure && final(self)@ == old(self)@,
            },
    {
        let field: &[u8] = self.take(8)?;
        Ok(signed_of(field))
    }

    /// An unsigned integer of four bytes, big-endian.
    pub fn u32_be(&mut self) -> (value: Result<u32, TransportError>)
        ensures
            match unsigned_at(old(self)@) {
                Ok((n, rest)) => value matches Ok(v) && v == n && final(self)@ == rest,
                Err(failure) => value matches Err(e) && e@ == failure && final(self)@ == old(self)@,
            },
    {
        let field: &[u8] = self.take(4)?;
        Ok(unsigned_of(field))
    }

    /// A varint.
    pub fn varint(&mut self) -> (value: Result<u64, TransportError>)
        ensures
            match varint_at(old(self)@) {
                Ok((n, rest)) => value matches Ok(v) && v == n && final(self)@ == rest,
                Err(failure) => value matches Err(e) && e@ == failure && final(self)@ == old(self)@,
            },
    {
        let bytes: &[u8] = self.rest;
        let mut value: u128 = 0;
        let mut scale: u128 = 1;
        let mut at: usize = 0;
        proof {
            assert(bytes@.skip(0) =~= bytes@);
            assert(with_low_digits(0, 1, base128_at(bytes@, 9)) == base128_at(bytes@, 9));
        }
        while at < bytes.len()
            invariant
                self@ == old(self)@,
                bytes@ == old(self)@,
                at <= 9,
                at <= bytes@.len(),
                scale == radix(at as nat),
                value < scale,
                base128_at(bytes@, 9) == with_low_digits(
                    value as nat,
                    scale as nat,
                    base128_at(bytes@.skip(at as int), (9 - at) as nat),
                ),
            decreases 9 - at,
        {
            let digit: u8 = bytes[at];
            proof {
                lemma_radix_bounds(at as nat);
                assert(bytes@.skip(at as int)[0] == digit);
                assert(bytes@.skip(at as int).skip(1) =~= bytes@.skip(at + 1));
            }
            if digit < 128 {
                assert(scale * digit <= 0x8000_0000_0000_0000 * 127) by (nonlinear_arith)
                    requires
                        scale <= 0x8000_0000_0000_0000,
                        digit < 128,
                ;
                let sum: u128 = value + scale * digit as u128;
                if sum > u64::MAX as u128 {
                    return Err(protocol_error("a varint of more than 64 bits"));
                }
                let (_, rest) = bytes.split_at(at + 1);
                self.rest = rest;
                return Ok(sum as u64);
            }
            if at == 9 {
                return Err(protocol_error("a varint of more than 64 bits"));
            }
            let low: u128 = digit as u128 - 128;
            assert(scale * low <= 127 * scale) by (nonlinear_arith)
                requires
                    low <= 127,
            ;
            proof {
                lemma_with_one_more_digit(
                    value as nat,
                    scale as nat,
                    low as nat,
                    base128_at(bytes@.skip(at + 1), (8 - at) as nat),
                );
            }
            value = value + scale * low;
            scale = scale * 128;
            at += 1;
        }
        proof {
            assert(bytes@.skip(at as int).len() == 0);
        }
        Err(past_the_end_error())
    }
}

/// What the digit at each place of a varint counts.
spec fn radix(place: nat) -> nat
    decreases place,
{
    if place == 0 {
        1
    } else {
        128 * radix((place - 1) as nat)
    }
}

/// No place of a varint counts more than 2 to the 63rd.
proof fn lemma_radix_bounds(place: nat)
    requires
        place <= 9,
    ensures
        1 <= radix(place) <= 0x8000_0000_0000_0000,
{
    reveal_with_fuel(radix, 10);
}

/// Higher digits that were read with lower ones worth `low` before them.
spec fn with_low_digits(low: nat, scale: nat, high: Parsed<nat>) -> Parsed<nat> {
    match high {
        Ok((value, rest)) => Ok((low + scale * value, rest)),
        Err(failure) => Err(failure),
    }
}

proof fn lemma_with_one_more_digit(low: nat, scale: nat, digit: nat, high: Parsed<nat>)
    ensures
        with_low_digits(low, scale, with_low_digits(digit, 128, high)) == with_low_digits(
            low + scale * digit,
            scale * 128,
            high,
        ),
{
    if let Ok((value, _)) = high {
        assert(low + scale * (digit + 128 * value) == low + scale * digit + scale * 128 * value)
            by (nonlinear_arith);
    }
}

/// A varint reads back, and what stands behind it stays.
pub proof fn lemma_varint_round_trip(value: nat, rest: Seq<u8>)
    requires
        value <= u64::MAX,
    ensures
        varint_at(varint(value) + rest) == Ok::<(nat, Seq<u8>), Failure>((value, rest)),
{
    reveal_with_fuel(radix, 10);
    lemma_base128_round_trip(value, rest, 9);
}

proof fn lemma_base128_round_trip(value: nat, rest: Seq<u8>, more: nat)
    requires
        more <= 9,
        value < 128 * radix(more),
    ensures
        base128_at(varint(value) + rest, more) == Ok::<(nat, Seq<u8>), Failure>((value, rest)),
    decreases more,
{
    reveal_with_fuel(radix, 10);
    let bytes = varint(value) + rest;
    if value < 128 {
        assert(bytes.skip(1) =~= rest);
    } else {
        assert(bytes.skip(1) =~= varint(value / 128) + rest);
        lemma_base128_round_trip(value / 128, rest, (more - 1) as nat);
    }
}

/// A varint that breaks off is refused, wherever it breaks off.
pub proof fn lemma_a_cut_varint_is_refused(value: nat, length: int)
    requires
        value <= u64::MAX,
        0 <= length < varint(value).len(),
    ensures
        varint_at(varint(value).take(length)) == Err::<(nat, Seq<u8>), Failure>(past_the_end()),
{
    reveal_with_fuel(radix, 10);
    lemma_base128_cut(value, length, 9);
}

proof fn lemma_base128_cut(value: nat, length: int, more: nat)
    requires
        more <= 9,
        value < 128 * radix(more),
        0 <= length < varint(value).len(),
    ensures
        base128_at(varint(value).take(length), more) == Err::<(nat, Seq<u8>), Failure>(
            past_the_end(),
        ),
    decreases more,
{
    reveal_with_fuel(radix, 10);
    let cut = varint(value).take(length);
    if length > 0 {
        assert(value >= 128);
        assert(cut.skip(1) =~= varint(value / 128).take(length - 1));
        lemma_base128_cut(value / 128, length - 1, (more - 1) as nat);
    }
}

/// Ten bytes of which each says that another follows are no varint, whatever
/// follows.
pub proof fn lemma_a_long_varint_is_refused(bytes: Seq<u8>)
    requires
        bytes.len() >= 10,
        forall|i: int| 0 <= i < 10 ==> (#[trigger] bytes[i]) >= 128,
    ensures
        varint_at(bytes) == Err::<(nat, Seq<u8>), Failure>(varint_too_long()),
{
    lemma_base128_long(bytes, 9);
}

proof fn lemma_base128_long(bytes: Seq<u8>, more: nat)
    requires
        bytes.len() > more,
        forall|i: int| 0 <= i <= more ==> (#[trigger] bytes[i]) >= 128,
    ensures
        base128_at(bytes, more) == Err::<(nat, Seq<u8>), Failure>(varint_too_long()),
    decreases more,
{
    assert(bytes[0] >= 128);
    if more > 0 {
        let rest = bytes.skip(1);
        assert forall|i: int| 0 <= i <= more - 1 implies (#[trigger] rest[i]) >= 128 by {
            assert(rest[i] == bytes[i + 1]);
        }
        lemma_base128_long(rest, (more - 1) as nat);
    }
}

} // verus!
