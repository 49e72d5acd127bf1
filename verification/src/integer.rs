//! Integers as big-endian bytes, the highest byte first and a negative
//! number in two's complement.

use vstd::prelude::*;

verus! {

/// How many values `width` bytes tell apart.
pub open spec fn span(width: nat) -> int
    decreases width,
{
    if width == 0 {
        1
    } else {
        256 * span((width - 1) as nat)
    }
}

/// The low `width` bytes of `value`, big-endian.
pub open spec fn be(value: int, width: nat) -> Seq<u8>
    decreases width,
{
    if width == 0 {
        Seq::empty()
    } else {
        be(value / 256, (width - 1) as nat).push((value % 256) as u8)
    }
}

/// The number that `bytes` writes, big-endian and without a sign.
pub open spec fn unsigned(bytes: Seq<u8>) -> int
    decreases bytes.len(),
{
    if bytes.len() == 0 {
        0
    } else {
        256 * unsigned(bytes.drop_last()) + bytes.last()
    }
}

/// The number that `bytes` writes, big-endian and in two's complement.
pub open spec fn signed(bytes: Seq<u8>) -> int
    decreases bytes.len(),
{
    if bytes.len() == 0 {
        0
    } else if bytes.len() == 1 {
        if bytes[0] < 128 {
            bytes[0] as int
        } else {
            bytes[0] - 256
        }
    } else {
        256 * signed(bytes.drop_last()) + bytes.last()
    }
}

/// The 64-bit signed integer that `sum` comes to where it wraps around once
/// at either end.
pub open spec fn wrapped(sum: int) -> int {
    if sum > i64::MAX {
        sum - 0x1_0000_0000_0000_0000
    } else if sum < i64::MIN {
        sum + 0x1_0000_0000_0000_0000
    } else {
        sum
    }
}

/// The spans of the widths in use.
pub proof fn lemma_spans()
    ensures
        span(0) == 1,
        span(1) == 0x100,
        span(2) == 0x1_0000,
        span(3) == 0x100_0000,
        span(4) == 0x1_0000_0000,
        span(5) == 0x100_0000_0000,
        span(6) == 0x1_0000_0000_0000,
        span(7) == 0x100_0000_0000_0000,
        span(8) == 0x1_0000_0000_0000_0000,
{
    reveal_with_fuel(span, 9);
}

/// As many bytes are written as asked for.
pub proof fn lemma_be_len(value: int, width: nat)
    ensures
        be(value, width).len() == width,
    decreases width,
{
    if width > 0 {
        lemma_be_len(value / 256, (width - 1) as nat);
    }
}

/// A negative number and the number a whole span above it have the same
/// bytes.
pub proof fn lemma_be_wraps(value: int, width: nat)
    ensures
        be(value + span(width), width) == be(value, width),
    decreases width,
{
    if width > 0 {
        let low = (width - 1) as nat;
        lemma_be_wraps(value / 256, low);
        assert((value + 256 * span(low)) / 256 == value / 256 + span(low));
        assert((value + 256 * span(low)) % 256 == value % 256);
    }
}

/// A number without a sign, written in as many bytes as it needs, reads back.
pub proof fn lemma_unsigned_round_trip(value: int, width: nat)
    requires
        0 <= value < span(width),
    ensures
        be(value, width).len() == width,
        unsigned(be(value, width)) == value,
    decreases width,
{
    lemma_be_len(value, width);
    if width > 0 {
        let low = (width - 1) as nat;
        lemma_unsigned_round_trip(value / 256, low);
        assert(be(value, width).drop_last() =~= be(value / 256, low));
    }
}

/// A signed number, written in as many bytes as it needs, reads back.
pub proof fn lemma_signed_round_trip(value: int, width: nat)
    requires
        width > 0,
        -span(width) <= 2 * value < span(width),
    ensures
        be(value, width).len() == width,
        signed(be(value, width)) == value,
    decreases width,
{
    lemma_be_len(value, width);
    let low = (width - 1) as nat;
    if width == 1 {
        lemma_spans();
        assert(be(value, 1)[0] == (value % 256) as u8);
    } else {
        lemma_spans();
        let half = span(low);
        assert(span(low) == 256 * span((low - 1) as nat));
        assert(-half <= 2 * (value / 256) < half);
        lemma_signed_round_trip(value / 256, low);
        assert(be(value, width).drop_last() =~= be(value / 256, low));
    }
}

/// What `bytes` writes without a sign lies in their span.
pub proof fn lemma_unsigned_bounds(bytes: Seq<u8>)
    ensures
        0 <= unsigned(bytes) < span(bytes.len()),
    decreases bytes.len(),
{
    if bytes.len() > 0 {
        lemma_unsigned_bounds(bytes.drop_last());
    }
}

/// What `bytes` writes in two's complement lies in half their span on either
/// side of zero.
pub proof fn lemma_signed_bounds(bytes: Seq<u8>)
    requires
        bytes.len() > 0,
    ensures
        -span(bytes.len()) <= 2 * signed(bytes) < span(bytes.len()),
    decreases bytes.len(),
{
    lemma_spans();
    if bytes.len() > 1 {
        lemma_signed_bounds(bytes.drop_last());
        let low = (bytes.len() - 1) as nat;
        assert(span(low) == 256 * span((low - 1) as nat));
    }
}

/// A wider integer spans more.
proof fn lemma_span_grows(narrow: nat, wide: nat)
    requires
        narrow <= wide,
    ensures
        1 <= span(narrow) <= span(wide),
    decreases wide,
{
    if narrow < wide {
        lemma_span_grows(narrow, (wide - 1) as nat);
    } else if narrow > 0 {
        lemma_span_grows((narrow - 1) as nat, (narrow - 1) as nat);
    }
}

/// The number that `bytes` writes, big-endian and in two's complement.
pub(crate) fn signed_of(bytes: &[u8]) -> (value: i64)
    requires
        0 < bytes@.len() <= 8,
    ensures
        value == signed(bytes@),
{
    let first: u8 = bytes[0];
    let mut value: i64 = if first < 128 {
        first as i64
    } else {
        first as i64 - 256
    };
    let mut at: usize = 1;
    while at < bytes.len()
        invariant
            1 <= at <= bytes@.len() <= 8,
            value == signed(bytes@.take(at as int)),
        decreases bytes@.len() - at,
    {
        proof {
            let next = bytes@.take(at + 1);
            assert(next.drop_last() =~= bytes@.take(at as int));
            lemma_signed_bounds(next);
            lemma_signed_bounds(next.drop_last());
            lemma_span_grows((at + 1) as nat, 8);
            lemma_span_grows(at as nat, 7);
            lemma_spans();
        }
        value = value * 256 + bytes[at] as i64;
        at += 1;
    }
    assert(bytes@.take(at as int) =~= bytes@);
    value
}

/// The number that four `bytes` write, big-endian and without a sign.
pub(crate) fn unsigned_of(bytes: &[u8]) -> (value: u32)
    requires
        bytes@.len() == 4,
    ensures
        value == unsigned(bytes@),
{
    let mut value: u64 = 0;
    let mut at: usize = 0;
    while at < 4
        invariant
            at <= 4 == bytes@.len(),
            value == unsigned(bytes@.take(at as int)),
            value < span(at as nat),
        decreases 4 - at,
    {
        proof {
            let next = bytes@.take(at + 1);
            assert(next.drop_last() =~= bytes@.take(at as int));
            lemma_unsigned_bounds(next);
            lemma_span_grows((at + 1) as nat, 4);
            lemma_spans();
        }
        value = value * 256 + bytes[at] as u64;
        at += 1;
    }
    proof {
        assert(bytes@.take(at as int) =~= bytes@);
        lemma_spans();
    }
    value as u32
}

/// Write the low `width` bytes of `value` behind `out`, big-endian.
pub(crate) fn push_be(out: &mut Vec<u8>, value: u64, width: usize)
    ensures
        final(out)@ == old(out)@ + be(value as int, width as nat),
    decreases width,
{
    if width > 0 {
        push_be(out, value / 256, width - 1);
        out.push((value % 256) as u8);
    }
    assert(out@ =~= old(out)@ + be(value as int, width as nat));
}

} // verus!
