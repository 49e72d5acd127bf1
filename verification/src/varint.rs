//! Variable-length integers: seven bits a byte, the lowest first, the high
//! bit set on every byte but the last; and the zig-zag that makes a signed
//! integer of small magnitude a small unsigned one.

use vstd::prelude::*;

verus! {

/// A signed integer folded onto the unsigned ones: 0, -1, 1, -2, 2, ...
pub open spec fn zigzagged(value: int) -> int {
    if value < 0 {
        -2 * value - 1
    } else {
        2 * value
    }
}

/// The signed integer that was folded onto `value`.
pub open spec fn unzigzagged(value: int) -> int {
    if value % 2 == 0 {
        value / 2
    } else {
        -(value / 2) - 1
    }
}

/// `value` in as few bytes as its bits need.
pub open spec fn varint(value: nat) -> Seq<u8>
    decreases value,
{
    if value < 128 {
        seq![value as u8]
    } else {
        seq![(value % 128 + 128) as u8] + varint(value / 128)
    }
}

/// Folding and unfolding undo each other.
pub proof fn lemma_zigzag_round_trip(value: int)
    ensures
        zigzagged(value) >= 0,
        unzigzagged(zigzagged(value)) == value,
        value >= 0 ==> zigzagged(unzigzagged(value)) == value,
{
}

/// Fold `value` onto the unsigned integers.
pub fn zigzag(value: i64) -> (folded: u64)
    ensures
        folded == zigzagged(value as int),
{
    if value < 0 {
        let above: i64 = -(value + 1);
        above as u64 * 2 + 1
    } else {
        value as u64 * 2
    }
}

/// Unfold the signed integer that was folded onto `value`.
pub fn unzigzag(value: u64) -> (unfolded: i64)
    ensures
        unfolded == unzigzagged(value as int),
{
    let half: i64 = (value / 2) as i64;
    if value % 2 == 0 {
        half
    } else {
        -half - 1
    }
}

/// Write `value` behind `out`.
pub(crate) fn push_varint(out: &mut Vec<u8>, value: u64)
    ensures
        final(out)@ == old(out)@ + varint(value as nat),
{
    let mut left: u64 = value;
    while left >= 128
        invariant
            old(out)@ + varint(value as nat) == out@ + varint(left as nat),
        decreases left,
    {
        let ghost before = out@;
        out.push((left % 128 + 128) as u8);
        assert(before + varint(left as nat) =~= out@ + varint((left / 128) as nat));
        left = left / 128;
    }
    let ghost before = out@;
    out.push(left as u8);
    assert(out@ =~= before + varint(left as nat));
}

} // verus!
