//! CRC-32C, the checksum a record batch carries: the Castagnoli polynomial,
//! bits reflected, the register all ones at the start and inverted at the
//! end.

use vstd::prelude::*;

verus! {

/// The Castagnoli polynomial, its bits reflected.
pub const CASTAGNOLI: u32 = 0x82f6_3b78;

/// The register after one more bit.
pub open spec fn shifted(register: u32) -> u32 {
    if register & 1 == 1 {
        (register >> 1) ^ CASTAGNOLI
    } else {
        register >> 1
    }
}

/// The register after `bits` more bits.
pub open spec fn shifted_by(register: u32, bits: nat) -> u32
    decreases bits,
{
    if bits == 0 {
        register
    } else {
        shifted(shifted_by(register, (bits - 1) as nat))
    }
}

/// The register after the whole of `bytes`.
pub open spec fn fed(register: u32, bytes: Seq<u8>) -> u32
    decreases bytes.len(),
{
    if bytes.len() == 0 {
        register
    } else {
        shifted_by(fed(register, bytes.drop_last()) ^ (bytes.last() as u32), 8)
    }
}

/// The checksum of `bytes`.
pub open spec fn crc32c(bytes: Seq<u8>) -> u32 {
    fed(0xffff_ffff, bytes) ^ 0xffff_ffff
}

/// The checksum of `bytes`.
pub fn checksum(bytes: &[u8]) -> (sum: u32)
    ensures
        sum == crc32c(bytes@),
{
    let mut register: u32 = 0xffff_ffff;
    let mut at: usize = 0;
    while at < bytes.len()
        invariant
            at <= bytes@.len(),
            register == fed(0xffff_ffff, bytes@.take(at as int)),
        decreases bytes@.len() - at,
    {
        let ghost start = register ^ (bytes[at as int] as u32);
        register = register ^ (bytes[at] as u32);
        let mut bits: u32 = 0;
        while bits < 8
            invariant
                bits <= 8,
                register == shifted_by(start, bits as nat),
            decreases 8 - bits,
        {
            register = if register & 1 == 1 {
                (register >> 1) ^ CASTAGNOLI
            } else {
                register >> 1
            };
            bits += 1;
        }
        assert(bytes@.take(at + 1).drop_last() =~= bytes@.take(at as int));
        at += 1;
    }
    assert(bytes@.take(at as int) =~= bytes@);
    register ^ 0xffff_ffff
}

/// One bit more loses nothing of the register.
proof fn lemma_shifted_injective(a: u32, b: u32)
    requires
        shifted(a) == shifted(b),
    ensures
        a == b,
{
    assert(a == b) by (bit_vector)
        requires
            shifted(a) == shifted(b),
    ;
}

/// Nor do several.
proof fn lemma_shifted_by_injective(a: u32, b: u32, bits: nat)
    requires
        shifted_by(a, bits) == shifted_by(b, bits),
    ensures
        a == b,
    decreases bits,
{
    if bits > 0 {
        let low = (bits - 1) as nat;
        lemma_shifted_injective(shifted_by(a, low), shifted_by(b, low));
        lemma_shifted_by_injective(a, b, low);
    }
}

/// Two registers that the same byte leads to one were one before it.
proof fn lemma_fed_injective(a: u32, b: u32, byte: u8)
    requires
        shifted_by(a ^ (byte as u32), 8) == shifted_by(b ^ (byte as u32), 8),
    ensures
        a == b,
{
    lemma_shifted_by_injective(a ^ (byte as u32), b ^ (byte as u32), 8);
    let c = byte as u32;
    assert(a == b) by (bit_vector)
        requires
            a ^ c == b ^ c,
    ;
}

/// Damage to one byte changes the register, wherever the byte stands.
proof fn lemma_fed_tells(register: u32, whole: Seq<u8>, damaged: Seq<u8>, at: int)
    requires
        whole.len() == damaged.len(),
        0 <= at < whole.len(),
        whole[at] != damaged[at],
        forall|i: int| 0 <= i < whole.len() && i != at ==> whole[i] == damaged[i],
    ensures
        fed(register, whole) != fed(register, damaged),
    decreases whole.len(),
{
    let a = fed(register, whole.drop_last());
    let b = fed(register, damaged.drop_last());
    if fed(register, whole) == fed(register, damaged) {
        if at == whole.len() - 1 {
            assert(whole.drop_last() =~= damaged.drop_last());
            lemma_shifted_by_injective(a ^ (whole.last() as u32), a ^ (damaged.last() as u32), 8);
            let x = whole.last();
            let y = damaged.last();
            assert(x == y) by (bit_vector)
                requires
                    a ^ (x as u32) == a ^ (y as u32),
            ;
        } else {
            lemma_fed_injective(a, b, whole.last());
            lemma_fed_tells(register, whole.drop_last(), damaged.drop_last(), at);
        }
    }
}

/// A change to any one byte changes the checksum.
pub proof fn lemma_damage_changes_the_checksum(whole: Seq<u8>, damaged: Seq<u8>, at: int)
    requires
        whole.len() == damaged.len(),
        0 <= at < whole.len(),
        whole[at] != damaged[at],
        forall|i: int| 0 <= i < whole.len() && i != at ==> whole[i] == damaged[i],
    ensures
        crc32c(whole) != crc32c(damaged),
{
    lemma_fed_tells(0xffff_ffff, whole, damaged, at);
    let a = fed(0xffff_ffff, whole);
    let b = fed(0xffff_ffff, damaged);
    assert(a ^ 0xffff_ffff == b ^ 0xffff_ffff ==> a == b) by (bit_vector);
}

} // verus!
