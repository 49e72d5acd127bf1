//! Bytes written one field behind another.

use vstd::prelude::*;

use crate::integer::{be, lemma_be_wraps, lemma_spans, push_be};
use crate::varint::{push_varint, varint};

verus! {

/// Fields of every kind, each written behind what is already there. Every
/// method hands the writer on, so that the next field can follow.
pub trait ByteWriter: Sized + View<V = Seq<u8>> {
    /// One byte.
    fn byte(&mut self, value: u8) -> (writer: &mut Self)
        ensures
            writer@ == old(self)@ + seq![value],
            *final(self) == *final(writer),
    ;

    /// Bytes as they stand.
    fn bytes(&mut self, value: &[u8]) -> (writer: &mut Self)
        ensures
            writer@ == old(self)@ + value@,
            *final(self) == *final(writer),
    ;

    /// A signed integer of one byte.
    fn i8(&mut self, value: i8) -> (writer: &mut Self)
        ensures
            writer@ == old(self)@ + be(value as int, 1),
            *final(self) == *final(writer),
    ;

    /// A signed integer of two bytes, big-endian.
    fn i16_be(&mut self, value: i16) -> (writer: &mut Self)
        ensures
            writer@ == old(self)@ + be(value as int, 2),
            *final(self) == *final(writer),
    ;

    /// A signed integer of four bytes, big-endian.
    fn i32_be(&mut self, value: i32) -> (writer: &mut Self)
        ensures
            writer@ == old(self)@ + be(value as int, 4),
            *final(self) == *final(writer),
    ;

    /// A signed integer of eight bytes, big-endian.
    fn i64_be(&mut self, value: i64) -> (writer: &mut Self)
        ensures
            writer@ == old(self)@ + be(value as int, 8),
            *final(self) == *final(writer),
    ;

    /// An unsigned integer of four bytes, big-endian.
    fn u32_be(&mut self, value: u32) -> (writer: &mut Self)
        ensures
            writer@ == old(self)@ + be(value as int, 4),
            *final(self) == *final(writer),
    ;

    /// A varint.
    fn varint(&mut self, value: u64) -> (writer: &mut Self)
        ensures
            writer@ == old(self)@ + varint(value as nat),
            *final(self) == *final(writer),
    ;
}

impl ByteWriter for Vec<u8> {
    fn byte(&mut self, value: u8) -> (writer: &mut Self) {
        self.push(value);
        assert(self@ =~= old(self)@ + seq![value]);
        self
    }

    fn bytes(&mut self, value: &[u8]) -> (writer: &mut Self) {
        self.extend_from_slice(value);
        assert(self@ =~= old(self)@ + value@);
        self
    }

    fn i8(&mut self, value: i8) -> (writer: &mut Self) {
        proof {
            lemma_spans();
            lemma_be_wraps(value as int, 1);
        }
        let wrapped: i16 = if value < 0 {
            value as i16 + 0x100
        } else {
            value as i16
        };
        push_be(self, wrapped as u64, 1);
        self
    }

    fn i16_be(&mut self, value: i16) -> (writer: &mut Self) {
        proof {
            lemma_spans();
            lemma_be_wraps(value as int, 2);
        }
        let wrapped: i32 = if value < 0 {
            value as i32 + 0x1_0000
        } else {
            value as i32
        };
        push_be(self, wrapped as u64, 2);
        self
    }

    fn i32_be(&mut self, value: i32) -> (writer: &mut Self) {
        proof {
            lemma_spans();
            lemma_be_wraps(value as int, 4);
        }
        let wrapped: i64 = if value < 0 {
            value as i64 + 0x1_0000_0000
        } else {
            value as i64
        };
        push_be(self, wrapped as u64, 4);
        self
    }

    fn i64_be(&mut self, value: i64) -> (writer: &mut Self) {
        proof {
            lemma_spans();
            lemma_be_wraps(value as int, 8);
        }
        let wrapped: i128 = if value < 0 {
            value as i128 + 0x1_0000_0000_0000_0000
        } else {
            value as i128
        };
        push_be(self, wrapped as u64, 8);
        self
    }

    fn u32_be(&mut self, value: u32) -> (writer: &mut Self) {
        push_be(self, value as u64, 4);
        self
    }

    fn varint(&mut self, value: u64) -> (writer: &mut Self) {
        push_varint(self, value);
        self
    }
}

} // verus!
