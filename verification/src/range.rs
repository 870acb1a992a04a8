//! Reading and writing bit ranges and single bits of a backing storage.
use crate::model::{field_bit, is_field_value, with_field};
use crate::value::BitValue;
use crate::value_unsigned::at_u8;
use vstd::prelude::*;

verus! {

/// A backing storage seen as a string of bits.
pub trait BitView {
    /// The bits of the storage, indexed by bit position.
    spec fn bits(&self) -> Seq<bool>;

    /// Whether position 0 is the most significant bit (MSB0) rather than the least
    /// significant one (LSB0).
    spec fn msb0() -> bool;
}

/// A trait to get ranges of bits.
pub trait BitRange<T: BitValue>: BitView {
    /// Get a range of bits.
    ///
    /// The result holds the bits at the positions `lsb..=msb`; if `T` is wider than the range
    /// it is zero-extended, or sign-extended where `T` is signed.
    fn bit_range(&self, msb: usize, lsb: usize) -> (r: T)
        requires
            lsb <= msb < self.bits().len(),
            msb - lsb < T::width(),
        ensures
            is_field_value(self.bits(), Self::msb0(), msb as int, lsb as int, r),
    ;
}

/// A trait to set ranges of bits.
pub trait BitRangeMut<T: BitValue>: BitView {
    /// Set a range of bits.
    ///
    /// The positions `lsb..=msb` take the lowest bits of `value`; whatever `value` holds
    /// above the width of the range is dropped. No other position changes.
    fn set_bit_range(&mut self, msb: usize, lsb: usize, value: T)
        requires
            lsb <= msb < old(self).bits().len(),
        ensures
            final(self).bits() == with_field(old(self).bits(), Self::msb0(), msb as int, lsb as int, value),
    ;
}

/// A trait to get a single bit.
///
/// This trait is implemented for all type that implement `BitRange<u8>`.
pub trait Bit: BitView {
    /// Get a single bit.
    fn bit(&self, bit: usize) -> (r: bool)
        requires
            bit < self.bits().len(),
        ensures
            r == self.bits()[bit as int],
    ;
}

/// A trait to set a single bit.
///
/// This trait is implemented for all type that implement `BitRangeMut<u8>`.
pub trait BitMut: BitView {
    /// Set a single bit.
    fn set_bit(&mut self, bit: usize, value: bool)
        requires
            bit < old(self).bits().len(),
        ensures
            final(self).bits() == old(self).bits().update(bit as int, value),
    ;
}

/// A byte with no bit set above bit 0 is zero exactly if bit 0 is clear.
proof fn lemma_flag_of_byte(v: u8)
    by (bit_vector)
    requires
        !at_u8(v, 1),
        !at_u8(v, 2),
        !at_u8(v, 3),
        !at_u8(v, 4),
        !at_u8(v, 5),
        !at_u8(v, 6),
        !at_u8(v, 7),
    ensures
        (v != 0) == at_u8(v, 0),
{
}

/// The byte 1 has bit 0 set and no other; the byte 0 has no bit set.
proof fn lemma_byte_of_flag(b: bool, k: u32)
    by (bit_vector)
    requires
        k < 8,
    ensures
        at_u8(if b { 1u8 } else { 0u8 }, k) == (b && k == 0),
{
}

impl<S: BitRange<u8>> Bit for S {
    fn bit(&self, bit: usize) -> (r: bool) {
        let field: u8 = self.bit_range(bit, bit);
        proof {
            assert(field.has_bit(0) == self.bits()[bit as int]);
            assert forall|k: int| 1 <= k < 8 implies !field.has_bit(k) by {
                assert(field.has_bit(k) == field_bit(self.bits(), Self::msb0(), false, bit as int, bit as int, k));
            }
            assert(!field.has_bit(1) && !field.has_bit(2) && !field.has_bit(3) && !field.has_bit(4));
            assert(!field.has_bit(5) && !field.has_bit(6) && !field.has_bit(7));
            lemma_flag_of_byte(field);
        }
        field != 0
    }
}

impl<S: BitRangeMut<u8>> BitMut for S {
    fn set_bit(&mut self, bit: usize, value: bool) {
        let field: u8 = if value {
            1
        } else {
            0
        };
        proof {
            lemma_byte_of_flag(value, 0);
        }
        self.set_bit_range(bit, bit, field);
        assert(final(self).bits() =~= old(self).bits().update(bit as int, value));
    }
}

} // verus!
