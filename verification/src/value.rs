//! Integer values as bit patterns.
//!
//! A field that is read from or written to a backing storage is an integer of one of the ten
//! fixed-width types. Every contract in this crate speaks of such a value through its bits:
//! `v.has_bit(k)` is bit `k` of the infinite two's-complement pattern of `v`, so an unsigned value
//! has only zeros above its width and a signed value repeats its sign bit. Bit `k` is the
//! binary digit of weight `2^k` of the number `v.as_int()` (`lemma_bit_is_digit`).
//!
//! Two values of one type with the same bits are the same value (`lemma_same_bits`). This is
//! how a contract that speaks of bits yields a number: a result whose bits are those of a
//! constant is that constant.
use crate::digits::digit;
use vstd::arithmetic::power2::pow2;
use vstd::prelude::*;

verus! {

/// Bit `k` of a 128-bit pattern; `false` outside `0..128`.
pub open spec fn raw_bit(raw: u128, k: int) -> bool {
    0 <= k < 128 && (raw >> (k as u32)) & 1 == 1
}

/// A fixed-width integer that can be the value of a field.
pub trait BitValue: Copy + Sized {
    /// Number of bits of the type.
    spec fn width() -> nat;

    /// Whether the type is signed.
    spec fn signed() -> bool;

    /// Bit `k` of the value, counted from the least significant one.
    spec fn has_bit(self, k: int) -> bool;

    /// The value as a number.
    spec fn as_int(self) -> int;

    /// The value lies in the range of its type.
    proof fn lemma_range(self)
        ensures
            Self::signed() ==> -pow2((Self::width() - 1) as nat) <= self.as_int() < pow2(
                (Self::width() - 1) as nat,
            ),
            !Self::signed() ==> 0 <= self.as_int() < pow2(Self::width()),
    ;

    /// Bit `k` of the value is the binary digit of weight `2^k` of the number.
    proof fn lemma_bit_is_digit(self, k: int)
        requires
            0 <= k,
        ensures
            self.has_bit(k) == digit(self.as_int(), k as nat),
    ;

    /// The width is one of the machine widths up to 128.
    proof fn lemma_width()
        ensures
            8 <= Self::width() <= 128,
    ;

    /// No bit below zero is set; above the width a value continues with zeros if it is
    /// unsigned and with its sign bit if it is signed.
    proof fn lemma_outer_bits(self, k: int)
        ensures
            k < 0 ==> !self.has_bit(k),
            k >= Self::width() ==> self.has_bit(k) == (Self::signed() && self.has_bit(Self::width() - 1)),
    ;

    /// Two values with the same bits below the width are the same value.
    proof fn lemma_same_bits(self, other: Self)
        requires
            forall|k: int| 0 <= k < Self::width() ==> self.has_bit(k) == other.has_bit(k),
        ensures
            self == other,
    ;

    /// The width of the type, in bits.
    fn bit_len() -> (n: usize)
        ensures
            n == Self::width(),
    ;

    /// The value with no bit set.
    fn zero() -> (r: Self)
        ensures
            forall|k: int| !r.has_bit(k),
    ;

    /// The least significant bit.
    fn low_bit(self) -> (r: bool)
        ensures
            r == self.has_bit(0),
    ;

    /// Shifts the value up by one place and puts `b` in the freed lowest place.
    fn push_bit(self, b: bool) -> (r: Self)
        ensures
            r.has_bit(0) == b,
            forall|k: int| 1 <= k < Self::width() ==> r.has_bit(k) == self.has_bit(k - 1),
    ;

    /// Shifts the value down by one place, dropping the lowest bit.
    fn drop_bit(self) -> (r: Self)
        ensures
            forall|k: int| 0 <= k ==> r.has_bit(k) == self.has_bit(k + 1),
    ;

    /// Keeps the lowest `n` bits and fills the places above them: with zeros for an unsigned
    /// type, with bit `n - 1` for a signed one.
    fn extend(self, n: usize) -> (r: Self)
        requires
            1 <= n <= Self::width(),
        ensures
            forall|k: int|
                0 <= k < Self::width() ==> r.has_bit(k) == (if k < n {
                    self.has_bit(k)
                } else {
                    Self::signed() && self.has_bit(n - 1)
                }),
    ;

    /// The value whose bits are the lowest bits of `raw`.
    fn from_raw(raw: u128) -> (r: Self)
        ensures
            forall|k: int| 0 <= k < Self::width() ==> r.has_bit(k) == raw_bit(raw, k),
    ;

    /// The lowest 128 bits of the value's pattern.
    fn to_raw(self) -> (raw: u128)
        ensures
            forall|k: int| 0 <= k < 128 ==> raw_bit(raw, k) == self.has_bit(k),
    ;
}

} // verus!
