//! The bit-string model of a backing storage and of the fields in it.
//!
//! A storage is seen as a sequence of bits, indexed by bit position. A field occupies the
//! positions `lsb..=msb`. How the bits of the field's value are laid out over those positions
//! depends on the numbering of the storage: where position 0 is the least significant bit
//! (LSB0), the bit at `lsb` is the lowest bit of the value; where position 0 is the most
//! significant bit (MSB0), the bit at `msb` is.
use crate::digits::{lemma_digit_above, lemma_digit_above_negative, lemma_digit_of_remainder};
use crate::value::BitValue;
use vstd::arithmetic::power2::pow2;
use vstd::prelude::*;

verus! {

/// The storage position that holds bit `k` of the value of the field `lsb..=msb`.
pub open spec fn field_index(msb0: bool, msb: int, lsb: int, k: int) -> int {
    if msb0 {
        msb - k
    } else {
        lsb + k
    }
}

/// The bit of the field's value that the storage position `i` holds.
pub open spec fn value_index(msb0: bool, msb: int, lsb: int, i: int) -> int {
    if msb0 {
        msb - i
    } else {
        i - lsb
    }
}

/// Bit `k` of the field `lsb..=msb` of `bits`, read into a type of the given signedness:
/// below the field's width the stored bit, above it zero or, for a signed type, the field's
/// highest bit.
pub open spec fn field_bit(bits: Seq<bool>, msb0: bool, signed: bool, msb: int, lsb: int, k: int) -> bool {
    if k <= msb - lsb {
        bits[field_index(msb0, msb, lsb, k)]
    } else {
        signed && bits[field_index(msb0, msb, lsb, msb - lsb)]
    }
}

/// Whether `r` is the value of the field `lsb..=msb` of `bits`.
pub open spec fn is_field_value<T: BitValue>(bits: Seq<bool>, msb0: bool, msb: int, lsb: int, r: T) -> bool {
    forall|k: int|
        0 <= k < T::width() ==> #[trigger] r.has_bit(k) == field_bit(bits, msb0, T::signed(), msb, lsb, k)
}

/// The bit string `bits` after `v` has been written to the field `lsb..=msb`: each position
/// of the field holds its bit of `v`, every other position is as before.
pub open spec fn with_field<T: BitValue>(bits: Seq<bool>, msb0: bool, msb: int, lsb: int, v: T) -> Seq<bool> {
    Seq::new(
        bits.len(),
        |i: int|
            if lsb <= i <= msb {
                v.has_bit(value_index(msb0, msb, lsb, i))
            } else {
                bits[i]
            },
    )
}

/// Whether `v` can be stored in `n` bits without loss: an unsigned value if it lies below
/// `2^n`, a signed value if it lies from `-2^(n-1)` up to `2^(n-1)`.
pub open spec fn fits_in<T: BitValue>(v: T, n: int) -> bool {
    if T::signed() {
        -pow2((n - 1) as nat) <= v.as_int() < pow2((n - 1) as nat)
    } else {
        v.as_int() < pow2(n as nat)
    }
}

/// A value that fits in `n` bits continues above bit `n - 1` with zeros if it is unsigned and
/// with copies of bit `n - 1` if it is signed.
pub proof fn lemma_bits_of_fitting<T: BitValue>(v: T, n: int, k: int)
    requires
        1 <= n <= k,
        fits_in(v, n),
    ensures
        v.has_bit(k) == (T::signed() && v.has_bit(n - 1)),
{
    v.lemma_range();
    v.lemma_bit_is_digit(k);
    v.lemma_bit_is_digit(n - 1);
    let a = v.as_int();
    if !T::signed() {
        lemma_digit_above(a, n as nat, k as nat);
    } else if a < 0 {
        lemma_digit_above_negative(a, (n - 1) as nat, k as nat);
        lemma_digit_above_negative(a, (n - 1) as nat, (n - 1) as nat);
    } else {
        lemma_digit_above(a, (n - 1) as nat, k as nat);
        lemma_digit_above(a, (n - 1) as nat, (n - 1) as nat);
    }
}

/// Reading a field gives back what was last written to it, provided the written value fits
/// in the width of the field.
pub proof fn lemma_read_after_write<T: BitValue>(bits: Seq<bool>, msb0: bool, msb: int, lsb: int, v: T, r: T)
    requires
        0 <= lsb <= msb < bits.len(),
        msb - lsb < T::width(),
        fits_in(v, msb - lsb + 1),
        is_field_value(with_field(bits, msb0, msb, lsb, v), msb0, msb, lsb, r),
    ensures
        r == v,
{
    let written = with_field(bits, msb0, msb, lsb, v);
    assert forall|k: int| 0 <= k < T::width() implies r.has_bit(k) == v.has_bit(k) by {
        assert(r.has_bit(k) == field_bit(written, msb0, T::signed(), msb, lsb, k));
        if k > msb - lsb {
            lemma_bits_of_fitting(v, msb - lsb + 1, k);
        }
    }
    r.lemma_same_bits(v);
}

/// Writing a field changes no position outside `lsb..=msb`, and not the length of the storage.
pub proof fn lemma_write_keeps_outside<T: BitValue>(bits: Seq<bool>, msb0: bool, msb: int, lsb: int, v: T, i: int)
    requires
        0 <= i < bits.len(),
        !(lsb <= i <= msb),
    ensures
        with_field(bits, msb0, msb, lsb, v).len() == bits.len(),
        with_field(bits, msb0, msb, lsb, v)[i] == bits[i],
{
}

/// Writing a field stores bit `k` of the value at the position of bit `k` of the field.
pub proof fn lemma_write_stores_value<T: BitValue>(bits: Seq<bool>, msb0: bool, msb: int, lsb: int, v: T, k: int)
    requires
        0 <= lsb <= msb < bits.len(),
        0 <= k <= msb - lsb,
    ensures
        with_field(bits, msb0, msb, lsb, v)[field_index(msb0, msb, lsb, k)] == v.has_bit(k),
{
}

/// Only the lowest bits of a written value count: two values that agree on the bits below the
/// width of the field leave the same storage. In particular a value with bits set above the
/// width of the field is stored as if those bits had been cleared first.
pub proof fn lemma_write_truncates<T: BitValue>(bits: Seq<bool>, msb0: bool, msb: int, lsb: int, v: T, w: T)
    requires
        0 <= lsb <= msb,
        forall|k: int| 0 <= k <= msb - lsb ==> v.has_bit(k) == w.has_bit(k),
    ensures
        with_field(bits, msb0, msb, lsb, v) == with_field(bits, msb0, msb, lsb, w),
{
    assert(with_field(bits, msb0, msb, lsb, v) =~= with_field(bits, msb0, msb, lsb, w));
}

/// Only the written number modulo `2^width` counts, where `width` is the width of the field:
/// two values that are equal modulo `2^width` leave the same storage.
pub proof fn lemma_write_modulo<T: BitValue>(bits: Seq<bool>, msb0: bool, msb: int, lsb: int, v: T, w: T)
    requires
        0 <= lsb <= msb,
        v.as_int() % (pow2((msb - lsb + 1) as nat) as int) == w.as_int() % (pow2((msb - lsb + 1) as nat) as int),
    ensures
        with_field(bits, msb0, msb, lsb, v) == with_field(bits, msb0, msb, lsb, w),
{
    let width = (msb - lsb + 1) as nat;
    assert forall|k: int| 0 <= k <= msb - lsb implies v.has_bit(k) == w.has_bit(k) by {
        v.lemma_bit_is_digit(k);
        w.lemma_bit_is_digit(k);
        lemma_digit_of_remainder(v.as_int(), width, k as nat);
        lemma_digit_of_remainder(w.as_int(), width, k as nat);
    }
    lemma_write_truncates(bits, msb0, msb, lsb, v, w);
}

} // verus!
