//! Unsigned integers as backing storage.
//!
//! Position `k` of an integer is its bit `k`, counted from the least significant bit. A field
//! of an integer is therefore a number in its own right: the field `lsb..=msb` of `s` is
//! `(s / 2^lsb) mod 2^width`, where `width` is the width of the field.
use crate::digits::{
    digit, lemma_digit_above, lemma_digit_above_negative, lemma_digit_of_quotient, lemma_digit_of_remainder,
    lemma_digit_of_sum, lemma_digits_determine, lemma_pow2_ordered, lemma_signed_digits_determine,
    lemma_small_without_digits,
};
use crate::model::{field_bit, is_field_value, with_field};
use crate::range::{BitRange, BitRangeMut, BitView};
use crate::value::{raw_bit, BitValue};
use crate::word::Word;
use vstd::arithmetic::div_mod::{
    lemma_div_pos_is_pos, lemma_fundamental_div_mod, lemma_fundamental_div_mod_converse, lemma_mod_bound,
};
use vstd::arithmetic::power2::{lemma_pow2_adds, lemma_pow2_pos, lemma_pow2_unfold, pow2};
use vstd::prelude::*;

verus! {

/// The field `lsb..=msb` of the number `s`.
pub open spec fn field_number(s: int, msb: int, lsb: int) -> int {
    (s / (pow2(lsb as nat) as int)) % (pow2((msb - lsb + 1) as nat) as int)
}

/// The number of `width` bits `f`, read as a signed number: itself below `2^(width-1)`, and
/// `f - 2^width` from there on.
pub open spec fn as_signed(f: int, width: int) -> int {
    if f < pow2((width - 1) as nat) {
        f
    } else {
        f - pow2(width as nat)
    }
}

/// The number `s` after the lowest bits of `v` have taken the place of its field
/// `lsb..=msb`.
pub open spec fn number_with_field(s: int, msb: int, lsb: int, v: int) -> int {
    s - field_number(s, msb, lsb) * pow2(lsb as nat) + (v % (pow2((msb - lsb + 1) as nat) as int)) * pow2(
        lsb as nat,
    )
}

impl<S: Word> BitView for S {
    open spec fn bits(&self) -> Seq<bool> {
        Seq::new(S::width(), |k: int| self.has_bit(k))
    }

    open spec fn msb0() -> bool {
        false
    }
}

impl<S: Word, T: BitValue> BitRange<T> for S {
    fn bit_range(&self, msb: usize, lsb: usize) -> (r: T)
        ensures
            T::as_int(r) == (if T::signed() {
                as_signed(field_number(self.as_int(), msb as int, lsb as int), msb - lsb + 1)
            } else {
                field_number(self.as_int(), msb as int, lsb as int)
            }),
    {
        proof {
            S::lemma_width();
        }
        let raw: S = self.extract(msb, lsb);
        let wide: u128 = raw.to_raw();
        let narrowed: T = T::from_raw(wide);
        let r: T = narrowed.extend(msb - lsb + 1);
        proof {
            assert forall|k: int| 0 <= k < T::width() implies #[trigger] r.has_bit(k) == field_bit(
                self.bits(),
                false,
                T::signed(),
                msb as int,
                lsb as int,
                k,
            ) by {
                let j = if k <= msb - lsb { k } else { msb - lsb };
                assert(narrowed.has_bit(j) == raw_bit(wide, j));
                assert(raw.has_bit(j) == self.has_bit(lsb + j));
            }
            if T::signed() {
                lemma_signed_value_of_field(*self, msb as int, lsb as int, r);
            } else {
                lemma_value_of_field(*self, msb as int, lsb as int, r);
            }
        }
        r
    }
}

impl<S: Word, T: BitValue> BitRangeMut<T> for S {
    fn set_bit_range(&mut self, msb: usize, lsb: usize, value: T)
        ensures
            S::as_int(*final(self)) == number_with_field(
                S::as_int(*old(self)),
                msb as int,
                lsb as int,
                T::as_int(value),
            ),
    {
        let wide: u128 = value.to_raw();
        let v: S = S::from_raw(wide);
        let r: S = self.replace(msb, lsb, v);
        proof {
            S::lemma_width();
            assert forall|i: int| 0 <= i < S::width() implies r.has_bit(i) == (if lsb <= i <= msb {
                value.has_bit(i - lsb)
            } else {
                self.has_bit(i)
            }) by {
                if lsb <= i <= msb {
                    assert(v.has_bit(i - lsb) == raw_bit(wide, i - lsb));
                }
            }
            assert(r.bits() =~= with_field(self.bits(), false, msb as int, lsb as int, value));
            lemma_value_after_write(*self, r, msb as int, lsb as int, value);
        }
        *self = r;
    }
}

/// The digits of the field `lsb..=msb` of a word are its bits at the positions of the field.
pub proof fn lemma_digit_of_field<S: Word>(s: S, msb: int, lsb: int, k: nat)
    requires
        0 <= lsb <= msb < S::width(),
        k <= msb - lsb,
    ensures
        0 <= field_number(s.as_int(), msb, lsb) < pow2((msb - lsb + 1) as nat),
        digit(field_number(s.as_int(), msb, lsb), k) == s.has_bit(lsb + k),
{
    S::lemma_unsigned();
    let width = (msb - lsb + 1) as nat;
    let moved = s.as_int() / (pow2(lsb as nat) as int);
    s.lemma_range();
    lemma_pow2_pos(width);
    lemma_pow2_pos(lsb as nat);
    lemma_mod_bound(moved, pow2(width) as int);
    s.lemma_bit_is_digit(lsb + k);
    lemma_digit_of_quotient(s.as_int(), lsb as nat, k);
    lemma_digit_of_remainder(moved, width, k);
}

/// The field `lsb..=msb` of a word, read into an unsigned type, is the number
/// `(s / 2^lsb) mod 2^width`, where `width` is the width of the field.
pub proof fn lemma_value_of_field<S: Word, T: BitValue>(s: S, msb: int, lsb: int, r: T)
    requires
        !T::signed(),
        0 <= lsb <= msb < S::width(),
        msb - lsb < T::width(),
        is_field_value(s.bits(), false, msb, lsb, r),
    ensures
        r.as_int() == field_number(s.as_int(), msb, lsb),
{
    let bits = s.bits();
    let width = (msb - lsb + 1) as nat;
    let a = r.as_int();
    let b = field_number(s.as_int(), msb, lsb);
    r.lemma_range();
    lemma_digit_of_field(s, msb, lsb, 0);
    assert forall|k: nat| width <= k < T::width() implies !digit(a, k) by {
        r.lemma_bit_is_digit(k as int);
        assert(r.has_bit(k as int) == field_bit(bits, false, false, msb, lsb, k as int));
    }
    lemma_small_without_digits(a, width, T::width());
    assert forall|k: nat| k < width implies digit(a, k) == digit(b, k) by {
        r.lemma_bit_is_digit(k as int);
        assert(r.has_bit(k as int) == field_bit(bits, false, false, msb, lsb, k as int));
        assert(bits[lsb + k] == s.has_bit(lsb + k));
        lemma_digit_of_field(s, msb, lsb, k);
    }
    lemma_digits_determine(a, b, width);
}

/// The field `lsb..=msb` of a word, read into a signed type, is the number
/// `(s / 2^lsb) mod 2^width` read as a signed number of `width` bits.
pub proof fn lemma_signed_value_of_field<S: Word, T: BitValue>(s: S, msb: int, lsb: int, r: T)
    requires
        T::signed(),
        0 <= lsb <= msb < S::width(),
        msb - lsb < T::width(),
        is_field_value(s.bits(), false, msb, lsb, r),
    ensures
        r.as_int() == as_signed(field_number(s.as_int(), msb, lsb), msb - lsb + 1),
{
    let bits = s.bits();
    let width = (msb - lsb + 1) as nat;
    let top = (width - 1) as nat;
    let a = r.as_int();
    let f = field_number(s.as_int(), msb, lsb);
    let c = as_signed(f, width as int);
    r.lemma_range();
    lemma_digit_of_field(s, msb, lsb, top);
    lemma_pow2_unfold(width);
    lemma_pow2_pos(top);
    lemma_pow2_ordered(top, (T::width() - 1) as nat);
    let wraps: int = if f < pow2(top) { 0 } else { -1 };
    assert(c == f + wraps * pow2(width)) by (nonlinear_arith)
        requires
            wraps == 0 || wraps == -1,
            c == (if wraps == 0 { f } else { f - pow2(width) }),
    ;
    assert forall|k: nat| k < T::width() implies digit(a, k) == digit(c, k) by {
        r.lemma_bit_is_digit(k as int);
        assert(r.has_bit(k as int) == field_bit(bits, false, true, msb, lsb, k as int));
        let low = if k < width { k } else { top };
        assert(bits[lsb + low] == s.has_bit(lsb + low));
        lemma_digit_of_field(s, msb, lsb, low);
        lemma_digit_of_sum(f, wraps, width, low);
        if k >= width {
            if c < 0 {
                lemma_digit_above_negative(c, top, k);
                lemma_digit_above_negative(c, top, top);
            } else {
                lemma_digit_above(c, top, k);
                lemma_digit_above(c, top, top);
            }
        }
    }
    lemma_signed_digits_determine(a, c, T::width());
}

/// Digit `k` of a number after a write to its field `lsb..=msb`: inside the field the digit
/// of the written value, outside it the digit that was there.
proof fn lemma_digit_after_write(s: int, msb: int, lsb: int, v: int, k: nat)
    requires
        0 <= s,
        0 <= lsb <= msb,
    ensures
        0 <= number_with_field(s, msb, lsb, v),
        number_with_field(s, msb, lsb, v) <= s + pow2((msb + 1) as nat),
        digit(number_with_field(s, msb, lsb, v), k) == (if lsb <= k <= msb {
            digit(v, (k - lsb) as nat)
        } else {
            digit(s, k)
        }),
{
    let width = (msb - lsb + 1) as nat;
    let low = pow2(lsb as nat) as int;
    let span = pow2(width) as int;
    let moved = s / low;
    let f = moved % span;
    let g = v % span;
    let above = moved / span;
    let n = number_with_field(s, msb, lsb, v);
    let t = g + above * span;
    lemma_pow2_pos(lsb as nat);
    lemma_pow2_pos(width);
    lemma_pow2_adds(width, lsb as nat);
    lemma_fundamental_div_mod(s, low);
    lemma_fundamental_div_mod(moved, span);
    lemma_mod_bound(s, low);
    lemma_mod_bound(moved, span);
    lemma_mod_bound(v, span);
    assert(0 <= moved) by {
        lemma_div_pos_is_pos(s, low);
    }
    assert(0 <= above) by {
        lemma_div_pos_is_pos(moved, span);
    }
    assert(moved - f == above * span) by (nonlinear_arith)
        requires
            moved == span * above + f,
    ;
    assert(n == s + (g - f) * low) by (nonlinear_arith)
        requires
            n == s - f * low + g * low,
    ;
    assert(n == (s % low) + t * low) by (nonlinear_arith)
        requires
            n == s + (g - f) * low,
            s == low * moved + s % low,
            moved - f == above * span,
            t == g + above * span,
    ;
    assert(0 <= t * low) by (nonlinear_arith)
        requires
            0 <= g,
            0 <= above,
            0 < span,
            0 < low,
            t == g + above * span,
    ;
    assert(n <= s + span * low) by (nonlinear_arith)
        requires
            n == s + (g - f) * low,
            g < span,
            0 <= f,
            0 < low,
    ;
    if k < lsb {
        lemma_digit_of_sum(s, g - f, lsb as nat, k);
    } else {
        let j = (k - lsb) as nat;
        lemma_fundamental_div_mod_converse(n, low, t, s % low);
        lemma_digit_of_quotient(n, lsb as nat, j);
        if j < width {
            lemma_digit_of_sum(g, above, width, j);
            lemma_digit_of_remainder(v, width, j);
        } else {
            let i = (j - width) as nat;
            assert(0 <= t) by (nonlinear_arith)
                requires
                    0 <= g,
                    0 <= above,
                    0 < span,
                    t == g + above * span,
            ;
            lemma_fundamental_div_mod_converse(t, span, above, g);
            lemma_digit_of_quotient(t, width, i);
            lemma_digit_of_quotient(moved, width, i);
            lemma_digit_of_quotient(s, lsb as nat, j);
        }
    }
}

/// A word after a write to its field `lsb..=msb` is the number that it was, with the field
/// taken out and the lowest bits of the written value put in its place.
pub proof fn lemma_value_after_write<S: Word, T: BitValue>(before: S, after: S, msb: int, lsb: int, v: T)
    requires
        0 <= lsb <= msb < S::width(),
        after.bits() == with_field(before.bits(), false, msb, lsb, v),
    ensures
        after.as_int() == number_with_field(before.as_int(), msb, lsb, v.as_int()),
{
    S::lemma_unsigned();
    let whole = S::width();
    let s = before.as_int();
    let n = number_with_field(s, msb, lsb, v.as_int());
    before.lemma_range();
    after.lemma_range();
    lemma_digit_after_write(s, msb, lsb, v.as_int(), whole);
    lemma_pow2_ordered((msb + 1) as nat, whole);
    lemma_pow2_unfold(whole + 1);
    before.lemma_bit_is_digit(whole as int);
    before.lemma_outer_bits(whole as int);
    assert forall|k: nat| whole <= k < whole + 1 implies !digit(n, k) by {
        assert(k == whole);
    }
    lemma_small_without_digits(n, whole, whole + 1);
    assert forall|k: nat| k < whole implies digit(after.as_int(), k) == digit(n, k) by {
        after.lemma_bit_is_digit(k as int);
        before.lemma_bit_is_digit(k as int);
        assert(after.bits()[k as int] == after.has_bit(k as int));
        assert(before.bits()[k as int] == before.has_bit(k as int));
        lemma_digit_after_write(s, msb, lsb, v.as_int(), k);
        if lsb <= k <= msb {
            v.lemma_bit_is_digit(k - lsb);
        }
    }
    lemma_digits_determine(after.as_int(), n, whole);
}

} // verus!
