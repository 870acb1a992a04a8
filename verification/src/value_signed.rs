//! `BitValue` for the signed integer types.
use crate::digits::{digit, lemma_digit_above, lemma_digit_above_negative, lemma_digit_of_sum};
use crate::value::{raw_bit, BitValue};
use vstd::arithmetic::power2::{lemma2_to64, lemma2_to64_rest, lemma_pow2_adds, pow2};
use vstd::prelude::*;

verus! {

/// Bit `k` of an `i8`, for `k` below 8.
pub open spec fn at_i8(x: i8, k: u32) -> bool {
    (x >> k) & 1 == 1
}

/// The bits of the results of the operations on an `i8`.
proof fn lemma_i8_ops(x: i8, raw: u128, b: bool, s: u32, k: u32)
    by (bit_vector)
    requires
        k < 8,
    ensures
        !at_i8(0, k),
        at_i8(if b { (x << 1u32) | 1 } else { x << 1u32 }, k) == (if k == 0 { b } else { at_i8(x, (k - 1) as u32) }),
        at_i8(x >> 1u32, k) == (if k < 7 { at_i8(x, (k + 1) as u32) } else { at_i8(x, 7) }),
        s < 8 ==> at_i8((x << s) >> s, k) == (if k < 8 - s { at_i8(x, k) } else { at_i8(x, (7 - s) as u32) }),
        at_i8(raw as i8, k) == ((raw >> k) & 1 == 1),
        (x & 1 != 0) == at_i8(x, 0),
        (x & 1 == 1) == (x % 2 == 1),
{
}

/// The bits of an `i8` taken as a 128-bit pattern.
proof fn lemma_i8_widen(x: i8, k: u32)
    by (bit_vector)
    requires
        k < 128,
    ensures
        (((x as u128) >> k) & 1 == 1) == (if k < 8 { at_i8(x, k) } else { at_i8(x, 7) }),
        k < 8 ==> at_i8(x, k) == (((x as u8) >> k) & 1 == 1),
        (x as u8) == (if x < 0 { x + 0xff + 1 } else { x as int }),
{
}

/// Two values that agree above bit `n` and at bit `n` agree from bit `n` upwards.
proof fn lemma_i8_step(a: i8, b: i8, n: u32)
    by (bit_vector)
    requires
        n < 8,
        at_i8(a, n) == at_i8(b, n),
        n < 7 ==> (a >> ((n + 1) as u32)) == (b >> ((n + 1) as u32)),
    ensures
        (a >> n) == (b >> n),
        n == 0 ==> a == b,
{
}

/// Two values that agree at every bit agree from bit `n` upwards, for every `n`.
proof fn lemma_i8_equal_from(a: i8, b: i8, n: u32)
    requires
        n < 8,
        forall|k: u32| k < 8 ==> at_i8(a, k) == at_i8(b, k),
    ensures
        (a >> n) == (b >> n),
        n == 0 ==> a == b,
    decreases 8 - n,
{
    if n < 7 {
        lemma_i8_equal_from(a, b, (n + 1) as u32);
    }
    lemma_i8_step(a, b, n);
}

/// The powers of two that bound an `i8`.
proof fn lemma_i8_top()
    ensures
        pow2(8) == 0xff + 1,
        pow2(7) == 0x80,
{
    lemma2_to64();
    lemma2_to64_rest();
}

impl BitValue for i8 {
    open spec fn width() -> nat {
        8
    }

    open spec fn signed() -> bool {
        true
    }

    open spec fn as_int(self) -> int {
        self as int
    }

    open spec fn has_bit(self, k: int) -> bool {
        if 0 <= k < 8 {
            at_i8(self, k as u32)
        } else {
            k >= 8 && at_i8(self, 7)
        }
    }

    proof fn lemma_width() {
    }

    proof fn lemma_outer_bits(self, k: int) {
    }

    proof fn lemma_range(self) {
        lemma_i8_top();
    }

    proof fn lemma_bit_is_digit(self, k: int) {
        lemma_i8_top();
        let low = if k < 8 { k } else { 7 };
        let unsigned: u8 = #[verifier::truncate] (self as u8);
        lemma_i8_widen(self, low as u32);
        unsigned.lemma_bit_is_digit(low);
        assert(self.has_bit(low) == digit(unsigned as int, low as nat));
        if self < 0 {
            assert(unsigned as int == self as int + 1 * pow2(8));
            lemma_digit_of_sum(self as int, 1, 8, low as nat);
        }
        if k >= 8 {
            if self < 0 {
                lemma_digit_above_negative(self as int, 7, k as nat);
                lemma_digit_above_negative(self as int, 7, 7);
            } else {
                lemma_digit_above(self as int, 7, k as nat);
                lemma_digit_above(self as int, 7, 7);
            }
        }
    }

    proof fn lemma_same_bits(self, other: Self) {
        assert forall|k: u32| k < 8 implies at_i8(self, k) == at_i8(other, k) by {
            assert(self.has_bit(k as int) == other.has_bit(k as int));
        }
        lemma_i8_equal_from(self, other, 0);
    }

    fn bit_len() -> (n: usize) {
        8
    }

    fn zero() -> (r: Self) {
        assert forall|k: int| !(0i8).has_bit(k) by {
            lemma_i8_ops(0, 0, false, 0, if 0 <= k < 8 { k as u32 } else { 7u32 });
        }
        0
    }

    fn low_bit(self) -> (r: bool) {
        proof {
            lemma_i8_ops(self, 0, false, 0, 0);
        }
        self & 1 != 0
    }

    fn push_bit(self, b: bool) -> (r: Self) {
        let r: i8 = if b {
            (self << 1u32) | 1
        } else {
            self << 1u32
        };
        assert forall|k: int| 0 <= k < 8 implies r.has_bit(k) == (if k == 0 {
            b
        } else {
            self.has_bit(k - 1)
        }) by {
            lemma_i8_ops(self, 0, b, 0, k as u32);
        }
        assert(r.has_bit(0) == b);
        r
    }

    fn drop_bit(self) -> (r: Self) {
        let r: i8 = self >> 1u32;
        assert forall|k: int| 0 <= k implies r.has_bit(k) == self.has_bit(k + 1) by {
            lemma_i8_ops(self, 0, false, 0, if k < 8 { k as u32 } else { 7u32 });
        }
        r
    }

    fn extend(self, n: usize) -> (r: Self) {
        let s: usize = 8 - n;
        let r: i8 = (self << s) >> s;
        assert forall|k: int| 0 <= k < 8 implies r.has_bit(k) == (if k < n {
            self.has_bit(k)
        } else {
            Self::signed() && self.has_bit(n - 1)
        }) by {
            lemma_i8_ops(self, 0, false, s as u32, k as u32);
        }
        r
    }

    fn from_raw(raw: u128) -> (r: Self) {
        let r: i8 = raw as i8;
        assert forall|k: int| 0 <= k < 8 implies r.has_bit(k) == raw_bit(raw, k) by {
            lemma_i8_ops(0, raw, false, 0, k as u32);
        }
        r
    }

    fn to_raw(self) -> (raw: u128) {
        let raw: u128 = self as u128;
        assert forall|k: int| 0 <= k < 128 implies raw_bit(raw, k) == self.has_bit(k) by {
            lemma_i8_widen(self, k as u32);
        }
        raw
    }
}

/// Bit `k` of an `i16`, for `k` below 16.
pub open spec fn at_i16(x: i16, k: u32) -> bool {
    (x >> k) & 1 == 1
}

/// The bits of the results of the operations on an `i16`.
proof fn lemma_i16_ops(x: i16, raw: u128, b: bool, s: u32, k: u32)
    by (bit_vector)
    requires
        k < 16,
    ensures
        !at_i16(0, k),
        at_i16(if b { (x << 1u32) | 1 } else { x << 1u32 }, k) == (if k == 0 { b } else { at_i16(x, (k - 1) as u32) }),
        at_i16(x >> 1u32, k) == (if k < 15 { at_i16(x, (k + 1) as u32) } else { at_i16(x, 15) }),
        s < 16 ==> at_i16((x << s) >> s, k) == (if k < 16 - s { at_i16(x, k) } else { at_i16(x, (15 - s) as u32) }),
        at_i16(raw as i16, k) == ((raw >> k) & 1 == 1),
        (x & 1 != 0) == at_i16(x, 0),
        (x & 1 == 1) == (x % 2 == 1),
{
}

/// The bits of an `i16` taken as a 128-bit pattern.
proof fn lemma_i16_widen(x: i16, k: u32)
    by (bit_vector)
    requires
        k < 128,
    ensures
        (((x as u128) >> k) & 1 == 1) == (if k < 16 { at_i16(x, k) } else { at_i16(x, 15) }),
        k < 16 ==> at_i16(x, k) == (((x as u16) >> k) & 1 == 1),
        (x as u16) == (if x < 0 { x + 0xffff + 1 } else { x as int }),
{
}

/// Two values that agree above bit `n` and at bit `n` agree from bit `n` upwards.
proof fn lemma_i16_step(a: i16, b: i16, n: u32)
    by (bit_vector)
    requires
        n < 16,
        at_i16(a, n) == at_i16(b, n),
        n < 15 ==> (a >> ((n + 1) as u32)) == (b >> ((n + 1) as u32)),
    ensures
        (a >> n) == (b >> n),
        n == 0 ==> a == b,
{
}

/// Two values that agree at every bit agree from bit `n` upwards, for every `n`.
proof fn lemma_i16_equal_from(a: i16, b: i16, n: u32)
    requires
        n < 16,
        forall|k: u32| k < 16 ==> at_i16(a, k) == at_i16(b, k),
    ensures
        (a >> n) == (b >> n),
        n == 0 ==> a == b,
    decreases 16 - n,
{
    if n < 15 {
        lemma_i16_equal_from(a, b, (n + 1) as u32);
    }
    lemma_i16_step(a, b, n);
}

/// The powers of two that bound an `i16`.
proof fn lemma_i16_top()
    ensures
        pow2(16) == 0xffff + 1,
        pow2(15) == 0x8000,
{
    lemma2_to64();
    lemma2_to64_rest();
}

impl BitValue for i16 {
    open spec fn width() -> nat {
        16
    }

    open spec fn signed() -> bool {
        true
    }

    open spec fn as_int(self) -> int {
        self as int
    }

    open spec fn has_bit(self, k: int) -> bool {
        if 0 <= k < 16 {
            at_i16(self, k as u32)
        } else {
            k >= 16 && at_i16(self, 15)
        }
    }

    proof fn lemma_width() {
    }

    proof fn lemma_outer_bits(self, k: int) {
    }

    proof fn lemma_range(self) {
        lemma_i16_top();
    }

    proof fn lemma_bit_is_digit(self, k: int) {
        lemma_i16_top();
        let low = if k < 16 { k } else { 15 };
        let unsigned: u16 = #[verifier::truncate] (self as u16);
        lemma_i16_widen(self, low as u32);
        unsigned.lemma_bit_is_digit(low);
        assert(self.has_bit(low) == digit(unsigned as int, low as nat));
        if self < 0 {
            assert(unsigned as int == self as int + 1 * pow2(16));
            lemma_digit_of_sum(self as int, 1, 16, low as nat);
        }
        if k >= 16 {
            if self < 0 {
                lemma_digit_above_negative(self as int, 15, k as nat);
                lemma_digit_above_negative(self as int, 15, 15);
            } else {
                lemma_digit_above(self as int, 15, k as nat);
                lemma_digit_above(self as int, 15, 15);
            }
        }
    }

    proof fn lemma_same_bits(self, other: Self) {
        assert forall|k: u32| k < 16 implies at_i16(self, k) == at_i16(other, k) by {
            assert(self.has_bit(k as int) == other.has_bit(k as int));
        }
        lemma_i16_equal_from(self, other, 0);
    }

    fn bit_len() -> (n: usize) {
        16
    }

    fn zero() -> (r: Self) {
        assert forall|k: int| !(0i16).has_bit(k) by {
            lemma_i16_ops(0, 0, false, 0, if 0 <= k < 16 { k as u32 } else { 15u32 });
        }
        0
    }

    fn low_bit(self) -> (r: bool) {
        proof {
            lemma_i16_ops(self, 0, false, 0, 0);
        }
        self & 1 != 0
    }

    fn push_bit(self, b: bool) -> (r: Self) {
        let r: i16 = if b {
            (self << 1u32) | 1
        } else {
            self << 1u32
        };
        assert forall|k: int| 0 <= k < 16 implies r.has_bit(k) == (if k == 0 {
            b
        } else {
            self.has_bit(k - 1)
        }) by {
            lemma_i16_ops(self, 0, b, 0, k as u32);
        }
        assert(r.has_bit(0) == b);
        r
    }

    fn drop_bit(self) -> (r: Self) {
        let r: i16 = self >> 1u32;
        assert forall|k: int| 0 <= k implies r.has_bit(k) == self.has_bit(k + 1) by {
            lemma_i16_ops(self, 0, false, 0, if k < 16 { k as u32 } else { 15u32 });
        }
        r
    }

    fn extend(self, n: usize) -> (r: Self) {
        let s: usize = 16 - n;
        let r: i16 = (self << s) >> s;
        assert forall|k: int| 0 <= k < 16 implies r.has_bit(k) == (if k < n {
            self.has_bit(k)
        } else {
            Self::signed() && self.has_bit(n - 1)
        }) by {
            lemma_i16_ops(self, 0, false, s as u32, k as u32);
        }
        r
    }

    fn from_raw(raw: u128) -> (r: Self) {
        let r: i16 = raw as i16;
        assert forall|k: int| 0 <= k < 16 implies r.has_bit(k) == raw_bit(raw, k) by {
            lemma_i16_ops(0, raw, false, 0, k as u32);
        }
        r
    }

    fn to_raw(self) -> (raw: u128) {
        let raw: u128 = self as u128;
        assert forall|k: int| 0 <= k < 128 implies raw_bit(raw, k) == self.has_bit(k) by {
            lemma_i16_widen(self, k as u32);
        }
        raw
    }
}

/// Bit `k` of an `i32`, for `k` below 32.
pub open spec fn at_i32(x: i32, k: u32) -> bool {
    (x >> k) & 1 == 1
}

/// The bits of the results of the operations on an `i32`.
proof fn lemma_i32_ops(x: i32, raw: u128, b: bool, s: u32, k: u32)
    by (bit_vector)
    requires
        k < 32,
    ensures
        !at_i32(0, k),
        at_i32(if b { (x << 1u32) | 1 } else { x << 1u32 }, k) == (if k == 0 { b } else { at_i32(x, (k - 1) as u32) }),
        at_i32(x >> 1u32, k) == (if k < 31 { at_i32(x, (k + 1) as u32) } else { at_i32(x, 31) }),
        s < 32 ==> at_i32((x << s) >> s, k) == (if k < 32 - s { at_i32(x, k) } else { at_i32(x, (31 - s) as u32) }),
        at_i32(raw as i32, k) == ((raw >> k) & 1 == 1),
        (x & 1 != 0) == at_i32(x, 0),
        (x & 1 == 1) == (x % 2 == 1),
{
}

/// The bits of an `i32` taken as a 128-bit pattern.
proof fn lemma_i32_widen(x: i32, k: u32)
    by (bit_vector)
    requires
        k < 128,
    ensures
        (((x as u128) >> k) & 1 == 1) == (if k < 32 { at_i32(x, k) } else { at_i32(x, 31) }),
        k < 32 ==> at_i32(x, k) == (((x as u32) >> k) & 1 == 1),
        (x as u32) == (if x < 0 { x + 0xffff_ffff + 1 } else { x as int }),
{
}

/// Two values that agree above bit `n` and at bit `n` agree from bit `n` upwards.
proof fn lemma_i32_step(a: i32, b: i32, n: u32)
    by (bit_vector)
    requires
        n < 32,
        at_i32(a, n) == at_i32(b, n),
        n < 31 ==> (a >> ((n + 1) as u32)) == (b >> ((n + 1) as u32)),
    ensures
        (a >> n) == (b >> n),
        n == 0 ==> a == b,
{
}

/// Two values that agree at every bit agree from bit `n` upwards, for every `n`.
proof fn lemma_i32_equal_from(a: i32, b: i32, n: u32)
    requires
        n < 32,
        forall|k: u32| k < 32 ==> at_i32(a, k) == at_i32(b, k),
    ensures
        (a >> n) == (b >> n),
        n == 0 ==> a == b,
    decreases 32 - n,
{
    if n < 31 {
        lemma_i32_equal_from(a, b, (n + 1) as u32);
    }
    lemma_i32_step(a, b, n);
}

/// The powers of two that bound an `i32`.
proof fn lemma_i32_top()
    ensures
        pow2(32) == 0xffff_ffff + 1,
        pow2(31) == 0x8000_0000,
{
    lemma2_to64();
    lemma2_to64_rest();
}

impl BitValue for i32 {
    open spec fn width() -> nat {
        32
    }

    open spec fn signed() -> bool {
        true
    }

    open spec fn as_int(self) -> int {
        self as int
    }

    open spec fn has_bit(self, k: int) -> bool {
        if 0 <= k < 32 {
            at_i32(self, k as u32)
        } else {
            k >= 32 && at_i32(self, 31)
        }
    }

    proof fn lemma_width() {
    }

    proof fn lemma_outer_bits(self, k: int) {
    }

    proof fn lemma_range(self) {
        lemma_i32_top();
    }

    proof fn lemma_bit_is_digit(self, k: int) {
        lemma_i32_top();
        let low = if k < 32 { k } else { 31 };
        let unsigned: u32 = #[verifier::truncate] (self as u32);
        lemma_i32_widen(self, low as u32);
        unsigned.lemma_bit_is_digit(low);
        assert(self.has_bit(low) == digit(unsigned as int, low as nat));
        if self < 0 {
            assert(unsigned as int == self as int + 1 * pow2(32));
            lemma_digit_of_sum(self as int, 1, 32, low as nat);
        }
        if k >= 32 {
            if self < 0 {
                lemma_digit_above_negative(self as int, 31, k as nat);
                lemma_digit_above_negative(self as int, 31, 31);
            } else {
                lemma_digit_above(self as int, 31, k as nat);
                lemma_digit_above(self as int, 31, 31);
            }
        }
    }

    proof fn lemma_same_bits(self, other: Self) {
        assert forall|k: u32| k < 32 implies at_i32(self, k) == at_i32(other, k) by {
            assert(self.has_bit(k as int) == other.has_bit(k as int));
        }
        lemma_i32_equal_from(self, other, 0);
    }

    fn bit_len() -> (n: usize) {
        32
    }

    fn zero() -> (r: Self) {
        assert forall|k: int| !(0i32).has_bit(k) by {
            lemma_i32_ops(0, 0, false, 0, if 0 <= k < 32 { k as u32 } else { 31u32 });
        }
        0
    }

    fn low_bit(self) -> (r: bool) {
        proof {
            lemma_i32_ops(self, 0, false, 0, 0);
        }
        self & 1 != 0
    }

    fn push_bit(self, b: bool) -> (r: Self) {
        let r: i32 = if b {
            (self << 1u32) | 1
        } else {
            self << 1u32
        };
        assert forall|k: int| 0 <= k < 32 implies r.has_bit(k) == (if k == 0 {
            b
        } else {
            self.has_bit(k - 1)
        }) by {
            lemma_i32_ops(self, 0, b, 0, k as u32);
        }
        assert(r.has_bit(0) == b);
        r
    }

    fn drop_bit(self) -> (r: Self) {
        let r: i32 = self >> 1u32;
        assert forall|k: int| 0 <= k implies r.has_bit(k) == self.has_bit(k + 1) by {
            lemma_i32_ops(self, 0, false, 0, if k < 32 { k as u32 } else { 31u32 });
        }
        r
    }

    fn extend(self, n: usize) -> (r: Self) {
        let s: usize = 32 - n;
        let r: i32 = (self << s) >> s;
        assert forall|k: int| 0 <= k < 32 implies r.has_bit(k) == (if k < n {
            self.has_bit(k)
        } else {
            Self::signed() && self.has_bit(n - 1)
        }) by {
            lemma_i32_ops(self, 0, false, s as u32, k as u32);
        }
        r
    }

    fn from_raw(raw: u128) -> (r: Self) {
        let r: i32 = raw as i32;
        assert forall|k: int| 0 <= k < 32 implies r.has_bit(k) == raw_bit(raw, k) by {
            lemma_i32_ops(0, raw, false, 0, k as u32);
        }
        r
    }

    fn to_raw(self) -> (raw: u128) {
        let raw: u128 = self as u128;
        assert forall|k: int| 0 <= k < 128 implies raw_bit(raw, k) == self.has_bit(k) by {
            lemma_i32_widen(self, k as u32);
        }
        raw
    }
}

/// Bit `k` of an `i64`, for `k` below 64.
pub open spec fn at_i64(x: i64, k: u32) -> bool {
    (x >> k) & 1 == 1
}

/// The bits of the results of the operations on an `i64`.
proof fn lemma_i64_ops(x: i64, raw: u128, b: bool, s: u32, k: u32)
    by (bit_vector)
    requires
        k < 64,
    ensures
        !at_i64(0, k),
        at_i64(if b { (x << 1u32) | 1 } else { x << 1u32 }, k) == (if k == 0 { b } else { at_i64(x, (k - 1) as u32) }),
        at_i64(x >> 1u32, k) == (if k < 63 { at_i64(x, (k + 1) as u32) } else { at_i64(x, 63) }),
        s < 64 ==> at_i64((x << s) >> s, k) == (if k < 64 - s { at_i64(x, k) } else { at_i64(x, (63 - s) as u32) }),
        at_i64(raw as i64, k) == ((raw >> k) & 1 == 1),
        (x & 1 != 0) == at_i64(x, 0),
        (x & 1 == 1) == (x % 2 == 1),
{
}

/// The bits of an `i64` taken as a 128-bit pattern.
proof fn lemma_i64_widen(x: i64, k: u32)
    by (bit_vector)
    requires
        k < 128,
    ensures
        (((x as u128) >> k) & 1 == 1) == (if k < 64 { at_i64(x, k) } else { at_i64(x, 63) }),
        k < 64 ==> at_i64(x, k) == (((x as u64) >> k) & 1 == 1),
        (x as u64) == (if x < 0 { x + 0xffff_ffff_ffff_ffff + 1 } else { x as int }),
{
}

/// Two values that agree above bit `n` and at bit `n` agree from bit `n` upwards.
proof fn lemma_i64_step(a: i64, b: i64, n: u32)
    by (bit_vector)
    requires
        n < 64,
        at_i64(a, n) == at_i64(b, n),
        n < 63 ==> (a >> ((n + 1) as u32)) == (b >> ((n + 1) as u32)),
    ensures
        (a >> n) == (b >> n),
        n == 0 ==> a == b,
{
}

/// Two values that agree at every bit agree from bit `n` upwards, for every `n`.
proof fn lemma_i64_equal_from(a: i64, b: i64, n: u32)
    requires
        n < 64,
        forall|k: u32| k < 64 ==> at_i64(a, k) == at_i64(b, k),
    ensures
        (a >> n) == (b >> n),
        n == 0 ==> a == b,
    decreases 64 - n,
{
    if n < 63 {
        lemma_i64_equal_from(a, b, (n + 1) as u32);
    }
    lemma_i64_step(a, b, n);
}

/// The powers of two that bound an `i64`.
proof fn lemma_i64_top()
    ensures
        pow2(64) == 0xffff_ffff_ffff_ffff + 1,
        pow2(63) == 0x8000_0000_0000_0000,
{
    lemma2_to64();
    lemma2_to64_rest();
}

impl BitValue for i64 {
    open spec fn width() -> nat {
        64
    }

    open spec fn signed() -> bool {
        true
    }

    open spec fn as_int(self) -> int {
        self as int
    }

    open spec fn has_bit(self, k: int) -> bool {
        if 0 <= k < 64 {
            at_i64(self, k as u32)
        } else {
            k >= 64 && at_i64(self, 63)
        }
    }

    proof fn lemma_width() {
    }

    proof fn lemma_outer_bits(self, k: int) {
    }

    proof fn lemma_range(self) {
        lemma_i64_top();
    }

    proof fn lemma_bit_is_digit(self, k: int) {
        lemma_i64_top();
        let low = if k < 64 { k } else { 63 };
        let unsigned: u64 = #[verifier::truncate] (self as u64);
        lemma_i64_widen(self, low as u32);
        unsigned.lemma_bit_is_digit(low);
        assert(self.has_bit(low) == digit(unsigned as int, low as nat));
        if self < 0 {
            assert(unsigned as int == self as int + 1 * pow2(64));
            lemma_digit_of_sum(self as int, 1, 64, low as nat);
        }
        if k >= 64 {
            if self < 0 {
                lemma_digit_above_negative(self as int, 63, k as nat);
                lemma_digit_above_negative(self as int, 63, 63);
            } else {
                lemma_digit_above(self as int, 63, k as nat);
                lemma_digit_above(self as int, 63, 63);
            }
        }
    }

    proof fn lemma_same_bits(self, other: Self) {
        assert forall|k: u32| k < 64 implies at_i64(self, k) == at_i64(other, k) by {
            assert(self.has_bit(k as int) == other.has_bit(k as int));
        }
        lemma_i64_equal_from(self, other, 0);
    }

    fn bit_len() -> (n: usize) {
        64
    }

    fn zero() -> (r: Self) {
        assert forall|k: int| !(0i64).has_bit(k) by {
            lemma_i64_ops(0, 0, false, 0, if 0 <= k < 64 { k as u32 } else { 63u32 });
        }
        0
    }

    fn low_bit(self) -> (r: bool) {
        proof {
            lemma_i64_ops(self, 0, false, 0, 0);
        }
        self & 1 != 0
    }

    fn push_bit(self, b: bool) -> (r: Self) {
        let r: i64 = if b {
            (self << 1u32) | 1
        } else {
            self << 1u32
        };
        assert forall|k: int| 0 <= k < 64 implies r.has_bit(k) == (if k == 0 {
            b
        } else {
            self.has_bit(k - 1)
        }) by {
            lemma_i64_ops(self, 0, b, 0, k as u32);
        }
        assert(r.has_bit(0) == b);
        r
    }

    fn drop_bit(self) -> (r: Self) {
        let r: i64 = self >> 1u32;
        assert forall|k: int| 0 <= k implies r.has_bit(k) == self.has_bit(k + 1) by {
            lemma_i64_ops(self, 0, false, 0, if k < 64 { k as u32 } else { 63u32 });
        }
        r
    }

    fn extend(self, n: usize) -> (r: Self) {
        let s: usize = 64 - n;
        let r: i64 = (self << s) >> s;
        assert forall|k: int| 0 <= k < 64 implies r.has_bit(k) == (if k < n {
            self.has_bit(k)
        } else {
            Self::signed() && self.has_bit(n - 1)
        }) by {
            lemma_i64_ops(self, 0, false, s as u32, k as u32);
        }
        r
    }

    fn from_raw(raw: u128) -> (r: Self) {
        let r: i64 = raw as i64;
        assert forall|k: int| 0 <= k < 64 implies r.has_bit(k) == raw_bit(raw, k) by {
            lemma_i64_ops(0, raw, false, 0, k as u32);
        }
        r
    }

    fn to_raw(self) -> (raw: u128) {
        let raw: u128 = self as u128;
        assert forall|k: int| 0 <= k < 128 implies raw_bit(raw, k) == self.has_bit(k) by {
            lemma_i64_widen(self, k as u32);
        }
        raw
    }
}

/// Bit `k` of an `i128`, for `k` below 128.
pub open spec fn at_i128(x: i128, k: u32) -> bool {
    (x >> k) & 1 == 1
}

/// The bits of the results of the operations on an `i128`.
proof fn lemma_i128_ops(x: i128, raw: u128, b: bool, s: u32, k: u32)
    by (bit_vector)
    requires
        k < 128,
    ensures
        !at_i128(0, k),
        at_i128(if b { (x << 1u32) | 1 } else { x << 1u32 }, k) == (if k == 0 { b } else { at_i128(x, (k - 1) as u32) }),
        at_i128(x >> 1u32, k) == (if k < 127 { at_i128(x, (k + 1) as u32) } else { at_i128(x, 127) }),
        s < 128 ==> at_i128((x << s) >> s, k) == (if k < 128 - s { at_i128(x, k) } else { at_i128(x, (127 - s) as u32) }),
        at_i128(raw as i128, k) == ((raw >> k) & 1 == 1),
        (x & 1 != 0) == at_i128(x, 0),
        (x & 1 == 1) == (x % 2 == 1),
{
}

/// The bits of an `i128` taken as a 128-bit pattern.
proof fn lemma_i128_widen(x: i128, k: u32)
    by (bit_vector)
    requires
        k < 128,
    ensures
        (((x as u128) >> k) & 1 == 1) == (if k < 128 { at_i128(x, k) } else { at_i128(x, 127) }),
        k < 128 ==> at_i128(x, k) == (((x as u128) >> k) & 1 == 1),
        (x as u128) == (if x < 0 { x + 0xffff_ffff_ffff_ffff_ffff_ffff_ffff_ffff + 1 } else { x as int }),
{
}

/// Two values that agree above bit `n` and at bit `n` agree from bit `n` upwards.
#[verifier::rlimit(60)]
proof fn lemma_i128_step(a: i128, b: i128, n: u32)
    by (bit_vector)
    requires
        n < 128,
        at_i128(a, n) == at_i128(b, n),
        n < 127 ==> (a >> ((n + 1) as u32)) == (b >> ((n + 1) as u32)),
    ensures
        (a >> n) == (b >> n),
        n == 0 ==> a == b,
{
}

/// Two values that agree at every bit agree from bit `n` upwards, for every `n`.
proof fn lemma_i128_equal_from(a: i128, b: i128, n: u32)
    requires
        n < 128,
        forall|k: u32| k < 128 ==> at_i128(a, k) == at_i128(b, k),
    ensures
        (a >> n) == (b >> n),
        n == 0 ==> a == b,
    decreases 128 - n,
{
    if n < 127 {
        lemma_i128_equal_from(a, b, (n + 1) as u32);
    }
    lemma_i128_step(a, b, n);
}

/// The powers of two that bound an `i128`.
proof fn lemma_i128_top()
    ensures
        pow2(128) == 0xffff_ffff_ffff_ffff_ffff_ffff_ffff_ffff + 1,
        pow2(127) == 0x8000_0000_0000_0000_0000_0000_0000_0000,
{
    lemma2_to64();
    lemma2_to64_rest();
    lemma_pow2_adds(64, 64);
    lemma_pow2_adds(64, 63);
    assert(0x1_0000_0000_0000_0000 * 0x1_0000_0000_0000_0000 == 0xffff_ffff_ffff_ffff_ffff_ffff_ffff_ffff + 1) by (nonlinear_arith);
    assert(0x1_0000_0000_0000_0000 * 0x8000_0000_0000_0000 == 0x8000_0000_0000_0000_0000_0000_0000_0000) by (nonlinear_arith);
}

impl BitValue for i128 {
    open spec fn width() -> nat {
        128
    }

    open spec fn signed() -> bool {
        true
    }

    open spec fn as_int(self) -> int {
        self as int
    }

    open spec fn has_bit(self, k: int) -> bool {
        if 0 <= k < 128 {
            at_i128(self, k as u32)
        } else {
            k >= 128 && at_i128(self, 127)
        }
    }

    proof fn lemma_width() {
    }

    proof fn lemma_outer_bits(self, k: int) {
    }

    proof fn lemma_range(self) {
        lemma_i128_top();
    }

    proof fn lemma_bit_is_digit(self, k: int) {
        lemma_i128_top();
        let low = if k < 128 { k } else { 127 };
        let unsigned: u128 = #[verifier::truncate] (self as u128);
        lemma_i128_widen(self, low as u32);
        unsigned.lemma_bit_is_digit(low);
        assert(self.has_bit(low) == digit(unsigned as int, low as nat));
        if self < 0 {
            assert(unsigned as int == self as int + 1 * pow2(128));
            lemma_digit_of_sum(self as int, 1, 128, low as nat);
        }
        if k >= 128 {
            if self < 0 {
                lemma_digit_above_negative(self as int, 127, k as nat);
                lemma_digit_above_negative(self as int, 127, 127);
            } else {
                lemma_digit_above(self as int, 127, k as nat);
                lemma_digit_above(self as int, 127, 127);
            }
        }
    }

    proof fn lemma_same_bits(self, other: Self) {
        assert forall|k: u32| k < 128 implies at_i128(self, k) == at_i128(other, k) by {
            assert(self.has_bit(k as int) == other.has_bit(k as int));
        }
        lemma_i128_equal_from(self, other, 0);
    }

    fn bit_len() -> (n: usize) {
        128
    }

    fn zero() -> (r: Self) {
        assert forall|k: int| !(0i128).has_bit(k) by {
            lemma_i128_ops(0, 0, false, 0, if 0 <= k < 128 { k as u32 } else { 127u32 });
        }
        0
    }

    fn low_bit(self) -> (r: bool) {
        proof {
            lemma_i128_ops(self, 0, false, 0, 0);
        }
        self & 1 != 0
    }

    fn push_bit(self, b: bool) -> (r: Self) {
        let r: i128 = if b {
            (self << 1u32) | 1
        } else {
            self << 1u32
        };
        assert forall|k: int| 0 <= k < 128 implies r.has_bit(k) == (if k == 0 {
            b
        } else {
            self.has_bit(k - 1)
        }) by {
            lemma_i128_ops(self, 0, b, 0, k as u32);
        }
        assert(r.has_bit(0) == b);
        r
    }

    fn drop_bit(self) -> (r: Self) {
        let r: i128 = self >> 1u32;
        assert forall|k: int| 0 <= k implies r.has_bit(k) == self.has_bit(k + 1) by {
            lemma_i128_ops(self, 0, false, 0, if k < 128 { k as u32 } else { 127u32 });
        }
        r
    }

    fn extend(self, n: usize) -> (r: Self) {
        let s: usize = 128 - n;
        let r: i128 = (self << s) >> s;
        assert forall|k: int| 0 <= k < 128 implies r.has_bit(k) == (if k < n {
            self.has_bit(k)
        } else {
            Self::signed() && self.has_bit(n - 1)
        }) by {
            lemma_i128_ops(self, 0, false, s as u32, k as u32);
        }
        r
    }

    fn from_raw(raw: u128) -> (r: Self) {
        let r: i128 = raw as i128;
        assert forall|k: int| 0 <= k < 128 implies r.has_bit(k) == raw_bit(raw, k) by {
            lemma_i128_ops(0, raw, false, 0, k as u32);
        }
        r
    }

    fn to_raw(self) -> (raw: u128) {
        let raw: u128 = self as u128;
        assert forall|k: int| 0 <= k < 128 implies raw_bit(raw, k) == self.has_bit(k) by {
            lemma_i128_widen(self, k as u32);
        }
        raw
    }
}

} // verus!
