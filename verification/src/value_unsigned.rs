//! `BitValue` for the unsigned integer types.
use crate::digits::{lemma_digit_above};
use crate::value::{raw_bit, BitValue};
use vstd::arithmetic::power2::{lemma2_to64, lemma2_to64_rest, lemma_pow2_adds, pow2};
use vstd::bits::{lemma_u128_shr_is_div, lemma_u16_shr_is_div, lemma_u32_shr_is_div, lemma_u64_shr_is_div, lemma_u8_shr_is_div};
use vstd::prelude::*;

verus! {

/// Bit `k` of an `u8`, for `k` below 8.
pub open spec fn at_u8(x: u8, k: u32) -> bool {
    (x >> k) & 1 == 1
}

/// The bits of the results of the operations on an `u8`.
proof fn lemma_u8_ops(x: u8, raw: u128, b: bool, s: u32, k: u32)
    by (bit_vector)
    requires
        k < 8,
    ensures
        !at_u8(0, k),
        at_u8(if b { (x << 1u32) | 1 } else { x << 1u32 }, k) == (if k == 0 { b } else { at_u8(x, (k - 1) as u32) }),
        at_u8(x >> 1u32, k) == (if k < 7 { at_u8(x, (k + 1) as u32) } else { false }),
        s < 8 ==> at_u8((x << s) >> s, k) == (if k < 8 - s { at_u8(x, k) } else { false }),
        at_u8(raw as u8, k) == ((raw >> k) & 1 == 1),
        (x & 1 != 0) == at_u8(x, 0),
        (x & 1 == 1) == (x % 2 == 1),
{
}

/// The bits of an `u8` taken as a 128-bit pattern.
proof fn lemma_u8_widen(x: u8, k: u32)
    by (bit_vector)
    requires
        k < 128,
    ensures
        (((x as u128) >> k) & 1 == 1) == (if k < 8 { at_u8(x, k) } else { false }),
{
}

/// Two values that agree above bit `n` and at bit `n` agree from bit `n` upwards.
proof fn lemma_u8_step(a: u8, b: u8, n: u32)
    by (bit_vector)
    requires
        n < 8,
        at_u8(a, n) == at_u8(b, n),
        n < 7 ==> (a >> ((n + 1) as u32)) == (b >> ((n + 1) as u32)),
    ensures
        (a >> n) == (b >> n),
        n == 0 ==> a == b,
{
}

/// Two values that agree at every bit agree from bit `n` upwards, for every `n`.
proof fn lemma_u8_equal_from(a: u8, b: u8, n: u32)
    requires
        n < 8,
        forall|k: u32| k < 8 ==> at_u8(a, k) == at_u8(b, k),
    ensures
        (a >> n) == (b >> n),
        n == 0 ==> a == b,
    decreases 8 - n,
{
    if n < 7 {
        lemma_u8_equal_from(a, b, (n + 1) as u32);
    }
    lemma_u8_step(a, b, n);
}

/// The powers of two that bound an `u8`.
proof fn lemma_u8_top()
    ensures
        pow2(8) == 0xff + 1,
        pow2(7) == 0x80,
{
    lemma2_to64();
    lemma2_to64_rest();
}

impl BitValue for u8 {
    open spec fn width() -> nat {
        8
    }

    open spec fn signed() -> bool {
        false
    }

    open spec fn as_int(self) -> int {
        self as int
    }

    open spec fn has_bit(self, k: int) -> bool {
        if 0 <= k < 8 {
            at_u8(self, k as u32)
        } else {
            false
        }
    }

    proof fn lemma_width() {
    }

    proof fn lemma_outer_bits(self, k: int) {
    }

    proof fn lemma_range(self) {
        lemma_u8_top();
    }

    proof fn lemma_bit_is_digit(self, k: int) {
        if k < 8 {
            let shifted: u8 = self >> (k as u32);
            lemma_u8_shr_is_div(self, k as u8);
            assert(shifted == self >> (k as u8));
            lemma_u8_ops(shifted, 0, false, 0, 0);
        } else {
            lemma_u8_top();
            lemma_digit_above(self as int, 8, k as nat);
        }
    }

    proof fn lemma_same_bits(self, other: Self) {
        assert forall|k: u32| k < 8 implies at_u8(self, k) == at_u8(other, k) by {
            assert(self.has_bit(k as int) == other.has_bit(k as int));
        }
        lemma_u8_equal_from(self, other, 0);
    }

    fn bit_len() -> (n: usize) {
        8
    }

    fn zero() -> (r: Self) {
        assert forall|k: int| !(0u8).has_bit(k) by {
            lemma_u8_ops(0, 0, false, 0, if 0 <= k < 8 { k as u32 } else { 7u32 });
        }
        0
    }

    fn low_bit(self) -> (r: bool) {
        proof {
            lemma_u8_ops(self, 0, false, 0, 0);
        }
        self & 1 != 0
    }

    fn push_bit(self, b: bool) -> (r: Self) {
        let r: u8 = if b {
            (self << 1u32) | 1
        } else {
            self << 1u32
        };
        assert forall|k: int| 0 <= k < 8 implies r.has_bit(k) == (if k == 0 {
            b
        } else {
            self.has_bit(k - 1)
        }) by {
            lemma_u8_ops(self, 0, b, 0, k as u32);
        }
        assert(r.has_bit(0) == b);
        r
    }

    fn drop_bit(self) -> (r: Self) {
        let r: u8 = self >> 1u32;
        assert forall|k: int| 0 <= k implies r.has_bit(k) == self.has_bit(k + 1) by {
            lemma_u8_ops(self, 0, false, 0, if k < 8 { k as u32 } else { 7u32 });
        }
        r
    }

    fn extend(self, n: usize) -> (r: Self) {
        let s: usize = 8 - n;
        let r: u8 = (self << s) >> s;
        assert forall|k: int| 0 <= k < 8 implies r.has_bit(k) == (if k < n {
            self.has_bit(k)
        } else {
            Self::signed() && self.has_bit(n - 1)
        }) by {
            lemma_u8_ops(self, 0, false, s as u32, k as u32);
        }
        r
    }

    fn from_raw(raw: u128) -> (r: Self) {
        let r: u8 = raw as u8;
        assert forall|k: int| 0 <= k < 8 implies r.has_bit(k) == raw_bit(raw, k) by {
            lemma_u8_ops(0, raw, false, 0, k as u32);
        }
        r
    }

    fn to_raw(self) -> (raw: u128) {
        let raw: u128 = self as u128;
        assert forall|k: int| 0 <= k < 128 implies raw_bit(raw, k) == self.has_bit(k) by {
            lemma_u8_widen(self, k as u32);
        }
        raw
    }
}

/// Bit `k` of a `u16`, for `k` below 16.
pub open spec fn at_u16(x: u16, k: u32) -> bool {
    (x >> k) & 1 == 1
}

/// The bits of the results of the operations on a `u16`.
proof fn lemma_u16_ops(x: u16, raw: u128, b: bool, s: u32, k: u32)
    by (bit_vector)
    requires
        k < 16,
    ensures
        !at_u16(0, k),
        at_u16(if b { (x << 1u32) | 1 } else { x << 1u32 }, k) == (if k == 0 { b } else { at_u16(x, (k - 1) as u32) }),
        at_u16(x >> 1u32, k) == (if k < 15 { at_u16(x, (k + 1) as u32) } else { false }),
        s < 16 ==> at_u16((x << s) >> s, k) == (if k < 16 - s { at_u16(x, k) } else { false }),
        at_u16(raw as u16, k) == ((raw >> k) & 1 == 1),
        (x & 1 != 0) == at_u16(x, 0),
        (x & 1 == 1) == (x % 2 == 1),
{
}

/// The bits of a `u16` taken as a 128-bit pattern.
proof fn lemma_u16_widen(x: u16, k: u32)
    by (bit_vector)
    requires
        k < 128,
    ensures
        (((x as u128) >> k) & 1 == 1) == (if k < 16 { at_u16(x, k) } else { false }),
{
}

/// Two values that agree above bit `n` and at bit `n` agree from bit `n` upwards.
proof fn lemma_u16_step(a: u16, b: u16, n: u32)
    by (bit_vector)
    requires
        n < 16,
        at_u16(a, n) == at_u16(b, n),
        n < 15 ==> (a >> ((n + 1) as u32)) == (b >> ((n + 1) as u32)),
    ensures
        (a >> n) == (b >> n),
        n == 0 ==> a == b,
{
}

/// Two values that agree at every bit agree from bit `n` upwards, for every `n`.
proof fn lemma_u16_equal_from(a: u16, b: u16, n: u32)
    requires
        n < 16,
        forall|k: u32| k < 16 ==> at_u16(a, k) == at_u16(b, k),
    ensures
        (a >> n) == (b >> n),
        n == 0 ==> a == b,
    decreases 16 - n,
{
    if n < 15 {
        lemma_u16_equal_from(a, b, (n + 1) as u32);
    }
    lemma_u16_step(a, b, n);
}

/// The powers of two that bound a `u16`.
proof fn lemma_u16_top()
    ensures
        pow2(16) == 0xffff + 1,
        pow2(15) == 0x8000,
{
    lemma2_to64();
    lemma2_to64_rest();
}

impl BitValue for u16 {
    open spec fn width() -> nat {
        16
    }

    open spec fn signed() -> bool {
        false
    }

    open spec fn as_int(self) -> int {
        self as int
    }

    open spec fn has_bit(self, k: int) -> bool {
        if 0 <= k < 16 {
            at_u16(self, k as u32)
        } else {
            false
        }
    }

    proof fn lemma_width() {
    }

    proof fn lemma_outer_bits(self, k: int) {
    }

    proof fn lemma_range(self) {
        lemma_u16_top();
    }

    proof fn lemma_bit_is_digit(self, k: int) {
        if k < 16 {
            let shifted: u16 = self >> (k as u32);
            lemma_u16_shr_is_div(self, k as u16);
            assert(shifted == self >> (k as u16));
            lemma_u16_ops(shifted, 0, false, 0, 0);
        } else {
            lemma_u16_top();
            lemma_digit_above(self as int, 16, k as nat);
        }
    }

    proof fn lemma_same_bits(self, other: Self) {
        assert forall|k: u32| k < 16 implies at_u16(self, k) == at_u16(other, k) by {
            assert(self.has_bit(k as int) == other.has_bit(k as int));
        }
        lemma_u16_equal_from(self, other, 0);
    }

    fn bit_len() -> (n: usize) {
        16
    }

    fn zero() -> (r: Self) {
        assert forall|k: int| !(0u16).has_bit(k) by {
            lemma_u16_ops(0, 0, false, 0, if 0 <= k < 16 { k as u32 } else { 15u32 });
        }
        0
    }

    fn low_bit(self) -> (r: bool) {
        proof {
            lemma_u16_ops(self, 0, false, 0, 0);
        }
        self & 1 != 0
    }

    fn push_bit(self, b: bool) -> (r: Self) {
        let r: u16 = if b {
            (self << 1u32) | 1
        } else {
            self << 1u32
        };
        assert forall|k: int| 0 <= k < 16 implies r.has_bit(k) == (if k == 0 {
            b
        } else {
            self.has_bit(k - 1)
        }) by {
            lemma_u16_ops(self, 0, b, 0, k as u32);
        }
        assert(r.has_bit(0) == b);
        r
    }

    fn drop_bit(self) -> (r: Self) {
        let r: u16 = self >> 1u32;
        assert forall|k: int| 0 <= k implies r.has_bit(k) == self.has_bit(k + 1) by {
            lemma_u16_ops(self, 0, false, 0, if k < 16 { k as u32 } else { 15u32 });
        }
        r
    }

    fn extend(self, n: usize) -> (r: Self) {
        let s: usize = 16 - n;
        let r: u16 = (self << s) >> s;
        assert forall|k: int| 0 <= k < 16 implies r.has_bit(k) == (if k < n {
            self.has_bit(k)
        } else {
            Self::signed() && self.has_bit(n - 1)
        }) by {
            lemma_u16_ops(self, 0, false, s as u32, k as u32);
        }
        r
    }

    fn from_raw(raw: u128) -> (r: Self) {
        let r: u16 = raw as u16;
        assert forall|k: int| 0 <= k < 16 implies r.has_bit(k) == raw_bit(raw, k) by {
            lemma_u16_ops(0, raw, false, 0, k as u32);
        }
        r
    }

    fn to_raw(self) -> (raw: u128) {
        let raw: u128 = self as u128;
        assert forall|k: int| 0 <= k < 128 implies raw_bit(raw, k) == self.has_bit(k) by {
            lemma_u16_widen(self, k as u32);
        }
        raw
    }
}

/// Bit `k` of a `u32`, for `k` below 32.
pub open spec fn at_u32(x: u32, k: u32) -> bool {
    (x >> k) & 1 == 1
}

/// The bits of the results of the operations on a `u32`.
proof fn lemma_u32_ops(x: u32, raw: u128, b: bool, s: u32, k: u32)
    by (bit_vector)
    requires
        k < 32,
    ensures
        !at_u32(0, k),
        at_u32(if b { (x << 1u32) | 1 } else { x << 1u32 }, k) == (if k == 0 { b } else { at_u32(x, (k - 1) as u32) }),
        at_u32(x >> 1u32, k) == (if k < 31 { at_u32(x, (k + 1) as u32) } else { false }),
        s < 32 ==> at_u32((x << s) >> s, k) == (if k < 32 - s { at_u32(x, k) } else { false }),
        at_u32(raw as u32, k) == ((raw >> k) & 1 == 1),
        (x & 1 != 0) == at_u32(x, 0),
        (x & 1 == 1) == (x % 2 == 1),
{
}

/// The bits of a `u32` taken as a 128-bit pattern.
proof fn lemma_u32_widen(x: u32, k: u32)
    by (bit_vector)
    requires
        k < 128,
    ensures
        (((x as u128) >> k) & 1 == 1) == (if k < 32 { at_u32(x, k) } else { false }),
{
}

/// Two values that agree above bit `n` and at bit `n` agree from bit `n` upwards.
proof fn lemma_u32_step(a: u32, b: u32, n: u32)
    by (bit_vector)
    requires
        n < 32,
        at_u32(a, n) == at_u32(b, n),
        n < 31 ==> (a >> ((n + 1) as u32)) == (b >> ((n + 1) as u32)),
    ensures
        (a >> n) == (b >> n),
        n == 0 ==> a == b,
{
}

/// Two values that agree at every bit agree from bit `n` upwards, for every `n`.
proof fn lemma_u32_equal_from(a: u32, b: u32, n: u32)
    requires
        n < 32,
        forall|k: u32| k < 32 ==> at_u32(a, k) == at_u32(b, k),
    ensures
        (a >> n) == (b >> n),
        n == 0 ==> a == b,
    decreases 32 - n,
{
    if n < 31 {
        lemma_u32_equal_from(a, b, (n + 1) as u32);
    }
    lemma_u32_step(a, b, n);
}

/// The powers of two that bound a `u32`.
proof fn lemma_u32_top()
    ensures
        pow2(32) == 0xffff_ffff + 1,
        pow2(31) == 0x8000_0000,
{
    lemma2_to64();
    lemma2_to64_rest();
}

impl BitValue for u32 {
    open spec fn width() -> nat {
        32
    }

    open spec fn signed() -> bool {
        false
    }

    open spec fn as_int(self) -> int {
        self as int
    }

    open spec fn has_bit(self, k: int) -> bool {
        if 0 <= k < 32 {
            at_u32(self, k as u32)
        } else {
            false
        }
    }

    proof fn lemma_width() {
    }

    proof fn lemma_outer_bits(self, k: int) {
    }

    proof fn lemma_range(self) {
        lemma_u32_top();
    }

    proof fn lemma_bit_is_digit(self, k: int) {
        if k < 32 {
            let shifted: u32 = self >> (k as u32);
            lemma_u32_shr_is_div(self, k as u32);
            assert(shifted == self >> (k as u32));
            lemma_u32_ops(shifted, 0, false, 0, 0);
        } else {
            lemma_u32_top();
            lemma_digit_above(self as int, 32, k as nat);
        }
    }

    proof fn lemma_same_bits(self, other: Self) {
        assert forall|k: u32| k < 32 implies at_u32(self, k) == at_u32(other, k) by {
            assert(self.has_bit(k as int) == other.has_bit(k as int));
        }
        lemma_u32_equal_from(self, other, 0);
    }

    fn bit_len() -> (n: usize) {
        32
    }

    fn zero() -> (r: Self) {
        assert forall|k: int| !(0u32).has_bit(k) by {
            lemma_u32_ops(0, 0, false, 0, if 0 <= k < 32 { k as u32 } else { 31u32 });
        }
        0
    }

    fn low_bit(self) -> (r: bool) {
        proof {
            lemma_u32_ops(self, 0, false, 0, 0);
        }
        self & 1 != 0
    }

    fn push_bit(self, b: bool) -> (r: Self) {
        let r: u32 = if b {
            (self << 1u32) | 1
        } else {
            self << 1u32
        };
        assert forall|k: int| 0 <= k < 32 implies r.has_bit(k) == (if k == 0 {
            b
        } else {
            self.has_bit(k - 1)
        }) by {
            lemma_u32_ops(self, 0, b, 0, k as u32);
        }
        assert(r.has_bit(0) == b);
        r
    }

    fn drop_bit(self) -> (r: Self) {
        let r: u32 = self >> 1u32;
        assert forall|k: int| 0 <= k implies r.has_bit(k) == self.has_bit(k + 1) by {
            lemma_u32_ops(self, 0, false, 0, if k < 32 { k as u32 } else { 31u32 });
        }
        r
    }

    fn extend(self, n: usize) -> (r: Self) {
        let s: usize = 32 - n;
        let r: u32 = (self << s) >> s;
        assert forall|k: int| 0 <= k < 32 implies r.has_bit(k) == (if k < n {
            self.has_bit(k)
        } else {
            Self::signed() && self.has_bit(n - 1)
        }) by {
            lemma_u32_ops(self, 0, false, s as u32, k as u32);
        }
        r
    }

    fn from_raw(raw: u128) -> (r: Self) {
        let r: u32 = raw as u32;
        assert forall|k: int| 0 <= k < 32 implies r.has_bit(k) == raw_bit(raw, k) by {
            lemma_u32_ops(0, raw, false, 0, k as u32);
        }
        r
    }

    fn to_raw(self) -> (raw: u128) {
        let raw: u128 = self as u128;
        assert forall|k: int| 0 <= k < 128 implies raw_bit(raw, k) == self.has_bit(k) by {
            lemma_u32_widen(self, k as u32);
        }
        raw
    }
}

/// Bit `k` of a `u64`, for `k` below 64.
pub open spec fn at_u64(x: u64, k: u32) -> bool {
    (x >> k) & 1 == 1
}

/// The bits of the results of the operations on a `u64`.
proof fn lemma_u64_ops(x: u64, raw: u128, b: bool, s: u32, k: u32)
    by (bit_vector)
    requires
        k < 64,
    ensures
        !at_u64(0, k),
        at_u64(if b { (x << 1u32) | 1 } else { x << 1u32 }, k) == (if k == 0 { b } else { at_u64(x, (k - 1) as u32) }),
        at_u64(x >> 1u32, k) == (if k < 63 { at_u64(x, (k + 1) as u32) } else { false }),
        s < 64 ==> at_u64((x << s) >> s, k) == (if k < 64 - s { at_u64(x, k) } else { false }),
        at_u64(raw as u64, k) == ((raw >> k) & 1 == 1),
        (x & 1 != 0) == at_u64(x, 0),
        (x & 1 == 1) == (x % 2 == 1),
{
}

/// The bits of a `u64` taken as a 128-bit pattern.
proof fn lemma_u64_widen(x: u64, k: u32)
    by (bit_vector)
    requires
        k < 128,
    ensures
        (((x as u128) >> k) & 1 == 1) == (if k < 64 { at_u64(x, k) } else { false }),
{
}

/// Two values that agree above bit `n` and at bit `n` agree from bit `n` upwards.
proof fn lemma_u64_step(a: u64, b: u64, n: u32)
    by (bit_vector)
    requires
        n < 64,
        at_u64(a, n) == at_u64(b, n),
        n < 63 ==> (a >> ((n + 1) as u32)) == (b >> ((n + 1) as u32)),
    ensures
        (a >> n) == (b >> n),
        n == 0 ==> a == b,
{
}

/// Two values that agree at every bit agree from bit `n` upwards, for every `n`.
proof fn lemma_u64_equal_from(a: u64, b: u64, n: u32)
    requires
        n < 64,
        forall|k: u32| k < 64 ==> at_u64(a, k) == at_u64(b, k),
    ensures
        (a >> n) == (b >> n),
        n == 0 ==> a == b,
    decreases 64 - n,
{
    if n < 63 {
        lemma_u64_equal_from(a, b, (n + 1) as u32);
    }
    lemma_u64_step(a, b, n);
}

/// The powers of two that bound a `u64`.
proof fn lemma_u64_top()
    ensures
        pow2(64) == 0xffff_ffff_ffff_ffff + 1,
        pow2(63) == 0x8000_0000_0000_0000,
{
    lemma2_to64();
    lemma2_to64_rest();
}

impl BitValue for u64 {
    open spec fn width() -> nat {
        64
    }

    open spec fn signed() -> bool {
        false
    }

    open spec fn as_int(self) -> int {
        self as int
    }

    open spec fn has_bit(self, k: int) -> bool {
        if 0 <= k < 64 {
            at_u64(self, k as u32)
        } else {
            false
        }
    }

    proof fn lemma_width() {
    }

    proof fn lemma_outer_bits(self, k: int) {
    }

    proof fn lemma_range(self) {
        lemma_u64_top();
    }

    proof fn lemma_bit_is_digit(self, k: int) {
        if k < 64 {
            let shifted: u64 = self >> (k as u32);
            lemma_u64_shr_is_div(self, k as u64);
            assert(shifted == self >> (k as u64));
            lemma_u64_ops(shifted, 0, false, 0, 0);
        } else {
            lemma_u64_top();
            lemma_digit_above(self as int, 64, k as nat);
        }
    }

    proof fn lemma_same_bits(self, other: Self) {
        assert forall|k: u32| k < 64 implies at_u64(self, k) == at_u64(other, k) by {
            assert(self.has_bit(k as int) == other.has_bit(k as int));
        }
        lemma_u64_equal_from(self, other, 0);
    }

    fn bit_len() -> (n: usize) {
        64
    }

    fn zero() -> (r: Self) {
        assert forall|k: int| !(0u64).has_bit(k) by {
            lemma_u64_ops(0, 0, false, 0, if 0 <= k < 64 { k as u32 } else { 63u32 });
        }
        0
    }

    fn low_bit(self) -> (r: bool) {
        proof {
            lemma_u64_ops(self, 0, false, 0, 0);
        }
        self & 1 != 0
    }

    fn push_bit(self, b: bool) -> (r: Self) {
        let r: u64 = if b {
            (self << 1u32) | 1
        } else {
            self << 1u32
        };
        assert forall|k: int| 0 <= k < 64 implies r.has_bit(k) == (if k == 0 {
            b
        } else {
            self.has_bit(k - 1)
        }) by {
            lemma_u64_ops(self, 0, b, 0, k as u32);
        }
        assert(r.has_bit(0) == b);
        r
    }

    fn drop_bit(self) -> (r: Self) {
        let r: u64 = self >> 1u32;
        assert forall|k: int| 0 <= k implies r.has_bit(k) == self.has_bit(k + 1) by {
            lemma_u64_ops(self, 0, false, 0, if k < 64 { k as u32 } else { 63u32 });
        }
        r
    }

    fn extend(self, n: usize) -> (r: Self) {
        let s: usize = 64 - n;
        let r: u64 = (self << s) >> s;
        assert forall|k: int| 0 <= k < 64 implies r.has_bit(k) == (if k < n {
            self.has_bit(k)
        } else {
            Self::signed() && self.has_bit(n - 1)
        }) by {
            lemma_u64_ops(self, 0, false, s as u32, k as u32);
        }
        r
    }

    fn from_raw(raw: u128) -> (r: Self) {
        let r: u64 = raw as u64;
        assert forall|k: int| 0 <= k < 64 implies r.has_bit(k) == raw_bit(raw, k) by {
            lemma_u64_ops(0, raw, false, 0, k as u32);
        }
        r
    }

    fn to_raw(self) -> (raw: u128) {
        let raw: u128 = self as u128;
        assert forall|k: int| 0 <= k < 128 implies raw_bit(raw, k) == self.has_bit(k) by {
            lemma_u64_widen(self, k as u32);
        }
        raw
    }
}

/// Bit `k` of a `u128`, for `k` below 128.
pub open spec fn at_u128(x: u128, k: u32) -> bool {
    (x >> k) & 1 == 1
}

/// The bits of the results of the operations on a `u128`.
proof fn lemma_u128_ops(x: u128, raw: u128, b: bool, s: u32, k: u32)
    by (bit_vector)
    requires
        k < 128,
    ensures
        !at_u128(0, k),
        at_u128(if b { (x << 1u32) | 1 } else { x << 1u32 }, k) == (if k == 0 { b } else { at_u128(x, (k - 1) as u32) }),
        at_u128(x >> 1u32, k) == (if k < 127 { at_u128(x, (k + 1) as u32) } else { false }),
        s < 128 ==> at_u128((x << s) >> s, k) == (if k < 128 - s { at_u128(x, k) } else { false }),
        at_u128(raw as u128, k) == ((raw >> k) & 1 == 1),
        (x & 1 != 0) == at_u128(x, 0),
        (x & 1 == 1) == (x % 2 == 1),
{
}

/// The bits of a `u128` taken as a 128-bit pattern.
proof fn lemma_u128_widen(x: u128, k: u32)
    by (bit_vector)
    requires
        k < 128,
    ensures
        (((x as u128) >> k) & 1 == 1) == (if k < 128 { at_u128(x, k) } else { false }),
{
}

/// Two values that agree above bit `n` and at bit `n` agree from bit `n` upwards.
proof fn lemma_u128_step(a: u128, b: u128, n: u32)
    by (bit_vector)
    requires
        n < 128,
        at_u128(a, n) == at_u128(b, n),
        n < 127 ==> (a >> ((n + 1) as u32)) == (b >> ((n + 1) as u32)),
    ensures
        (a >> n) == (b >> n),
        n == 0 ==> a == b,
{
}

/// Two values that agree at every bit agree from bit `n` upwards, for every `n`.
proof fn lemma_u128_equal_from(a: u128, b: u128, n: u32)
    requires
        n < 128,
        forall|k: u32| k < 128 ==> at_u128(a, k) == at_u128(b, k),
    ensures
        (a >> n) == (b >> n),
        n == 0 ==> a == b,
    decreases 128 - n,
{
    if n < 127 {
        lemma_u128_equal_from(a, b, (n + 1) as u32);
    }
    lemma_u128_step(a, b, n);
}

/// The powers of two that bound a `u128`.
proof fn lemma_u128_top()
    ensures
        pow2(128) == 0xffff_ffff_ffff_ffff_ffff_ffff_ffff_ffff + 1,
        pow2(127) == 0x8000_0000_0000_0000_0000_0000_0000_0000,
{
    lemma2_to64();
    lemma2_to64_rest();
    lemma_pow2_adds(64, 64);
    lemma_pow2_adds(64, 63);
    assert(0x1_0000_0000_0000_0000 * 0x1_0000_0000_0000_0000 == 0xffff_ffff_ffff_ffff_ffff_ffff_ffff_ffff + 1) by (nonlinear_arith);
    assert(0x1_0000_0000_0000_0000 * 0x8000_0000_0000_0000 == 0x8000_0000_0000_0000_0000_0000_0000_0000) by (nonlinear_arith);
}

impl BitValue for u128 {
    open spec fn width() -> nat {
        128
    }

    open spec fn signed() -> bool {
        false
    }

    open spec fn as_int(self) -> int {
        self as int
    }

    open spec fn has_bit(self, k: int) -> bool {
        if 0 <= k < 128 {
            at_u128(self, k as u32)
        } else {
            false
        }
    }

    proof fn lemma_width() {
    }

    proof fn lemma_outer_bits(self, k: int) {
    }

    proof fn lemma_range(self) {
        lemma_u128_top();
    }

    proof fn lemma_bit_is_digit(self, k: int) {
        if k < 128 {
            let shifted: u128 = self >> (k as u32);
            lemma_u128_shr_is_div(self, k as u128);
            assert(shifted == self >> (k as u128));
            lemma_u128_ops(shifted, 0, false, 0, 0);
        } else {
            lemma_u128_top();
            lemma_digit_above(self as int, 128, k as nat);
        }
    }

    proof fn lemma_same_bits(self, other: Self) {
        assert forall|k: u32| k < 128 implies at_u128(self, k) == at_u128(other, k) by {
            assert(self.has_bit(k as int) == other.has_bit(k as int));
        }
        lemma_u128_equal_from(self, other, 0);
    }

    fn bit_len() -> (n: usize) {
        128
    }

    fn zero() -> (r: Self) {
        assert forall|k: int| !(0u128).has_bit(k) by {
            lemma_u128_ops(0, 0, false, 0, if 0 <= k < 128 { k as u32 } else { 127u32 });
        }
        0
    }

    fn low_bit(self) -> (r: bool) {
        proof {
            lemma_u128_ops(self, 0, false, 0, 0);
        }
        self & 1 != 0
    }

    fn push_bit(self, b: bool) -> (r: Self) {
        let r: u128 = if b {
            (self << 1u32) | 1
        } else {
            self << 1u32
        };
        assert forall|k: int| 0 <= k < 128 implies r.has_bit(k) == (if k == 0 {
            b
        } else {
            self.has_bit(k - 1)
        }) by {
            lemma_u128_ops(self, 0, b, 0, k as u32);
        }
        assert(r.has_bit(0) == b);
        r
    }

    fn drop_bit(self) -> (r: Self) {
        let r: u128 = self >> 1u32;
        assert forall|k: int| 0 <= k implies r.has_bit(k) == self.has_bit(k + 1) by {
            lemma_u128_ops(self, 0, false, 0, if k < 128 { k as u32 } else { 127u32 });
        }
        r
    }

    fn extend(self, n: usize) -> (r: Self) {
        let s: usize = 128 - n;
        let r: u128 = (self << s) >> s;
        assert forall|k: int| 0 <= k < 128 implies r.has_bit(k) == (if k < n {
            self.has_bit(k)
        } else {
            Self::signed() && self.has_bit(n - 1)
        }) by {
            lemma_u128_ops(self, 0, false, s as u32, k as u32);
        }
        r
    }

    fn from_raw(raw: u128) -> (r: Self) {
        let r: u128 = raw as u128;
        assert forall|k: int| 0 <= k < 128 implies r.has_bit(k) == raw_bit(raw, k) by {
            lemma_u128_ops(0, raw, false, 0, k as u32);
        }
        r
    }

    fn to_raw(self) -> (raw: u128) {
        let raw: u128 = self as u128;
        assert forall|k: int| 0 <= k < 128 implies raw_bit(raw, k) == self.has_bit(k) by {
            lemma_u128_widen(self, k as u32);
        }
        raw
    }
}

} // verus!
