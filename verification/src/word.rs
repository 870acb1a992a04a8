//! Unsigned integers as backing storage: single bits and bit ranges of one word.
use crate::value::BitValue;
use crate::value_unsigned::{at_u128, at_u16, at_u32, at_u64, at_u8};
use vstd::prelude::*;

verus! {

/// An unsigned integer that can hold fields, alone or as an element of a sequence.
pub trait Word: BitValue {
    /// A word is unsigned: it has no bit at or above its width.
    proof fn lemma_unsigned()
        ensures
            !Self::signed(),
    ;

    /// Whether the bit at `offset` is set.
    fn test_bit(self, offset: usize) -> (r: bool)
        requires
            offset < Self::width(),
        ensures
            r == self.has_bit(offset as int),
    ;

    /// The word with the bit at `offset` made equal to `b` and every other bit kept.
    fn with_bit(self, offset: usize, b: bool) -> (r: Self)
        requires
            offset < Self::width(),
        ensures
            forall|k: int|
                r.has_bit(k) == (if k == offset {
                    b
                } else {
                    self.has_bit(k)
                }),
    ;

    /// The bits `lsb..=msb` of the word, moved down to start at bit 0, with zeros above.
    fn extract(self, msb: usize, lsb: usize) -> (r: Self)
        requires
            lsb <= msb < Self::width(),
        ensures
            forall|k: int| 0 <= k ==> r.has_bit(k) == (k <= msb - lsb && self.has_bit(lsb + k)),
    ;

    /// The word that has a bit set where both words have it set.
    fn and(self, other: Self) -> (r: Self)
        ensures
            forall|k: int| r.has_bit(k) == (self.has_bit(k) && other.has_bit(k)),
    ;

    /// The word that has a bit set where at least one of the words has it set.
    fn or(self, other: Self) -> (r: Self)
        ensures
            forall|k: int| r.has_bit(k) == (self.has_bit(k) || other.has_bit(k)),
    ;

    /// The word that has a bit set where exactly one of the words has it set.
    fn xor(self, other: Self) -> (r: Self)
        ensures
            forall|k: int| r.has_bit(k) == (self.has_bit(k) != other.has_bit(k)),
    ;

    /// The word with the bits `lsb..=msb` replaced by the lowest bits of `v` and every other
    /// bit kept. Bits of `v` that do not fit in the range are dropped.
    fn replace(self, msb: usize, lsb: usize, v: Self) -> (r: Self)
        requires
            lsb <= msb < Self::width(),
        ensures
            forall|k: int|
                r.has_bit(k) == (if lsb <= k <= msb {
                    v.has_bit(k - lsb)
                } else {
                    self.has_bit(k)
                }),
    ;
}

/// The bits of a `u8` after a bit is set or cleared, after a shift, and after a masked merge.
proof fn lemma_u8_word(x: u8, y: u8, m: u8, b: bool, s: u32, k: u32)
    by (bit_vector)
    requires
        s < 8,
        k < 8,
    ensures
        at_u8(if b { (x & !(1u8 << s)) | (1u8 << s) } else { x & !(1u8 << s) }, k) == (if k == s {
            b
        } else {
            at_u8(x, k)
        }),
        at_u8(x << s, k) == (k >= s && at_u8(x, (if k >= s { k - s } else { 0 }) as u32)),
        at_u8(x >> s, k) == (k + s < 8 && at_u8(x, (if k + s < 8 { k + s } else { 0 }) as u32)),
        at_u8(!0u8, k),
        at_u8((x & !m) | (y & m), k) == (if at_u8(m, k) {
            at_u8(y, k)
        } else {
            at_u8(x, k)
        }),
{
}

/// The bits of the bitwise combinations of two `u8` values.
proof fn lemma_u8_combine(x: u8, y: u8, k: u32)
    by (bit_vector)
    requires
        k < 8,
    ensures
        at_u8(x & y, k) == (at_u8(x, k) && at_u8(y, k)),
        at_u8(x | y, k) == (at_u8(x, k) || at_u8(y, k)),
        at_u8(x ^ y, k) == (at_u8(x, k) != at_u8(y, k)),
{
}

impl Word for u8 {
    proof fn lemma_unsigned() {
    }

    fn test_bit(self, offset: usize) -> (r: bool) {
        (self >> offset) & 1 == 1
    }

    fn with_bit(self, offset: usize, b: bool) -> (r: Self) {
        let one: u8 = 1u8 << offset;
        let cleared: u8 = self & !one;
        let r: u8 = if b {
            cleared | one
        } else {
            cleared
        };
        assert forall|k: int| r.has_bit(k) == (if k == offset {
            b
        } else {
            self.has_bit(k)
        }) by {
            if 0 <= k < 8 {
                lemma_u8_word(self, 0, 0, b, offset as u32, k as u32);
            }
        }
        r
    }

    fn extract(self, msb: usize, lsb: usize) -> (r: Self) {
        let high: usize = 8 - msb - 1;
        let raised: u8 = self << high;
        let r: u8 = raised >> (high + lsb);
        assert forall|k: int| 0 <= k implies r.has_bit(k) == (k <= msb - lsb && self.has_bit(lsb + k)) by {
            if k < 8 {
                lemma_u8_word(raised, 0, 0, false, (high + lsb) as u32, k as u32);
                if k + high + lsb < 8 {
                    lemma_u8_word(self, 0, 0, false, high as u32, (k + high + lsb) as u32);
                }
            }
        }
        r
    }

    fn and(self, other: Self) -> (r: Self) {
        let r: u8 = self & other;
        assert forall|k: int| r.has_bit(k) == (self.has_bit(k) && other.has_bit(k)) by {
            if 0 <= k < 8 {
                lemma_u8_combine(self, other, k as u32);
            }
        }
        r
    }

    fn or(self, other: Self) -> (r: Self) {
        let r: u8 = self | other;
        assert forall|k: int| r.has_bit(k) == (self.has_bit(k) || other.has_bit(k)) by {
            if 0 <= k < 8 {
                lemma_u8_combine(self, other, k as u32);
            }
        }
        r
    }

    fn xor(self, other: Self) -> (r: Self) {
        let r: u8 = self ^ other;
        assert forall|k: int| r.has_bit(k) == (self.has_bit(k) != other.has_bit(k)) by {
            if 0 <= k < 8 {
                lemma_u8_combine(self, other, k as u32);
            }
        }
        r
    }

    fn replace(self, msb: usize, lsb: usize, v: Self) -> (r: Self) {
        let high: usize = 8 - msb - 1;
        let ones: u8 = !0u8 << high;
        let low_mask: u8 = ones >> (high + lsb);
        let mask: u8 = low_mask << lsb;
        let moved: u8 = v << lsb;
        let r: u8 = (self & !mask) | (moved & mask);
        assert forall|k: int| r.has_bit(k) == (if lsb <= k <= msb {
            v.has_bit(k - lsb)
        } else {
            self.has_bit(k)
        }) by {
            if 0 <= k < 8 {
                lemma_u8_word(self, moved, mask, false, 0, k as u32);
                lemma_u8_word(low_mask, 0, 0, false, lsb as u32, k as u32);
                lemma_u8_word(v, 0, 0, false, lsb as u32, k as u32);
                if k >= lsb {
                    lemma_u8_word(ones, 0, 0, false, (high + lsb) as u32, (k - lsb) as u32);
                    if k + high < 8 {
                        lemma_u8_word(!0u8, 0, 0, false, high as u32, (k + high) as u32);
                    }
                }
            }
        }
        r
    }
}

/// The bits of a `u16` after a bit is set or cleared, after a shift, and after a masked merge.
proof fn lemma_u16_word(x: u16, y: u16, m: u16, b: bool, s: u32, k: u32)
    by (bit_vector)
    requires
        s < 16,
        k < 16,
    ensures
        at_u16(if b { (x & !(1u16 << s)) | (1u16 << s) } else { x & !(1u16 << s) }, k) == (if k == s {
            b
        } else {
            at_u16(x, k)
        }),
        at_u16(x << s, k) == (k >= s && at_u16(x, (if k >= s { k - s } else { 0 }) as u32)),
        at_u16(x >> s, k) == (k + s < 16 && at_u16(x, (if k + s < 16 { k + s } else { 0 }) as u32)),
        at_u16(!0u16, k),
        at_u16((x & !m) | (y & m), k) == (if at_u16(m, k) {
            at_u16(y, k)
        } else {
            at_u16(x, k)
        }),
{
}

/// The bits of the bitwise combinations of two `u16` values.
proof fn lemma_u16_combine(x: u16, y: u16, k: u32)
    by (bit_vector)
    requires
        k < 16,
    ensures
        at_u16(x & y, k) == (at_u16(x, k) && at_u16(y, k)),
        at_u16(x | y, k) == (at_u16(x, k) || at_u16(y, k)),
        at_u16(x ^ y, k) == (at_u16(x, k) != at_u16(y, k)),
{
}

impl Word for u16 {
    proof fn lemma_unsigned() {
    }

    fn test_bit(self, offset: usize) -> (r: bool) {
        (self >> offset) & 1 == 1
    }

    fn with_bit(self, offset: usize, b: bool) -> (r: Self) {
        let one: u16 = 1u16 << offset;
        let cleared: u16 = self & !one;
        let r: u16 = if b {
            cleared | one
        } else {
            cleared
        };
        assert forall|k: int| r.has_bit(k) == (if k == offset {
            b
        } else {
            self.has_bit(k)
        }) by {
            if 0 <= k < 16 {
                lemma_u16_word(self, 0, 0, b, offset as u32, k as u32);
            }
        }
        r
    }

    fn extract(self, msb: usize, lsb: usize) -> (r: Self) {
        let high: usize = 16 - msb - 1;
        let raised: u16 = self << high;
        let r: u16 = raised >> (high + lsb);
        assert forall|k: int| 0 <= k implies r.has_bit(k) == (k <= msb - lsb && self.has_bit(lsb + k)) by {
            if k < 16 {
                lemma_u16_word(raised, 0, 0, false, (high + lsb) as u32, k as u32);
                if k + high + lsb < 16 {
                    lemma_u16_word(self, 0, 0, false, high as u32, (k + high + lsb) as u32);
                }
            }
        }
        r
    }

    fn and(self, other: Self) -> (r: Self) {
        let r: u16 = self & other;
        assert forall|k: int| r.has_bit(k) == (self.has_bit(k) && other.has_bit(k)) by {
            if 0 <= k < 16 {
                lemma_u16_combine(self, other, k as u32);
            }
        }
        r
    }

    fn or(self, other: Self) -> (r: Self) {
        let r: u16 = self | other;
        assert forall|k: int| r.has_bit(k) == (self.has_bit(k) || other.has_bit(k)) by {
            if 0 <= k < 16 {
                lemma_u16_combine(self, other, k as u32);
            }
        }
        r
    }

    fn xor(self, other: Self) -> (r: Self) {
        let r: u16 = self ^ other;
        assert forall|k: int| r.has_bit(k) == (self.has_bit(k) != other.has_bit(k)) by {
            if 0 <= k < 16 {
                lemma_u16_combine(self, other, k as u32);
            }
        }
        r
    }

    fn replace(self, msb: usize, lsb: usize, v: Self) -> (r: Self) {
        let high: usize = 16 - msb - 1;
        let ones: u16 = !0u16 << high;
        let low_mask: u16 = ones >> (high + lsb);
        let mask: u16 = low_mask << lsb;
        let moved: u16 = v << lsb;
        let r: u16 = (self & !mask) | (moved & mask);
        assert forall|k: int| r.has_bit(k) == (if lsb <= k <= msb {
            v.has_bit(k - lsb)
        } else {
            self.has_bit(k)
        }) by {
            if 0 <= k < 16 {
                lemma_u16_word(self, moved, mask, false, 0, k as u32);
                lemma_u16_word(low_mask, 0, 0, false, lsb as u32, k as u32);
                lemma_u16_word(v, 0, 0, false, lsb as u32, k as u32);
                if k >= lsb {
                    lemma_u16_word(ones, 0, 0, false, (high + lsb) as u32, (k - lsb) as u32);
                    if k + high < 16 {
                        lemma_u16_word(!0u16, 0, 0, false, high as u32, (k + high) as u32);
                    }
                }
            }
        }
        r
    }
}

/// The bits of a `u32` after a bit is set or cleared, after a shift, and after a masked merge.
proof fn lemma_u32_word(x: u32, y: u32, m: u32, b: bool, s: u32, k: u32)
    by (bit_vector)
    requires
        s < 32,
        k < 32,
    ensures
        at_u32(if b { (x & !(1u32 << s)) | (1u32 << s) } else { x & !(1u32 << s) }, k) == (if k == s {
            b
        } else {
            at_u32(x, k)
        }),
        at_u32(x << s, k) == (k >= s && at_u32(x, (if k >= s { k - s } else { 0 }) as u32)),
        at_u32(x >> s, k) == (k + s < 32 && at_u32(x, (if k + s < 32 { k + s } else { 0 }) as u32)),
        at_u32(!0u32, k),
        at_u32((x & !m) | (y & m), k) == (if at_u32(m, k) {
            at_u32(y, k)
        } else {
            at_u32(x, k)
        }),
{
}

/// The bits of the bitwise combinations of two `u32` values.
proof fn lemma_u32_combine(x: u32, y: u32, k: u32)
    by (bit_vector)
    requires
        k < 32,
    ensures
        at_u32(x & y, k) == (at_u32(x, k) && at_u32(y, k)),
        at_u32(x | y, k) == (at_u32(x, k) || at_u32(y, k)),
        at_u32(x ^ y, k) == (at_u32(x, k) != at_u32(y, k)),
{
}

impl Word for u32 {
    proof fn lemma_unsigned() {
    }

    fn test_bit(self, offset: usize) -> (r: bool) {
        (self >> offset) & 1 == 1
    }

    fn with_bit(self, offset: usize, b: bool) -> (r: Self) {
        let one: u32 = 1u32 << offset;
        let cleared: u32 = self & !one;
        let r: u32 = if b {
            cleared | one
        } else {
            cleared
        };
        assert forall|k: int| r.has_bit(k) == (if k == offset {
            b
        } else {
            self.has_bit(k)
        }) by {
            if 0 <= k < 32 {
                lemma_u32_word(self, 0, 0, b, offset as u32, k as u32);
            }
        }
        r
    }

    fn extract(self, msb: usize, lsb: usize) -> (r: Self) {
        let high: usize = 32 - msb - 1;
        let raised: u32 = self << high;
        let r: u32 = raised >> (high + lsb);
        assert forall|k: int| 0 <= k implies r.has_bit(k) == (k <= msb - lsb && self.has_bit(lsb + k)) by {
            if k < 32 {
                lemma_u32_word(raised, 0, 0, false, (high + lsb) as u32, k as u32);
                if k + high + lsb < 32 {
                    lemma_u32_word(self, 0, 0, false, high as u32, (k + high + lsb) as u32);
                }
            }
        }
        r
    }

    fn and(self, other: Self) -> (r: Self) {
        let r: u32 = self & other;
        assert forall|k: int| r.has_bit(k) == (self.has_bit(k) && other.has_bit(k)) by {
            if 0 <= k < 32 {
                lemma_u32_combine(self, other, k as u32);
            }
        }
        r
    }

    fn or(self, other: Self) -> (r: Self) {
        let r: u32 = self | other;
        assert forall|k: int| r.has_bit(k) == (self.has_bit(k) || other.has_bit(k)) by {
            if 0 <= k < 32 {
                lemma_u32_combine(self, other, k as u32);
            }
        }
        r
    }

    fn xor(self, other: Self) -> (r: Self) {
        let r: u32 = self ^ other;
        assert forall|k: int| r.has_bit(k) == (self.has_bit(k) != other.has_bit(k)) by {
            if 0 <= k < 32 {
                lemma_u32_combine(self, other, k as u32);
            }
        }
        r
    }

    fn replace(self, msb: usize, lsb: usize, v: Self) -> (r: Self) {
        let high: usize = 32 - msb - 1;
        let ones: u32 = !0u32 << high;
        let low_mask: u32 = ones >> (high + lsb);
        let mask: u32 = low_mask << lsb;
        let moved: u32 = v << lsb;
        let r: u32 = (self & !mask) | (moved & mask);
        assert forall|k: int| r.has_bit(k) == (if lsb <= k <= msb {
            v.has_bit(k - lsb)
        } else {
            self.has_bit(k)
        }) by {
            if 0 <= k < 32 {
                lemma_u32_word(self, moved, mask, false, 0, k as u32);
                lemma_u32_word(low_mask, 0, 0, false, lsb as u32, k as u32);
                lemma_u32_word(v, 0, 0, false, lsb as u32, k as u32);
                if k >= lsb {
                    lemma_u32_word(ones, 0, 0, false, (high + lsb) as u32, (k - lsb) as u32);
                    if k + high < 32 {
                        lemma_u32_word(!0u32, 0, 0, false, high as u32, (k + high) as u32);
                    }
                }
            }
        }
        r
    }
}

/// The bits of a `u64` after a bit is set or cleared, after a shift, and after a masked merge.
proof fn lemma_u64_word(x: u64, y: u64, m: u64, b: bool, s: u32, k: u32)
    by (bit_vector)
    requires
        s < 64,
        k < 64,
    ensures
        at_u64(if b { (x & !(1u64 << s)) | (1u64 << s) } else { x & !(1u64 << s) }, k) == (if k == s {
            b
        } else {
            at_u64(x, k)
        }),
        at_u64(x << s, k) == (k >= s && at_u64(x, (if k >= s { k - s } else { 0 }) as u32)),
        at_u64(x >> s, k) == (k + s < 64 && at_u64(x, (if k + s < 64 { k + s } else { 0 }) as u32)),
        at_u64(!0u64, k),
        at_u64((x & !m) | (y & m), k) == (if at_u64(m, k) {
            at_u64(y, k)
        } else {
            at_u64(x, k)
        }),
{
}

/// The bits of the bitwise combinations of two `u64` values.
proof fn lemma_u64_combine(x: u64, y: u64, k: u32)
    by (bit_vector)
    requires
        k < 64,
    ensures
        at_u64(x & y, k) == (at_u64(x, k) && at_u64(y, k)),
        at_u64(x | y, k) == (at_u64(x, k) || at_u64(y, k)),
        at_u64(x ^ y, k) == (at_u64(x, k) != at_u64(y, k)),
{
}

impl Word for u64 {
    proof fn lemma_unsigned() {
    }

    fn test_bit(self, offset: usize) -> (r: bool) {
        (self >> offset) & 1 == 1
    }

    fn with_bit(self, offset: usize, b: bool) -> (r: Self) {
        let one: u64 = 1u64 << offset;
        let cleared: u64 = self & !one;
        let r: u64 = if b {
            cleared | one
        } else {
            cleared
        };
        assert forall|k: int| r.has_bit(k) == (if k == offset {
            b
        } else {
            self.has_bit(k)
        }) by {
            if 0 <= k < 64 {
                lemma_u64_word(self, 0, 0, b, offset as u32, k as u32);
            }
        }
        r
    }

    fn extract(self, msb: usize, lsb: usize) -> (r: Self) {
        let high: usize = 64 - msb - 1;
        let raised: u64 = self << high;
        let r: u64 = raised >> (high + lsb);
        assert forall|k: int| 0 <= k implies r.has_bit(k) == (k <= msb - lsb && self.has_bit(lsb + k)) by {
            if k < 64 {
                lemma_u64_word(raised, 0, 0, false, (high + lsb) as u32, k as u32);
                if k + high + lsb < 64 {
                    lemma_u64_word(self, 0, 0, false, high as u32, (k + high + lsb) as u32);
                }
            }
        }
        r
    }

    fn and(self, other: Self) -> (r: Self) {
        let r: u64 = self & other;
        assert forall|k: int| r.has_bit(k) == (self.has_bit(k) && other.has_bit(k)) by {
            if 0 <= k < 64 {
                lemma_u64_combine(self, other, k as u32);
            }
        }
        r
    }

    fn or(self, other: Self) -> (r: Self) {
        let r: u64 = self | other;
        assert forall|k: int| r.has_bit(k) == (self.has_bit(k) || other.has_bit(k)) by {
            if 0 <= k < 64 {
                lemma_u64_combine(self, other, k as u32);
            }
        }
        r
    }

    fn xor(self, other: Self) -> (r: Self) {
        let r: u64 = self ^ other;
        assert forall|k: int| r.has_bit(k) == (self.has_bit(k) != other.has_bit(k)) by {
            if 0 <= k < 64 {
                lemma_u64_combine(self, other, k as u32);
            }
        }
        r
    }

    fn replace(self, msb: usize, lsb: usize, v: Self) -> (r: Self) {
        let high: usize = 64 - msb - 1;
        let ones: u64 = !0u64 << high;
        let low_mask: u64 = ones >> (high + lsb);
        let mask: u64 = low_mask << lsb;
        let moved: u64 = v << lsb;
        let r: u64 = (self & !mask) | (moved & mask);
        assert forall|k: int| r.has_bit(k) == (if lsb <= k <= msb {
            v.has_bit(k - lsb)
        } else {
            self.has_bit(k)
        }) by {
            if 0 <= k < 64 {
                lemma_u64_word(self, moved, mask, false, 0, k as u32);
                lemma_u64_word(low_mask, 0, 0, false, lsb as u32, k as u32);
                lemma_u64_word(v, 0, 0, false, lsb as u32, k as u32);
                if k >= lsb {
                    lemma_u64_word(ones, 0, 0, false, (high + lsb) as u32, (k - lsb) as u32);
                    if k + high < 64 {
                        lemma_u64_word(!0u64, 0, 0, false, high as u32, (k + high) as u32);
                    }
                }
            }
        }
        r
    }
}

/// The bits of a `u128` after a bit is set or cleared, after a shift, and after a masked merge.
proof fn lemma_u128_word(x: u128, y: u128, m: u128, b: bool, s: u32, k: u32)
    by (bit_vector)
    requires
        s < 128,
        k < 128,
    ensures
        at_u128(if b { (x & !(1u128 << s)) | (1u128 << s) } else { x & !(1u128 << s) }, k) == (if k == s {
            b
        } else {
            at_u128(x, k)
        }),
        at_u128(x << s, k) == (k >= s && at_u128(x, (if k >= s { k - s } else { 0 }) as u32)),
        at_u128(x >> s, k) == (k + s < 128 && at_u128(x, (if k + s < 128 { k + s } else { 0 }) as u32)),
        at_u128(!0u128, k),
        at_u128((x & !m) | (y & m), k) == (if at_u128(m, k) {
            at_u128(y, k)
        } else {
            at_u128(x, k)
        }),
{
}

/// The bits of the bitwise combinations of two `u128` values.
proof fn lemma_u128_combine(x: u128, y: u128, k: u32)
    by (bit_vector)
    requires
        k < 128,
    ensures
        at_u128(x & y, k) == (at_u128(x, k) && at_u128(y, k)),
        at_u128(x | y, k) == (at_u128(x, k) || at_u128(y, k)),
        at_u128(x ^ y, k) == (at_u128(x, k) != at_u128(y, k)),
{
}

impl Word for u128 {
    proof fn lemma_unsigned() {
    }

    fn test_bit(self, offset: usize) -> (r: bool) {
        (self >> offset) & 1 == 1
    }

    fn with_bit(self, offset: usize, b: bool) -> (r: Self) {
        let one: u128 = 1u128 << offset;
        let cleared: u128 = self & !one;
        let r: u128 = if b {
            cleared | one
        } else {
            cleared
        };
        assert forall|k: int| r.has_bit(k) == (if k == offset {
            b
        } else {
            self.has_bit(k)
        }) by {
            if 0 <= k < 128 {
                lemma_u128_word(self, 0, 0, b, offset as u32, k as u32);
            }
        }
        r
    }

    fn extract(self, msb: usize, lsb: usize) -> (r: Self) {
        let high: usize = 128 - msb - 1;
        let raised: u128 = self << high;
        let r: u128 = raised >> (high + lsb);
        assert forall|k: int| 0 <= k implies r.has_bit(k) == (k <= msb - lsb && self.has_bit(lsb + k)) by {
            if k < 128 {
                lemma_u128_word(raised, 0, 0, false, (high + lsb) as u32, k as u32);
                if k + high + lsb < 128 {
                    lemma_u128_word(self, 0, 0, false, high as u32, (k + high + lsb) as u32);
                }
            }
        }
        r
    }

    fn and(self, other: Self) -> (r: Self) {
        let r: u128 = self & other;
        assert forall|k: int| r.has_bit(k) == (self.has_bit(k) && other.has_bit(k)) by {
            if 0 <= k < 128 {
                lemma_u128_combine(self, other, k as u32);
            }
        }
        r
    }

    fn or(self, other: Self) -> (r: Self) {
        let r: u128 = self | other;
        assert forall|k: int| r.has_bit(k) == (self.has_bit(k) || other.has_bit(k)) by {
            if 0 <= k < 128 {
                lemma_u128_combine(self, other, k as u32);
            }
        }
        r
    }

    fn xor(self, other: Self) -> (r: Self) {
        let r: u128 = self ^ other;
        assert forall|k: int| r.has_bit(k) == (self.has_bit(k) != other.has_bit(k)) by {
            if 0 <= k < 128 {
                lemma_u128_combine(self, other, k as u32);
            }
        }
        r
    }

    fn replace(self, msb: usize, lsb: usize, v: Self) -> (r: Self) {
        let high: usize = 128 - msb - 1;
        let ones: u128 = !0u128 << high;
        let low_mask: u128 = ones >> (high + lsb);
        let mask: u128 = low_mask << lsb;
        let moved: u128 = v << lsb;
        let r: u128 = (self & !mask) | (moved & mask);
        assert forall|k: int| r.has_bit(k) == (if lsb <= k <= msb {
            v.has_bit(k - lsb)
        } else {
            self.has_bit(k)
        }) by {
            if 0 <= k < 128 {
                lemma_u128_word(self, moved, mask, false, 0, k as u32);
                lemma_u128_word(low_mask, 0, 0, false, lsb as u32, k as u32);
                lemma_u128_word(v, 0, 0, false, lsb as u32, k as u32);
                if k >= lsb {
                    lemma_u128_word(ones, 0, 0, false, (high + lsb) as u32, (k - lsb) as u32);
                    if k + high < 128 {
                        lemma_u128_word(!0u128, 0, 0, false, high as u32, (k + high) as u32);
                    }
                }
            }
        }
        r
    }
}

} // verus!
