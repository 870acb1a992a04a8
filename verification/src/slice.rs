//! Sequences of words as backing storage, in both bit numberings.
//!
//! Position `i` lies in the word `i / W`, where `W` is the width of a word. Under LSB0 it is
//! bit `i % W` of that word, under MSB0 bit `W - 1 - i % W`.
use crate::model::{field_bit, field_index, is_field_value, value_index, with_field};
use crate::range::{BitRange, BitRangeMut, BitView};
use crate::value::BitValue;
use crate::word::Word;
use vstd::arithmetic::div_mod::{lemma_fundamental_div_mod, lemma_fundamental_div_mod_converse, lemma_mod_bound};
use vstd::prelude::*;

verus! {

/// The bit of its word that position `i` stands for, in words of `w` bits.
pub open spec fn bit_offset(msb0: bool, w: int, i: int) -> int {
    if msb0 {
        w - 1 - i % w
    } else {
        i % w
    }
}

/// The bit string that a sequence of words holds.
pub open spec fn slice_bits<E: Word>(words: Seq<E>, msb0: bool) -> Seq<bool> {
    Seq::new(
        words.len() * E::width(),
        |i: int| words[i / (E::width() as int)].has_bit(bit_offset(msb0, E::width() as int, i)),
    )
}

/// A sequence of words in which position 0 is the least significant bit of the first word.
#[derive(Debug, PartialEq, Eq)]
pub struct SliceLsb0<E>(pub Vec<E>);

/// A sequence of words in which position 0 is the most significant bit of the first word.
#[derive(Debug, PartialEq, Eq)]
pub struct SliceMsb0<E>(pub Vec<E>);

/// A position below `len * w` lies in one of the `len` words, at an offset below `w`.
pub proof fn lemma_place_in_bounds(i: int, len: int, w: int)
    requires
        0 < w,
        0 <= i < len * w,
    ensures
        0 <= i / w < len,
        0 <= i % w < w,
{
    lemma_fundamental_div_mod(i, w);
    lemma_mod_bound(i, w);
    assert(0 <= i / w < len) by (nonlinear_arith)
        requires
            0 < w,
            0 <= i < len * w,
            i == w * (i / w) + i % w,
            0 <= i % w < w,
    ;
}

/// Two positions in the same word at the same offset are the same position.
pub proof fn lemma_same_place(i: int, j: int, w: int)
    requires
        0 < w,
        i / w == j / w,
        i % w == j % w,
    ensures
        i == j,
{
    lemma_fundamental_div_mod(i, w);
    lemma_fundamental_div_mod(j, w);
}

/// Position `i` is the bit at offset `i % w` of word `i / w` under LSB0 and the bit at
/// offset `w - 1 - i % w` of that word under MSB0: setting the position makes that one bit of
/// that one word equal to `b` and changes no other bit of any word.
pub proof fn lemma_set_position<E: Word>(before: Seq<E>, after: Seq<E>, msb0: bool, i: int, b: bool)
    requires
        0 <= i < before.len() * E::width(),
        after.len() == before.len(),
        slice_bits(after, msb0) == slice_bits(before, msb0).update(i, b),
    ensures
        0 <= i / (E::width() as int) < before.len(),
        0 <= bit_offset(msb0, E::width() as int, i) < E::width(),
        after[i / (E::width() as int)].has_bit(bit_offset(msb0, E::width() as int, i)) == b,
        forall|j: int, k: int|
            0 <= j < before.len() && 0 <= k < E::width() && !(j == i / (E::width() as int) && k == bit_offset(
                msb0,
                E::width() as int,
                i,
            )) ==> after[j].has_bit(k) == before[j].has_bit(k),
{
    E::lemma_width();
    let w = E::width() as int;
    lemma_place_in_bounds(i, before.len() as int, w);
    assert(slice_bits(after, msb0)[i] == b);
    assert forall|j: int, k: int|
        0 <= j < before.len() && 0 <= k < w && !(j == i / w && k == bit_offset(msb0, w, i)) implies after[j].has_bit(
        k,
    ) == before[j].has_bit(k) by {
        let offset = if msb0 { w - 1 - k } else { k };
        let p = j * w + offset;
        lemma_fundamental_div_mod_converse(p, w, j, offset);
        assert(0 <= p < before.len() * w) by (nonlinear_arith)
            requires
                0 <= j < before.len(),
                0 <= offset < w,
                p == j * w + offset,
        ;
        assert(bit_offset(msb0, w, p) == k);
        assert(p != i);
        assert(slice_bits(after, msb0)[p] == slice_bits(before, msb0)[p]);
    }
}

/// The bit at position `i`.
fn read_place<E: Word>(words: &[E], msb0: bool, i: usize) -> (b: bool)
    requires
        i < words@.len() * E::width(),
    ensures
        b == slice_bits(words@, msb0)[i as int],
{
    let w: usize = E::bit_len();
    proof {
        E::lemma_width();
        lemma_place_in_bounds(i as int, words@.len() as int, w as int);
    }
    let word: E = words[i / w];
    let offset: usize = if msb0 {
        w - i % w - 1
    } else {
        i % w
    };
    word.test_bit(offset)
}

/// Makes the bit at position `i` equal to `b`.
fn write_place<E: Word>(words: &mut Vec<E>, msb0: bool, i: usize, b: bool)
    requires
        i < old(words)@.len() * E::width(),
    ensures
        final(words)@.len() == old(words)@.len(),
        slice_bits(final(words)@, msb0) == slice_bits(old(words)@, msb0).update(i as int, b),
{
    let w: usize = E::bit_len();
    proof {
        E::lemma_width();
        lemma_place_in_bounds(i as int, words@.len() as int, w as int);
    }
    let at: usize = i / w;
    let offset: usize = if msb0 {
        w - i % w - 1
    } else {
        i % w
    };
    let word: E = words[at];
    let changed: E = word.with_bit(offset, b);
    words.set(at, changed);
    proof {
        let before = slice_bits(old(words)@, msb0);
        let after = slice_bits(words@, msb0);
        assert(after.len() == before.len());
        assert forall|j: int| 0 <= j < before.len() implies after[j] == before.update(i as int, b)[j] by {
            lemma_place_in_bounds(j, old(words)@.len() as int, w as int);
            if j / (w as int) == at && j != i {
                if j % (w as int) == (i as int) % (w as int) {
                    lemma_same_place(i as int, j, w as int);
                }
            }
        }
        assert(after =~= before.update(i as int, b));
    }
}

/// Reads the field `lsb..=msb` of a sequence of words.
///
/// The bits are taken one by one, the most significant bit of the field first, and shifted
/// into the result; the result is then extended to the width of `T`.
pub fn read_bits<E: Word, T: BitValue>(words: &[E], msb0: bool, msb: usize, lsb: usize) -> (r: T)
    requires
        lsb <= msb < words@.len() * E::width(),
        msb - lsb < T::width(),
    ensures
        is_field_value(slice_bits(words@, msb0), msb0, msb as int, lsb as int, r),
{
    let ghost bits = slice_bits(words@, msb0);
    proof {
        T::lemma_width();
    }
    let top: usize = msb - lsb;
    let mut value: T = T::zero();
    let mut n: usize = 0;
    while n <= top
        invariant
            lsb <= msb < words@.len() * E::width(),
            top == msb - lsb,
            top < T::width() <= 128,
            bits == slice_bits(words@, msb0),
            n <= top + 1,
            forall|j: int|
                0 <= j < n ==> #[trigger] value.has_bit(j) == bits[field_index(
                    msb0,
                    msb as int,
                    lsb as int,
                    top + 1 - n + j,
                )],
        decreases top + 1 - n,
    {
        let k: usize = top - n;
        let i: usize = if msb0 {
            msb - k
        } else {
            lsb + k
        };
        let b: bool = read_place(words, msb0, i);
        let ghost shorter = value;
        value = value.push_bit(b);
        n = n + 1;
        proof {
            assert forall|j: int| 0 <= j < n implies #[trigger] value.has_bit(j) == bits[field_index(
                msb0,
                msb as int,
                lsb as int,
                top + 1 - n + j,
            )] by {
                if j > 0 {
                    assert(value.has_bit(j) == shorter.has_bit(j - 1));
                }
            }
        }
    }
    let r: T = value.extend(top + 1);
    proof {
        assert forall|k: int| 0 <= k < T::width() implies #[trigger] r.has_bit(k) == field_bit(
            bits,
            msb0,
            T::signed(),
            msb as int,
            lsb as int,
            k,
        ) by {
            let j = if k <= top { k } else { top as int };
            assert(value.has_bit(j) == bits[field_index(msb0, msb as int, lsb as int, j)]);
        }
    }
    r
}

/// Writes `value` to the field `lsb..=msb` of a sequence of words.
///
/// The bits of `value` are taken one by one, the least significant first, and each is put in
/// its position; what `value` holds above the width of the field is never looked at.
pub fn write_bits<E: Word, T: BitValue>(words: &mut Vec<E>, msb0: bool, msb: usize, lsb: usize, value: T)
    requires
        lsb <= msb < old(words)@.len() * E::width(),
    ensures
        final(words)@.len() == old(words)@.len(),
        slice_bits(final(words)@, msb0) == with_field(
            slice_bits(old(words)@, msb0),
            msb0,
            msb as int,
            lsb as int,
            value,
        ),
{
    let ghost before = slice_bits(words@, msb0);
    let top: usize = msb - lsb;
    let mut rest: T = value;
    let mut n: usize = 0;
    loop
        invariant_except_break
            n <= top,
            forall|k: int| 0 <= k ==> #[trigger] rest.has_bit(k) == value.has_bit(k + n),
            slice_bits(words@, msb0) =~= Seq::new(
                before.len(),
                |i: int|
                    if lsb <= i <= msb && value_index(msb0, msb as int, lsb as int, i) < n {
                        value.has_bit(value_index(msb0, msb as int, lsb as int, i))
                    } else {
                        before[i]
                    },
            ),
        invariant
            lsb <= msb < words@.len() * E::width(),
            words@.len() == old(words)@.len(),
            before == slice_bits(old(words)@, msb0),
            top == msb - lsb,
        ensures
            slice_bits(words@, msb0) =~= with_field(before, msb0, msb as int, lsb as int, value),
        decreases top - n,
    {
        let i: usize = if msb0 {
            msb - n
        } else {
            lsb + n
        };
        let b: bool = rest.low_bit();
        write_place(words, msb0, i, b);
        proof {
            assert(rest.has_bit(0) == value.has_bit(0 + n));
        }
        if n == top {
            break ;
        }
        let ghost longer = rest;
        rest = rest.drop_bit();
        n = n + 1;
        proof {
            assert forall|k: int| 0 <= k implies #[trigger] rest.has_bit(k) == value.has_bit(k + n) by {
                assert(longer.has_bit(k + 1) == value.has_bit(k + 1 + (n - 1)));
            }
        }
    }
}

/// A bitwise operation that combines two storages position by position.
#[derive(Clone, Copy, Debug, PartialEq, Eq, Structural)]
pub enum BitOp {
    /// A bit is set where both have it set.
    And,
    /// A bit is set where at least one has it set.
    Or,
    /// A bit is set where exactly one has it set.
    Xor,
}

impl BitOp {
    /// The bit that the operation makes of two bits.
    pub open spec fn apply(self, a: bool, b: bool) -> bool {
        match self {
            BitOp::And => a && b,
            BitOp::Or => a || b,
            BitOp::Xor => a != b,
        }
    }
}

/// Combines each word with the word of `rhs` at the same index. `rhs` must have a word for
/// each word that is combined; further words of `rhs` are not looked at.
pub fn combine_words<E: Word>(words: &mut Vec<E>, rhs: &Vec<E>, op: BitOp)
    requires
        old(words)@.len() <= rhs@.len(),
    ensures
        final(words)@.len() == old(words)@.len(),
        forall|i: int, k: int|
            0 <= i < old(words)@.len() ==> #[trigger] final(words)@[i].has_bit(k) == op.apply(
                old(words)@[i].has_bit(k),
                rhs@[i].has_bit(k),
            ),
{
    let mut i: usize = 0;
    while i < words.len()
        invariant
            i <= words@.len(),
            words@.len() == old(words)@.len(),
            words@.len() <= rhs@.len(),
            forall|j: int| i <= j < words@.len() ==> words@[j] == old(words)@[j],
            forall|j: int, k: int|
                0 <= j < i ==> #[trigger] words@[j].has_bit(k) == op.apply(
                    old(words)@[j].has_bit(k),
                    rhs@[j].has_bit(k),
                ),
        decreases words@.len() - i,
    {
        let left: E = words[i];
        let right: E = rhs[i];
        let both: E = match op {
            BitOp::And => left.and(right),
            BitOp::Or => left.or(right),
            BitOp::Xor => left.xor(right),
        };
        words.set(i, both);
        i = i + 1;
    }
}

/// Combining the words of two sequences combines their bit strings position by position,
/// in either numbering.
pub proof fn lemma_combined_bits<E: Word>(before: Seq<E>, rhs: Seq<E>, after: Seq<E>, op: BitOp, msb0: bool, p: int)
    requires
        after.len() == before.len() <= rhs.len(),
        forall|i: int, k: int|
            0 <= i < before.len() ==> #[trigger] after[i].has_bit(k) == op.apply(
                before[i].has_bit(k),
                rhs[i].has_bit(k),
            ),
        0 <= p < before.len() * E::width(),
    ensures
        slice_bits(after, msb0)[p] == op.apply(slice_bits(before, msb0)[p], slice_bits(rhs, msb0)[p]),
{
    E::lemma_width();
    let w = E::width() as int;
    lemma_place_in_bounds(p, before.len() as int, w);
    assert(p < rhs.len() * w) by (nonlinear_arith)
        requires
            p < before.len() * w,
            before.len() <= rhs.len(),
            0 < w,
    ;
    assert(after[p / w].has_bit(bit_offset(msb0, w, p)) == op.apply(
        before[p / w].has_bit(bit_offset(msb0, w, p)),
        rhs[p / w].has_bit(bit_offset(msb0, w, p)),
    ));
}

impl<E: Word> SliceLsb0<E> {
    /// Combines the storage with `rhs`, position by position.
    pub fn combine(&mut self, rhs: &Self, op: BitOp)
        requires
            old(self).0@.len() <= rhs.0@.len(),
        ensures
            final(self).0@.len() == old(self).0@.len(),
            forall|p: int|
                0 <= p < old(self).bits().len() ==> #[trigger] final(self).bits()[p] == op.apply(
                    old(self).bits()[p],
                    rhs.bits()[p],
                ),
    {
        combine_words(&mut self.0, &rhs.0, op);
        proof {
            assert forall|p: int| 0 <= p < old(self).bits().len() implies #[trigger] self.bits()[p] == op.apply(
                old(self).bits()[p],
                rhs.bits()[p],
            ) by {
                lemma_combined_bits(old(self).0@, rhs.0@, self.0@, op, false, p);
            }
        }
    }
}

impl<E: Word> SliceMsb0<E> {
    /// Combines the storage with `rhs`, position by position.
    pub fn combine(&mut self, rhs: &Self, op: BitOp)
        requires
            old(self).0@.len() <= rhs.0@.len(),
        ensures
            final(self).0@.len() == old(self).0@.len(),
            forall|p: int|
                0 <= p < old(self).bits().len() ==> #[trigger] final(self).bits()[p] == op.apply(
                    old(self).bits()[p],
                    rhs.bits()[p],
                ),
    {
        combine_words(&mut self.0, &rhs.0, op);
        proof {
            assert forall|p: int| 0 <= p < old(self).bits().len() implies #[trigger] self.bits()[p] == op.apply(
                old(self).bits()[p],
                rhs.bits()[p],
            ) by {
                lemma_combined_bits(old(self).0@, rhs.0@, self.0@, op, true, p);
            }
        }
    }
}

impl<E: Word> BitView for SliceLsb0<E> {
    open spec fn bits(&self) -> Seq<bool> {
        slice_bits(self.0@, false)
    }

    open spec fn msb0() -> bool {
        false
    }
}

impl<E: Word> BitView for SliceMsb0<E> {
    open spec fn bits(&self) -> Seq<bool> {
        slice_bits(self.0@, true)
    }

    open spec fn msb0() -> bool {
        true
    }
}

impl<E: Word, T: BitValue> BitRange<T> for SliceLsb0<E> {
    fn bit_range(&self, msb: usize, lsb: usize) -> (r: T) {
        read_bits(self.0.as_slice(), false, msb, lsb)
    }
}

impl<E: Word, T: BitValue> BitRangeMut<T> for SliceLsb0<E> {
    fn set_bit_range(&mut self, msb: usize, lsb: usize, value: T)
        ensures
            final(self).0@.len() == old(self).0@.len(),
    {
        write_bits(&mut self.0, false, msb, lsb, value);
    }
}

impl<E: Word, T: BitValue> BitRange<T> for SliceMsb0<E> {
    fn bit_range(&self, msb: usize, lsb: usize) -> (r: T) {
        read_bits(self.0.as_slice(), true, msb, lsb)
    }
}

impl<E: Word, T: BitValue> BitRangeMut<T> for SliceMsb0<E> {
    fn set_bit_range(&mut self, msb: usize, lsb: usize, value: T)
        ensures
            final(self).0@.len() == old(self).0@.len(),
    {
        write_bits(&mut self.0, true, msb, lsb, value);
    }
}

} // verus!
