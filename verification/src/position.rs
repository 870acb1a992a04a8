//! Where a field lies: a single bit, a range of bits, or an array of consecutive ranges.
use crate::value::BitValue;
use crate::digits::{digit, lemma_digit_of_block, lemma_digits_determine, lemma_pow2_ordered};
use crate::word::Word;
use vstd::arithmetic::power2::pow2;
use vstd::prelude::*;

verus! {

/// The bit positions of one declared field.
#[derive(Clone, Copy, Debug, PartialEq, Eq, Structural)]
pub enum BitRangeSpec {
    /// One bit, at the given position.
    SingleBit(usize),
    /// The inclusive range from `lsb` up to `msb`, given as `(msb, lsb)`.
    Range(usize, usize),
    /// An array, given as `(msb, lsb, count)`: `count` ranges of the width of `lsb..=msb`,
    /// the first at `lsb..=msb`, each of the others right above the one before.
    StridedRange(usize, usize, usize),
}

/// Why a list of positions does not describe a field.
#[derive(Clone, Copy, Debug, PartialEq, Eq, Structural)]
pub enum PositionError {
    /// The list is empty or has more than three entries.
    UnsupportedArity,
    /// The most significant position lies below the least significant one.
    MsbBelowLsb,
    /// An array of no elements was asked for.
    EmptyArray,
    /// The field reaches up to or beyond the largest position a `usize` can name.
    OutOfRange,
}

impl BitRangeSpec {
    /// The lowest position of the field.
    pub open spec fn lsb(self) -> int {
        match self {
            BitRangeSpec::SingleBit(bit) => bit as int,
            BitRangeSpec::Range(_, lsb) => lsb as int,
            BitRangeSpec::StridedRange(_, lsb, _) => lsb as int,
        }
    }

    /// The highest position of the first element of the field.
    pub open spec fn msb(self) -> int {
        match self {
            BitRangeSpec::SingleBit(bit) => bit as int,
            BitRangeSpec::Range(msb, _) => msb as int,
            BitRangeSpec::StridedRange(msb, _, _) => msb as int,
        }
    }

    /// The number of elements: one, unless the field is an array.
    pub open spec fn count(self) -> int {
        match self {
            BitRangeSpec::SingleBit(_) => 1,
            BitRangeSpec::Range(_, _) => 1,
            BitRangeSpec::StridedRange(_, _, count) => count as int,
        }
    }

    /// The number of bits of one element.
    pub open spec fn width(self) -> int {
        self.msb() - self.lsb() + 1
    }

    /// The lowest position of element `k`.
    pub open spec fn element_lsb(self, k: int) -> int {
        self.lsb() + k * self.width()
    }

    /// The highest position of element `k`.
    pub open spec fn element_msb(self, k: int) -> int {
        self.msb() + k * self.width()
    }

    /// The highest position of the whole field.
    pub open spec fn last(self) -> int {
        self.element_msb(self.count() - 1)
    }

    /// Whether position `i` belongs to the field.
    pub open spec fn covers(self, i: int) -> bool {
        self.lsb() <= i <= self.last()
    }

    /// A field is well formed if its range is not empty, it has at least one element and all
    /// its positions lie below `usize::MAX`.
    pub open spec fn wf(self) -> bool {
        &&& self.lsb() <= self.msb()
        &&& self.count() >= 1
        &&& self.last() < usize::MAX
    }

    /// The field that a list of one, two or three positions describes, or the reason why the
    /// list describes none: `[bit]` is a single bit, `[msb, lsb]` a range and
    /// `[msb, lsb, count]` an array.
    pub fn from_positions(positions: &[usize]) -> (r: Result<BitRangeSpec, PositionError>)
        ensures
            r == Self::resolve(positions@),
    {
        let n: usize = positions.len();
        if n == 1 {
            BitRangeSpec::SingleBit(positions[0]).check()
        } else if n == 2 {
            BitRangeSpec::Range(positions[0], positions[1]).check()
        } else if n == 3 {
            BitRangeSpec::StridedRange(positions[0], positions[1], positions[2]).check()
        } else {
            Err(PositionError::UnsupportedArity)
        }
    }

    /// The field itself if it is well formed, else the first rule that it breaks.
    pub fn check(self) -> (r: Result<BitRangeSpec, PositionError>)
        ensures
            r == Self::checked(self),
            r is Ok <==> self.wf(),
    {
        match self {
            BitRangeSpec::SingleBit(bit) => {
                if bit == usize::MAX {
                    return Err(PositionError::OutOfRange);
                }
                Ok(self)
            },
            BitRangeSpec::Range(msb, lsb) => {
                if msb < lsb {
                    return Err(PositionError::MsbBelowLsb);
                }
                if msb == usize::MAX {
                    return Err(PositionError::OutOfRange);
                }
                Ok(self)
            },
            BitRangeSpec::StridedRange(msb, lsb, count) => {
                if msb < lsb {
                    return Err(PositionError::MsbBelowLsb);
                }
                if count == 0 {
                    return Err(PositionError::EmptyArray);
                }
                if msb == usize::MAX {
                    return Err(PositionError::OutOfRange);
                }
                let width: usize = msb - lsb + 1;
                assert(width * (count - 1) == (count - 1) * width) by (nonlinear_arith);
                assert(self.last() == msb + (count - 1) * width);
                match width.checked_mul(count - 1) {
                    None => Err(PositionError::OutOfRange),
                    Some(above) => {
                        match msb.checked_add(above) {
                            None => Err(PositionError::OutOfRange),
                            Some(last) => {
                                if last == usize::MAX {
                                    Err(PositionError::OutOfRange)
                                } else {
                                    Ok(self)
                                }
                            },
                        }
                    },
                }
            },
        }
    }

    /// What `from_positions` makes of a list of positions.
    pub open spec fn resolve(positions: Seq<usize>) -> Result<BitRangeSpec, PositionError> {
        if positions.len() == 1 {
            Self::checked(BitRangeSpec::SingleBit(positions[0]))
        } else if positions.len() == 2 {
            Self::checked(BitRangeSpec::Range(positions[0], positions[1]))
        } else if positions.len() == 3 {
            Self::checked(BitRangeSpec::StridedRange(positions[0], positions[1], positions[2]))
        } else {
            Err(PositionError::UnsupportedArity)
        }
    }

    /// A field if it is well formed, else the first rule that it breaks.
    pub open spec fn checked(field: BitRangeSpec) -> Result<BitRangeSpec, PositionError> {
        if field.msb() < field.lsb() {
            Err(PositionError::MsbBelowLsb)
        } else if field.count() < 1 {
            Err(PositionError::EmptyArray)
        } else if field.last() >= usize::MAX {
            Err(PositionError::OutOfRange)
        } else {
            Ok(field)
        }
    }

    /// The number of elements of the field.
    pub fn len(&self) -> (n: usize)
        ensures
            n == self.count(),
    {
        match self {
            BitRangeSpec::SingleBit(_) => 1,
            BitRangeSpec::Range(_, _) => 1,
            BitRangeSpec::StridedRange(_, _, count) => *count,
        }
    }

    /// The number of bits of one element of the field.
    pub fn bit_width(&self) -> (n: usize)
        requires
            self.wf(),
        ensures
            n == self.width(),
    {
        proof {
            self.lemma_elements_ordered(0, self.count() - 1);
        }
        match self {
            BitRangeSpec::SingleBit(_) => 1,
            BitRangeSpec::Range(msb, lsb) => *msb - *lsb + 1,
            BitRangeSpec::StridedRange(msb, lsb, _) => *msb - *lsb + 1,
        }
    }

    /// The range `(msb, lsb)` of element `index` of the field: the range of the first element
    /// moved up by `index` times its width.
    pub fn element(&self, index: usize) -> (r: (usize, usize))
        requires
            self.wf(),
            index < self.count(),
        ensures
            r.0 == self.element_msb(index as int),
            r.1 == self.element_lsb(index as int),
            r.1 <= r.0 <= self.last(),
    {
        proof {
            self.lemma_elements_ordered(index as int, self.count() - 1);
            self.lemma_elements_ordered(0, index as int);
        }
        match self {
            BitRangeSpec::SingleBit(bit) => (*bit, *bit),
            BitRangeSpec::Range(msb, lsb) => (*msb, *lsb),
            BitRangeSpec::StridedRange(msb, lsb, _) => {
                let width: usize = *msb - *lsb + 1;
                assert(0 <= index * width <= self.element_msb(index as int)) by (nonlinear_arith)
                    requires
                        width == self.width(),
                        0 <= index,
                        0 < width,
                        0 <= self.msb(),
                        self.element_msb(index as int) == self.msb() + index * self.width(),
                ;
                let lsb: usize = *lsb + index * width;
                let msb: usize = lsb + width - 1;
                (msb, lsb)
            },
        }
    }

    /// The mask of the field as a number: the sum of `2^i` over the positions `i` of the
    /// field, which lie from the lowest position up to the highest without a gap.
    pub open spec fn mask_value(self) -> int {
        pow2((self.last() + 1) as nat) - pow2(self.lsb() as nat)
    }

    /// The mask of the field: the word in which exactly the bits at the positions of the
    /// field are set.
    pub fn mask<M: Word>(&self) -> (m: M)
        requires
            self.wf(),
            self.last() < M::width(),
        ensures
            forall|i: int| 0 <= i < M::width() ==> m.has_bit(i) == self.covers(i),
            m.as_int() == self.mask_value(),
    {
        proof {
            M::lemma_width();
            M::lemma_unsigned();
            self.lemma_elements_ordered(0, self.count() - 1);
        }
        let (_, lsb) = self.element(0);
        let (last, _) = self.element(self.len() - 1);
        let mut acc: M = M::zero();
        let mut i: usize = lsb;
        while i <= last
            invariant
                lsb == self.lsb(),
                last == self.last(),
                lsb <= i <= last + 1,
                last < M::width() <= 128,
                forall|j: int| 0 <= j < M::width() ==> acc.has_bit(j) == (lsb <= j < i),
            decreases last + 1 - i,
        {
            acc = acc.with_bit(i, true);
            i = i + 1;
        }
        proof {
            let value = acc.as_int();
            let block = self.mask_value();
            acc.lemma_range();
            lemma_digit_of_block((last + 1) as nat, lsb as nat, 0);
            lemma_pow2_ordered((last + 1) as nat, M::width());
            assert forall|k: nat| k < M::width() implies digit(value, k) == digit(block, k) by {
                acc.lemma_bit_is_digit(k as int);
                lemma_digit_of_block((last + 1) as nat, lsb as nat, k);
            }
            lemma_digits_determine(value, block, M::width());
        }
        acc
    }

    /// The elements of a well-formed field follow each other without a gap: element `j + 1`
    /// starts right above element `j`, so a later element lies wholly above an earlier one.
    pub proof fn lemma_elements_ordered(self, j: int, k: int)
        requires
            self.lsb() <= self.msb(),
            0 <= j <= k,
        ensures
            self.element_lsb(j) <= self.element_msb(j),
            self.element_msb(j) <= self.element_msb(k),
            self.element_lsb(j) <= self.element_lsb(k),
            self.element_lsb(j + 1) == self.element_msb(j) + 1,
            j < k ==> self.element_msb(j) < self.element_lsb(k),
    {
        let w = self.width();
        assert(j * w <= k * w) by (nonlinear_arith)
            requires
                0 <= j <= k,
                0 < w,
        ;
        assert((j + 1) * w == j * w + w) by (nonlinear_arith);
        if j < k {
            assert((j + 1) * w <= k * w) by (nonlinear_arith)
                requires
                    j + 1 <= k,
                    0 < w,
            ;
        }
    }

    /// The ranges of two different elements of an array never overlap.
    pub proof fn lemma_elements_disjoint(self, j: int, k: int, i: int)
        requires
            self.wf(),
            0 <= j < self.count(),
            0 <= k < self.count(),
            j != k,
            self.element_lsb(j) <= i <= self.element_msb(j),
        ensures
            !(self.element_lsb(k) <= i <= self.element_msb(k)),
    {
        if j < k {
            self.lemma_elements_ordered(j, k);
        } else {
            self.lemma_elements_ordered(k, j);
        }
    }
}

} // verus!
