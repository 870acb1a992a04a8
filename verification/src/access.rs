//! Accessors: reading and writing one element of a declared field.
//!
//! An element index must lie below the number of elements of the field. This is a
//! precondition of every accessor, so an index out of bounds is ruled out before the call
//! rather than trapped at run time.
use crate::model::{field_bit, is_field_value, with_field};
use crate::position::BitRangeSpec;
use crate::range::{Bit, BitMut, BitRange, BitRangeMut};
use crate::value::BitValue;
use vstd::prelude::*;
use vstd::std_specs::convert::FromSpec;

verus! {

/// Reads element `index` of `field`: the bits from `lsb + index * width` up to
/// `msb + index * width`, where `width` is the width of one element.
pub fn get_field<S: BitRange<T>, T: BitValue>(storage: &S, field: &BitRangeSpec, index: usize) -> (r: T)
    requires
        field.wf(),
        index < field.count(),
        field.element_msb(index as int) < storage.bits().len(),
        field.width() <= T::width(),
    ensures
        is_field_value(
            storage.bits(),
            S::msb0(),
            field.element_msb(index as int),
            field.element_lsb(index as int),
            r,
        ),
{
    let (msb, lsb) = field.element(index);
    storage.bit_range(msb, lsb)
}

/// Writes `value` to element `index` of `field`, leaving every position outside that element
/// as it was.
pub fn set_field<S: BitRangeMut<T>, T: BitValue>(storage: &mut S, field: &BitRangeSpec, index: usize, value: T)
    requires
        field.wf(),
        index < field.count(),
        field.element_msb(index as int) < old(storage).bits().len(),
    ensures
        final(storage).bits() == with_field(
            old(storage).bits(),
            S::msb0(),
            field.element_msb(index as int),
            field.element_lsb(index as int),
            value,
        ),
{
    let (msb, lsb) = field.element(index);
    storage.set_bit_range(msb, lsb, value);
}

/// Reads element `index` of a field whose elements are single bits.
pub fn get_flag<S: Bit>(storage: &S, field: &BitRangeSpec, index: usize) -> (r: bool)
    requires
        field.wf(),
        field.width() == 1,
        index < field.count(),
        field.element_lsb(index as int) < storage.bits().len(),
    ensures
        r == storage.bits()[field.element_lsb(index as int)],
{
    let (_, lsb) = field.element(index);
    storage.bit(lsb)
}

/// Writes element `index` of a field whose elements are single bits.
pub fn set_flag<S: BitMut>(storage: &mut S, field: &BitRangeSpec, index: usize, value: bool)
    requires
        field.wf(),
        field.width() == 1,
        index < field.count(),
        field.element_lsb(index as int) < old(storage).bits().len(),
    ensures
        final(storage).bits() == old(storage).bits().update(field.element_lsb(index as int), value),
{
    let (_, lsb) = field.element(index);
    storage.set_bit(lsb, value);
}

/// Reads element `index` of `field` and converts the raw value to the type that the field
/// is declared to hand out. The conversion cannot fail.
pub fn get_field_into<S: BitRange<T>, T: BitValue, U: From<T>>(storage: &S, field: &BitRangeSpec, index: usize) -> (r:
    U)
    requires
        field.wf(),
        index < field.count(),
        field.element_msb(index as int) < storage.bits().len(),
        field.width() <= T::width(),
    ensures
        U::obeys_from_spec() ==> exists|raw: T|
            is_field_value(
                storage.bits(),
                S::msb0(),
                field.element_msb(index as int),
                field.element_lsb(index as int),
                raw,
            ) && r == U::from_spec(raw),
{
    let raw: T = get_field(storage, field, index);
    U::from(raw)
}

/// Converts `value` to the raw type of the field and writes it to element `index` of `field`.
/// The conversion cannot fail.
pub fn set_field_from<S: BitRangeMut<T>, T: BitValue + From<U>, U>(
    storage: &mut S,
    field: &BitRangeSpec,
    index: usize,
    value: U,
)
    requires
        field.wf(),
        index < field.count(),
        field.element_msb(index as int) < old(storage).bits().len(),
    ensures
        T::obeys_from_spec() ==> final(storage).bits() == with_field(
            old(storage).bits(),
            S::msb0(),
            field.element_msb(index as int),
            field.element_lsb(index as int),
            T::from_spec(value),
        ),
{
    let raw: T = T::from(value);
    set_field(storage, field, index, raw);
}

/// Writing one element of an array leaves every other element as it was: what is read from
/// element `k` before the write is read from it after the write.
pub proof fn lemma_write_keeps_other_elements<T: BitValue, U: BitValue>(
    bits: Seq<bool>,
    msb0: bool,
    field: BitRangeSpec,
    j: int,
    k: int,
    v: T,
    r: U,
)
    requires
        field.wf(),
        0 <= j < field.count(),
        0 <= k < field.count(),
        j != k,
        field.last() < bits.len(),
        is_field_value(bits, msb0, field.element_msb(k), field.element_lsb(k), r),
    ensures
        is_field_value(
            with_field(bits, msb0, field.element_msb(j), field.element_lsb(j), v),
            msb0,
            field.element_msb(k),
            field.element_lsb(k),
            r,
        ),
{
    let written = with_field(bits, msb0, field.element_msb(j), field.element_lsb(j), v);
    let msb = field.element_msb(k);
    let lsb = field.element_lsb(k);
    field.lemma_elements_ordered(0, k);
    field.lemma_elements_ordered(k, field.count() - 1);
    assert forall|i: int| lsb <= i <= msb implies written[i] == bits[i] by {
        field.lemma_elements_disjoint(k, j, i);
    }
    assert forall|n: int| 0 <= n < U::width() implies #[trigger] r.has_bit(n) == field_bit(
        written,
        msb0,
        U::signed(),
        msb,
        lsb,
        n,
    ) by {
        assert(r.has_bit(n) == field_bit(bits, msb0, U::signed(), msb, lsb, n));
    }
}

} // verus!
