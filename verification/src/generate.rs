//! The generator: from declared fields to the accessors, mask constants, constructor
//! parameters and debug entries that are to be emitted for them.
//!
//! Nothing here emits text. Each function decides, for every declared field, whether an
//! item is due and what it is, and reports a malformed declaration as an error that names the
//! field. Items refer to their field by its index in the list of fields.
use crate::fields::{BitfieldField, BitfieldFieldLines, FieldTy, Only, resolve_lines};
use crate::position::{BitRangeSpec, PositionError};
use crate::types::TypeName;
use vstd::prelude::*;

verus! {

/// What is wrong with a declaration.
#[derive(Clone, Copy, Debug, PartialEq, Eq, Structural)]
pub enum ErrorKind {
    /// A field of more than one bit names no type, and no default type is set before it.
    MissingType,
    /// A conversion is asked for, but no conversion type is given.
    MissingConversionType,
    /// The most significant position lies below the least significant one.
    MsbBelowLsb,
    /// The field is an array of no elements.
    EmptyArray,
    /// The field reaches beyond the positions that can be named.
    OutOfRange,
    /// An element of the field has more bits than its type can hold.
    TooWide,
    /// The field has positions that the type of its mask constant does not have.
    MaskTooNarrow,
    /// A constructor cannot take an array field.
    ArrayInConstructor,
    /// A field has one, two or three positions.
    UnsupportedArity,
}

impl ErrorKind {
    /// The message that reports the error.
    pub open spec fn text(self) -> Seq<char> {
        match self {
            ErrorKind::MissingType => "For non single bit field, you need to either specify a default type or a type for each field"@,
            ErrorKind::MissingConversionType => "A conversion needs a type"@,
            ErrorKind::MsbBelowLsb => "The msb of a field must not be below its lsb"@,
            ErrorKind::EmptyArray => "An array field needs at least one element"@,
            ErrorKind::OutOfRange => "The bit positions of the field are out of range"@,
            ErrorKind::TooWide => "The field has more bits than its type"@,
            ErrorKind::MaskTooNarrow => "The field has bits that the type of its mask lacks"@,
            ErrorKind::ArrayInConstructor => "Array fields as not supported in the `new` method generator"@,
            ErrorKind::UnsupportedArity => "A field has one, two or three bit positions"@,
        }
    }

    /// The message that reports the error.
    pub fn message(&self) -> (r: &'static str)
        ensures
            r@ == self.text(),
    {
        match self {
            ErrorKind::MissingType => "For non single bit field, you need to either specify a default type or a type for each field",
            ErrorKind::MissingConversionType => "A conversion needs a type",
            ErrorKind::MsbBelowLsb => "The msb of a field must not be below its lsb",
            ErrorKind::EmptyArray => "An array field needs at least one element",
            ErrorKind::OutOfRange => "The bit positions of the field are out of range",
            ErrorKind::TooWide => "The field has more bits than its type",
            ErrorKind::MaskTooNarrow => "The field has bits that the type of its mask lacks",
            ErrorKind::ArrayInConstructor => "Array fields as not supported in the `new` method generator",
            ErrorKind::UnsupportedArity => "A field has one, two or three bit positions",
        }
    }
}

/// A malformed declaration: which field, and what is wrong with it.
#[derive(Clone, Copy, Debug, PartialEq, Eq, Structural)]
pub struct GenerationError {
    /// The index of the field in the list of fields.
    pub field: usize,
    /// What is wrong.
    pub kind: ErrorKind,
}

/// The operation that a generated accessor performs on the storage.
#[derive(Clone, Copy, Debug, PartialEq, Eq, Structural)]
pub enum Via {
    /// Getting or setting a single bit, as `get_flag` and `set_flag` do.
    Bit,
    /// Getting or setting a range of bits, as `get_field_into` and `set_field_from` do.
    BitRange,
}

/// A getter to be generated.
#[derive(Debug, PartialEq, Eq)]
pub struct Getter {
    /// The index of the field.
    pub field: usize,
    /// The positions of the field.
    pub position: BitRangeSpec,
    /// The operation that reads the raw value.
    pub via: Via,
    /// The type of the raw value.
    pub raw: TypeName,
    /// The type that the getter returns.
    pub output: TypeName,
}

/// A setter to be generated.
#[derive(Debug, PartialEq, Eq)]
pub struct Setter {
    /// The index of the field.
    pub field: usize,
    /// The positions of the field.
    pub position: BitRangeSpec,
    /// The operation that writes the raw value.
    pub via: Via,
    /// The type of the raw value.
    pub raw: TypeName,
    /// The type that the setter takes.
    pub input: TypeName,
}

/// A mask constant to be generated.
#[derive(Debug, PartialEq, Eq)]
pub struct Mask {
    /// The index of the field.
    pub field: usize,
    /// The type of the constant.
    pub ty: TypeName,
    /// The bit pattern of the constant.
    pub value: u128,
}

/// A parameter of the constructor to be generated: it is handed to the setter of its field.
#[derive(Debug, PartialEq, Eq)]
pub struct ConstructorArg {
    /// The index of the field.
    pub field: usize,
    /// The type of the parameter.
    pub ty: TypeName,
}

/// An entry of the debug output to be generated.
#[derive(Clone, Copy, Debug, PartialEq, Eq, Structural)]
pub enum DebugEntry {
    /// The value that the getter of the field returns.
    Value(usize),
    /// The values that the getter of the array field returns, for each index below the count.
    Array(usize, usize),
}

/// All that is generated for a list of fields.
#[derive(Debug, PartialEq, Eq)]
pub struct Accessors {
    /// The getters, in the order of their fields.
    pub getters: Vec<Getter>,
    /// The setters, in the order of their fields.
    pub setters: Vec<Setter>,
    /// The mask constants, in the order of their fields.
    pub masks: Vec<Mask>,
}

/// The error kind that stands for a broken rule of positions.
pub open spec fn position_kind(e: PositionError) -> ErrorKind {
    match e {
        PositionError::MsbBelowLsb => ErrorKind::MsbBelowLsb,
        PositionError::EmptyArray => ErrorKind::EmptyArray,
        PositionError::OutOfRange => ErrorKind::OutOfRange,
        PositionError::UnsupportedArity => ErrorKind::UnsupportedArity,
    }
}

/// What is wrong with the positions of a field, if anything.
pub open spec fn position_fault(position: BitRangeSpec) -> Option<ErrorKind> {
    match BitRangeSpec::checked(position) {
        Ok(_) => None,
        Err(e) => Some(position_kind(e)),
    }
}

/// How a field is accessed, or what is wrong with its declaration: the operation, the raw
/// type that is read or written, and the type that the accessor hands out or takes.
/// `converted` is the type that the declaration gives for that side of the accessor.
///
/// A single bit is always a `bool`. An array whose declaration says `bool` is an array of
/// single bits, each read as a `bool`. Every other field is a range of its raw type, which
/// must be named and, where it is `bool` or an integer type, wide enough for one element.
pub open spec fn access_of(field: BitfieldField, converted: Option<TypeName>, getter: bool) -> Result<
    (Via, TypeName, TypeName),
    ErrorKind,
> {
    let position = field.bits_position;
    if position_fault(position) is Some {
        Err(position_fault(position)->0)
    } else if position is SingleBit {
        Ok((Via::Bit, TypeName::Bool, TypeName::Bool))
    } else if position is StridedRange && field.ty is Bool {
        if position.width() != 1 {
            Err(ErrorKind::TooWide)
        } else if getter {
            Ok((Via::Bit, TypeName::Bool, TypeName::Bool))
        } else if converted is None {
            Err(ErrorKind::MissingConversionType)
        } else {
            Ok((Via::Bit, TypeName::Bool, converted->0))
        }
    } else if field.ty.declared() is None {
        Err(ErrorKind::MissingType)
    } else if converted is None {
        Err(ErrorKind::MissingConversionType)
    } else if !field.ty.declared()->0.holds(position.width()) {
        Err(ErrorKind::TooWide)
    } else {
        Ok((Via::BitRange, field.ty.declared()->0, converted->0))
    }
}

/// The getter of field number `index`, if the field has one.
pub open spec fn getter_for(field: BitfieldField, index: int) -> Option<Result<Getter, GenerationError>> {
    if !field.wants_getter() {
        None
    } else {
        Some(
            match access_of(field, field.into_type(), true) {
                Ok((via, raw, output)) => Ok(
                    Getter { field: index as usize, position: field.bits_position, via, raw, output },
                ),
                Err(kind) => Err(GenerationError { field: index as usize, kind }),
            },
        )
    }
}

/// The setter of field number `index`, if the field has one.
pub open spec fn setter_for(field: BitfieldField, index: int) -> Option<Result<Setter, GenerationError>> {
    if !field.wants_setter() {
        None
    } else {
        Some(
            match access_of(field, field.from_type(), false) {
                Ok((via, raw, input)) => Ok(
                    Setter { field: index as usize, position: field.bits_position, via, raw, input },
                ),
                Err(kind) => Err(GenerationError { field: index as usize, kind }),
            },
        )
    }
}

/// The number of positions that a mask constant of the given type has: the capacity of the
/// type where it is known, else that of the widest integer.
pub open spec fn mask_capacity(ty: TypeName) -> int {
    match ty.capacity() {
        Some(bits) => bits,
        None => 128,
    }
}

/// The mask constant of field number `index`, if the field asks for one: the constant has
/// exactly the positions of the field set, over all elements of an array.
pub open spec fn mask_for(field: BitfieldField, index: int) -> Option<Result<Mask, GenerationError>> {
    match field.mask {
        None => None,
        Some(mask) => Some(
            if position_fault(field.bits_position) is Some {
                Err(GenerationError { field: index as usize, kind: position_fault(field.bits_position)->0 })
            } else if field.bits_position.last() >= mask_capacity(mask.ty) {
                Err(GenerationError { field: index as usize, kind: ErrorKind::MaskTooNarrow })
            } else {
                Ok(Mask { field: index as usize, ty: mask.ty, value: field.bits_position.mask_value() as u128 })
            },
        ),
    }
}

/// The constructor parameter of field number `index`, if the field has a setter: a `bool`
/// for a single bit, the type that the setter takes for a range. An array field with a setter
/// is an error.
pub open spec fn constructor_arg_for(field: BitfieldField, index: int) -> Option<
    Result<ConstructorArg, GenerationError>,
> {
    if !field.wants_setter() {
        None
    } else {
        Some(
            match field.bits_position {
                BitRangeSpec::SingleBit(_) => Ok(ConstructorArg { field: index as usize, ty: TypeName::Bool }),
                BitRangeSpec::Range(_, _) => match field.from_type() {
                    Some(ty) => Ok(ConstructorArg { field: index as usize, ty }),
                    None => Err(GenerationError { field: index as usize, kind: ErrorKind::MissingType }),
                },
                BitRangeSpec::StridedRange(_, _, _) => Err(
                    GenerationError { field: index as usize, kind: ErrorKind::ArrayInConstructor },
                ),
            },
        )
    }
}

/// The debug entry of field number `index`, if the field has a getter.
pub open spec fn debug_entry_for(field: BitfieldField, index: int) -> Option<Result<DebugEntry, GenerationError>> {
    if !field.wants_getter() {
        None
    } else {
        Some(
            Ok(
                match field.bits_position {
                    BitRangeSpec::StridedRange(_, _, count) => DebugEntry::Array(index as usize, count),
                    _ => DebugEntry::Value(index as usize),
                },
            ),
        )
    }
}

/// The items that `item` yields for the fields, in the order of the fields, or the error of
/// the first field for which `item` yields one. A field for which `item` yields nothing is
/// passed over.
pub open spec fn collect<T>(
    fields: Seq<BitfieldField>,
    item: spec_fn(BitfieldField, int) -> Option<Result<T, GenerationError>>,
) -> Result<Seq<T>, GenerationError>
    decreases fields.len(),
{
    if fields.len() == 0 {
        Ok(Seq::empty())
    } else {
        match collect(fields.drop_last(), item) {
            Err(e) => Err(e),
            Ok(items) => match item(fields.last(), fields.len() - 1) {
                None => Ok(items),
                Some(Ok(one)) => Ok(items.push(one)),
                Some(Err(e)) => Err(e),
            },
        }
    }
}

/// Whether `r` is what `expected` says, an `Ok` taken by the view of its vector.
pub open spec fn matches_items<T>(r: Result<Vec<T>, GenerationError>, expected: Result<Seq<T>, GenerationError>) -> bool {
    match r {
        Ok(items) => expected == Ok::<Seq<T>, GenerationError>(items@),
        Err(e) => expected == Err::<Seq<T>, GenerationError>(e),
    }
}

/// Collecting over the first `n + 1` fields is collecting over the first `n` and then
/// looking at field `n`.
pub proof fn lemma_collect_next<T>(
    fields: Seq<BitfieldField>,
    item: spec_fn(BitfieldField, int) -> Option<Result<T, GenerationError>>,
    n: int,
)
    requires
        0 <= n < fields.len(),
    ensures
        collect(fields.take(n + 1), item) == match collect(fields.take(n), item) {
            Err(e) => Err(e),
            Ok(items) => match item(fields[n], n) {
                None => Ok(items),
                Some(Ok(one)) => Ok(items.push(one)),
                Some(Err(e)) => Err(e),
            },
        },
{
    assert(fields.take(n + 1).drop_last() =~= fields.take(n));
}

/// An error among the first `n` fields is the error of the whole list.
pub proof fn lemma_collect_error<T>(
    fields: Seq<BitfieldField>,
    item: spec_fn(BitfieldField, int) -> Option<Result<T, GenerationError>>,
    n: int,
)
    requires
        0 <= n <= fields.len(),
        collect(fields.take(n), item) is Err,
    ensures
        collect(fields, item) == collect(fields.take(n), item),
    decreases fields.len() - n,
{
    if n == fields.len() {
        assert(fields.take(n) =~= fields);
    } else {
        lemma_collect_next(fields, item, n);
        lemma_collect_error(fields, item, n + 1);
    }
}

/// Whether `item` yields an error for field number `i`.
pub open spec fn fails_at<T>(
    fields: Seq<BitfieldField>,
    item: spec_fn(BitfieldField, int) -> Option<Result<T, GenerationError>>,
    i: int,
) -> bool {
    0 <= i < fields.len() && item(fields[i], i) is Some && item(fields[i], i)->0 is Err
}

/// Collecting fails exactly if `item` yields an error for some field, and then with the
/// error of the first such field.
pub proof fn lemma_collect_fails<T>(
    fields: Seq<BitfieldField>,
    item: spec_fn(BitfieldField, int) -> Option<Result<T, GenerationError>>,
)
    ensures
        collect(fields, item) is Ok <==> forall|i: int| !fails_at(fields, item, i),
        collect(fields, item) is Err ==> exists|i: int|
            fails_at(fields, item, i) && item(fields[i], i) == Some(
                Err::<T, GenerationError>(collect(fields, item)->Err_0),
            ) && forall|j: int| 0 <= j < i ==> !fails_at(fields, item, j),
    decreases fields.len(),
{
    if fields.len() > 0 {
        let front = fields.drop_last();
        let last = fields.len() - 1;
        lemma_collect_fails(front, item);
        assert forall|i: int| 0 <= i < last implies fails_at(front, item, i) == fails_at(fields, item, i) by {
            assert(front[i] == fields[i]);
        }
        if collect(front, item) is Err {
            let i = choose|i: int|
                fails_at(front, item, i) && item(front[i], i) == Some(
                    Err::<T, GenerationError>(collect(front, item)->Err_0),
                ) && forall|j: int| 0 <= j < i ==> !fails_at(front, item, j);
            assert(fails_at(fields, item, i));
            assert(front[i] == fields[i]);
            assert forall|j: int| 0 <= j < i implies !fails_at(fields, item, j) by {
                assert(!fails_at(front, item, j));
            }
        } else if fails_at(fields, item, last) {
            assert forall|j: int| 0 <= j < last implies !fails_at(fields, item, j) by {
                assert(!fails_at(front, item, j));
            }
        } else {
            assert forall|i: int| !fails_at(fields, item, i) by {
                if 0 <= i < last {
                    assert(!fails_at(front, item, i));
                }
            }
        }
    }
}

impl ErrorKind {
    /// The error kind that stands for a broken rule of positions.
    pub fn of_position(e: PositionError) -> (kind: ErrorKind)
        ensures
            kind == position_kind(e),
    {
        match e {
            PositionError::MsbBelowLsb => ErrorKind::MsbBelowLsb,
            PositionError::EmptyArray => ErrorKind::EmptyArray,
            PositionError::OutOfRange => ErrorKind::OutOfRange,
            PositionError::UnsupportedArity => ErrorKind::UnsupportedArity,
        }
    }
}

/// Decides how a field is accessed.
fn access(field: &BitfieldField, converted: Option<TypeName>, getter: bool) -> (r: Result<
    (Via, TypeName, TypeName),
    ErrorKind,
>)
    ensures
        r == access_of(*field, converted, getter),
{
    let position = match field.bits_position.check() {
        Ok(position) => position,
        Err(e) => {
            return Err(ErrorKind::of_position(e));
        },
    };
    match position {
        BitRangeSpec::SingleBit(_) => {
            return Ok((Via::Bit, TypeName::Bool, TypeName::Bool));
        },
        BitRangeSpec::StridedRange(_, _, _) => {
            if let FieldTy::Bool = field.ty {
                if position.bit_width() != 1 {
                    return Err(ErrorKind::TooWide);
                }
                if getter {
                    return Ok((Via::Bit, TypeName::Bool, TypeName::Bool));
                }
                return match converted {
                    Some(converted) => Ok((Via::Bit, TypeName::Bool, converted)),
                    None => Err(ErrorKind::MissingConversionType),
                };
            }
        },
        BitRangeSpec::Range(_, _) => {},
    }
    let raw: TypeName = match field.ty.as_type() {
        Some(raw) => raw,
        None => {
            return Err(ErrorKind::MissingType);
        },
    };
    let converted: TypeName = match converted {
        Some(converted) => converted,
        None => {
            return Err(ErrorKind::MissingConversionType);
        },
    };
    if !raw.can_hold(position.bit_width()) {
        return Err(ErrorKind::TooWide);
    }
    Ok((Via::BitRange, raw, converted))
}

/// The getters of the fields: one for each field whose getter is not suppressed, in the
/// order of the fields.
pub fn generate_getters(fields: &[BitfieldField]) -> (r: Result<Vec<Getter>, GenerationError>)
    ensures
        matches_items(r, collect(fields@, |f: BitfieldField, i: int| getter_for(f, i))),
{
    let ghost item = |f: BitfieldField, i: int| getter_for(f, i);
    let mut getters: Vec<Getter> = Vec::new();
    let mut i: usize = 0;
    while i < fields.len()
        invariant
            i <= fields.len(),
            item == (|f: BitfieldField, i: int| getter_for(f, i)),
            collect(fields@.take(i as int), item) == Ok::<Seq<Getter>, GenerationError>(getters@),
        decreases fields.len() - i,
    {
        let field: &BitfieldField = &fields[i];
        proof {
            lemma_collect_next(fields@, item, i as int);
        }
        if field.has_getter() {
            match access(field, field.ty_into(), true) {
                Ok((via, raw, output)) => {
                    getters.push(Getter { field: i, position: field.bits_position, via, raw, output });
                },
                Err(kind) => {
                    proof {
                        lemma_collect_error(fields@, item, i + 1);
                    }
                    return Err(GenerationError { field: i, kind });
                },
            }
        }
        i = i + 1;
    }
    proof {
        assert(fields@.take(i as int) =~= fields@);
    }
    Ok(getters)
}

/// The setters of the fields: one for each field whose setter is not suppressed, in the
/// order of the fields.
pub fn generate_setters(fields: &[BitfieldField]) -> (r: Result<Vec<Setter>, GenerationError>)
    ensures
        matches_items(r, collect(fields@, |f: BitfieldField, i: int| setter_for(f, i))),
{
    let ghost item = |f: BitfieldField, i: int| setter_for(f, i);
    let mut setters: Vec<Setter> = Vec::new();
    let mut i: usize = 0;
    while i < fields.len()
        invariant
            i <= fields.len(),
            item == (|f: BitfieldField, i: int| setter_for(f, i)),
            collect(fields@.take(i as int), item) == Ok::<Seq<Setter>, GenerationError>(setters@),
        decreases fields.len() - i,
    {
        let field: &BitfieldField = &fields[i];
        proof {
            lemma_collect_next(fields@, item, i as int);
        }
        if field.has_setter() {
            match access(field, field.ty_from(), false) {
                Ok((via, raw, input)) => {
                    setters.push(Setter { field: i, position: field.bits_position, via, raw, input });
                },
                Err(kind) => {
                    proof {
                        lemma_collect_error(fields@, item, i + 1);
                    }
                    return Err(GenerationError { field: i, kind });
                },
            }
        }
        i = i + 1;
    }
    proof {
        assert(fields@.take(i as int) =~= fields@);
    }
    Ok(setters)
}

/// The mask constants of the fields: one for each field that asks for one, in the order of
/// the fields, whether or not the field has accessors.
pub fn generate_masks(fields: &[BitfieldField]) -> (r: Result<Vec<Mask>, GenerationError>)
    ensures
        matches_items(r, collect(fields@, |f: BitfieldField, i: int| mask_for(f, i))),
{
    let ghost item = |f: BitfieldField, i: int| mask_for(f, i);
    let mut masks: Vec<Mask> = Vec::new();
    let mut i: usize = 0;
    while i < fields.len()
        invariant
            i <= fields.len(),
            item == (|f: BitfieldField, i: int| mask_for(f, i)),
            collect(fields@.take(i as int), item) == Ok::<Seq<Mask>, GenerationError>(masks@),
        decreases fields.len() - i,
    {
        let field: &BitfieldField = &fields[i];
        proof {
            lemma_collect_next(fields@, item, i as int);
        }
        if let Some(mask) = &field.mask {
            let position = match field.bits_position.check() {
                Ok(position) => position,
                Err(e) => {
                    proof {
                        lemma_collect_error(fields@, item, i + 1);
                    }
                    return Err(GenerationError { field: i, kind: ErrorKind::of_position(e) });
                },
            };
            let (last, _) = position.element(position.len() - 1);
            let capacity: usize = match &mask.ty {
                TypeName::Bool => 1,
                TypeName::Int(ty) => ty.bit_len(),
                TypeName::Other(_) => 128,
            };
            if last >= capacity {
                proof {
                    lemma_collect_error(fields@, item, i + 1);
                }
                return Err(GenerationError { field: i, kind: ErrorKind::MaskTooNarrow });
            }
            let value: u128 = position.mask::<u128>();
            masks.push(Mask { field: i, ty: mask.ty.clone(), value });
        }
        i = i + 1;
    }
    proof {
        assert(fields@.take(i as int) =~= fields@);
    }
    Ok(masks)
}

/// The getters, setters and mask constants of the fields, each kind only if `only` allows
/// it and empty otherwise, or the first error: that of the getters before that of the
/// setters, that of the setters before that of the masks.
pub open spec fn accessors_of(only: Only, fields: Seq<BitfieldField>) -> Result<
    (Seq<Getter>, Seq<Setter>, Seq<Mask>),
    GenerationError,
> {
    let getters = if only == Only::Getter || only == Only::All {
        collect(fields, |f: BitfieldField, i: int| getter_for(f, i))
    } else {
        Ok(Seq::empty())
    };
    let setters = if only == Only::Setter || only == Only::All {
        collect(fields, |f: BitfieldField, i: int| setter_for(f, i))
    } else {
        Ok(Seq::empty())
    };
    let masks = if only == Only::Mask || only == Only::All {
        collect(fields, |f: BitfieldField, i: int| mask_for(f, i))
    } else {
        Ok(Seq::empty())
    };
    if getters is Err {
        Err(getters->Err_0)
    } else if setters is Err {
        Err(setters->Err_0)
    } else if masks is Err {
        Err(masks->Err_0)
    } else {
        Ok((getters->Ok_0, setters->Ok_0, masks->Ok_0))
    }
}

/// What is generated for a declaration list: the getters, the setters and the mask
/// constants of its fields, or of these only the kind that `only` names. A kind that is not
/// asked for is left empty and cannot fail.
pub fn bitfield_fields(only: Only, lines: BitfieldFieldLines) -> (r: Result<Accessors, GenerationError>)
    ensures
        match r {
            Ok(accessors) => accessors_of(only, resolve_lines(lines.0@).0) == Ok::<
                (Seq<Getter>, Seq<Setter>, Seq<Mask>),
                GenerationError,
            >((accessors.getters@, accessors.setters@, accessors.masks@)),
            Err(e) => accessors_of(only, resolve_lines(lines.0@).0) == Err::<
                (Seq<Getter>, Seq<Setter>, Seq<Mask>),
                GenerationError,
            >(e),
        },
{
    let fields: Vec<BitfieldField> = lines.into_fields();
    let getters: Vec<Getter> = if only.getter_or_none() {
        match generate_getters(fields.as_slice()) {
            Ok(getters) => getters,
            Err(e) => {
                return Err(e);
            },
        }
    } else {
        Vec::new()
    };
    let setters: Vec<Setter> = if only.setter_or_none() {
        match generate_setters(fields.as_slice()) {
            Ok(setters) => setters,
            Err(e) => {
                return Err(e);
            },
        }
    } else {
        Vec::new()
    };
    let masks: Vec<Mask> = if only.mask_or_none() {
        match generate_masks(fields.as_slice()) {
            Ok(masks) => masks,
            Err(e) => {
                return Err(e);
            },
        }
    } else {
        Vec::new()
    };
    Ok(Accessors { getters, setters, masks })
}

/// The parameters of the constructor for a declaration list: one for each field whose
/// setter is not suppressed, in the order of the fields. The constructor starts from a
/// storage with no bit set and hands each parameter to the setter of its field, in this
/// order.
pub fn bitfield_constructor(lines: BitfieldFieldLines) -> (r: Result<Vec<ConstructorArg>, GenerationError>)
    ensures
        matches_items(
            r,
            collect(resolve_lines(lines.0@).0, |f: BitfieldField, i: int| constructor_arg_for(f, i)),
        ),
{
    let ghost item = |f: BitfieldField, i: int| constructor_arg_for(f, i);
    let fields: Vec<BitfieldField> = lines.into_fields();
    let mut args: Vec<ConstructorArg> = Vec::new();
    let mut i: usize = 0;
    while i < fields.len()
        invariant
            i <= fields.len(),
            fields@ == resolve_lines(lines.0@).0,
            item == (|f: BitfieldField, i: int| constructor_arg_for(f, i)),
            collect(fields@.take(i as int), item) == Ok::<Seq<ConstructorArg>, GenerationError>(args@),
        decreases fields.len() - i,
    {
        let field: &BitfieldField = &fields[i];
        proof {
            lemma_collect_next(fields@, item, i as int);
        }
        if field.has_setter() {
            match field.bits_position {
                BitRangeSpec::SingleBit(_) => {
                    args.push(ConstructorArg { field: i, ty: TypeName::Bool });
                },
                BitRangeSpec::Range(_, _) => {
                    match field.ty_from() {
                        Some(ty) => {
                            args.push(ConstructorArg { field: i, ty });
                        },
                        None => {
                            proof {
                                lemma_collect_error(fields@, item, i + 1);
                            }
                            return Err(GenerationError { field: i, kind: ErrorKind::MissingType });
                        },
                    }
                },
                BitRangeSpec::StridedRange(_, _, _) => {
                    proof {
                        lemma_collect_error(fields@, item, i + 1);
                    }
                    return Err(GenerationError { field: i, kind: ErrorKind::ArrayInConstructor });
                },
            }
        }
        i = i + 1;
    }
    proof {
        assert(fields@.take(i as int) =~= fields@);
    }
    Ok(args)
}

/// The entries of the debug output for a declaration list: one for each field whose getter
/// is not suppressed, in the order of the fields. A field without a getter cannot be read
/// and is left out.
pub fn bitfield_debug(lines: BitfieldFieldLines) -> (entries: Vec<DebugEntry>)
    ensures
        collect(resolve_lines(lines.0@).0, |f: BitfieldField, i: int| debug_entry_for(f, i)) == Ok::<
            Seq<DebugEntry>,
            GenerationError,
        >(entries@),
{
    let ghost item = |f: BitfieldField, i: int| debug_entry_for(f, i);
    let fields: Vec<BitfieldField> = lines.into_fields();
    let mut entries: Vec<DebugEntry> = Vec::new();
    let mut i: usize = 0;
    while i < fields.len()
        invariant
            i <= fields.len(),
            fields@ == resolve_lines(lines.0@).0,
            item == (|f: BitfieldField, i: int| debug_entry_for(f, i)),
            collect(fields@.take(i as int), item) == Ok::<Seq<DebugEntry>, GenerationError>(entries@),
        decreases fields.len() - i,
    {
        let field: &BitfieldField = &fields[i];
        proof {
            lemma_collect_next(fields@, item, i as int);
        }
        if field.has_getter() {
            match field.bits_position {
                BitRangeSpec::StridedRange(_, _, count) => {
                    entries.push(DebugEntry::Array(i, count));
                },
                _ => {
                    entries.push(DebugEntry::Value(i));
                },
            }
        }
        i = i + 1;
    }
    proof {
        assert(fields@.take(i as int) =~= fields@);
    }
    entries
}

} // verus!
