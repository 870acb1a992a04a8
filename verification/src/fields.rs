//! Field declarations, as they are handed to the generator.
//!
//! A declaration list is a sequence of lines. A line either sets the default type of the
//! fields that follow, or declares one field: its type, its conversions, the names of its
//! getter and setter, an optional mask constant and its bit positions.
use crate::position::BitRangeSpec;
use crate::types::TypeName;
use vstd::prelude::*;
use vstd::std_specs::convert::FromSpecImpl;

verus! {

/// The name that stands for an accessor that is not to be generated.
pub open spec fn absent_name() -> Seq<char> {
    seq!['_']
}

/// Whether `name` is the name that suppresses an accessor.
pub fn is_absent(name: &String) -> (r: bool)
    ensures
        r == (name@ == absent_name()),
{
    let text: &str = name.as_str();
    let r: bool = text.unicode_len() == 1 && text.get_char(0) == '_';
    proof {
        if r {
            assert(name@ =~= absent_name());
        }
    }
    r
}

/// The mask constant that a field asks for.
#[derive(Debug, PartialEq, Eq)]
pub struct BitfieldMask {
    /// The name of the constant.
    pub ident: String,
    /// The type of the constant.
    pub ty: TypeName,
}

/// The type that a field declaration gives for its raw value.
#[derive(Debug, PartialEq, Eq)]
pub enum FieldTy {
    /// The declaration says `bool`.
    Bool,
    /// The declaration names a type, or has taken over the default type.
    Type(TypeName),
    /// The declaration names no type.
    Unset,
}

impl FieldTy {
    /// The type, if there is one.
    pub open spec fn declared(self) -> Option<TypeName> {
        match self {
            FieldTy::Bool => Some(TypeName::Bool),
            FieldTy::Type(ty) => Some(ty),
            FieldTy::Unset => None,
        }
    }

    /// The type of a field that takes over the default type `default`.
    pub open spec fn inherited(default: Option<TypeName>) -> FieldTy {
        match default {
            Some(ty) => FieldTy::Type(ty),
            None => FieldTy::Unset,
        }
    }

    /// The type, if there is one.
    pub fn as_type(&self) -> (r: Option<TypeName>)
        ensures
            r == self.declared(),
    {
        match self {
            FieldTy::Bool => Some(TypeName::Bool),
            FieldTy::Type(ty) => Some(ty.clone()),
            FieldTy::Unset => None,
        }
    }

    /// Whether the declaration names no type.
    pub fn is_none(&self) -> (r: bool)
        ensures
            r == (*self is Unset),
    {
        matches!(self, FieldTy::Unset)
    }
}

impl From<Option<TypeName>> for FieldTy {
    fn from(value: Option<TypeName>) -> (r: Self) {
        match value {
            Some(ty) => FieldTy::Type(ty),
            None => FieldTy::Unset,
        }
    }
}

impl FromSpecImpl<Option<TypeName>> for FieldTy {
    open spec fn obeys_from_spec() -> bool {
        true
    }

    open spec fn from_spec(value: Option<TypeName>) -> Self {
        FieldTy::inherited(value)
    }
}

/// One declared field.
#[derive(Debug, PartialEq, Eq)]
pub struct BitfieldField {
    /// Attributes that are passed on to the generated items.
    pub attrs: Vec<String>,
    /// The visibility of the generated items.
    pub vis: String,
    /// The type of the raw value.
    pub ty: FieldTy,
    /// The mask constant, if one is asked for.
    pub mask: Option<BitfieldMask>,
    /// Whether the setter takes the conversion type.
    pub from: bool,
    /// Whether the getter returns the conversion type.
    pub into: bool,
    /// The conversion type, present where `from` or `into` is set.
    pub from_into_ty: Option<TypeName>,
    /// The name of the getter, or `_` for none.
    pub getter: String,
    /// The name of the setter, or `_` for none.
    pub setter: String,
    /// The bit positions.
    pub bits_position: BitRangeSpec,
}

impl BitfieldField {
    /// The type that the setter takes: the conversion type if `from` is set, else the raw
    /// type.
    pub open spec fn from_type(self) -> Option<TypeName> {
        if self.from {
            self.from_into_ty
        } else {
            self.ty.declared()
        }
    }

    /// The type that the getter returns: the conversion type if `into` is set, else the raw
    /// type.
    pub open spec fn into_type(self) -> Option<TypeName> {
        if self.into {
            self.from_into_ty
        } else {
            self.ty.declared()
        }
    }

    /// Whether a getter is to be generated.
    pub open spec fn wants_getter(self) -> bool {
        self.getter@ != absent_name()
    }

    /// Whether a setter is to be generated.
    pub open spec fn wants_setter(self) -> bool {
        self.setter@ != absent_name()
    }

    /// The field with `default` as its type, if it names none itself.
    pub open spec fn with_default(self, default: Option<TypeName>) -> BitfieldField {
        if self.ty is Unset {
            BitfieldField { ty: FieldTy::inherited(default), ..self }
        } else {
            self
        }
    }

    /// The type that the setter takes.
    pub fn ty_from(&self) -> (r: Option<TypeName>)
        ensures
            r == self.from_type(),
    {
        if self.from {
            clone_type(&self.from_into_ty)
        } else {
            self.ty.as_type()
        }
    }

    /// The type that the getter returns.
    pub fn ty_into(&self) -> (r: Option<TypeName>)
        ensures
            r == self.into_type(),
    {
        if self.into {
            clone_type(&self.from_into_ty)
        } else {
            self.ty.as_type()
        }
    }

    /// Whether a getter is to be generated.
    pub fn has_getter(&self) -> (r: bool)
        ensures
            r == self.wants_getter(),
    {
        !is_absent(&self.getter)
    }

    /// Whether a setter is to be generated.
    pub fn has_setter(&self) -> (r: bool)
        ensures
            r == self.wants_setter(),
    {
        !is_absent(&self.setter)
    }
}

/// A copy of an optional type.
pub fn clone_type(ty: &Option<TypeName>) -> (r: Option<TypeName>)
    ensures
        r == *ty,
{
    match ty {
        Some(name) => Some(name.clone()),
        None => None,
    }
}

/// One line of a declaration list.
#[derive(Debug, PartialEq, Eq)]
pub enum BitfieldFieldLine {
    /// Sets the type of the fields that follow and name none.
    NewDefaultType(TypeName),
    /// Declares a field.
    Field(BitfieldField),
}

/// A declaration list.
#[derive(Debug, PartialEq, Eq)]
pub struct BitfieldFieldLines(pub Vec<BitfieldFieldLine>);

/// The fields that the lines declare, each with the default type that holds at its line, and
/// the default type that holds after the last line.
///
/// The lines are read from first to last. The default type is none at first; a line that
/// sets it replaces it for the lines that follow.
pub open spec fn resolve_lines(lines: Seq<BitfieldFieldLine>) -> (Seq<BitfieldField>, Option<TypeName>)
    decreases lines.len(),
{
    if lines.len() == 0 {
        (Seq::empty(), None)
    } else {
        let (fields, default) = resolve_lines(lines.drop_last());
        match lines.last() {
            BitfieldFieldLine::NewDefaultType(ty) => (fields, Some(ty)),
            BitfieldFieldLine::Field(field) => (fields.push(field.with_default(default)), default),
        }
    }
}

impl BitfieldFieldLines {
    /// The declared fields in their order, each field that names no type with the default
    /// type most recently set before it, if any.
    pub fn into_fields(self) -> (result: Vec<BitfieldField>)
        ensures
            result@ == resolve_lines(self.0@).0,
    {
        let ghost lines = self.0@;
        let mut result: Vec<BitfieldField> = Vec::new();
        let mut default_ty: Option<TypeName> = None;
        for line in iter: self.0
            invariant
                iter.seq() == lines,
                (result@, default_ty) == resolve_lines(lines.take(iter.index() as int)),
        {
            proof {
                let next = lines.take(iter.index() + 1);
                assert(next.drop_last() =~= lines.take(iter.index() as int));
                assert(next.last() == line);
            }
            match line {
                BitfieldFieldLine::NewDefaultType(ty) => {
                    default_ty = Some(ty);
                },
                BitfieldFieldLine::Field(field) => {
                    let mut field = field;
                    if field.ty.is_none() {
                        field.ty = FieldTy::from(clone_type(&default_ty));
                    }
                    result.push(field);
                },
            }
        }
        proof {
            assert(lines.take(lines.len() as int) =~= lines);
        }
        result
    }
}

/// Which kind of item the generator is restricted to.
#[derive(Copy, Clone, Debug, PartialEq, Eq, Structural)]
pub enum Only {
    /// Getters only.
    Getter,
    /// Mask constants only.
    Mask,
    /// Setters only.
    Setter,
    /// No restriction.
    All,
}

impl Only {
    /// The restriction that a keyword after `only` names: `getter`, `mask` or `setter`. Any
    /// other word names none.
    pub open spec fn named(word: Seq<char>) -> Option<Only> {
        if word == "getter"@ {
            Some(Only::Getter)
        } else if word == "mask"@ {
            Some(Only::Mask)
        } else if word == "setter"@ {
            Some(Only::Setter)
        } else {
            None
        }
    }

    /// The restriction that a keyword after `only` names, if it names one.
    pub fn from_keyword(word: &str) -> (r: Option<Only>)
        ensures
            r == Self::named(word@),
    {
        let word: String = word.to_owned();
        if word == "getter".to_owned() {
            Some(Only::Getter)
        } else if word == "mask".to_owned() {
            Some(Only::Mask)
        } else if word == "setter".to_owned() {
            Some(Only::Setter)
        } else {
            None
        }
    }

    /// Whether getters are to be generated.
    pub fn getter_or_none(&self) -> (r: bool)
        ensures
            r == (*self == Only::Getter || *self == Only::All),
    {
        *self == Only::Getter || *self == Only::All
    }

    /// Whether mask constants are to be generated.
    pub fn mask_or_none(&self) -> (r: bool)
        ensures
            r == (*self == Only::Mask || *self == Only::All),
    {
        *self == Only::Mask || *self == Only::All
    }

    /// Whether setters are to be generated.
    pub fn setter_or_none(&self) -> (r: bool)
        ensures
            r == (*self == Only::Setter || *self == Only::All),
    {
        *self == Only::Setter || *self == Only::All
    }
}

} // verus!
