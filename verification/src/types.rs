//! The types that a field declaration can name.
use vstd::prelude::*;

verus! {

/// One of the ten integer types that a field can be read as.
#[derive(Clone, Copy, Debug, PartialEq, Eq, Structural)]
pub enum IntTy {
    U8,
    U16,
    U32,
    U64,
    U128,
    I8,
    I16,
    I32,
    I64,
    I128,
}

impl IntTy {
    /// The number of bits of the type.
    pub open spec fn width(self) -> int {
        match self {
            IntTy::U8 | IntTy::I8 => 8,
            IntTy::U16 | IntTy::I16 => 16,
            IntTy::U32 | IntTy::I32 => 32,
            IntTy::U64 | IntTy::I64 => 64,
            IntTy::U128 | IntTy::I128 => 128,
        }
    }

    /// Whether the type is signed.
    pub open spec fn signed(self) -> bool {
        match self {
            IntTy::I8 | IntTy::I16 | IntTy::I32 | IntTy::I64 | IntTy::I128 => true,
            _ => false,
        }
    }

    /// The name of the type.
    pub open spec fn name(self) -> Seq<char> {
        match self {
            IntTy::U8 => "u8"@,
            IntTy::U16 => "u16"@,
            IntTy::U32 => "u32"@,
            IntTy::U64 => "u64"@,
            IntTy::U128 => "u128"@,
            IntTy::I8 => "i8"@,
            IntTy::I16 => "i16"@,
            IntTy::I32 => "i32"@,
            IntTy::I64 => "i64"@,
            IntTy::I128 => "i128"@,
        }
    }

    /// The name of the type.
    pub fn as_str(self) -> (r: &'static str)
        ensures
            r@ == self.name(),
    {
        match self {
            IntTy::U8 => "u8",
            IntTy::U16 => "u16",
            IntTy::U32 => "u32",
            IntTy::U64 => "u64",
            IntTy::U128 => "u128",
            IntTy::I8 => "i8",
            IntTy::I16 => "i16",
            IntTy::I32 => "i32",
            IntTy::I64 => "i64",
            IntTy::I128 => "i128",
        }
    }

    /// The integer type of the given name, if there is one.
    pub fn from_name(name: &str) -> (r: Option<IntTy>)
        ensures
            match r {
                Some(ty) => ty.name() == name@,
                None => forall|ty: IntTy| #[trigger] ty.name() != name@,
            },
    {
        let name: String = name.to_owned();
        if name == "u8".to_owned() {
            Some(IntTy::U8)
        } else if name == "u16".to_owned() {
            Some(IntTy::U16)
        } else if name == "u32".to_owned() {
            Some(IntTy::U32)
        } else if name == "u64".to_owned() {
            Some(IntTy::U64)
        } else if name == "u128".to_owned() {
            Some(IntTy::U128)
        } else if name == "i8".to_owned() {
            Some(IntTy::I8)
        } else if name == "i16".to_owned() {
            Some(IntTy::I16)
        } else if name == "i32".to_owned() {
            Some(IntTy::I32)
        } else if name == "i64".to_owned() {
            Some(IntTy::I64)
        } else if name == "i128".to_owned() {
            Some(IntTy::I128)
        } else {
            None
        }
    }

    /// The number of bits of the type.
    pub fn bit_len(self) -> (n: usize)
        ensures
            n == self.width(),
    {
        match self {
            IntTy::U8 | IntTy::I8 => 8,
            IntTy::U16 | IntTy::I16 => 16,
            IntTy::U32 | IntTy::I32 => 32,
            IntTy::U64 | IntTy::I64 => 64,
            IntTy::U128 | IntTy::I128 => 128,
        }
    }

    /// Whether the type is signed.
    pub fn is_signed(self) -> (r: bool)
        ensures
            r == self.signed(),
    {
        match self {
            IntTy::I8 | IntTy::I16 | IntTy::I32 | IntTy::I64 | IntTy::I128 => true,
            _ => false,
        }
    }
}

/// A type named in a declaration.
#[derive(Debug, PartialEq, Eq)]
pub enum TypeName {
    /// `bool`.
    Bool,
    /// One of the fixed-width integer types.
    Int(IntTy),
    /// Any other type, by its name.
    Other(String),
}

impl Clone for TypeName {
    fn clone(&self) -> (r: Self)
        ensures
            r == *self,
    {
        match self {
            TypeName::Bool => TypeName::Bool,
            TypeName::Int(ty) => TypeName::Int(*ty),
            TypeName::Other(name) => TypeName::Other(name.clone()),
        }
    }
}

impl TypeName {
    /// The name of the type.
    pub open spec fn name(self) -> Seq<char> {
        match self {
            TypeName::Bool => "bool"@,
            TypeName::Int(ty) => ty.name(),
            TypeName::Other(name) => name@,
        }
    }

    /// The type of the given name: `bool` and the integer types are told apart, any other
    /// name is kept as it is.
    pub fn from_name(name: &str) -> (r: TypeName)
        ensures
            r.name() == name@,
            r is Other ==> name@ != "bool"@ && forall|ty: IntTy| #[trigger] ty.name() != name@,
    {
        if name.to_owned() == "bool".to_owned() {
            return TypeName::Bool;
        }
        match IntTy::from_name(name) {
            Some(ty) => TypeName::Int(ty),
            None => TypeName::Other(name.to_owned()),
        }
    }

    /// The name of the type.
    pub fn to_name(&self) -> (r: String)
        ensures
            r@ == self.name(),
    {
        match self {
            TypeName::Bool => "bool".to_owned(),
            TypeName::Int(ty) => ty.as_str().to_owned(),
            TypeName::Other(name) => name.clone(),
        }
    }

    /// The number of bits that a value of the type can hold, where the type tells: one for
    /// `bool`, the width for an integer type.
    pub open spec fn capacity(self) -> Option<int> {
        match self {
            TypeName::Bool => Some(1),
            TypeName::Int(ty) => Some(ty.width()),
            TypeName::Other(_) => None,
        }
    }

    /// Whether a field of `width` bits fits in a value of the type. A type of unknown
    /// capacity is taken to be wide enough.
    pub open spec fn holds(self, width: int) -> bool {
        match self.capacity() {
            Some(bits) => width <= bits,
            None => true,
        }
    }

    /// Whether a field of `width` bits fits in a value of the type.
    pub fn can_hold(&self, width: usize) -> (r: bool)
        ensures
            r == self.holds(width as int),
    {
        match self {
            TypeName::Bool => width <= 1,
            TypeName::Int(ty) => width <= ty.bit_len(),
            TypeName::Other(_) => true,
        }
    }
}

} // verus!
