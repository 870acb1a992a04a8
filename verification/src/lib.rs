//! Bit fields: named ranges of bits, packed in an integer or in a sequence of integers.
//!
//! The crate has two layers.
//!
//! The engine reads and writes an inclusive range of bits `lsb..=msb` of a backing storage:
//! [`BitRange`] and [`BitRangeMut`] for ranges, [`Bit`] and [`BitMut`] for single bits. A
//! storage is an unsigned integer, or a sequence of unsigned integers whose bits are numbered
//! from the least significant bit of the first element ([`SliceLsb0`]) or from its most
//! significant bit ([`SliceMsb0`]). A value that is read or written is any of the ten
//! fixed-width integer types; a value read into a signed type is sign-extended.
//!
//! Contracts speak of a storage as a string of bits and of a value through its bits. For an
//! integer storage they also say what the numbers are: a field read from `s` is
//! `(s / 2^lsb) mod 2^width`.
//!
//! The generator turns a list of field declarations into the accessors, mask constants,
//! constructor parameters and debug entries that are to be emitted for them, and rejects
//! malformed declarations.
pub mod access;
pub mod digits;
pub mod fields;
pub mod generate;
pub mod model;
pub mod position;
pub mod range;
pub mod scalar;
pub mod slice;
pub mod types;
pub mod value;
pub mod value_signed;
pub mod value_unsigned;
pub mod word;

pub use access::{get_field, get_field_into, get_flag, set_field, set_field_from, set_flag};
pub use fields::{BitfieldField, BitfieldFieldLine, BitfieldFieldLines, BitfieldMask, FieldTy, Only};
pub use generate::{bitfield_constructor, bitfield_debug, bitfield_fields};
pub use position::BitRangeSpec;
pub use range::{Bit, BitMut, BitRange, BitRangeMut, BitView};
pub use slice::{SliceLsb0, SliceMsb0};
pub use types::{IntTy, TypeName};
pub use value::BitValue;
pub use word::Word;
