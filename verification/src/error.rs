//! The ways in which decoding can fail.

use vstd::prelude::*;

verus! {

/// The primitive kinds a type registry can declare.
#[derive(Clone, Copy, Debug, PartialEq, Eq, Structural)]
pub enum Primitive {
    Bool,
    Char,
    Str,
    U8,
    U16,
    U32,
    U64,
    U128,
    U256,
    I8,
    I16,
    I32,
    I64,
    I128,
    I256,
}

/// Why the type behind a compact wrapper cannot be read as a compact integer.
#[derive(Clone, Copy, Debug, PartialEq, Eq, Structural)]
pub enum CompactShape {
    /// The wrapped type is neither a primitive nor a composite.
    NotPrimitiveOrComposite,
    /// The wrapped composite does not have exactly one field.
    NotSingleField,
    /// The single field of the wrapped composite is not a primitive.
    FieldNotPrimitive,
}

/// A shape of type that the decoder knows of but does not decode.
#[derive(Clone, Copy, Debug, PartialEq, Eq, Structural)]
pub enum Feature {
    BitSequence,
}

/// Every failure of a decode call. None is recovered from inside the call:
/// the first one ends it.
#[derive(Clone, Copy, Debug, PartialEq, Eq, Structural)]
pub enum EventsDecodingError {
    /// The input ended before the value being read was complete.
    UnexpectedEof,
    /// A compact integer was written in a wider mode than its value needs.
    NonCanonicalCompact,
    /// A compact integer announces more than sixteen value bytes.
    CompactTooWide,
    /// A boolean byte other than 0 or 1.
    InvalidBool(u8),
    /// The bytes of a string are not UTF-8.
    InvalidUtf8,
    /// A phase tag other than 0, 1 or 2.
    InvalidPhase(u8),
    /// The registry has no type under this id.
    TypeNotFound(u32),
    /// The type given as the event type of a pallet is no tagged union.
    EventTypeNotVariant(u32),
    /// The catalog has no event under this pallet index and variant index.
    EventNotFound(u8, u8),
    /// No variant of the tagged union declares this index.
    VariantNotFound(u8),
    /// A primitive that is declared but cannot be decoded.
    UnsupportedPrimitive(Primitive),
    /// A compact wrapper around a primitive that is not an unsigned integer.
    InvalidCompactPrimitive(Primitive),
    /// A compact wrapper around a type of the wrong shape.
    InvalidCompactType(CompactShape),
    /// A type shape whose decoding is not implemented.
    Unimplemented(Feature),
    /// The type with this id contains itself without any byte in between,
    /// so that no finite input could ever hold a value of it.
    CyclicType(u32),
}

impl CompactShape {
    /// The sentence that describes this failure.
    pub fn message(&self) -> (r: &'static str)
        ensures
            r@ == (match *self {
                CompactShape::NotPrimitiveOrComposite =>
                    "Compact type must be a primitive or a composite type"@,
                CompactShape::NotSingleField => "Composite type must have a single field"@,
                CompactShape::FieldNotPrimitive =>
                    "Composite type must have a single primitive field"@,
            }),
    {
        match self {
            CompactShape::NotPrimitiveOrComposite =>
                "Compact type must be a primitive or a composite type",
            CompactShape::NotSingleField => "Composite type must have a single field",
            CompactShape::FieldNotPrimitive => "Composite type must have a single primitive field",
        }
    }
}

} // verus!
