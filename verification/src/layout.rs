//! Where the encoding of a value ends: the byte layout of every type shape,
//! stated over a registry, an input and a position in it.
//!
//! A type may contain itself, as a list contains its tail. Such a walk ends
//! because every level consumes input. A type that contains itself with no
//! byte in between has no finite value; it is found by counting the walks
//! that are open at one position: with more of them than the registry has
//! types, one type is open twice at the same place, and walking it would
//! repeat forever.

use vstd::prelude::*;
use vstd::utf8::valid_utf8;
use crate::compact::compact_decoding;
use crate::error::{CompactShape, EventsDecodingError, Feature, Primitive};
use crate::metadata::{TypeDef, Variant};

verus! {

/// The number of walks open at `pos`, given that `stall` were open at `anchor`.
pub open spec fn stalled(pos: int, anchor: int, stall: nat) -> nat {
    if pos == anchor {
        stall
    } else {
        0
    }
}

/// How many more walks may open at one position once `open` are.
pub open spec fn spare(types: Map<u32, TypeDef>, open: nat) -> nat {
    if open < types.len() {
        (types.len() - open) as nat
    } else {
        0
    }
}

/// The position of the first variant from `from` on that declares `tag`.
pub open spec fn find_variant(variants: Seq<Variant>, tag: u8, from: int) -> Option<int>
    decreases variants.len() - from,
{
    if from < 0 || from >= variants.len() {
        None
    } else if variants[from].index == tag {
        Some(from)
    } else {
        find_variant(variants, tag, from + 1)
    }
}

/// The number of bytes of a boolean or an integer of up to 128 bits. The
/// other primitives have no width of their own; for them this is 0.
pub open spec fn fixed_width(p: Primitive) -> int {
    match p {
        Primitive::Bool | Primitive::U8 | Primitive::I8 => 1,
        Primitive::U16 | Primitive::I16 => 2,
        Primitive::U32 | Primitive::I32 => 4,
        Primitive::U64 | Primitive::I64 => 8,
        Primitive::U128 | Primitive::I128 => 16,
        _ => 0,
    }
}

/// Whether values of the primitive can be decoded at all.
pub open spec fn supported(p: Primitive) -> bool {
    !(p is Char || p is U256 || p is I256)
}

/// Where a compact integer that starts at `pos` ends.
pub open spec fn compact_end(input: Seq<u8>, pos: int) -> Result<int, EventsDecodingError> {
    match compact_decoding(input.subrange(pos, input.len() as int)) {
        Ok((_, used)) => Ok(pos + used),
        Err(e) => Err(e),
    }
}

/// Where the bytes of a run that starts at `pos` with its compact length
/// start and end.
pub open spec fn byte_run(input: Seq<u8>, pos: int) -> Result<(int, int), EventsDecodingError> {
    match compact_decoding(input.subrange(pos, input.len() as int)) {
        Ok((count, used)) => if pos + used + count > input.len() {
            Err(EventsDecodingError::UnexpectedEof)
        } else {
            Ok((pos + used, pos + used + count))
        },
        Err(e) => Err(e),
    }
}

/// Where a string that starts at `pos` ends: a run of bytes that is UTF-8.
pub open spec fn str_end(input: Seq<u8>, pos: int) -> Result<int, EventsDecodingError> {
    match byte_run(input, pos) {
        Ok((start, end)) => if !valid_utf8(input.subrange(start, end)) {
            Err(EventsDecodingError::InvalidUtf8)
        } else {
            Ok(end)
        },
        Err(e) => Err(e),
    }
}

/// Where a primitive that starts at `pos` ends.
pub open spec fn primitive_end(p: Primitive, input: Seq<u8>, pos: int) -> Result<
    int,
    EventsDecodingError,
> {
    if !supported(p) {
        Err(EventsDecodingError::UnsupportedPrimitive(p))
    } else if p is Str {
        str_end(input, pos)
    } else if pos + fixed_width(p) > input.len() {
        Err(EventsDecodingError::UnexpectedEof)
    } else if p is Bool && input[pos] > 1 {
        Err(EventsDecodingError::InvalidBool(input[pos]))
    } else {
        Ok(pos + fixed_width(p))
    }
}

/// Whether a compact integer can stand for the primitive.
pub open spec fn compact_primitive(p: Primitive) -> Result<(), EventsDecodingError> {
    if p is U8 || p is U16 || p is U32 || p is U64 || p is U128 {
        Ok(())
    } else {
        Err(EventsDecodingError::InvalidCompactPrimitive(p))
    }
}

/// Whether the type `inner`, which a compact type wraps, is an unsigned
/// integer or a composite with one field that is one. A type that is missing
/// is reported under its own id.
pub open spec fn compact_shape(types: Map<u32, TypeDef>, inner: u32) -> Result<
    (),
    EventsDecodingError,
> {
    if !types.contains_key(inner) {
        Err(EventsDecodingError::TypeNotFound(inner))
    } else {
        match types[inner] {
            TypeDef::Primitive(p) => compact_primitive(p),
            TypeDef::Composite(fields) => if fields@.len() != 1 {
                Err(EventsDecodingError::InvalidCompactType(CompactShape::NotSingleField))
            } else if !types.contains_key(fields@[0]) {
                Err(EventsDecodingError::TypeNotFound(fields@[0]))
            } else {
                match types[fields@[0]] {
                    TypeDef::Primitive(p) => compact_primitive(p),
                    _ => Err(
                        EventsDecodingError::InvalidCompactType(CompactShape::FieldNotPrimitive),
                    ),
                }
            },
            _ => Err(
                EventsDecodingError::InvalidCompactType(CompactShape::NotPrimitiveOrComposite),
            ),
        }
    }
}

/// Where a compact field around the type `inner` that starts at `pos` ends.
pub open spec fn compact_field_end(
    types: Map<u32, TypeDef>,
    inner: u32,
    input: Seq<u8>,
    pos: int,
) -> Result<int, EventsDecodingError> {
    match compact_shape(types, inner) {
        Ok(_) => compact_end(input, pos),
        Err(e) => Err(e),
    }
}

/// Where a value of type `id` that starts at `pos` ends, or why there is no
/// such value there. `stall` walks are open at `anchor`; a walk from the
/// outside passes `pos` and 0.
pub open spec fn walk(
    types: Map<u32, TypeDef>,
    input: Seq<u8>,
    id: u32,
    pos: int,
    anchor: int,
    stall: nat,
) -> Result<int, EventsDecodingError>
    decreases input.len() - pos, spare(types, stalled(pos, anchor, stall)), 0nat, 0nat,
{
    if pos < 0 || pos > input.len() {
        Err(EventsDecodingError::UnexpectedEof)
    } else if !types.contains_key(id) {
        Err(EventsDecodingError::TypeNotFound(id))
    } else if stalled(pos, anchor, stall) >= types.len() {
        Err(EventsDecodingError::CyclicType(id))
    } else {
        let open = stalled(pos, anchor, stall) + 1;
        match types[id] {
            TypeDef::Composite(fields) => walk_each(types, input, fields@, pos, pos, open),
            TypeDef::Tuple(fields) => walk_each(types, input, fields@, pos, pos, open),
            TypeDef::Variant(variants) => variant_end(types, input, variants@, pos, open),
            TypeDef::Sequence(element) => sequence_end(types, input, element, pos, open),
            TypeDef::Array { len, element } => walk_repeat(
                types,
                input,
                element,
                len as nat,
                pos,
                pos,
                open,
            ),
            TypeDef::Primitive(p) => primitive_end(p, input, pos),
            TypeDef::Compact(inner) => compact_field_end(types, inner, input, pos),
            TypeDef::BitSequence => Err(EventsDecodingError::Unimplemented(Feature::BitSequence)),
        }
    }
}

/// Where a tagged union that starts at `pos` ends: its tag byte, then the
/// fields of the first variant that declares the tag. `open` walks are open
/// at `pos`.
pub open spec fn variant_end(
    types: Map<u32, TypeDef>,
    input: Seq<u8>,
    variants: Seq<Variant>,
    pos: int,
    open: nat,
) -> Result<int, EventsDecodingError>
    decreases input.len() - pos, spare(types, open), 2nat, 0nat,
{
    if pos < 0 || pos >= input.len() {
        Err(EventsDecodingError::UnexpectedEof)
    } else {
        match find_variant(variants, input[pos], 0) {
            Some(i) => walk_each(types, input, variants[i].fields@, pos + 1, pos, open),
            None => Err(EventsDecodingError::VariantNotFound(input[pos])),
        }
    }
}

/// Where a sequence that starts at `pos` ends: its compact count, then that
/// many elements. `open` walks are open at `pos`.
pub open spec fn sequence_end(
    types: Map<u32, TypeDef>,
    input: Seq<u8>,
    element: u32,
    pos: int,
    open: nat,
) -> Result<int, EventsDecodingError>
    decreases input.len() - pos, spare(types, open), 2nat, 0nat,
{
    if pos < 0 || pos > input.len() {
        Err(EventsDecodingError::UnexpectedEof)
    } else {
        match compact_decoding(input.subrange(pos, input.len() as int)) {
            Ok((count, used)) => if used < 1 || pos + used > input.len() {
                Err(EventsDecodingError::UnexpectedEof)
            } else {
                walk_repeat(types, input, element, count, pos + used, pos, open)
            },
            Err(e) => Err(e),
        }
    }
}

/// Where values of the types `fields`, one after the other from `pos` on, end.
/// No walk ends before it starts or behind the input; the test for that only
/// serves to show that the walk comes to an end.
pub open spec fn walk_each(
    types: Map<u32, TypeDef>,
    input: Seq<u8>,
    fields: Seq<u32>,
    pos: int,
    anchor: int,
    stall: nat,
) -> Result<int, EventsDecodingError>
    decreases input.len() - pos, spare(types, stalled(pos, anchor, stall)), 1nat, fields.len(),
{
    if fields.len() == 0 {
        Ok(pos)
    } else {
        match walk(types, input, fields[0], pos, anchor, stall) {
            Ok(next) => if next < pos || next > input.len() {
                Err(EventsDecodingError::UnexpectedEof)
            } else {
                walk_each(types, input, fields.drop_first(), next, anchor, stall)
            },
            Err(e) => Err(e),
        }
    }
}

/// Where `count` values of type `element`, one after the other from `pos` on,
/// end.
pub open spec fn walk_repeat(
    types: Map<u32, TypeDef>,
    input: Seq<u8>,
    element: u32,
    count: nat,
    pos: int,
    anchor: int,
    stall: nat,
) -> Result<int, EventsDecodingError>
    decreases input.len() - pos, spare(types, stalled(pos, anchor, stall)), 1nat, count,
{
    if count == 0 {
        Ok(pos)
    } else {
        match walk(types, input, element, pos, anchor, stall) {
            Ok(next) => if next < pos || next > input.len() {
                Err(EventsDecodingError::UnexpectedEof)
            } else {
                walk_repeat(types, input, element, (count - 1) as nat, next, anchor, stall)
            },
            Err(e) => Err(e),
        }
    }
}


/// Where a walk stands when it is over. The bytes from its start up to
/// `copied` are those of the values it passed over whole; at `cursor` it
/// came to its end or gave up, after the bytes that the value it failed on
/// had taken from the input before the failure showed.
pub struct Halt {
    pub copied: int,
    pub cursor: int,
}

/// A halt with nothing taken behind what was copied.
pub open spec fn halt_at(pos: int) -> Halt {
    Halt { copied: pos, cursor: pos }
}

/// The number of bytes that reading a compact integer from the front of
/// `input` has taken when it fails. The first byte is read alone. The bytes
/// of the two-byte and the four-byte mode, and those of a value of four,
/// eight or sixteen bytes, are then read in one piece or not at all; those
/// of a value of another width are read one by one, as far as there are any.
pub open spec fn compact_taken(input: Seq<u8>) -> int {
    if input.len() == 0 {
        0
    } else if input[0] % 4 == 1 {
        if input.len() < 2 {
            1
        } else {
            2
        }
    } else if input[0] % 4 == 2 {
        if input.len() < 4 {
            1
        } else {
            4
        }
    } else if input[0] % 4 == 3 {
        let n = input[0] / 4 + 4;
        if n > 16 {
            1
        } else if input.len() < 1 + n {
            if n == 4 || n == 8 || n == 16 {
                1
            } else {
                input.len() as int
            }
        } else {
            1 + n
        }
    } else {
        1
    }
}

/// Where the read of a compact integer that starts at `pos` stands when it
/// is over.
pub open spec fn compact_halt(input: Seq<u8>, pos: int) -> Halt {
    match compact_decoding(input.subrange(pos, input.len() as int)) {
        Ok((_, used)) => halt_at(pos + used),
        Err(_) => Halt {
            copied: pos,
            cursor: pos + compact_taken(input.subrange(pos, input.len() as int)),
        },
    }
}

/// Where the read of a string that starts at `pos` stands when it is over.
/// A length that the input cannot hold shows before any byte of the string
/// is read, bytes that are not UTF-8 after all of them are.
pub open spec fn str_halt(input: Seq<u8>, pos: int) -> Halt {
    match compact_decoding(input.subrange(pos, input.len() as int)) {
        Ok((count, used)) => if pos + used + count > input.len() {
            Halt { copied: pos, cursor: pos + used }
        } else if !valid_utf8(input.subrange(pos + used, pos + used + count)) {
            Halt { copied: pos, cursor: pos + used + count }
        } else {
            halt_at(pos + used + count)
        },
        Err(_) => compact_halt(input, pos),
    }
}

/// Where the read of a primitive that starts at `pos` stands when it is
/// over. A boolean or an integer is read in one piece or not at all.
pub open spec fn primitive_halt(p: Primitive, input: Seq<u8>, pos: int) -> Halt {
    if !supported(p) {
        halt_at(pos)
    } else if p is Str {
        str_halt(input, pos)
    } else if pos + fixed_width(p) > input.len() {
        halt_at(pos)
    } else if p is Bool && input[pos] > 1 {
        Halt { copied: pos, cursor: pos + 1 }
    } else {
        halt_at(pos + fixed_width(p))
    }
}

/// Where the read of a compact field around the type `inner` that starts at
/// `pos` stands when it is over. A wrong shape shows before any byte is read.
pub open spec fn compact_field_halt(
    types: Map<u32, TypeDef>,
    inner: u32,
    input: Seq<u8>,
    pos: int,
) -> Halt {
    match compact_shape(types, inner) {
        Ok(_) => compact_halt(input, pos),
        Err(_) => halt_at(pos),
    }
}

/// Where the walk over a value of type `id` that starts at `pos` stands when
/// it is over. A type that is missing, holds itself or is not decoded shows
/// before any byte is read.
pub open spec fn walk_halt(
    types: Map<u32, TypeDef>,
    input: Seq<u8>,
    id: u32,
    pos: int,
    anchor: int,
    stall: nat,
) -> Halt
    decreases input.len() - pos, spare(types, stalled(pos, anchor, stall)), 0nat, 0nat,
{
    if pos < 0 || pos > input.len() || !types.contains_key(id) || stalled(pos, anchor, stall)
        >= types.len() {
        halt_at(pos)
    } else {
        let open = stalled(pos, anchor, stall) + 1;
        match types[id] {
            TypeDef::Composite(fields) => walk_each_halt(types, input, fields@, pos, pos, open),
            TypeDef::Tuple(fields) => walk_each_halt(types, input, fields@, pos, pos, open),
            TypeDef::Variant(variants) => variant_halt(types, input, variants@, pos, open),
            TypeDef::Sequence(element) => sequence_halt(types, input, element, pos, open),
            TypeDef::Array { len, element } => walk_repeat_halt(
                types,
                input,
                element,
                len as nat,
                pos,
                pos,
                open,
            ),
            TypeDef::Primitive(p) => primitive_halt(p, input, pos),
            TypeDef::Compact(inner) => compact_field_halt(types, inner, input, pos),
            TypeDef::BitSequence => halt_at(pos),
        }
    }
}

/// Where the walk over a tagged union that starts at `pos` stands when it is
/// over. The tag is passed over, and copied, before a variant is looked for.
pub open spec fn variant_halt(
    types: Map<u32, TypeDef>,
    input: Seq<u8>,
    variants: Seq<Variant>,
    pos: int,
    open: nat,
) -> Halt
    decreases input.len() - pos, spare(types, open), 2nat, 0nat,
{
    if pos < 0 || pos >= input.len() {
        halt_at(pos)
    } else {
        match find_variant(variants, input[pos], 0) {
            Some(i) => walk_each_halt(types, input, variants[i].fields@, pos + 1, pos, open),
            None => halt_at(pos + 1),
        }
    }
}

/// Where the walk over a sequence that starts at `pos` stands when it is
/// over.
pub open spec fn sequence_halt(
    types: Map<u32, TypeDef>,
    input: Seq<u8>,
    element: u32,
    pos: int,
    open: nat,
) -> Halt
    decreases input.len() - pos, spare(types, open), 2nat, 0nat,
{
    if pos < 0 || pos > input.len() {
        halt_at(pos)
    } else {
        match compact_decoding(input.subrange(pos, input.len() as int)) {
            Ok((count, used)) => if used < 1 || pos + used > input.len() {
                halt_at(pos)
            } else {
                walk_repeat_halt(types, input, element, count, pos + used, pos, open)
            },
            Err(_) => compact_halt(input, pos),
        }
    }
}

/// Where the walk over fields in a row from `pos` on stands when it is over:
/// behind the last field, or where the first field that fails halts.
pub open spec fn walk_each_halt(
    types: Map<u32, TypeDef>,
    input: Seq<u8>,
    fields: Seq<u32>,
    pos: int,
    anchor: int,
    stall: nat,
) -> Halt
    decreases input.len() - pos, spare(types, stalled(pos, anchor, stall)), 1nat, fields.len(),
{
    if fields.len() == 0 {
        halt_at(pos)
    } else {
        match walk(types, input, fields[0], pos, anchor, stall) {
            Ok(next) => if next < pos || next > input.len() {
                halt_at(pos)
            } else {
                walk_each_halt(types, input, fields.drop_first(), next, anchor, stall)
            },
            Err(_) => walk_halt(types, input, fields[0], pos, anchor, stall),
        }
    }
}

/// Where the walk over `count` elements in a row from `pos` on stands when
/// it is over: behind the last element, or where the first element that
/// fails halts.
pub open spec fn walk_repeat_halt(
    types: Map<u32, TypeDef>,
    input: Seq<u8>,
    element: u32,
    count: nat,
    pos: int,
    anchor: int,
    stall: nat,
) -> Halt
    decreases input.len() - pos, spare(types, stalled(pos, anchor, stall)), 1nat, count,
{
    if count == 0 {
        halt_at(pos)
    } else {
        match walk(types, input, element, pos, anchor, stall) {
            Ok(next) => if next < pos || next > input.len() {
                halt_at(pos)
            } else {
                walk_repeat_halt(types, input, element, (count - 1) as nat, next, anchor, stall)
            },
            Err(_) => walk_halt(types, input, element, pos, anchor, stall),
        }
    }
}

} // verus!
