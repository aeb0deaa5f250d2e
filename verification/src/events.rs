//! The decoder: it walks the bytes of event records as the registry directs
//! and hands each event out with the bytes of its fields.

use vstd::prelude::*;
use vstd::slice::slice_subrange;
use vstd::utf8::valid_utf8;
use crate::compact::{
    compact_decoding,
    decode_compact,
    encode_compact,
    le_value,
    lemma_compact_canonical,
    lemma_le_value_bound,
    lemma_pow256_values,
    read_le,
};
use crate::error::{CompactShape, EventsDecodingError, Feature, Primitive};
use crate::layout::{
    byte_run,
    compact_field_end,
    compact_field_halt,
    compact_halt,
    compact_primitive,
    compact_shape,
    compact_taken,
    find_variant,
    fixed_width,
    halt_at,
    primitive_end,
    primitive_halt,
    sequence_end,
    sequence_halt,
    spare,
    stalled,
    str_end,
    str_halt,
    variant_end,
    variant_halt,
    walk,
    walk_each,
    walk_each_halt,
    walk_halt,
    walk_repeat,
    walk_repeat_halt,
    Halt,
};
use crate::metadata::{EventMetadata, EventMetadataView, Metadata, TypeDef, Variant};

verus! {

/// Whether `bytes` are UTF-8. This is `core::str::from_utf8`, of which the
/// contract takes on trust that it accepts the byte runs that are well-formed
/// UTF-8 and no others.
#[verifier::external_body]
fn is_utf8(bytes: &[u8]) -> (r: bool)
    ensures
        r == valid_utf8(bytes@),
{
    core::str::from_utf8(bytes).is_ok()
}

/// Appends the bytes of `input` from `from` up to `to` to `output`.
fn push_range(input: &[u8], from: usize, to: usize, output: &mut Vec<u8>)
    requires
        from <= to <= input@.len(),
    ensures
        final(output)@ == old(output)@ + input@.subrange(from as int, to as int),
{
    let mut i: usize = from;
    while i < to
        invariant
            from <= i <= to <= input@.len(),
            output@ == old(output)@ + input@.subrange(from as int, i as int),
        decreases to - i,
    {
        output.push(input[i]);
        i = i + 1;
        proof {
            assert(output@ =~= old(output)@ + input@.subrange(from as int, i as int));
        }
    }
    proof {
        assert(input@.subrange(from as int, from as int) =~= Seq::<u8>::empty());
    }
}

/// A failure of a walk, with where the walk stood when it failed.
#[derive(Clone, Copy)]
struct Halted {
    error: EventsDecodingError,
    copied: usize,
    cursor: usize,
}

/// Where a failed walk stood.
spec fn halt_of(h: Halted) -> Halt {
    Halt { copied: h.copied as int, cursor: h.cursor as int }
}

/// A failure at `pos`, before any byte was read for what failed.
fn halted_at(error: EventsDecodingError, pos: usize) -> (h: Halted)
    ensures
        h.error == error,
        halt_of(h) == halt_at(pos as int),
{
    Halted { error, copied: pos, cursor: pos }
}

/// The number of bytes that reading a compact integer from the front of
/// `input` has taken when it fails.
fn taken_by_compact(input: &[u8]) -> (r: usize)
    ensures
        r == compact_taken(input@),
        r <= input@.len(),
{
    if input.len() == 0 {
        return 0;
    }
    let mode = input[0] % 4;
    if mode == 1 {
        if input.len() < 2 {
            1
        } else {
            2
        }
    } else if mode == 2 {
        if input.len() < 4 {
            1
        } else {
            4
        }
    } else if mode == 3 {
        let n: usize = (input[0] / 4) as usize + 4;
        if n > 16 {
            1
        } else if input.len() - 1 < n {
            if n == 4 || n == 8 || n == 16 {
                1
            } else {
                input.len()
            }
        } else {
            1 + n
        }
    } else {
        1
    }
}

/// Reads the compact integer at `pos` and appends its encoding to `output`.
/// Gives the value and the position behind it.
fn recode_compact(input: &[u8], pos: usize, output: &mut Vec<u8>) -> (r: Result<
    (u128, usize),
    Halted,
>)
    requires
        pos <= input@.len(),
    ensures
        match r {
            Ok((v, end)) => {
                &&& compact_decoding(input@.subrange(pos as int, input@.len() as int)) == Ok::<
                    (nat, nat),
                    EventsDecodingError,
                >((v as nat, (end - pos) as nat))
                &&& pos < end <= input@.len()
                &&& final(output)@ == old(output)@ + input@.subrange(pos as int, end as int)
            },
            Err(h) => {
                &&& compact_decoding(input@.subrange(pos as int, input@.len() as int)) == Err::<
                    (nat, nat),
                    EventsDecodingError,
                >(h.error)
                &&& compact_halt(input@, pos as int) == halt_of(h)
                &&& h.copied == pos
                &&& pos <= h.cursor <= input@.len()
                &&& final(output)@ == old(output)@
            },
        },
{
    let rest = slice_subrange(input, pos, input.len());
    match decode_compact(rest) {
        Ok((v, used)) => {
            let mut bytes = encode_compact(v);
            proof {
                lemma_compact_canonical(rest@);
                assert(rest@.subrange(0, used as int) =~= input@.subrange(
                    pos as int,
                    pos + used,
                ));
            }
            output.append(&mut bytes);
            Ok((v, pos + used))
        },
        Err(error) => Err(Halted { error, copied: pos, cursor: pos + taken_by_compact(rest) }),
    }
}

/// The position of the first variant that declares `tag`.
fn find_variant_index(variants: &Vec<Variant>, tag: u8) -> (r: Option<usize>)
    ensures
        match r {
            Some(i) => i < variants@.len() && find_variant(variants@, tag, 0) == Some(i as int),
            None => find_variant(variants@, tag, 0) is None,
        },
{
    let mut i: usize = 0;
    while i < variants.len()
        invariant
            i <= variants@.len(),
            find_variant(variants@, tag, 0) == find_variant(variants@, tag, i as int),
        decreases variants@.len() - i,
    {
        if variants[i].index == tag {
            return Some(i);
        }
        i = i + 1;
    }
    None
}


/// The number of bytes of a boolean or an integer of up to 128 bits.
fn width_of_primitive(p: Primitive) -> (r: usize)
    ensures
        r == fixed_width(p),
{
    match p {
        Primitive::Bool | Primitive::U8 | Primitive::I8 => 1,
        Primitive::U16 | Primitive::I16 => 2,
        Primitive::U32 | Primitive::I32 => 4,
        Primitive::U64 | Primitive::I64 => 8,
        Primitive::U128 | Primitive::I128 => 16,
        _ => 0,
    }
}

/// Reads the run of bytes at `pos` and gives it with the position behind it.
pub(crate) fn decode_bytes(input: &[u8], pos: usize) -> (r: Result<(Vec<u8>, usize), EventsDecodingError>)
    requires
        pos <= input@.len(),
    ensures
        match r {
            Ok((bytes, end)) => {
                &&& byte_run(input@, pos as int) is Ok
                &&& byte_run(input@, pos as int)->Ok_0.1 == end
                &&& bytes@ == input@.subrange(byte_run(input@, pos as int)->Ok_0.0, end as int)
                &&& pos < end <= input@.len()
            },
            Err(e) => byte_run(input@, pos as int) == Err::<(int, int), EventsDecodingError>(e),
        },
{
    let (count, used) = match decode_compact(slice_subrange(input, pos, input.len())) {
        Ok(found) => found,
        Err(e) => {
            return Err(e);
        },
    };
    proof {
        lemma_compact_canonical(input@.subrange(pos as int, input@.len() as int));
    }
    let start: usize = pos + used;
    if count > (input.len() - start) as u128 {
        return Err(EventsDecodingError::UnexpectedEof);
    }
    let end: usize = start + count as usize;
    let mut bytes: Vec<u8> = Vec::new();
    push_range(input, start, end, &mut bytes);
    Ok((bytes, end))
}

/// Copies the string at `pos` to `output` and gives the position behind it.
fn decode_str(input: &[u8], pos: usize, output: &mut Vec<u8>) -> (r: Result<usize, Halted>)
    requires
        pos <= input@.len(),
    ensures
        match r {
            Ok(end) => {
                &&& str_end(input@, pos as int) == Ok::<int, EventsDecodingError>(end as int)
                &&& pos <= end <= input@.len()
                &&& final(output)@ == old(output)@ + input@.subrange(pos as int, end as int)
            },
            Err(h) => {
                &&& str_end(input@, pos as int) == Err::<int, EventsDecodingError>(h.error)
                &&& str_halt(input@, pos as int) == halt_of(h)
                &&& pos <= h.copied <= h.cursor <= input@.len()
                &&& final(output)@ == old(output)@ + input@.subrange(pos as int, h.copied as int)
            },
        },
{
    let rest = slice_subrange(input, pos, input.len());
    proof {
        assert(input@.subrange(pos as int, pos as int) =~= Seq::<u8>::empty());
    }
    let (count, used) = match decode_compact(rest) {
        Ok(found) => found,
        Err(error) => {
            return Err(Halted { error, copied: pos, cursor: pos + taken_by_compact(rest) });
        },
    };
    proof {
        lemma_compact_canonical(rest@);
    }
    let start: usize = pos + used;
    if count > (input.len() - start) as u128 {
        return Err(
            Halted { error: EventsDecodingError::UnexpectedEof, copied: pos, cursor: start },
        );
    }
    let end: usize = start + count as usize;
    if !is_utf8(slice_subrange(input, start, end)) {
        return Err(Halted { error: EventsDecodingError::InvalidUtf8, copied: pos, cursor: end });
    }
    push_range(input, pos, end, output);
    Ok(end)
}

/// Copies the primitive at `pos` to `output` and gives the position behind it.
fn decode_primitive(p: Primitive, input: &[u8], pos: usize, output: &mut Vec<u8>) -> (r: Result<
    usize,
    Halted,
>)
    requires
        pos <= input@.len(),
    ensures
        match r {
            Ok(end) => {
                &&& primitive_end(p, input@, pos as int) == Ok::<int, EventsDecodingError>(end as int)
                &&& pos <= end <= input@.len()
                &&& final(output)@ == old(output)@ + input@.subrange(pos as int, end as int)
            },
            Err(h) => {
                &&& primitive_end(p, input@, pos as int) == Err::<int, EventsDecodingError>(h.error)
                &&& primitive_halt(p, input@, pos as int) == halt_of(h)
                &&& pos <= h.copied <= h.cursor <= input@.len()
                &&& final(output)@ == old(output)@ + input@.subrange(pos as int, h.copied as int)
            },
        },
{
    proof {
        assert(input@.subrange(pos as int, pos as int) =~= Seq::<u8>::empty());
    }
    match p {
        Primitive::Char | Primitive::U256 | Primitive::I256 => Err(
            halted_at(EventsDecodingError::UnsupportedPrimitive(p), pos),
        ),
        Primitive::Str => decode_str(input, pos, output),
        _ => {
            let width = width_of_primitive(p);
            if input.len() - pos < width {
                return Err(halted_at(EventsDecodingError::UnexpectedEof, pos));
            }
            if matches!(p, Primitive::Bool) && input[pos] > 1 {
                return Err(
                    Halted {
                        error: EventsDecodingError::InvalidBool(input[pos]),
                        copied: pos,
                        cursor: pos + 1,
                    },
                );
            }
            push_range(input, pos, pos + width, output);
            Ok(pos + width)
        },
    }
}

/// Whether a compact integer can stand for the primitive.
fn check_compact_primitive(p: Primitive) -> (r: Result<(), EventsDecodingError>)
    ensures
        r == compact_primitive(p),
{
    match p {
        Primitive::U8 | Primitive::U16 | Primitive::U32 | Primitive::U64 | Primitive::U128 => Ok(
            (),
        ),
        _ => Err(EventsDecodingError::InvalidCompactPrimitive(p)),
    }
}

/// Whether the type `inner`, which a compact type wraps, is an unsigned
/// integer or a composite with one field that is one.
fn check_compact_shape(metadata: &Metadata, inner: u32) -> (r: Result<(), EventsDecodingError>)
    ensures
        r == compact_shape(metadata.types@, inner),
{
    let def = match metadata.resolve_type(inner) {
        Ok(def) => def,
        Err(e) => {
            return Err(e);
        },
    };
    match def {
        TypeDef::Primitive(p) => check_compact_primitive(*p),
        TypeDef::Composite(fields) => {
            if fields.len() != 1 {
                return Err(EventsDecodingError::InvalidCompactType(CompactShape::NotSingleField));
            }
            let field = match metadata.resolve_type(fields[0]) {
                Ok(field) => field,
                Err(e) => {
                    return Err(e);
                },
            };
            match field {
                TypeDef::Primitive(p) => check_compact_primitive(*p),
                _ => Err(EventsDecodingError::InvalidCompactType(CompactShape::FieldNotPrimitive)),
            }
        },
        _ => Err(EventsDecodingError::InvalidCompactType(CompactShape::NotPrimitiveOrComposite)),
    }
}

/// Copies the compact field at `pos` to `output`, as the integer it is, and
/// gives the position behind it.
fn decode_compact_field(
    metadata: &Metadata,
    inner: u32,
    input: &[u8],
    pos: usize,
    output: &mut Vec<u8>,
) -> (r: Result<usize, Halted>)
    requires
        pos <= input@.len(),
    ensures
        match r {
            Ok(end) => {
                &&& compact_field_end(metadata.types@, inner, input@, pos as int) == Ok::<int, EventsDecodingError>(end as int)
                &&& pos <= end <= input@.len()
                &&& final(output)@ == old(output)@ + input@.subrange(pos as int, end as int)
            },
            Err(h) => {
                &&& compact_field_end(metadata.types@, inner, input@, pos as int) == Err::<int, EventsDecodingError>(h.error)
                &&& compact_field_halt(metadata.types@, inner, input@, pos as int) == halt_of(h)
                &&& pos <= h.copied <= h.cursor <= input@.len()
                &&& final(output)@ == old(output)@ + input@.subrange(pos as int, h.copied as int)
            },
        },
{
    proof {
        assert(input@.subrange(pos as int, pos as int) =~= Seq::<u8>::empty());
    }
    match check_compact_shape(metadata, inner) {
        Ok(_) => {},
        Err(e) => {
            return Err(halted_at(e, pos));
        },
    }
    match recode_compact(input, pos, output) {
        Ok((_, end)) => Ok(end),
        Err(h) => Err(h),
    }
}

/// Copies the value of type `type_id` at `pos` to `output` and gives the
/// position behind it. `stall` walks are open at `anchor`.
fn walk_type(
    metadata: &Metadata,
    type_id: u32,
    input: &[u8],
    pos: usize,
    anchor: usize,
    stall: usize,
    output: &mut Vec<u8>,
) -> (r: Result<usize, Halted>)
    requires
        pos <= input@.len(),
    ensures
        match r {
            Ok(end) => {
                &&& walk(metadata.types@, input@, type_id, pos as int, anchor as int, stall as nat) == Ok::<int, EventsDecodingError>(end as int)
                &&& pos <= end <= input@.len()
                &&& final(output)@ == old(output)@ + input@.subrange(pos as int, end as int)
            },
            Err(h) => {
                &&& walk(metadata.types@, input@, type_id, pos as int, anchor as int, stall as nat) == Err::<int, EventsDecodingError>(h.error)
                &&& walk_halt(metadata.types@, input@, type_id, pos as int, anchor as int, stall as nat) == halt_of(h)
                &&& pos <= h.copied <= h.cursor <= input@.len()
                &&& final(output)@ == old(output)@ + input@.subrange(pos as int, h.copied as int)
            },
        },
    decreases
            input@.len() - pos,
            spare(metadata.types@, stalled(pos as int, anchor as int, stall as nat)),
            0nat,
{
    proof {
        assert(input@.subrange(pos as int, pos as int) =~= Seq::<u8>::empty());
    }
    let def = match metadata.resolve_type(type_id) {
        Ok(def) => def,
        Err(e) => {
            return Err(halted_at(e, pos));
        },
    };
    let open_here: usize = if pos == anchor {
        stall
    } else {
        0
    };
    if open_here >= metadata.types.len() {
        return Err(halted_at(EventsDecodingError::CyclicType(type_id), pos));
    }
    let open: usize = open_here + 1;
    match def {
        TypeDef::Composite(fields) => walk_fields(metadata, fields, input, pos, pos, open, output),
        TypeDef::Tuple(fields) => walk_fields(metadata, fields, input, pos, pos, open, output),
        TypeDef::Variant(variants) => walk_variant(metadata, variants, input, pos, open, output),
        TypeDef::Sequence(element) => walk_sequence(
            metadata,
            *element,
            input,
            pos,
            open,
            output,
        ),
        TypeDef::Array { len, element } => walk_elements(
            metadata,
            *element,
            *len as u128,
            input,
            pos,
            pos,
            open,
            output,
        ),
        TypeDef::Primitive(p) => decode_primitive(*p, input, pos, output),
        TypeDef::Compact(inner) => decode_compact_field(metadata, *inner, input, pos, output),
        TypeDef::BitSequence => Err(
            halted_at(EventsDecodingError::Unimplemented(Feature::BitSequence), pos),
        ),
    }
}

/// Copies the tagged union at `pos` to `output` and gives the position
/// behind it. `open` walks are open at `pos`.
fn walk_variant(
    metadata: &Metadata,
    variants: &Vec<Variant>,
    input: &[u8],
    pos: usize,
    open: usize,
    output: &mut Vec<u8>,
) -> (r: Result<usize, Halted>)
    requires
        pos <= input@.len(),
    ensures
        match r {
            Ok(end) => {
                &&& variant_end(metadata.types@, input@, variants@, pos as int, open as nat) == Ok::<int, EventsDecodingError>(end as int)
                &&& pos <= end <= input@.len()
                &&& final(output)@ == old(output)@ + input@.subrange(pos as int, end as int)
            },
            Err(h) => {
                &&& variant_end(metadata.types@, input@, variants@, pos as int, open as nat) == Err::<int, EventsDecodingError>(h.error)
                &&& variant_halt(metadata.types@, input@, variants@, pos as int, open as nat) == halt_of(h)
                &&& pos <= h.copied <= h.cursor <= input@.len()
                &&& final(output)@ == old(output)@ + input@.subrange(pos as int, h.copied as int)
            },
        },
    decreases input@.len() - pos, spare(metadata.types@, open as nat), 2nat,
{
    if pos >= input.len() {
        proof {
            assert(input@.subrange(pos as int, pos as int) =~= Seq::<u8>::empty());
        }
        return Err(halted_at(EventsDecodingError::UnexpectedEof, pos));
    }
    let tag = input[pos];
    output.push(tag);
    proof {
        assert(old(output)@.push(tag) =~= old(output)@ + input@.subrange(pos as int, pos + 1));
    }
    match find_variant_index(variants, tag) {
        Some(i) => {
            let r = walk_fields(metadata, &variants[i].fields, input, pos + 1, pos, open, output);
            proof {
                match r {
                    Ok(end) => {
                        assert(old(output)@.push(tag) + input@.subrange(pos + 1, end as int)
                            =~= old(output)@ + input@.subrange(pos as int, end as int));
                    },
                    Err(h) => {
                        assert(old(output)@.push(tag) + input@.subrange(pos + 1, h.copied as int)
                            =~= old(output)@ + input@.subrange(pos as int, h.copied as int));
                    },
                }
            }
            r
        },
        None => Err(halted_at(EventsDecodingError::VariantNotFound(tag), pos + 1)),
    }
}

/// Copies the sequence at `pos` to `output` and gives the position behind
/// it. `open` walks are open at `pos`.
fn walk_sequence(
    metadata: &Metadata,
    element: u32,
    input: &[u8],
    pos: usize,
    open: usize,
    output: &mut Vec<u8>,
) -> (r: Result<usize, Halted>)
    requires
        pos <= input@.len(),
    ensures
        match r {
            Ok(end) => {
                &&& sequence_end(metadata.types@, input@, element, pos as int, open as nat) == Ok::<int, EventsDecodingError>(end as int)
                &&& pos <= end <= input@.len()
                &&& final(output)@ == old(output)@ + input@.subrange(pos as int, end as int)
            },
            Err(h) => {
                &&& sequence_end(metadata.types@, input@, element, pos as int, open as nat) == Err::<int, EventsDecodingError>(h.error)
                &&& sequence_halt(metadata.types@, input@, element, pos as int, open as nat) == halt_of(h)
                &&& pos <= h.copied <= h.cursor <= input@.len()
                &&& final(output)@ == old(output)@ + input@.subrange(pos as int, h.copied as int)
            },
        },
    decreases input@.len() - pos, spare(metadata.types@, open as nat), 2nat,
{
    let (count, start) = match recode_compact(input, pos, output) {
        Ok(found) => found,
        Err(h) => {
            proof {
                assert(input@.subrange(pos as int, pos as int) =~= Seq::<u8>::empty());
            }
            return Err(h);
        },
    };
    let r = walk_elements(metadata, element, count, input, start, pos, open, output);
    proof {
        match r {
            Ok(end) => {
                assert(input@.subrange(pos as int, start as int) + input@.subrange(
                    start as int,
                    end as int,
                ) =~= input@.subrange(pos as int, end as int));
            },
            Err(h) => {
                assert(input@.subrange(pos as int, start as int) + input@.subrange(
                    start as int,
                    h.copied as int,
                ) =~= input@.subrange(pos as int, h.copied as int));
            },
        }
    }
    r
}

/// Copies values of the types `fields`, one after the other from `pos` on,
/// to `output` and gives the position behind the last.
fn walk_fields(
    metadata: &Metadata,
    fields: &Vec<u32>,
    input: &[u8],
    pos: usize,
    anchor: usize,
    stall: usize,
    output: &mut Vec<u8>,
) -> (r: Result<usize, Halted>)
    requires
        pos <= input@.len(),
    ensures
        match r {
            Ok(end) => {
                &&& walk_each(metadata.types@, input@, fields@, pos as int, anchor as int, stall as nat) == Ok::<int, EventsDecodingError>(end as int)
                &&& pos <= end <= input@.len()
                &&& final(output)@ == old(output)@ + input@.subrange(pos as int, end as int)
            },
            Err(h) => {
                &&& walk_each(metadata.types@, input@, fields@, pos as int, anchor as int, stall as nat) == Err::<int, EventsDecodingError>(h.error)
                &&& walk_each_halt(metadata.types@, input@, fields@, pos as int, anchor as int, stall as nat) == halt_of(h)
                &&& pos <= h.copied <= h.cursor <= input@.len()
                &&& final(output)@ == old(output)@ + input@.subrange(pos as int, h.copied as int)
            },
        },
    decreases
            input@.len() - pos,
            spare(metadata.types@, stalled(pos as int, anchor as int, stall as nat)),
            1nat,
{
    let mut cur: usize = pos;
    let mut i: usize = 0;
    proof {
        assert(fields@.skip(0) =~= fields@);
        assert(input@.subrange(pos as int, pos as int) =~= Seq::<u8>::empty());
    }
    while i < fields.len()
        invariant
            i <= fields@.len(),
            pos <= cur <= input@.len(),
            walk_each(
                metadata.types@,
                input@,
                fields@,
                pos as int,
                anchor as int,
                stall as nat,
            ) == walk_each(
                metadata.types@,
                input@,
                fields@.skip(i as int),
                cur as int,
                anchor as int,
                stall as nat,
            ),
            walk_each_halt(
                metadata.types@,
                input@,
                fields@,
                pos as int,
                anchor as int,
                stall as nat,
            ) == walk_each_halt(
                metadata.types@,
                input@,
                fields@.skip(i as int),
                cur as int,
                anchor as int,
                stall as nat,
            ),
            output@ == old(output)@ + input@.subrange(pos as int, cur as int),
        decreases fields@.len() - i,
    {
        proof {
            assert(fields@.skip(i as int).drop_first() =~= fields@.skip(i + 1));
        }
        match walk_type(metadata, fields[i], input, cur, anchor, stall, output) {
            Ok(next) => {
                proof {
                    assert(input@.subrange(pos as int, cur as int) + input@.subrange(
                        cur as int,
                        next as int,
                    ) =~= input@.subrange(pos as int, next as int));
                }
                cur = next;
            },
            Err(h) => {
                proof {
                    assert(input@.subrange(pos as int, cur as int) + input@.subrange(
                        cur as int,
                        h.copied as int,
                    ) =~= input@.subrange(pos as int, h.copied as int));
                }
                return Err(h);
            },
        }
        i = i + 1;
    }
    Ok(cur)
}

/// Copies `count` values of type `element`, one after the other from `pos`
/// on, to `output` and gives the position behind the last.
fn walk_elements(
    metadata: &Metadata,
    element: u32,
    count: u128,
    input: &[u8],
    pos: usize,
    anchor: usize,
    stall: usize,
    output: &mut Vec<u8>,
) -> (r: Result<usize, Halted>)
    requires
        pos <= input@.len(),
    ensures
        match r {
            Ok(end) => {
                &&& walk_repeat(metadata.types@, input@, element, count as nat, pos as int, anchor as int, stall as nat) == Ok::<int, EventsDecodingError>(end as int)
                &&& pos <= end <= input@.len()
                &&& final(output)@ == old(output)@ + input@.subrange(pos as int, end as int)
            },
            Err(h) => {
                &&& walk_repeat(metadata.types@, input@, element, count as nat, pos as int, anchor as int, stall as nat) == Err::<int, EventsDecodingError>(h.error)
                &&& walk_repeat_halt(metadata.types@, input@, element, count as nat, pos as int, anchor as int, stall as nat) == halt_of(h)
                &&& pos <= h.copied <= h.cursor <= input@.len()
                &&& final(output)@ == old(output)@ + input@.subrange(pos as int, h.copied as int)
            },
        },
    decreases
            input@.len() - pos,
            spare(metadata.types@, stalled(pos as int, anchor as int, stall as nat)),
            1nat,
{
    let mut cur: usize = pos;
    let mut i: u128 = 0;
    proof {
        assert(input@.subrange(pos as int, pos as int) =~= Seq::<u8>::empty());
    }
    while i < count
        invariant
            i <= count,
            pos <= cur <= input@.len(),
            walk_repeat(
                metadata.types@,
                input@,
                element,
                count as nat,
                pos as int,
                anchor as int,
                stall as nat,
            ) == walk_repeat(
                metadata.types@,
                input@,
                element,
                (count - i) as nat,
                cur as int,
                anchor as int,
                stall as nat,
            ),
            walk_repeat_halt(
                metadata.types@,
                input@,
                element,
                count as nat,
                pos as int,
                anchor as int,
                stall as nat,
            ) == walk_repeat_halt(
                metadata.types@,
                input@,
                element,
                (count - i) as nat,
                cur as int,
                anchor as int,
                stall as nat,
            ),
            output@ == old(output)@ + input@.subrange(pos as int, cur as int),
        decreases count - i,
    {
        match walk_type(metadata, element, input, cur, anchor, stall, output) {
            Ok(next) => {
                proof {
                    assert(input@.subrange(pos as int, cur as int) + input@.subrange(
                        cur as int,
                        next as int,
                    ) =~= input@.subrange(pos as int, next as int));
                }
                cur = next;
            },
            Err(h) => {
                proof {
                    assert(input@.subrange(pos as int, cur as int) + input@.subrange(
                        cur as int,
                        h.copied as int,
                    ) =~= input@.subrange(pos as int, h.copied as int));
                }
                return Err(h);
            },
        }
        i = i + 1;
    }
    Ok(cur)
}

/// The stage of block execution in which an event was emitted.
#[derive(Clone, Copy, Debug, PartialEq, Eq, Structural)]
pub enum Phase {
    /// While applying the extrinsic with this index.
    ApplyExtrinsic(u32),
    Finalization,
    Initialization,
}

/// One decoded event: where it comes from, and the bytes of its fields.
#[derive(Clone, Debug, PartialEq, Eq)]
pub struct RawEvent {
    /// The name of the pallet that emitted the event.
    pub pallet: String,
    /// The index of that pallet.
    pub pallet_index: u8,
    /// The name of the event.
    pub variant: String,
    /// The index of the event among those of its pallet.
    pub variant_index: u8,
    /// The encoded fields of the event.
    pub data: Vec<u8>,
}

/// What a `RawEvent` holds.
pub struct RawEventView {
    pub pallet: Seq<char>,
    pub pallet_index: u8,
    pub variant: Seq<char>,
    pub variant_index: u8,
    pub data: Seq<u8>,
}

impl View for RawEvent {
    type V = RawEventView;

    open spec fn view(&self) -> RawEventView {
        RawEventView {
            pallet: self.pallet@,
            pallet_index: self.pallet_index,
            variant: self.variant@,
            variant_index: self.variant_index,
            data: self.data@,
        }
    }
}

/// What a list of decoded records holds.
pub open spec fn records_view(records: Seq<(Phase, RawEvent)>) -> Seq<(Phase, RawEventView)> {
    records.map_values(|r: (Phase, RawEvent)| (r.0, r.1@))
}

/// The phase that starts at `pos`, and where it ends: a tag byte, followed
/// for tag 0 by an extrinsic index of four bytes.
pub open spec fn phase_at(input: Seq<u8>, pos: int) -> Result<(Phase, int), EventsDecodingError> {
    if pos < 0 || pos >= input.len() {
        Err(EventsDecodingError::UnexpectedEof)
    } else if input[pos] == 0 {
        if pos + 5 > input.len() {
            Err(EventsDecodingError::UnexpectedEof)
        } else {
            Ok((Phase::ApplyExtrinsic(le_value(input.subrange(pos + 1, pos + 5)) as u32), pos + 5))
        }
    } else if input[pos] == 1 {
        Ok((Phase::Finalization, pos + 1))
    } else if input[pos] == 2 {
        Ok((Phase::Initialization, pos + 1))
    } else {
        Err(EventsDecodingError::InvalidPhase(input[pos]))
    }
}

/// Where the topic list that starts at `pos` ends: a compact count, then
/// that many hashes of `hash_len` bytes each.
pub open spec fn topics_end(input: Seq<u8>, pos: int, hash_len: nat) -> Result<
    int,
    EventsDecodingError,
> {
    match compact_decoding(input.subrange(pos, input.len() as int)) {
        Ok((count, used)) => if pos + used + count * hash_len > input.len() {
            Err(EventsDecodingError::UnexpectedEof)
        } else {
            Ok(pos + used + count * hash_len)
        },
        Err(e) => Err(e),
    }
}

/// The record that starts at `pos`, and where it ends: a phase, a pallet
/// index, a variant index, the fields that the catalog declares for the two
/// indices, and the topic list. The event holds the bytes of the fields.
pub open spec fn record_at(
    types: Map<u32, TypeDef>,
    events: Map<(u8, u8), EventMetadataView>,
    hash_len: nat,
    input: Seq<u8>,
    pos: int,
) -> Result<((Phase, RawEventView), int), EventsDecodingError> {
    match phase_at(input, pos) {
        Err(e) => Err(e),
        Ok((phase, at)) => if at + 2 > input.len() {
            Err(EventsDecodingError::UnexpectedEof)
        } else if !events.contains_key((input[at], input[at + 1])) {
            Err(EventsDecodingError::EventNotFound(input[at], input[at + 1]))
        } else {
            let event = events[(input[at], input[at + 1])];
            match walk_each(types, input, event.fields, at + 2, at + 2, 0) {
                Err(e) => Err(e),
                Ok(fields_end) => match topics_end(input, fields_end, hash_len) {
                    Err(e) => Err(e),
                    Ok(end) => Ok(
                        (
                            (
                                phase,
                                RawEventView {
                                    pallet: event.pallet,
                                    pallet_index: input[at],
                                    variant: event.event,
                                    variant_index: input[at + 1],
                                    data: input.subrange(at + 2, fields_end),
                                },
                            ),
                            end,
                        ),
                    ),
                },
            }
        },
    }
}

/// The first `count` records from `first` on, and where the last of them
/// ends; the failure of the first record that fails, if one does.
pub open spec fn records_upto(
    types: Map<u32, TypeDef>,
    events: Map<(u8, u8), EventMetadataView>,
    hash_len: nat,
    input: Seq<u8>,
    first: int,
    count: nat,
) -> Result<(Seq<(Phase, RawEventView)>, int), EventsDecodingError>
    decreases count,
{
    if count == 0 {
        Ok((Seq::empty(), first))
    } else {
        match records_upto(types, events, hash_len, input, first, (count - 1) as nat) {
            Err(e) => Err(e),
            Ok((records, pos)) => match record_at(types, events, hash_len, input, pos) {
                Err(e) => Err(e),
                Ok((record, end)) => Ok((records.push(record), end)),
            },
        }
    }
}

/// The records of a batch, and where the batch ends: a compact count, then
/// that many records.
pub open spec fn batch(
    types: Map<u32, TypeDef>,
    events: Map<(u8, u8), EventMetadataView>,
    hash_len: nat,
    input: Seq<u8>,
) -> Result<(Seq<(Phase, RawEventView)>, int), EventsDecodingError> {
    match compact_decoding(input) {
        Err(e) => Err(e),
        Ok((count, used)) => records_upto(types, events, hash_len, input, used as int, count),
    }
}

/// Once a record has failed, taking more records fails in the same way.
pub proof fn lemma_records_failure_stays(
    types: Map<u32, TypeDef>,
    events: Map<(u8, u8), EventMetadataView>,
    hash_len: nat,
    input: Seq<u8>,
    first: int,
    count: nat,
    more: nat,
)
    requires
        count <= more,
        records_upto(types, events, hash_len, input, first, count) is Err,
    ensures
        records_upto(types, events, hash_len, input, first, more) == records_upto(
            types,
            events,
            hash_len,
            input,
            first,
            count,
        ),
        records_cursor(types, events, hash_len, input, first, more) == records_cursor(
            types,
            events,
            hash_len,
            input,
            first,
            count,
        ),
    decreases more,
{
    if count < more {
        lemma_records_failure_stays(types, events, hash_len, input, first, count, (more - 1) as nat);
    }
}

/// Where the read of a phase that starts at `pos` stands when it is over:
/// the tag is read alone, the extrinsic index in one piece or not at all.
pub open spec fn phase_cursor(input: Seq<u8>, pos: int) -> int {
    if pos < 0 || pos >= input.len() {
        pos
    } else if input[pos] == 0 && pos + 5 <= input.len() {
        pos + 5
    } else {
        pos + 1
    }
}

/// Where the read of a topic list that starts at `pos` stands when it is
/// over: behind the list, or behind the count and the hashes that the input
/// still holds whole.
pub open spec fn topics_cursor(input: Seq<u8>, pos: int, hash_len: nat) -> int {
    match compact_decoding(input.subrange(pos, input.len() as int)) {
        Ok((count, used)) => if pos + used + count * hash_len > input.len() {
            pos + used + ((input.len() - pos - used) / hash_len as int) * hash_len
        } else {
            pos + used + count * hash_len
        },
        Err(_) => pos + compact_taken(input.subrange(pos, input.len() as int)),
    }
}

/// Where the read of a record that starts at `pos` stands when it is over.
/// The two indices are read one by one, and an event that the catalog does
/// not hold shows behind them.
pub open spec fn record_cursor(
    types: Map<u32, TypeDef>,
    events: Map<(u8, u8), EventMetadataView>,
    hash_len: nat,
    input: Seq<u8>,
    pos: int,
) -> int {
    match phase_at(input, pos) {
        Err(_) => phase_cursor(input, pos),
        Ok((_, at)) => if at + 2 > input.len() {
            if at + 1 > input.len() {
                at
            } else {
                at + 1
            }
        } else if !events.contains_key((input[at], input[at + 1])) {
            at + 2
        } else {
            let event = events[(input[at], input[at + 1])];
            match walk_each(types, input, event.fields, at + 2, at + 2, 0) {
                Err(_) => walk_each_halt(types, input, event.fields, at + 2, at + 2, 0).cursor,
                Ok(fields_end) => topics_cursor(input, fields_end, hash_len),
            }
        },
    }
}

/// Where the read of `count` records from `first` on stands when it is
/// over: behind the last of them, or where the first record that fails
/// left off.
pub open spec fn records_cursor(
    types: Map<u32, TypeDef>,
    events: Map<(u8, u8), EventMetadataView>,
    hash_len: nat,
    input: Seq<u8>,
    first: int,
    count: nat,
) -> int
    decreases count,
{
    if count == 0 {
        first
    } else {
        match records_upto(types, events, hash_len, input, first, (count - 1) as nat) {
            Err(_) => records_cursor(types, events, hash_len, input, first, (count - 1) as nat),
            Ok((_, pos)) => record_cursor(types, events, hash_len, input, pos),
        }
    }
}

/// Where the read of a batch stands when it is over.
pub open spec fn batch_cursor(
    types: Map<u32, TypeDef>,
    events: Map<(u8, u8), EventMetadataView>,
    hash_len: nat,
    input: Seq<u8>,
) -> int {
    match compact_decoding(input) {
        Err(_) => compact_taken(input),
        Ok((count, used)) => records_cursor(types, events, hash_len, input, used as int, count),
    }
}

/// Reads the phase at `pos` and gives it with the position behind it.
fn decode_phase(input: &[u8], pos: usize) -> (r: Result<
    (Phase, usize),
    (EventsDecodingError, usize),
>)
    requires
        pos <= input@.len(),
    ensures
        match r {
            Ok((phase, end)) => {
                &&& phase_at(input@, pos as int) == Ok::<(Phase, int), EventsDecodingError>(
                    (phase, end as int),
                )
                &&& pos < end <= input@.len()
            },
            Err((e, at)) => {
                &&& phase_at(input@, pos as int) == Err::<(Phase, int), EventsDecodingError>(e)
                &&& at == phase_cursor(input@, pos as int)
                &&& pos <= at <= input@.len()
            },
        },
{
    if pos >= input.len() {
        return Err((EventsDecodingError::UnexpectedEof, pos));
    }
    let tag = input[pos];
    if tag == 0 {
        if input.len() - pos < 5 {
            return Err((EventsDecodingError::UnexpectedEof, pos + 1));
        }
        let index = read_le(input, pos + 1, 4);
        proof {
            lemma_pow256_values();
            lemma_le_value_bound(input@.subrange(pos + 1, pos + 5));
        }
        Ok((Phase::ApplyExtrinsic(index as u32), pos + 5))
    } else if tag == 1 {
        Ok((Phase::Finalization, pos + 1))
    } else if tag == 2 {
        Ok((Phase::Initialization, pos + 1))
    } else {
        Err((EventsDecodingError::InvalidPhase(tag), pos + 1))
    }
}

/// Passes over the topic list at `pos` and gives the position behind it.
fn skip_topics(input: &[u8], pos: usize, hash_len: usize) -> (r: Result<
    usize,
    (EventsDecodingError, usize),
>)
    requires
        pos <= input@.len(),
    ensures
        match r {
            Ok(end) => {
                &&& topics_end(input@, pos as int, hash_len as nat) == Ok::<
                    int,
                    EventsDecodingError,
                >(end as int)
                &&& pos < end <= input@.len()
            },
            Err((e, at)) => {
                &&& topics_end(input@, pos as int, hash_len as nat) == Err::<
                    int,
                    EventsDecodingError,
                >(e)
                &&& at == topics_cursor(input@, pos as int, hash_len as nat)
                &&& pos <= at <= input@.len()
            },
        },
{
    let rest_of_input = slice_subrange(input, pos, input.len());
    let (count, used) = match decode_compact(rest_of_input) {
        Ok(found) => found,
        Err(e) => {
            return Err((e, pos + taken_by_compact(rest_of_input)));
        },
    };
    proof {
        lemma_compact_canonical(input@.subrange(pos as int, input@.len() as int));
    }
    let start: usize = pos + used;
    let rest: usize = input.len() - start;
    if hash_len == 0 {
        proof {
            assert(count * 0 == 0) by (nonlinear_arith);
        }
        return Ok(start);
    }
    let room: usize = rest / hash_len;
    if count > room as u128 {
        proof {
            assert(count as int * hash_len as int > rest as int) by (nonlinear_arith)
                requires
                    hash_len > 0,
                    count as int >= (rest as int / hash_len as int) + 1,
            ;
            assert((rest as int / hash_len as int) * hash_len as int <= rest as int)
                by (nonlinear_arith)
                requires
                    hash_len > 0,
                    rest >= 0,
            ;
        }
        return Err((EventsDecodingError::UnexpectedEof, start + room * hash_len));
    }
    proof {
        assert(count as int * hash_len as int <= rest as int) by (nonlinear_arith)
            requires
                hash_len > 0,
                0 <= count as int <= rest as int / hash_len as int,
        ;
    }
    Ok(start + count as usize * hash_len)
}

/// Decodes event records as a registry and a catalog direct. `HASH_LEN` is
/// the number of bytes of one topic hash.
pub struct EventsDecoder<const HASH_LEN: usize> {
    metadata: Metadata,
}

impl<const HASH_LEN: usize> EventsDecoder<HASH_LEN> {
    /// The registry that this decoder reads types from.
    pub closed spec fn types(&self) -> Map<u32, TypeDef> {
        self.metadata.types@
    }

    /// The catalog that this decoder reads events from.
    pub closed spec fn events(&self) -> Map<(u8, u8), EventMetadataView> {
        self.metadata.events@
    }

    /// Creates a new `EventsDecoder`.
    pub fn new(metadata: Metadata) -> (r: Self)
        ensures
            r.types() == metadata.types@,
            r.events() == metadata.events@,
    {
        EventsDecoder { metadata }
    }

    /// Reads the record at `pos` and gives it with the position behind it.
    fn decode_record(&self, input: &[u8], pos: usize) -> (r: Result<
        ((Phase, RawEvent), usize),
        (EventsDecodingError, usize),
    >)
        requires
            pos <= input@.len(),
        ensures
            match r {
                Ok((record, end)) => {
                    &&& record_at(self.types(), self.events(), HASH_LEN as nat, input@, pos as int) == Ok::<
                        ((Phase, RawEventView), int),
                        EventsDecodingError,
                    >(((record.0, record.1@), end as int))
                    &&& pos < end <= input@.len()
                },
                Err((e, at)) => {
                    &&& record_at(self.types(), self.events(), HASH_LEN as nat, input@, pos as int) == Err::<
                        ((Phase, RawEventView), int),
                        EventsDecodingError,
                    >(e)
                    &&& at == record_cursor(self.types(), self.events(), HASH_LEN as nat, input@, pos as int)
                    &&& pos <= at <= input@.len()
                },
            },
    {
        let (phase, at) = match decode_phase(input, pos) {
            Ok(found) => found,
            Err(e) => {
                return Err(e);
            },
        };
        if input.len() - at < 2 {
            let stop: usize = if input.len() - at < 1 {
                at
            } else {
                at + 1
            };
            return Err((EventsDecodingError::UnexpectedEof, stop));
        }
        let pallet_index = input[at];
        let variant_index = input[at + 1];
        let event_metadata = match self.metadata.event(pallet_index, variant_index) {
            Ok(found) => found,
            Err(e) => {
                return Err((e, at + 2));
            },
        };
        let mut event_data: Vec<u8> = Vec::new();
        let fields_end = match walk_fields(
            &self.metadata,
            &event_metadata.fields,
            input,
            at + 2,
            at + 2,
            0,
            &mut event_data,
        ) {
            Ok(end) => end,
            Err(h) => {
                return Err((h.error, h.cursor));
            },
        };
        let end = match skip_topics(input, fields_end, HASH_LEN) {
            Ok(end) => end,
            Err(e) => {
                return Err(e);
            },
        };
        let event = RawEvent {
            pallet: event_metadata.pallet.clone(),
            pallet_index,
            variant: event_metadata.event.clone(),
            variant_index,
            data: event_data,
        };
        proof {
            assert(event.data@ =~= input@.subrange(at + 2, fields_end as int));
        }
        Ok(((phase, event), end))
    }

    /// Decode events. On success `input` is left behind the batch. On
    /// failure it is left where the read stood when the failure showed:
    /// behind the records before the one that failed and behind what had
    /// been read of that one.
    pub fn decode_events(&self, input: &mut &[u8]) -> (r: Result<
        Vec<(Phase, RawEvent)>,
        EventsDecodingError,
    >)
        ensures
            match batch(self.types(), self.events(), HASH_LEN as nat, old(input)@) {
                Ok((records, end)) => {
                    &&& r is Ok
                    &&& records_view(r->Ok_0@) == records
                    &&& 0 <= end <= old(input)@.len()
                    &&& final(input)@ == old(input)@.subrange(end, old(input)@.len() as int)
                },
                Err(e) => {
                    &&& r is Err
                    &&& r->Err_0 == e
                    &&& 0 <= batch_cursor(self.types(), self.events(), HASH_LEN as nat, old(input)@) <= old(input)@.len()
                    &&& final(input)@ == old(input)@.subrange(
                        batch_cursor(self.types(), self.events(), HASH_LEN as nat, old(input)@),
                        old(input)@.len() as int,
                    )
                },
            },
    {
        let data: &[u8] = *input;
        let (len, first) = match decode_compact(data) {
            Ok(found) => found,
            Err(e) => {
                *input = slice_subrange(data, taken_by_compact(data), data.len());
                return Err(e);
            },
        };
        proof {
            lemma_compact_canonical(data@);
        }
        let mut r: Vec<(Phase, RawEvent)> = Vec::new();
        let mut pos: usize = first;
        let mut i: u128 = 0;
        proof {
            assert(records_view(r@) =~= Seq::<(Phase, RawEventView)>::empty());
        }
        while i < len
            invariant
                i <= len,
                pos <= data@.len(),
                data@ == old(input)@,
                input@ == old(input)@,
                compact_decoding(data@) == Ok::<(nat, nat), EventsDecodingError>(
                    (len as nat, first as nat),
                ),
                records_upto(self.types(), self.events(), HASH_LEN as nat, data@, first as int, i as nat) == Ok::<
                    (Seq<(Phase, RawEventView)>, int),
                    EventsDecodingError,
                >((records_view(r@), pos as int)),
            decreases len - i,
        {
            match self.decode_record(data, pos) {
                Ok((record, end)) => {
                    let ghost before = r@;
                    r.push(record);
                    proof {
                        assert(records_view(r@) =~= records_view(before).push(
                            (record.0, record.1@),
                        ));
                    }
                    pos = end;
                },
                Err((e, at)) => {
                    proof {
                        assert(records_upto(self.types(), self.events(), HASH_LEN as nat, data@, first as int, (i + 1) as nat) is Err);
                        assert(records_cursor(self.types(), self.events(), HASH_LEN as nat, data@, first as int, (i + 1) as nat) == at);
                        lemma_records_failure_stays(
                            self.types(), self.events(), HASH_LEN as nat,
                            data@,
                            first as int,
                            (i + 1) as nat,
                            len as nat,
                        );
                    }
                    *input = slice_subrange(data, at, data.len());
                    return Err(e);
                },
            }
            i = i + 1;
        }
        *input = slice_subrange(data, pos, data.len());
        Ok(r)
    }

    /// Copies the fields of one event from the front of `input` to `output`.
    /// On success `input` is left behind the fields. On failure it is left
    /// where the read stood when the failure showed, and `output` holds the
    /// bytes of what was passed over whole before that.
    pub fn decode_raw_event(
        &self,
        event_metadata: &EventMetadata,
        input: &mut &[u8],
        output: &mut Vec<u8>,
    ) -> (r: Result<(), EventsDecodingError>)
        ensures
            match walk_each(self.types(), old(input)@, event_metadata.fields@, 0, 0, 0) {
                Ok(end) => {
                    &&& r is Ok
                    &&& 0 <= end <= old(input)@.len()
                    &&& final(input)@ == old(input)@.subrange(end, old(input)@.len() as int)
                    &&& final(output)@ == old(output)@ + old(input)@.subrange(0, end)
                },
                Err(e) => {
                    let halt = walk_each_halt(
                        self.types(),
                        old(input)@,
                        event_metadata.fields@,
                        0,
                        0,
                        0,
                    );
                    &&& r == Err::<(), EventsDecodingError>(e)
                    &&& 0 <= halt.copied <= halt.cursor <= old(input)@.len()
                    &&& final(input)@ == old(input)@.subrange(
                        halt.cursor,
                        old(input)@.len() as int,
                    )
                    &&& final(output)@ == old(output)@ + old(input)@.subrange(0, halt.copied)
                },
            },
    {
        let data: &[u8] = *input;
        match walk_fields(&self.metadata, &event_metadata.fields, data, 0, 0, 0, output) {
            Ok(end) => {
                *input = slice_subrange(data, end, data.len());
                Ok(())
            },
            Err(h) => {
                *input = slice_subrange(data, h.cursor, data.len());
                Err(h.error)
            },
        }
    }

    /// Copies one value of type `type_id` from the front of `input` to
    /// `output`. On success `input` is left behind the value and `output` has
    /// grown by the bytes that were passed over. On failure `input` is left
    /// where the read stood when the failure showed, and `output` has grown
    /// by the bytes of what was passed over whole before that.
    pub fn decode_type(&self, type_id: u32, input: &mut &[u8], output: &mut Vec<u8>) -> (r: Result<
        (),
        EventsDecodingError,
    >)
        ensures
            match walk(self.types(), old(input)@, type_id, 0, 0, 0) {
                Ok(end) => {
                    &&& r is Ok
                    &&& 0 <= end <= old(input)@.len()
                    &&& final(input)@ == old(input)@.subrange(end, old(input)@.len() as int)
                    &&& final(output)@ == old(output)@ + old(input)@.subrange(0, end)
                },
                Err(e) => {
                    let halt = walk_halt(self.types(), old(input)@, type_id, 0, 0, 0);
                    &&& r == Err::<(), EventsDecodingError>(e)
                    &&& 0 <= halt.copied <= halt.cursor <= old(input)@.len()
                    &&& final(input)@ == old(input)@.subrange(
                        halt.cursor,
                        old(input)@.len() as int,
                    )
                    &&& final(output)@ == old(output)@ + old(input)@.subrange(0, halt.copied)
                },
            },
    {
        let data: &[u8] = *input;
        match walk_type(&self.metadata, type_id, data, 0, 0, 0, output) {
            Ok(end) => {
                *input = slice_subrange(data, end, data.len());
                Ok(())
            },
            Err(h) => {
                *input = slice_subrange(data, h.cursor, data.len());
                Err(h.error)
            },
        }
    }
}

/// An event with a layout of its own, which a `RawEvent` of the same names
/// can be read as.
pub trait Event: Sized {
    /// The name of the pallet that emits the event.
    const PALLET: &'static str;

    /// The name of the event.
    const EVENT: &'static str;

    /// Whether reading `data` as this event gives `r`.
    spec fn decoded(data: Seq<u8>, r: Result<Self, EventsDecodingError>) -> bool;

    /// Reads the event from the front of `data`.
    fn decode(data: &[u8]) -> (r: Result<Self, EventsDecodingError>)
        ensures
            Self::decoded(data@, r),
    ;
}

impl RawEvent {
    /// Attempt to decode this `RawEvent` into a specific event: `None` where
    /// it is an event of another name, else what reading its data gives.
    pub fn as_event<E: Event>(&self) -> (r: Result<Option<E>, EventsDecodingError>)
        ensures
            !(self.pallet@ == E::PALLET@ && self.variant@ == E::EVENT@) ==> r == Ok::<
                Option<E>,
                EventsDecodingError,
            >(None),
            self.pallet@ == E::PALLET@ && self.variant@ == E::EVENT@ ==> match r {
                Ok(Some(event)) => E::decoded(self.data@, Ok(event)),
                Ok(None) => false,
                Err(e) => E::decoded(self.data@, Err(e)),
            },
    {
        let pallet: String = E::PALLET.to_owned();
        let event: String = E::EVENT.to_owned();
        if self.pallet == pallet && self.variant == event {
            match E::decode(self.data.as_slice()) {
                Ok(event) => Ok(Some(event)),
                Err(e) => Err(e),
            }
        } else {
            Ok(None)
        }
    }
}

} // verus!
