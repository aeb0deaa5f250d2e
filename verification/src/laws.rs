//! What holds of every walk: it stays inside the input, it reads no byte
//! behind its end, and on an input that was cut short it reports just that.

use vstd::prelude::*;
use crate::compact::{compact_decoding, lemma_compact_canonical, lemma_compact_prefix};
use crate::error::{EventsDecodingError, Primitive};
use crate::layout::{
    compact_end,
    find_variant,
    halt_at,
    primitive_end,
    sequence_end,
    spare,
    stalled,
    supported,
    variant_end,
    walk,
    walk_each,
    walk_each_halt,
    walk_halt,
    walk_repeat,
    walk_repeat_halt,
};
use crate::events::{batch, phase_at, record_at, records_upto, topics_end};
use crate::metadata::{EventMetadataView, TypeDef, Variant};

verus! {

/// What a walk that ends at `end` on the whole input gives on its first `k`
/// bytes: the same end where they hold the value, the end of input where
/// they do not.
pub open spec fn cut(end: int, k: int) -> Result<int, EventsDecodingError> {
    if end <= k {
        Ok(end)
    } else {
        Err(EventsDecodingError::UnexpectedEof)
    }
}

/// A compact integer inside an input that is cut after `k` bytes.
pub proof fn lemma_compact_end_prefix(input: Seq<u8>, k: int, pos: int)
    requires
        0 <= pos <= k <= input.len(),
        compact_end(input, pos) is Ok,
    ensures
        pos < compact_end(input, pos)->Ok_0 <= input.len(),
        compact_end(input.subrange(0, k), pos) == cut(compact_end(input, pos)->Ok_0, k),
        compact_end(input, pos)->Ok_0 <= k ==> compact_decoding(
            input.subrange(0, k).subrange(pos, k),
        ) == compact_decoding(input.subrange(pos, input.len() as int)),
{
    let rest = input.subrange(pos, input.len() as int);
    lemma_compact_canonical(rest);
    lemma_compact_prefix(rest, k - pos);
    assert(input.subrange(0, k).subrange(pos, k) =~= rest.subrange(0, k - pos));
}

/// A primitive inside an input that is cut after `k` bytes.
pub proof fn lemma_primitive_prefix(p: Primitive, input: Seq<u8>, k: int, pos: int)
    requires
        0 <= pos <= k <= input.len(),
        primitive_end(p, input, pos) is Ok,
    ensures
        pos <= primitive_end(p, input, pos)->Ok_0 <= input.len(),
        primitive_end(p, input.subrange(0, k), pos) == cut(primitive_end(p, input, pos)->Ok_0, k),
{
    let short = input.subrange(0, k);
    let end = primitive_end(p, input, pos)->Ok_0;
    if p is Str {
        let rest = input.subrange(pos, input.len() as int);
        let (count, used) = compact_decoding(rest)->Ok_0;
        lemma_compact_end_prefix(input, k, pos);
        if end <= k {
            assert(short.subrange(pos + used, pos + used + count) =~= input.subrange(
                pos + used,
                pos + used + count,
            ));
        }
    } else {
        if end <= k && p is Bool {
            assert(short[pos] == input[pos]);
        }
    }
}

/// The position of a variant depends on the declared indices alone: what is
/// found is the first variant that declares the tag, wherever it stands and
/// whatever the other indices are; nothing is found only where no variant
/// declares the tag.
pub proof fn lemma_find_variant(variants: Seq<Variant>, tag: u8, from: int)
    requires
        0 <= from,
    ensures
        match find_variant(variants, tag, from) {
            Some(i) => {
                &&& from <= i < variants.len()
                &&& variants[i].index == tag
                &&& forall|j: int| from <= j < i ==> variants[j].index != tag
            },
            None => forall|j: int| from <= j < variants.len() ==> variants[j].index != tag,
        },
    decreases variants.len() - from,
{
    if from < variants.len() && variants[from].index != tag {
        lemma_find_variant(variants, tag, from + 1);
    }
}

/// A variant is found by the index it declares, not by where it stands:
/// where one variant alone declares the tag, that variant is found, at
/// whatever place it is declared and whatever the indices around it are.
pub proof fn lemma_variant_by_index(variants: Seq<Variant>, tag: u8, i: int)
    requires
        0 <= i < variants.len(),
        variants[i].index == tag,
        forall|j: int| 0 <= j < variants.len() && j != i ==> variants[j].index != tag,
    ensures
        find_variant(variants, tag, 0) == Some(i),
{
    lemma_find_variant(variants, tag, 0);
}

/// A walk inside an input that is cut after `k` bytes, for a walk that
/// starts inside the part that is left.
proof fn lemma_walk_cut(
    types: Map<u32, TypeDef>,
    input: Seq<u8>,
    k: int,
    id: u32,
    pos: int,
    anchor: int,
    stall: nat,
)
    requires
        0 <= pos <= k <= input.len(),
        walk(types, input, id, pos, anchor, stall) is Ok,
    ensures
        pos <= walk(types, input, id, pos, anchor, stall)->Ok_0 <= input.len(),
        walk(types, input.subrange(0, k), id, pos, anchor, stall) == cut(
            walk(types, input, id, pos, anchor, stall)->Ok_0,
            k,
        ),
    decreases input.len() - pos, spare(types, stalled(pos, anchor, stall)), 0nat, 0nat,
{
    let open = stalled(pos, anchor, stall) + 1;
    match types[id] {
        TypeDef::Composite(fields) => {
            lemma_walk_each_cut(types, input, k, fields@, pos, pos, open);
        },
        TypeDef::Tuple(fields) => {
            lemma_walk_each_cut(types, input, k, fields@, pos, pos, open);
        },
        TypeDef::Variant(variants) => {
            lemma_variant_cut(types, input, k, variants@, pos, open);
        },
        TypeDef::Sequence(element) => {
            lemma_sequence_cut(types, input, k, element, pos, open);
        },
        TypeDef::Array { len, element } => {
            lemma_walk_repeat_cut(types, input, k, element, len as nat, pos, pos, open);
        },
        TypeDef::Primitive(p) => {
            lemma_primitive_prefix(p, input, k, pos);
        },
        TypeDef::Compact(inner) => {
            lemma_compact_end_prefix(input, k, pos);
        },
        TypeDef::BitSequence => {},
    }
}

/// A tagged union inside an input that is cut after `k` bytes.
proof fn lemma_variant_cut(
    types: Map<u32, TypeDef>,
    input: Seq<u8>,
    k: int,
    variants: Seq<Variant>,
    pos: int,
    open: nat,
)
    requires
        0 <= pos <= k <= input.len(),
        variant_end(types, input, variants, pos, open) is Ok,
    ensures
        pos <= variant_end(types, input, variants, pos, open)->Ok_0 <= input.len(),
        variant_end(types, input.subrange(0, k), variants, pos, open) == cut(
            variant_end(types, input, variants, pos, open)->Ok_0,
            k,
        ),
    decreases input.len() - pos, spare(types, open), 2nat, 0nat,
{
    let i = find_variant(variants, input[pos], 0)->Some_0;
    if pos < k {
        assert(input.subrange(0, k)[pos] == input[pos]);
        lemma_walk_each_cut(types, input, k, variants[i].fields@, pos + 1, pos, open);
    } else {
        lemma_walk_each_cut(
            types,
            input,
            input.len() as int,
            variants[i].fields@,
            pos + 1,
            pos,
            open,
        );
    }
}

/// A sequence inside an input that is cut after `k` bytes.
proof fn lemma_sequence_cut(
    types: Map<u32, TypeDef>,
    input: Seq<u8>,
    k: int,
    element: u32,
    pos: int,
    open: nat,
)
    requires
        0 <= pos <= k <= input.len(),
        sequence_end(types, input, element, pos, open) is Ok,
    ensures
        pos <= sequence_end(types, input, element, pos, open)->Ok_0 <= input.len(),
        sequence_end(types, input.subrange(0, k), element, pos, open) == cut(
            sequence_end(types, input, element, pos, open)->Ok_0,
            k,
        ),
    decreases input.len() - pos, spare(types, open), 2nat, 0nat,
{
    let (count, used) = compact_decoding(input.subrange(pos, input.len() as int))->Ok_0;
    lemma_compact_end_prefix(input, k, pos);
    if pos + used <= k {
        lemma_walk_repeat_cut(types, input, k, element, count, pos + used, pos, open);
    } else {
        lemma_walk_repeat_cut(
            types,
            input,
            input.len() as int,
            element,
            count,
            pos + used,
            pos,
            open,
        );
    }
}

/// Fields in a row inside an input that is cut after `k` bytes.
proof fn lemma_walk_each_cut(
    types: Map<u32, TypeDef>,
    input: Seq<u8>,
    k: int,
    fields: Seq<u32>,
    pos: int,
    anchor: int,
    stall: nat,
)
    requires
        0 <= pos <= k <= input.len(),
        walk_each(types, input, fields, pos, anchor, stall) is Ok,
    ensures
        pos <= walk_each(types, input, fields, pos, anchor, stall)->Ok_0 <= input.len(),
        walk_each(types, input.subrange(0, k), fields, pos, anchor, stall) == cut(
            walk_each(types, input, fields, pos, anchor, stall)->Ok_0,
            k,
        ),
    decreases input.len() - pos, spare(types, stalled(pos, anchor, stall)), 1nat, fields.len(),
{
    if fields.len() > 0 {
        let next = walk(types, input, fields[0], pos, anchor, stall)->Ok_0;
        lemma_walk_cut(types, input, k, fields[0], pos, anchor, stall);
        if next <= k {
            lemma_walk_each_cut(types, input, k, fields.drop_first(), next, anchor, stall);
        } else {
            lemma_walk_each_cut(
                types,
                input,
                input.len() as int,
                fields.drop_first(),
                next,
                anchor,
                stall,
            );
        }
    }
}

/// Elements in a row inside an input that is cut after `k` bytes.
proof fn lemma_walk_repeat_cut(
    types: Map<u32, TypeDef>,
    input: Seq<u8>,
    k: int,
    element: u32,
    count: nat,
    pos: int,
    anchor: int,
    stall: nat,
)
    requires
        0 <= pos <= k <= input.len(),
        walk_repeat(types, input, element, count, pos, anchor, stall) is Ok,
    ensures
        pos <= walk_repeat(types, input, element, count, pos, anchor, stall)->Ok_0 <= input.len(),
        walk_repeat(types, input.subrange(0, k), element, count, pos, anchor, stall) == cut(
            walk_repeat(types, input, element, count, pos, anchor, stall)->Ok_0,
            k,
        ),
    decreases input.len() - pos, spare(types, stalled(pos, anchor, stall)), 1nat, count,
{
    if count > 0 {
        let next = walk(types, input, element, pos, anchor, stall)->Ok_0;
        lemma_walk_cut(types, input, k, element, pos, anchor, stall);
        if next <= k {
            lemma_walk_repeat_cut(
                types,
                input,
                k,
                element,
                (count - 1) as nat,
                next,
                anchor,
                stall,
            );
        } else {
            lemma_walk_repeat_cut(
                types,
                input,
                input.len() as int,
                element,
                (count - 1) as nat,
                next,
                anchor,
                stall,
            );
        }
    }
}

/// Cutting bytes off the end of an input never turns a row of fields into
/// another one. A walk over fields in a row that succeeds on the whole input
/// gives, on its first `k` bytes, the same end if the fields lie within
/// them, and otherwise reports that the input ended.
pub proof fn lemma_walk_each_truncated(
    types: Map<u32, TypeDef>,
    input: Seq<u8>,
    k: int,
    fields: Seq<u32>,
    pos: int,
    anchor: int,
    stall: nat,
)
    requires
        0 <= pos <= k <= input.len(),
        walk_each(types, input, fields, pos, anchor, stall) is Ok,
    ensures
        pos <= walk_each(types, input, fields, pos, anchor, stall)->Ok_0 <= input.len(),
        walk_each(types, input.subrange(0, k), fields, pos, anchor, stall) == cut(
            walk_each(types, input, fields, pos, anchor, stall)->Ok_0,
            k,
        ),
{
    lemma_walk_each_cut(types, input, k, fields, pos, anchor, stall);
}

/// A walk that succeeds ends inside the input, at or behind its start.
pub proof fn lemma_walk_in_bounds(
    types: Map<u32, TypeDef>,
    input: Seq<u8>,
    id: u32,
    pos: int,
    anchor: int,
    stall: nat,
)
    requires
        walk(types, input, id, pos, anchor, stall) is Ok,
    ensures
        0 <= pos <= walk(types, input, id, pos, anchor, stall)->Ok_0 <= input.len(),
{
    lemma_walk_cut(types, input, input.len() as int, id, pos, anchor, stall);
}

/// Cutting bytes off the end of an input never turns a value into another
/// one. A walk that succeeds on the whole input gives, on its first `k`
/// bytes, the same end if the value lies within them, and otherwise reports
/// that the input ended.
pub proof fn lemma_walk_truncated(
    types: Map<u32, TypeDef>,
    input: Seq<u8>,
    k: int,
    id: u32,
    pos: int,
    anchor: int,
    stall: nat,
)
    requires
        0 <= k <= input.len(),
        walk(types, input, id, pos, anchor, stall) is Ok,
    ensures
        walk(types, input.subrange(0, k), id, pos, anchor, stall) == cut(
            walk(types, input, id, pos, anchor, stall)->Ok_0,
            k,
        ),
{
    if pos <= k {
        lemma_walk_cut(types, input, k, id, pos, anchor, stall);
    } else {
        lemma_walk_in_bounds(types, input, id, pos, anchor, stall);
    }
}


/// A phase inside an input that is cut after `k` bytes.
pub proof fn lemma_phase_prefix(input: Seq<u8>, k: int, pos: int)
    requires
        0 <= pos <= k <= input.len(),
        phase_at(input, pos) is Ok,
    ensures
        pos < (phase_at(input, pos)->Ok_0).1 <= input.len(),
        phase_at(input.subrange(0, k), pos) == (if (phase_at(input, pos)->Ok_0).1 <= k {
            phase_at(input, pos)
        } else {
            Err(EventsDecodingError::UnexpectedEof)
        }),
{
    let short = input.subrange(0, k);
    if pos < k {
        assert(short[pos] == input[pos]);
        if input[pos] == 0 && pos + 5 <= k {
            assert(short.subrange(pos + 1, pos + 5) =~= input.subrange(pos + 1, pos + 5));
        }
    }
}

/// A topic list inside an input that is cut after `k` bytes.
pub proof fn lemma_topics_prefix(input: Seq<u8>, k: int, pos: int, hash_len: nat)
    requires
        0 <= pos <= k <= input.len(),
        topics_end(input, pos, hash_len) is Ok,
    ensures
        pos < topics_end(input, pos, hash_len)->Ok_0 <= input.len(),
        topics_end(input.subrange(0, k), pos, hash_len) == cut(
            topics_end(input, pos, hash_len)->Ok_0,
            k,
        ),
{
    let (count, used) = compact_decoding(input.subrange(pos, input.len() as int))->Ok_0;
    lemma_compact_end_prefix(input, k, pos);
    assert(count * hash_len >= 0) by (nonlinear_arith);
}

/// A record inside an input that is cut after `k` bytes: the same record
/// where the bytes that are left hold all of it, the end of input where
/// they do not.
pub proof fn lemma_record_prefix(
    types: Map<u32, TypeDef>,
    events: Map<(u8, u8), EventMetadataView>,
    hash_len: nat,
    input: Seq<u8>,
    k: int,
    pos: int,
)
    requires
        0 <= pos <= k <= input.len(),
        record_at(types, events, hash_len, input, pos) is Ok,
    ensures
        pos < (record_at(types, events, hash_len, input, pos)->Ok_0).1 <= input.len(),
        record_at(types, events, hash_len, input.subrange(0, k), pos) == (if (record_at(
            types,
            events,
            hash_len,
            input,
            pos,
        )->Ok_0).1 <= k {
            record_at(types, events, hash_len, input, pos)
        } else {
            Err(EventsDecodingError::UnexpectedEof)
        }),
{
    let short = input.subrange(0, k);
    let (phase, at) = phase_at(input, pos)->Ok_0;
    lemma_phase_prefix(input, k, pos);
    let event = events[(input[at], input[at + 1])];
    let fields_end = walk_each(types, input, event.fields, at + 2, at + 2, 0)->Ok_0;
    lemma_walk_each_cut(types, input, input.len() as int, event.fields, at + 2, at + 2, 0);
    lemma_topics_prefix(input, input.len() as int, fields_end, hash_len);
    if at + 2 <= k {
        assert(short[at] == input[at]);
        assert(short[at + 1] == input[at + 1]);
        lemma_walk_each_cut(types, input, k, event.fields, at + 2, at + 2, 0);
        if fields_end <= k {
            lemma_topics_prefix(input, k, fields_end, hash_len);
            assert(short.subrange(at + 2, fields_end) =~= input.subrange(at + 2, fields_end));
        }
    }
}

/// Records in a row inside an input that is cut after `k` bytes.
pub proof fn lemma_records_prefix(
    types: Map<u32, TypeDef>,
    events: Map<(u8, u8), EventMetadataView>,
    hash_len: nat,
    input: Seq<u8>,
    k: int,
    first: int,
    count: nat,
)
    requires
        0 <= first <= k <= input.len(),
        records_upto(types, events, hash_len, input, first, count) is Ok,
    ensures
        first <= (records_upto(types, events, hash_len, input, first, count)->Ok_0).1
            <= input.len(),
        records_upto(types, events, hash_len, input.subrange(0, k), first, count) == (if (
        records_upto(types, events, hash_len, input, first, count)->Ok_0).1 <= k {
            records_upto(types, events, hash_len, input, first, count)
        } else {
            Err(EventsDecodingError::UnexpectedEof)
        }),
    decreases count,
{
    if count > 0 {
        let before = (count - 1) as nat;
        let (_, pos) = records_upto(types, events, hash_len, input, first, before)->Ok_0;
        lemma_records_prefix(types, events, hash_len, input, k, first, before);
        if pos <= k {
            lemma_record_prefix(types, events, hash_len, input, k, pos);
        } else {
            lemma_record_prefix(types, events, hash_len, input, input.len() as int, pos);
        }
    }
}

/// Cutting bytes off the end of a batch never gives other events. A batch
/// that decodes gives, on its first `k` bytes, the same events if it lies
/// within them, and otherwise the report that the input ended.
pub proof fn lemma_batch_truncated(
    types: Map<u32, TypeDef>,
    events: Map<(u8, u8), EventMetadataView>,
    hash_len: nat,
    input: Seq<u8>,
    k: int,
)
    requires
        0 <= k <= input.len(),
        batch(types, events, hash_len, input) is Ok,
    ensures
        batch(types, events, hash_len, input.subrange(0, k)) == (if (batch(
            types,
            events,
            hash_len,
            input,
        )->Ok_0).1 <= k {
            batch(types, events, hash_len, input)
        } else {
            Err(EventsDecodingError::UnexpectedEof)
        }),
{
    let (count, used) = compact_decoding(input)->Ok_0;
    lemma_compact_canonical(input);
    lemma_compact_prefix(input, k);
    if used <= k {
        lemma_records_prefix(types, events, hash_len, input, k, used as int, count);
    } else {
        lemma_records_prefix(types, events, hash_len, input, input.len() as int, used as int, count);
    }
}

/// A primitive that cannot be decoded fails every walk that comes to it,
/// whatever the input holds.
pub proof fn lemma_unsupported_primitive(
    types: Map<u32, TypeDef>,
    input: Seq<u8>,
    id: u32,
    pos: int,
    anchor: int,
    stall: nat,
)
    requires
        0 <= pos <= input.len(),
        types.contains_key(id),
        types[id] is Primitive,
        !supported(types[id]->Primitive_0),
        stalled(pos, anchor, stall) < types.len(),
    ensures
        walk(types, input, id, pos, anchor, stall) == Err::<int, EventsDecodingError>(
            EventsDecodingError::UnsupportedPrimitive(types[id]->Primitive_0),
        ),
{
}

/// The failure of a field is the failure of the fields in a row: once the
/// fields before it have been passed over, nothing behind it is looked at.
pub proof fn lemma_first_failure(
    types: Map<u32, TypeDef>,
    input: Seq<u8>,
    fields: Seq<u32>,
    pos: int,
    anchor: int,
    stall: nat,
    i: int,
    at: int,
)
    requires
        0 <= i < fields.len(),
        walk_each(types, input, fields.subrange(0, i), pos, anchor, stall) == Ok::<
            int,
            EventsDecodingError,
        >(at),
        walk(types, input, fields[i], at, anchor, stall) is Err,
    ensures
        walk_each(types, input, fields, pos, anchor, stall) == Err::<int, EventsDecodingError>(
            walk(types, input, fields[i], at, anchor, stall)->Err_0,
        ),
    decreases i,
{
    if i == 0 {
        assert(fields.subrange(0, 0) =~= Seq::<u32>::empty());
    } else {
        let head = fields.subrange(0, i);
        assert(head[0] == fields[0]);
        let next = walk(types, input, fields[0], pos, anchor, stall)->Ok_0;
        assert(head.drop_first() =~= fields.drop_first().subrange(0, i - 1));
        lemma_first_failure(types, input, fields.drop_first(), next, anchor, stall, i - 1, at);
    }
}

/// A walk that succeeds stands at its end when it is over, with all that it
/// passed over copied.
pub proof fn lemma_halt_of_success(
    types: Map<u32, TypeDef>,
    input: Seq<u8>,
    id: u32,
    pos: int,
    anchor: int,
    stall: nat,
)
    requires
        walk(types, input, id, pos, anchor, stall) is Ok,
    ensures
        walk_halt(types, input, id, pos, anchor, stall) == halt_at(walk(types, input, id, pos, anchor, stall)->Ok_0),
    decreases input.len() - pos, spare(types, stalled(pos, anchor, stall)), 0nat, 0nat,
{
    let open = stalled(pos, anchor, stall) + 1;
    match types[id] {
        TypeDef::Composite(fields) => {
            lemma_each_halt_of_success(types, input, fields@, pos, pos, open);
        },
        TypeDef::Tuple(fields) => {
            lemma_each_halt_of_success(types, input, fields@, pos, pos, open);
        },
        TypeDef::Variant(variants) => {
            let i = find_variant(variants@, input[pos], 0)->Some_0;
            lemma_each_halt_of_success(types, input, variants@[i].fields@, pos + 1, pos, open);
        },
        TypeDef::Sequence(element) => {
            let (count, used) = compact_decoding(input.subrange(pos, input.len() as int))->Ok_0;
            lemma_repeat_halt_of_success(types, input, element, count, pos + used, pos, open);
        },
        TypeDef::Array { len, element } => {
            lemma_repeat_halt_of_success(types, input, element, len as nat, pos, pos, open);
        },
        TypeDef::Primitive(p) => {},
        TypeDef::Compact(inner) => {},
        TypeDef::BitSequence => {},
    }
}

/// A walk over fields in a row that succeeds stands at its end when it is
/// over.
pub proof fn lemma_each_halt_of_success(
    types: Map<u32, TypeDef>,
    input: Seq<u8>,
    fields: Seq<u32>,
    pos: int,
    anchor: int,
    stall: nat,
)
    requires
        walk_each(types, input, fields, pos, anchor, stall) is Ok,
    ensures
        walk_each_halt(types, input, fields, pos, anchor, stall) == halt_at(walk_each(types, input, fields, pos, anchor, stall)->Ok_0),
    decreases input.len() - pos, spare(types, stalled(pos, anchor, stall)), 1nat, fields.len(),
{
    if fields.len() > 0 {
        let next = walk(types, input, fields[0], pos, anchor, stall)->Ok_0;
        lemma_each_halt_of_success(types, input, fields.drop_first(), next, anchor, stall);
    }
}

/// A walk over elements in a row that succeeds stands at its end when it is
/// over.
proof fn lemma_repeat_halt_of_success(
    types: Map<u32, TypeDef>,
    input: Seq<u8>,
    element: u32,
    count: nat,
    pos: int,
    anchor: int,
    stall: nat,
)
    requires
        walk_repeat(types, input, element, count, pos, anchor, stall) is Ok,
    ensures
        walk_repeat_halt(types, input, element, count, pos, anchor, stall) == halt_at(walk_repeat(types, input, element, count, pos, anchor, stall)->Ok_0),
    decreases input.len() - pos, spare(types, stalled(pos, anchor, stall)), 1nat, count,
{
    if count > 0 {
        let next = walk(types, input, element, pos, anchor, stall)->Ok_0;
        lemma_repeat_halt_of_success(
            types,
            input,
            element,
            (count - 1) as nat,
            next,
            anchor,
            stall,
        );
    }
}

} // verus!
