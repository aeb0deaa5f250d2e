//! Values as the encoding rules see them, and the law that ties the decoder
//! to those rules: what is encoded as a type says decodes as that type, to
//! the bytes it was encoded to.

use vstd::prelude::*;
use vstd::utf8::valid_utf8;
use crate::compact::{
    compact_decoding,
    compact_encoding,
    lemma_compact_canonical,
    lemma_compact_encoding_len,
    lemma_compact_round_trip,
};
use crate::error::EventsDecodingError;
use crate::laws::{lemma_find_variant, lemma_walk_truncated};
use crate::layout::{
    byte_run,
    compact_shape,
    find_variant,
    fixed_width,
    spare,
    stalled,
    supported,
    walk,
    walk_each,
    walk_repeat,
};
use crate::metadata::TypeDef;

verus! {

/// A value, as far as its encoding goes.
pub enum Value {
    /// A boolean or an integer of fixed width: the bytes it is written as.
    Raw(Seq<u8>),
    /// A string: its bytes.
    Str(Seq<u8>),
    /// An integer in compact form.
    Compact(nat),
    /// The fields of a composite, the elements of a tuple or of an array.
    Tuple(Seq<Value>),
    /// The tag of a variant and its fields.
    Variant(u8, Seq<Value>),
    /// The elements of a sequence.
    Sequence(Seq<Value>),
}

/// The bytes that a value is encoded to.
pub open spec fn encoding(v: Value) -> Seq<u8>
    decreases v,
{
    match v {
        Value::Raw(bytes) => bytes,
        Value::Str(bytes) => compact_encoding(bytes.len()) + bytes,
        Value::Compact(n) => compact_encoding(n),
        Value::Tuple(values) => encoding_all(values),
        Value::Variant(tag, values) => seq![tag] + encoding_all(values),
        Value::Sequence(values) => compact_encoding(values.len()) + encoding_all(values),
    }
}

/// The bytes that values in a row are encoded to.
pub open spec fn encoding_all(values: Seq<Value>) -> Seq<u8>
    decreases values,
{
    if values.len() == 0 {
        Seq::empty()
    } else {
        encoding(values[0]) + encoding_all(values.subrange(1, values.len() as int))
    }
}

/// The number of nodes of a value.
pub open spec fn size(v: Value) -> nat
    decreases v,
{
    match v {
        Value::Tuple(values) => 1 + size_all(values),
        Value::Variant(_, values) => 1 + size_all(values),
        Value::Sequence(values) => 1 + size_all(values),
        _ => 1,
    }
}

/// The number of nodes of values in a row.
pub open spec fn size_all(values: Seq<Value>) -> nat
    decreases values,
{
    if values.len() == 0 {
        0
    } else {
        size(values[0]) + size_all(values.subrange(1, values.len() as int))
    }
}

/// `n` times the type `element`.
pub open spec fn repeated(element: u32, n: nat) -> Seq<u32> {
    Seq::new(n, |i: int| element)
}

/// Whether `v` is a value of the type `id`.
pub open spec fn typed(types: Map<u32, TypeDef>, id: u32, v: Value) -> bool
    decreases v,
{
    types.contains_key(id) && match types[id] {
        TypeDef::Composite(fields) => v is Tuple && typed_all(types, fields@, v->Tuple_0),
        TypeDef::Tuple(fields) => v is Tuple && typed_all(types, fields@, v->Tuple_0),
        TypeDef::Array { len, element } => v is Tuple && typed_all(
            types,
            repeated(element, len as nat),
            v->Tuple_0,
        ),
        TypeDef::Sequence(element) => v is Sequence && v->Sequence_0.len() <= u128::MAX
            && typed_all(types, repeated(element, v->Sequence_0.len()), v->Sequence_0),
        TypeDef::Variant(variants) => v is Variant && find_variant(variants@, v->Variant_0, 0)
            is Some && typed_all(
            types,
            variants@[find_variant(variants@, v->Variant_0, 0)->Some_0].fields@,
            v->Variant_1,
        ),
        TypeDef::Primitive(p) => supported(p) && if p is Str {
            v is Str && v->Str_0.len() <= u128::MAX && valid_utf8(v->Str_0)
        } else {
            v is Raw && v->Raw_0.len() == fixed_width(p) && (p is Bool ==> v->Raw_0[0] <= 1)
        },
        TypeDef::Compact(inner) => compact_shape(types, inner) is Ok && v is Compact
            && v->Compact_0 <= u128::MAX,
        TypeDef::BitSequence => false,
    }
}

/// Whether `values` are values of the types `ids`, one for one.
pub open spec fn typed_all(types: Map<u32, TypeDef>, ids: Seq<u32>, values: Seq<Value>) -> bool
    decreases values,
{
    ids.len() == values.len() && (values.len() == 0 || (typed(types, ids[0], values[0])
        && typed_all(
        types,
        ids.subrange(1, ids.len() as int),
        values.subrange(1, values.len() as int),
    )))
}

/// Whether the encoding of `v` stands in `input` from `pos` on.
pub open spec fn sits(input: Seq<u8>, pos: int, v: Value) -> bool {
    &&& 0 <= pos
    &&& pos + encoding(v).len() <= input.len()
    &&& input.subrange(pos, pos + encoding(v).len()) == encoding(v)
}

/// Whether the encodings of `values` stand in `input` from `pos` on, one
/// behind the other.
pub open spec fn sit(input: Seq<u8>, pos: int, values: Seq<Value>) -> bool {
    &&& 0 <= pos
    &&& pos + encoding_all(values).len() <= input.len()
    &&& input.subrange(pos, pos + encoding_all(values).len()) == encoding_all(values)
}


/// Where two runs of bytes stand in an input one behind the other, each of
/// them stands there.
proof fn lemma_parts(input: Seq<u8>, pos: int, head: Seq<u8>, tail: Seq<u8>)
    requires
        0 <= pos,
        pos + (head + tail).len() <= input.len(),
        input.subrange(pos, pos + (head + tail).len()) == head + tail,
    ensures
        input.subrange(pos, pos + head.len()) == head,
        input.subrange(pos + head.len(), pos + head.len() + tail.len()) == tail,
{
    let whole = input.subrange(pos, pos + (head + tail).len());
    assert forall|i: int| 0 <= i < head.len() implies input[pos + i] == head[i] by {
        assert(whole[i] == (head + tail)[i]);
    }
    assert forall|i: int| 0 <= i < tail.len() implies input[pos + head.len() + i] == tail[i] by {
        assert(whole[head.len() + i] == (head + tail)[head.len() + i]);
    }
    assert(input.subrange(pos, pos + head.len()) =~= head);
    assert(input.subrange(pos + head.len(), pos + head.len() + tail.len()) =~= tail);
}

/// Where values stand in a row, the first stands at the start and the
/// others behind it.
proof fn lemma_sit_split(input: Seq<u8>, pos: int, values: Seq<Value>)
    requires
        sit(input, pos, values),
        values.len() > 0,
    ensures
        sits(input, pos, values[0]),
        sit(
            input,
            pos + encoding(values[0]).len(),
            values.subrange(1, values.len() as int),
        ),
{
    lemma_parts(
        input,
        pos,
        encoding(values[0]),
        encoding_all(values.subrange(1, values.len() as int)),
    );
}

/// Where the compact encoding of `n` stands at `pos`, decoding at `pos`
/// gives `n`.
proof fn lemma_compact_at(input: Seq<u8>, pos: int, n: nat)
    requires
        n <= u128::MAX,
        0 <= pos,
        pos + compact_encoding(n).len() <= input.len(),
        input.subrange(pos, pos + compact_encoding(n).len()) == compact_encoding(n),
    ensures
        compact_decoding(input.subrange(pos, input.len() as int)) == Ok::<
            (nat, nat),
            EventsDecodingError,
        >((n, compact_encoding(n).len())),
        compact_encoding(n).len() >= 1,
{
    let rest = input.subrange(pos + compact_encoding(n).len(), input.len() as int);
    lemma_compact_round_trip(n, rest);
    lemma_compact_encoding_len(n);
    assert(input.subrange(pos, input.len() as int) =~= compact_encoding(n) + rest);
}

/// Two values of one type that stand at one place are one value.
pub proof fn lemma_unique(
    types: Map<u32, TypeDef>,
    id: u32,
    a: Value,
    b: Value,
    input: Seq<u8>,
    pos: int,
)
    requires
        typed(types, id, a),
        typed(types, id, b),
        sits(input, pos, a),
        sits(input, pos, b),
    ensures
        a == b,
    decreases a,
{
    match types[id] {
        TypeDef::Composite(fields) => {
            lemma_unique_all(types, fields@, a->Tuple_0, b->Tuple_0, input, pos);
        },
        TypeDef::Tuple(fields) => {
            lemma_unique_all(types, fields@, a->Tuple_0, b->Tuple_0, input, pos);
        },
        TypeDef::Array { len, element } => {
            lemma_unique_all(
                types,
                repeated(element, len as nat),
                a->Tuple_0,
                b->Tuple_0,
                input,
                pos,
            );
        },
        TypeDef::Sequence(element) => {
            let xs = a->Sequence_0;
            let ys = b->Sequence_0;
            lemma_parts(input, pos, compact_encoding(xs.len()), encoding_all(xs));
            lemma_parts(input, pos, compact_encoding(ys.len()), encoding_all(ys));
            lemma_compact_at(input, pos, xs.len());
            lemma_compact_at(input, pos, ys.len());
            lemma_unique_all(
                types,
                repeated(element, xs.len()),
                xs,
                ys,
                input,
                pos + compact_encoding(xs.len()).len(),
            );
        },
        TypeDef::Variant(variants) => {
            lemma_parts(input, pos, seq![a->Variant_0], encoding_all(a->Variant_1));
            lemma_parts(input, pos, seq![b->Variant_0], encoding_all(b->Variant_1));
            assert(input.subrange(pos, pos + 1)[0] == a->Variant_0);
            assert(input.subrange(pos, pos + 1)[0] == b->Variant_0);
            let i = find_variant(variants@, a->Variant_0, 0)->Some_0;
            lemma_find_variant(variants@, a->Variant_0, 0);
            lemma_unique_all(
                types,
                variants@[i].fields@,
                a->Variant_1,
                b->Variant_1,
                input,
                pos + 1,
            );
        },
        TypeDef::Primitive(p) => {
            if p is Str {
                let x = a->Str_0;
                let y = b->Str_0;
                lemma_parts(input, pos, compact_encoding(x.len()), x);
                lemma_parts(input, pos, compact_encoding(y.len()), y);
                lemma_compact_at(input, pos, x.len());
                lemma_compact_at(input, pos, y.len());
            }
        },
        TypeDef::Compact(inner) => {
            lemma_compact_at(input, pos, a->Compact_0);
            lemma_compact_at(input, pos, b->Compact_0);
        },
        TypeDef::BitSequence => {},
    }
}

/// Two rows of values of the same types that stand at one place are one row.
pub proof fn lemma_unique_all(
    types: Map<u32, TypeDef>,
    ids: Seq<u32>,
    xs: Seq<Value>,
    ys: Seq<Value>,
    input: Seq<u8>,
    pos: int,
)
    requires
        typed_all(types, ids, xs),
        typed_all(types, ids, ys),
        sit(input, pos, xs),
        sit(input, pos, ys),
    ensures
        xs == ys,
    decreases xs,
{
    if xs.len() > 0 {
        lemma_sit_split(input, pos, xs);
        lemma_sit_split(input, pos, ys);
        lemma_unique(types, ids[0], xs[0], ys[0], input, pos);
        lemma_unique_all(
            types,
            ids.subrange(1, ids.len() as int),
            xs.subrange(1, xs.len() as int),
            ys.subrange(1, ys.len() as int),
            input,
            pos + encoding(xs[0]).len(),
        );
        assert forall|i: int| 0 <= i < xs.len() implies xs[i] == ys[i] by {
            if i > 0 {
                assert(xs[i] == xs.subrange(1, xs.len() as int)[i - 1]);
                assert(ys[i] == ys.subrange(1, ys.len() as int)[i - 1]);
            }
        }
    }
    assert(xs =~= ys);
}


/// Elements of one type in a row are fields whose types are all that type.
proof fn lemma_repeat_as_each(
    types: Map<u32, TypeDef>,
    input: Seq<u8>,
    element: u32,
    n: nat,
    pos: int,
    anchor: int,
    stall: nat,
)
    ensures
        walk_repeat(types, input, element, n, pos, anchor, stall) == walk_each(
            types,
            input,
            repeated(element, n),
            pos,
            anchor,
            stall,
        ),
    decreases n,
{
    if n > 0 {
        let ids = repeated(element, n);
        assert(ids.drop_first() =~= repeated(element, (n - 1) as nat));
        match walk(types, input, element, pos, anchor, stall) {
            Ok(next) => {
                lemma_repeat_as_each(types, input, element, (n - 1) as nat, next, anchor, stall);
            },
            Err(_) => {},
        }
    }
}

/// The walk over a value that stands at `pos`. `open` are the types of the
/// walks that are open at `pos`: a value of one of them that stood at `pos`
/// would be larger than `v`.
proof fn lemma_accepts(
    types: Map<u32, TypeDef>,
    input: Seq<u8>,
    id: u32,
    v: Value,
    pos: int,
    anchor: int,
    stall: nat,
    open: Set<u32>,
)
    requires
        types.dom().finite(),
        typed(types, id, v),
        sits(input, pos, v),
        open.finite(),
        open.subset_of(types.dom()),
        open.len() == stalled(pos, anchor, stall),
        forall|t: u32, w: Value|
            #![trigger typed(types, t, w)]
            open.contains(t) && typed(types, t, w) && sits(input, pos, w) ==> size(w) > size(v),
    ensures
        walk(types, input, id, pos, anchor, stall) == Ok::<int, EventsDecodingError>(
            pos + encoding(v).len(),
        ),
    decreases v,
{
    if open.contains(id) {
        assert(typed(types, id, v));
    }
    let wider = open.insert(id);
    vstd::set_lib::lemma_len_subset(wider, types.dom());
    let deeper = stalled(pos, anchor, stall) + 1;
    assert forall|t: u32, w: Value|
        #![trigger typed(types, t, w)]
        wider.contains(t) && typed(types, t, w) && sits(input, pos, w) implies size(w) >= size(
        v,
    ) by {
        if t == id {
            lemma_unique(types, id, w, v, input, pos);
        }
    }
    match types[id] {
        TypeDef::Composite(fields) => {
            lemma_accepts_all(types, input, fields@, v->Tuple_0, pos, pos, deeper, wider, size(v));
        },
        TypeDef::Tuple(fields) => {
            lemma_accepts_all(types, input, fields@, v->Tuple_0, pos, pos, deeper, wider, size(v));
        },
        TypeDef::Array { len, element } => {
            lemma_repeat_as_each(types, input, element, len as nat, pos, pos, deeper);
            lemma_accepts_all(
                types,
                input,
                repeated(element, len as nat),
                v->Tuple_0,
                pos,
                pos,
                deeper,
                wider,
                size(v),
            );
        },
        TypeDef::Sequence(element) => {
            let values = v->Sequence_0;
            let used = compact_encoding(values.len()).len();
            lemma_parts(input, pos, compact_encoding(values.len()), encoding_all(values));
            lemma_compact_at(input, pos, values.len());
            lemma_repeat_as_each(types, input, element, values.len(), pos + used, pos, deeper);
            lemma_accepts_all(
                types,
                input,
                repeated(element, values.len()),
                values,
                pos + used,
                pos,
                deeper,
                wider,
                size(v),
            );
        },
        TypeDef::Variant(variants) => {
            let values = v->Variant_1;
            lemma_parts(input, pos, seq![v->Variant_0], encoding_all(values));
            assert(input.subrange(pos, pos + 1)[0] == v->Variant_0);
            let i = find_variant(variants@, v->Variant_0, 0)->Some_0;
            lemma_find_variant(variants@, v->Variant_0, 0);
            lemma_accepts_all(
                types,
                input,
                variants@[i].fields@,
                values,
                pos + 1,
                pos,
                deeper,
                wider,
                size(v),
            );
        },
        TypeDef::Primitive(p) => {
            if p is Str {
                let bytes = v->Str_0;
                lemma_parts(input, pos, compact_encoding(bytes.len()), bytes);
                lemma_compact_at(input, pos, bytes.len());
            } else {
                if p is Bool {
                    assert(input.subrange(pos, pos + 1)[0] == v->Raw_0[0]);
                }
            }
        },
        TypeDef::Compact(inner) => {
            lemma_compact_at(input, pos, v->Compact_0);
        },
        TypeDef::BitSequence => {},
    }
}

/// The walk over values that stand in a row from `cur` on. `open` are the
/// types of the walks that are open at `anchor`: a value of one of them that
/// stood there would have `bound` nodes or more, and so be larger than all
/// of `values`.
proof fn lemma_accepts_all(
    types: Map<u32, TypeDef>,
    input: Seq<u8>,
    ids: Seq<u32>,
    values: Seq<Value>,
    cur: int,
    anchor: int,
    stall: nat,
    open: Set<u32>,
    bound: nat,
)
    requires
        types.dom().finite(),
        typed_all(types, ids, values),
        sit(input, cur, values),
        anchor <= cur,
        open.finite(),
        open.subset_of(types.dom()),
        open.len() == stall,
        size_all(values) < bound,
        cur == anchor ==> forall|t: u32, w: Value|
            #![trigger typed(types, t, w)]
            open.contains(t) && typed(types, t, w) && sits(input, cur, w) ==> size(w) >= bound,
    ensures
        walk_each(types, input, ids, cur, anchor, stall) == Ok::<int, EventsDecodingError>(
            cur + encoding_all(values).len(),
        ),
    decreases values,
{
    if values.len() > 0 {
        lemma_sit_split(input, cur, values);
        let here: Set<u32> = if cur == anchor {
            open
        } else {
            Set::empty()
        };
        lemma_accepts(types, input, ids[0], values[0], cur, anchor, stall, here);
        lemma_accepts_all(
            types,
            input,
            ids.subrange(1, ids.len() as int),
            values.subrange(1, values.len() as int),
            cur + encoding(values[0]).len(),
            anchor,
            stall,
            open,
            bound,
        );
    }
}

/// The round trip: the encoding of a value of a type, with whatever bytes
/// behind it, is walked as that type from its first byte to its last. So
/// decoding it as that type succeeds and copies just the encoding.
pub proof fn lemma_round_trip(types: Map<u32, TypeDef>, id: u32, v: Value, rest: Seq<u8>)
    requires
        types.dom().finite(),
        typed(types, id, v),
    ensures
        walk(types, encoding(v) + rest, id, 0, 0, 0) == Ok::<int, EventsDecodingError>(
            encoding(v).len() as int,
        ),
        (encoding(v) + rest).subrange(0, encoding(v).len() as int) == encoding(v),
{
    let input = encoding(v) + rest;
    assert(input.subrange(0, encoding(v).len() as int) =~= encoding(v));
    lemma_accepts(types, input, id, v, 0, 0, 0, Set::empty());
}


/// An encoding that lost bytes at its end is no encoding of another value:
/// walking the first `k` bytes of the encoding of a value, for any `k` short
/// of its length, runs into the end of the input.
pub proof fn lemma_cut_encoding(types: Map<u32, TypeDef>, id: u32, v: Value, k: int)
    requires
        types.dom().finite(),
        typed(types, id, v),
        0 <= k < encoding(v).len(),
    ensures
        walk(types, encoding(v).subrange(0, k), id, 0, 0, 0) == Err::<int, EventsDecodingError>(
            EventsDecodingError::UnexpectedEof,
        ),
{
    lemma_round_trip(types, id, v, Seq::empty());
    assert(encoding(v) + Seq::<u8>::empty() =~= encoding(v));
    lemma_walk_truncated(types, encoding(v), k, id, 0, 0, 0);
}


/// The value that a walk passes over. Where the walk fails there is none,
/// and this is an empty run of bytes.
pub open spec fn value_at(
    types: Map<u32, TypeDef>,
    input: Seq<u8>,
    id: u32,
    pos: int,
    anchor: int,
    stall: nat,
) -> Value
    decreases input.len() - pos, spare(types, stalled(pos, anchor, stall)), 0nat, 0nat,
{
    if walk(types, input, id, pos, anchor, stall) is Err {
        Value::Raw(Seq::empty())
    } else {
        let open = stalled(pos, anchor, stall) + 1;
        match types[id] {
            TypeDef::Composite(fields) => Value::Tuple(
                values_at(types, input, fields@, pos, pos, open),
            ),
            TypeDef::Tuple(fields) => Value::Tuple(
                values_at(types, input, fields@, pos, pos, open),
            ),
            TypeDef::Array { len, element } => Value::Tuple(
                values_at(types, input, repeated(element, len as nat), pos, pos, open),
            ),
            TypeDef::Sequence(element) => {
                let (count, used) = compact_decoding(input.subrange(pos, input.len() as int))->Ok_0;
                if used < 1 || pos + used > input.len() {
                    Value::Raw(Seq::empty())
                } else {
                    Value::Sequence(
                        values_at(types, input, repeated(element, count), pos + used, pos, open),
                    )
                }
            },
            TypeDef::Variant(variants) => if pos >= input.len() {
                Value::Raw(Seq::empty())
            } else {
                match find_variant(variants@, input[pos], 0) {
                    Some(i) => Value::Variant(
                        input[pos],
                        values_at(types, input, variants@[i].fields@, pos + 1, pos, open),
                    ),
                    None => Value::Raw(Seq::empty()),
                }
            },
            TypeDef::Primitive(p) => if p is Str {
                Value::Str(
                    input.subrange(byte_run(input, pos)->Ok_0.0, byte_run(input, pos)->Ok_0.1),
                )
            } else {
                Value::Raw(input.subrange(pos, pos + fixed_width(p)))
            },
            TypeDef::Compact(_) => Value::Compact(
                (compact_decoding(input.subrange(pos, input.len() as int))->Ok_0).0,
            ),
            TypeDef::BitSequence => Value::Raw(Seq::empty()),
        }
    }
}

/// The values that a walk over fields in a row passes over, as far as it
/// gets.
pub open spec fn values_at(
    types: Map<u32, TypeDef>,
    input: Seq<u8>,
    ids: Seq<u32>,
    pos: int,
    anchor: int,
    stall: nat,
) -> Seq<Value>
    decreases input.len() - pos, spare(types, stalled(pos, anchor, stall)), 1nat, ids.len(),
{
    if ids.len() == 0 {
        Seq::empty()
    } else {
        match walk(types, input, ids[0], pos, anchor, stall) {
            Ok(next) => if next < pos || next > input.len() {
                Seq::empty()
            } else {
                seq![value_at(types, input, ids[0], pos, anchor, stall)] + values_at(
                    types,
                    input,
                    ids.drop_first(),
                    next,
                    anchor,
                    stall,
                )
            },
            Err(_) => Seq::empty(),
        }
    }
}


/// What a walk passes over is a value of the type that is walked, and the
/// bytes from the start of the walk to its end are the encoding of that
/// value: nothing is accepted that the encoding rules would not produce.
pub proof fn lemma_walk_value(
    types: Map<u32, TypeDef>,
    input: Seq<u8>,
    id: u32,
    pos: int,
    anchor: int,
    stall: nat,
)
    requires
        walk(types, input, id, pos, anchor, stall) is Ok,
    ensures
        typed(types, id, value_at(types, input, id, pos, anchor, stall)),
        sits(input, pos, value_at(types, input, id, pos, anchor, stall)),
        pos + encoding(value_at(types, input, id, pos, anchor, stall)).len() == walk(
            types,
            input,
            id,
            pos,
            anchor,
            stall,
        )->Ok_0,
    decreases input.len() - pos, spare(types, stalled(pos, anchor, stall)), 0nat, 1nat,
{
    match types[id] {
        TypeDef::Composite(_) => lemma_value_composite(types, input, id, pos, anchor, stall),
        TypeDef::Tuple(_) => lemma_value_tuple(types, input, id, pos, anchor, stall),
        TypeDef::Array { .. } => lemma_value_array(types, input, id, pos, anchor, stall),
        TypeDef::Sequence(_) => lemma_value_sequence(types, input, id, pos, anchor, stall),
        TypeDef::Variant(_) => lemma_value_variant(types, input, id, pos, anchor, stall),
        TypeDef::Primitive(_) => lemma_value_primitive(types, input, id, pos, anchor, stall),
        TypeDef::Compact(_) => lemma_value_compact(types, input, id, pos, anchor, stall),
        TypeDef::BitSequence => {},
    }
}

/// The value of a composite.
proof fn lemma_value_composite(
    types: Map<u32, TypeDef>,
    input: Seq<u8>,
    id: u32,
    pos: int,
    anchor: int,
    stall: nat,
)
    requires
        walk(types, input, id, pos, anchor, stall) is Ok,
        types[id] is Composite,
    ensures
        typed(types, id, value_at(types, input, id, pos, anchor, stall)),
        sits(input, pos, value_at(types, input, id, pos, anchor, stall)),
        pos + encoding(value_at(types, input, id, pos, anchor, stall)).len() == walk(
            types,
            input,
            id,
            pos,
            anchor,
            stall,
        )->Ok_0,
    decreases input.len() - pos, spare(types, stalled(pos, anchor, stall)), 0nat, 0nat,
{
    let open = stalled(pos, anchor, stall) + 1;
    lemma_walk_values(types, input, types[id]->Composite_0@, pos, pos, open);
}

/// The value of a tuple.
proof fn lemma_value_tuple(
    types: Map<u32, TypeDef>,
    input: Seq<u8>,
    id: u32,
    pos: int,
    anchor: int,
    stall: nat,
)
    requires
        walk(types, input, id, pos, anchor, stall) is Ok,
        types[id] is Tuple,
    ensures
        typed(types, id, value_at(types, input, id, pos, anchor, stall)),
        sits(input, pos, value_at(types, input, id, pos, anchor, stall)),
        pos + encoding(value_at(types, input, id, pos, anchor, stall)).len() == walk(
            types,
            input,
            id,
            pos,
            anchor,
            stall,
        )->Ok_0,
    decreases input.len() - pos, spare(types, stalled(pos, anchor, stall)), 0nat, 0nat,
{
    let open = stalled(pos, anchor, stall) + 1;
    lemma_walk_values(types, input, types[id]->Tuple_0@, pos, pos, open);
}

/// The value of an array.
proof fn lemma_value_array(
    types: Map<u32, TypeDef>,
    input: Seq<u8>,
    id: u32,
    pos: int,
    anchor: int,
    stall: nat,
)
    requires
        walk(types, input, id, pos, anchor, stall) is Ok,
        types[id] is Array,
    ensures
        typed(types, id, value_at(types, input, id, pos, anchor, stall)),
        sits(input, pos, value_at(types, input, id, pos, anchor, stall)),
        pos + encoding(value_at(types, input, id, pos, anchor, stall)).len() == walk(
            types,
            input,
            id,
            pos,
            anchor,
            stall,
        )->Ok_0,
    decreases input.len() - pos, spare(types, stalled(pos, anchor, stall)), 0nat, 0nat,
{
    let open = stalled(pos, anchor, stall) + 1;
    let ids = repeated(types[id]->Array_element, types[id]->Array_len as nat);
    lemma_repeat_as_each(
        types,
        input,
        types[id]->Array_element,
        types[id]->Array_len as nat,
        pos,
        pos,
        open,
    );
    lemma_walk_values(types, input, ids, pos, pos, open);
}

/// The value of a sequence.
proof fn lemma_value_sequence(
    types: Map<u32, TypeDef>,
    input: Seq<u8>,
    id: u32,
    pos: int,
    anchor: int,
    stall: nat,
)
    requires
        walk(types, input, id, pos, anchor, stall) is Ok,
        types[id] is Sequence,
    ensures
        typed(types, id, value_at(types, input, id, pos, anchor, stall)),
        sits(input, pos, value_at(types, input, id, pos, anchor, stall)),
        pos + encoding(value_at(types, input, id, pos, anchor, stall)).len() == walk(
            types,
            input,
            id,
            pos,
            anchor,
            stall,
        )->Ok_0,
    decreases input.len() - pos, spare(types, stalled(pos, anchor, stall)), 0nat, 0nat,
{
    let open = stalled(pos, anchor, stall) + 1;
    let element = types[id]->Sequence_0;
    let rest = input.subrange(pos, input.len() as int);
    let (count, used) = compact_decoding(rest)->Ok_0;
    lemma_compact_canonical(rest);
    assert(rest.subrange(0, used as int) =~= input.subrange(pos, pos + used));
    lemma_repeat_as_each(types, input, element, count, pos + used, pos, open);
    lemma_walk_values(types, input, repeated(element, count), pos + used, pos, open);
    let values = values_at(types, input, repeated(element, count), pos + used, pos, open);
    assert(values.len() == count);
    assert(input.subrange(pos, pos + used + encoding_all(values).len()) =~= compact_encoding(count)
        + encoding_all(values));
}

/// The value of a tagged union.
proof fn lemma_value_variant(
    types: Map<u32, TypeDef>,
    input: Seq<u8>,
    id: u32,
    pos: int,
    anchor: int,
    stall: nat,
)
    requires
        walk(types, input, id, pos, anchor, stall) is Ok,
        types[id] is Variant,
    ensures
        typed(types, id, value_at(types, input, id, pos, anchor, stall)),
        sits(input, pos, value_at(types, input, id, pos, anchor, stall)),
        pos + encoding(value_at(types, input, id, pos, anchor, stall)).len() == walk(
            types,
            input,
            id,
            pos,
            anchor,
            stall,
        )->Ok_0,
    decreases input.len() - pos, spare(types, stalled(pos, anchor, stall)), 0nat, 0nat,
{
    let open = stalled(pos, anchor, stall) + 1;
    let variants = types[id]->Variant_0@;
    let i = find_variant(variants, input[pos], 0)->Some_0;
    lemma_find_variant(variants, input[pos], 0);
    lemma_walk_values(types, input, variants[i].fields@, pos + 1, pos, open);
    let values = values_at(types, input, variants[i].fields@, pos + 1, pos, open);
    assert(input.subrange(pos, pos + 1 + encoding_all(values).len()) =~= seq![input[pos]]
        + encoding_all(values));
}

/// The value of a primitive.
proof fn lemma_value_primitive(
    types: Map<u32, TypeDef>,
    input: Seq<u8>,
    id: u32,
    pos: int,
    anchor: int,
    stall: nat,
)
    requires
        walk(types, input, id, pos, anchor, stall) is Ok,
        types[id] is Primitive,
    ensures
        typed(types, id, value_at(types, input, id, pos, anchor, stall)),
        sits(input, pos, value_at(types, input, id, pos, anchor, stall)),
        pos + encoding(value_at(types, input, id, pos, anchor, stall)).len() == walk(
            types,
            input,
            id,
            pos,
            anchor,
            stall,
        )->Ok_0,
    decreases input.len() - pos, spare(types, stalled(pos, anchor, stall)), 0nat, 0nat,
{
    let p = types[id]->Primitive_0;
    if p is Str {
        let rest = input.subrange(pos, input.len() as int);
        let (count, used) = compact_decoding(rest)->Ok_0;
        lemma_compact_canonical(rest);
        assert(rest.subrange(0, used as int) =~= input.subrange(pos, pos + used));
        let bytes = input.subrange(pos + used, pos + used + count);
        assert(input.subrange(pos, pos + used + count) =~= compact_encoding(count) + bytes);
    } else {
        if p is Bool {
            assert(input.subrange(pos, pos + 1)[0] == input[pos]);
        }
    }
}

/// The value of a compact field.
proof fn lemma_value_compact(
    types: Map<u32, TypeDef>,
    input: Seq<u8>,
    id: u32,
    pos: int,
    anchor: int,
    stall: nat,
)
    requires
        walk(types, input, id, pos, anchor, stall) is Ok,
        types[id] is Compact,
    ensures
        typed(types, id, value_at(types, input, id, pos, anchor, stall)),
        sits(input, pos, value_at(types, input, id, pos, anchor, stall)),
        pos + encoding(value_at(types, input, id, pos, anchor, stall)).len() == walk(
            types,
            input,
            id,
            pos,
            anchor,
            stall,
        )->Ok_0,
    decreases input.len() - pos, spare(types, stalled(pos, anchor, stall)), 0nat, 0nat,
{
    let rest = input.subrange(pos, input.len() as int);
    let (n, used) = compact_decoding(rest)->Ok_0;
    lemma_compact_canonical(rest);
    assert(rest.subrange(0, used as int) =~= input.subrange(pos, pos + used));
}

/// A value in front of a row of values: its type in front of their types,
/// its encoding in front of theirs.
proof fn lemma_cons(
    types: Map<u32, TypeDef>,
    input: Seq<u8>,
    ids: Seq<u32>,
    pos: int,
    first: Value,
    others: Seq<Value>,
)
    requires
        ids.len() > 0,
        typed(types, ids[0], first),
        typed_all(types, ids.drop_first(), others),
        sits(input, pos, first),
        sit(input, pos + encoding(first).len(), others),
    ensures
        typed_all(types, ids, seq![first] + others),
        sit(input, pos, seq![first] + others),
        encoding_all(seq![first] + others).len() == encoding(first).len() + encoding_all(
            others,
        ).len(),
{
    let values = seq![first] + others;
    assert(values[0] == first);
    assert(values.subrange(1, values.len() as int) =~= others);
    assert(ids.subrange(1, ids.len() as int) =~= ids.drop_first());
    assert(encoding_all(values) == encoding(first) + encoding_all(others));
    assert(input.subrange(pos, pos + encoding_all(values).len()) =~= encoding(first)
        + encoding_all(others));
}

/// What a walk over fields in a row passes over are values of the types of
/// the fields, and the bytes that it passes over are their encodings, one
/// behind the other.
pub proof fn lemma_walk_values(
    types: Map<u32, TypeDef>,
    input: Seq<u8>,
    ids: Seq<u32>,
    pos: int,
    anchor: int,
    stall: nat,
)
    requires
        0 <= pos <= input.len(),
        walk_each(types, input, ids, pos, anchor, stall) is Ok,
    ensures
        typed_all(types, ids, values_at(types, input, ids, pos, anchor, stall)),
        sit(input, pos, values_at(types, input, ids, pos, anchor, stall)),
        pos + encoding_all(values_at(types, input, ids, pos, anchor, stall)).len() == walk_each(
            types,
            input,
            ids,
            pos,
            anchor,
            stall,
        )->Ok_0,
    decreases input.len() - pos, spare(types, stalled(pos, anchor, stall)), 1nat, ids.len(),
{
    if ids.len() == 0 {
        assert(input.subrange(pos, pos) =~= Seq::<u8>::empty());
    } else {
        let next = walk(types, input, ids[0], pos, anchor, stall)->Ok_0;
        let first = value_at(types, input, ids[0], pos, anchor, stall);
        let others = values_at(types, input, ids.drop_first(), next, anchor, stall);
        lemma_walk_value(types, input, ids[0], pos, anchor, stall);
        lemma_walk_values(types, input, ids.drop_first(), next, anchor, stall);
        lemma_cons(types, input, ids, pos, first, others);
    }
}

/// A walk succeeds on the encodings of the values of its type and on
/// nothing else: it ends at `end` if and only if the bytes up to `end` are
/// the encoding of a value of the type.
pub proof fn lemma_walk_accepts_encodings_only(
    types: Map<u32, TypeDef>,
    input: Seq<u8>,
    id: u32,
    end: int,
)
    requires
        types.dom().finite(),
        0 <= end <= input.len(),
    ensures
        walk(types, input, id, 0, 0, 0) == Ok::<int, EventsDecodingError>(end) <==> exists|
            v: Value,
        |
            #[trigger] typed(types, id, v) && encoding(v) == input.subrange(0, end),
{
    if walk(types, input, id, 0, 0, 0) == Ok::<int, EventsDecodingError>(end) {
        lemma_walk_value(types, input, id, 0, 0, 0);
        let v = value_at(types, input, id, 0, 0, 0);
        assert(typed(types, id, v) && encoding(v) == input.subrange(0, end));
    }
    if exists|v: Value| #[trigger] typed(types, id, v) && encoding(v) == input.subrange(0, end) {
        let v = choose|v: Value|
            #[trigger] typed(types, id, v) && encoding(v) == input.subrange(0, end);
        lemma_accepts(types, input, id, v, 0, 0, 0, Set::empty());
    }
}

} // verus!
