use parity_scale_codec::{Compact, Decode, Encode};
use scale_events::error::{CompactShape, EventsDecodingError, Feature, Primitive};
use scale_events::events::EventsDecoder;
use scale_events::metadata::{
    EventCatalog, EventMetadata, Metadata, TypeDef, TypeRegistry, Variant,
};
use scale_info::{meta_type, PortableRegistry, Registry, TypeDefPrimitive, TypeInfo};

fn primitive(p: &TypeDefPrimitive) -> Primitive {
    match p {
        TypeDefPrimitive::Bool => Primitive::Bool,
        TypeDefPrimitive::Char => Primitive::Char,
        TypeDefPrimitive::Str => Primitive::Str,
        TypeDefPrimitive::U8 => Primitive::U8,
        TypeDefPrimitive::U16 => Primitive::U16,
        TypeDefPrimitive::U32 => Primitive::U32,
        TypeDefPrimitive::U64 => Primitive::U64,
        TypeDefPrimitive::U128 => Primitive::U128,
        TypeDefPrimitive::U256 => Primitive::U256,
        TypeDefPrimitive::I8 => Primitive::I8,
        TypeDefPrimitive::I16 => Primitive::I16,
        TypeDefPrimitive::I32 => Primitive::I32,
        TypeDefPrimitive::I64 => Primitive::I64,
        TypeDefPrimitive::I128 => Primitive::I128,
        TypeDefPrimitive::I256 => Primitive::I256,
    }
}

fn type_registry(portable: &PortableRegistry) -> TypeRegistry {
    let mut types = TypeRegistry::new();
    for entry in &portable.types {
        let def = match &entry.ty.type_def {
            scale_info::TypeDef::Composite(c) => {
                TypeDef::Composite(c.fields.iter().map(|f| f.ty.id).collect())
            }
            scale_info::TypeDef::Variant(v) => TypeDef::Variant(
                v.variants
                    .iter()
                    .map(|v| Variant {
                        name: v.name.clone(),
                        index: v.index,
                        fields: v.fields.iter().map(|f| f.ty.id).collect(),
                    })
                    .collect(),
            ),
            scale_info::TypeDef::Sequence(s) => TypeDef::Sequence(s.type_param.id),
            scale_info::TypeDef::Array(a) => TypeDef::Array {
                len: a.len as usize,
                element: a.type_param.id,
            },
            scale_info::TypeDef::Tuple(t) => {
                TypeDef::Tuple(t.fields.iter().map(|f| f.id).collect())
            }
            scale_info::TypeDef::Primitive(p) => TypeDef::Primitive(primitive(p)),
            scale_info::TypeDef::Compact(c) => TypeDef::Compact(c.type_param.id),
            scale_info::TypeDef::BitSequence(_) => TypeDef::BitSequence,
        };
        types.insert(entry.id, def);
    }
    types
}

/// A decoder for the registry that holds `T`, and the id of `T` in it.
fn decoder_of<T: TypeInfo + 'static>() -> (EventsDecoder<32>, u32) {
    let mut registry = Registry::new();
    let id = registry.register_type(&meta_type::<T>()).id;
    let portable: PortableRegistry = registry.into();
    let types = type_registry(&portable);
    (
        EventsDecoder::<32>::new(Metadata::new(types, EventCatalog::new())),
        id,
    )
}

fn decoder_with(defs: Vec<TypeDef>) -> EventsDecoder<32> {
    let mut types = TypeRegistry::new();
    for (id, def) in defs.into_iter().enumerate() {
        types.insert(id as u32, def);
    }
    EventsDecoder::<32>::new(Metadata::new(types, EventCatalog::new()))
}

fn decode(decoder: &EventsDecoder<32>, id: u32, input: &[u8]) -> Result<(Vec<u8>, usize), EventsDecodingError> {
    let mut cursor = input;
    let mut output = Vec::new();
    decoder.decode_type(id, &mut cursor, &mut output)?;
    Ok((output, input.len() - cursor.len()))
}

/// The value decodes to its own encoding, bytes behind it are left alone,
/// and every cut of the encoding is reported as the end of input.
fn round_trips<T: TypeInfo + Encode + 'static>(value: T) {
    let (decoder, id) = decoder_of::<T>();
    let encoded = value.encode();
    assert_eq!(
        decode(&decoder, id, &encoded),
        Ok((encoded.clone(), encoded.len()))
    );
    let mut longer = encoded.clone();
    longer.extend([0xff, 0x00, 0x07]);
    assert_eq!(
        decode(&decoder, id, &longer),
        Ok((encoded.clone(), encoded.len()))
    );
    for k in 0..encoded.len() {
        assert_eq!(
            decode(&decoder, id, &encoded[..k]),
            Err(EventsDecodingError::UnexpectedEof)
        );
    }
}

#[test]
fn primitives_round_trip() {
    round_trips(true);
    round_trips(false);
    round_trips(0x12u8);
    round_trips(0x1234u16);
    round_trips(0x1234_5678u32);
    round_trips(0x1234_5678_9abc_def0u64);
    round_trips(u128::MAX - 5);
    round_trips(-1i8);
    round_trips(-300i16);
    round_trips(i32::MIN);
    round_trips(i64::MAX);
    round_trips(i128::MIN + 1);
    round_trips(String::new());
    round_trips("hello world".to_string());
    round_trips("gr\u{fc}\u{df}e \u{2603} \u{1f980}".to_string());
}

#[test]
fn composites_round_trip() {
    round_trips((1u8, 2u16, 3u32));
    round_trips(());
    round_trips((true, "abc".to_string(), vec![1u64, 2, 3]));
    round_trips([7u32; 5]);
    round_trips([0u8; 0]);
    round_trips(vec![vec![1u8], vec![], vec![2, 3]]);
    round_trips(vec![(); 5]);
    round_trips(Some(5u32));
    round_trips(None::<u32>);
    round_trips(Ok::<u8, bool>(9));
    round_trips(Err::<u8, bool>(true));
    round_trips(vec![Some((1u8, [2u16; 2])), None]);
    round_trips((Compact(0u8), Compact(63u16), Compact(64u32)));
    round_trips((Compact(u32::MAX), Compact(u64::MAX), Compact(u128::MAX)));
    round_trips(vec![Compact(16383u64), Compact(16384u64), Compact(1u64 << 30)]);
    round_trips(vec![0u8; 300]);
}

#[test]
fn output_grows_behind_what_it_held() {
    let (decoder, id) = decoder_of::<(u8, u16)>();
    let input = (1u8, 0x0302u16).encode();
    let mut cursor = &input[..];
    let mut output = vec![0xaa, 0xbb];
    assert_eq!(decoder.decode_type(id, &mut cursor, &mut output), Ok(()));
    assert_eq!(output, vec![0xaa, 0xbb, 0x01, 0x02, 0x03]);
    assert!(cursor.is_empty());
}

#[test]
fn failure_leaves_the_cursor_where_it_showed() {
    let (decoder, id) = decoder_of::<(u8, u16)>();
    let input = vec![1u8, 2];
    let mut cursor = &input[..];
    let mut output = vec![0xaa];
    assert_eq!(
        decoder.decode_type(id, &mut cursor, &mut output),
        Err(EventsDecodingError::UnexpectedEof)
    );
    // the first field was passed over, the second is read whole or not at all
    assert_eq!(cursor, &input[1..]);
    assert_eq!(output, vec![0xaa, 1]);
}

/// What a failed decoding gives: the error, the bytes that were copied, and
/// the number of bytes that the cursor has passed.
fn failure(
    decoder: &EventsDecoder<32>,
    id: u32,
    input: &[u8],
) -> (EventsDecodingError, Vec<u8>, usize) {
    let mut cursor = input;
    let mut output = Vec::new();
    let error = decoder.decode_type(id, &mut cursor, &mut output).unwrap_err();
    (error, output, input.len() - cursor.len())
}

#[test]
fn a_failure_shows_behind_what_was_read_for_it() {
    let (decoder, id) = decoder_of::<(u8, bool, u32)>();
    assert_eq!(
        failure(&decoder, id, &[7, 2, 0, 0, 0, 0]),
        (EventsDecodingError::InvalidBool(2), vec![7], 2)
    );
    assert_eq!(
        failure(&decoder, id, &[7, 1, 0, 0]),
        (EventsDecodingError::UnexpectedEof, vec![7, 1], 2)
    );
    assert_eq!(
        failure(&decoder, id, &[]),
        (EventsDecodingError::UnexpectedEof, vec![], 0)
    );

    // the tag of a tagged union is passed over before a variant is looked for
    let tagged = tagged(&[0, 10, 2]);
    assert_eq!(
        failure(&tagged, 0, &[1, 9, 9]),
        (EventsDecodingError::VariantNotFound(1), vec![1], 1)
    );
    assert_eq!(
        failure(&tagged, 0, &[10, 9]),
        (EventsDecodingError::UnexpectedEof, vec![10], 1)
    );

    // the count of a sequence is copied once it is read
    let (decoder, id) = decoder_of::<Vec<u16>>();
    assert_eq!(
        failure(&decoder, id, &[8, 1, 0, 2]),
        (EventsDecodingError::UnexpectedEof, vec![8, 1, 0], 3)
    );
    assert_eq!(
        failure(&decoder, id, &[0x01, 0x00, 5]),
        (EventsDecodingError::NonCanonicalCompact, vec![], 2)
    );

    // a type that is missing shows before any byte is read
    let decoder = decoder_with(vec![
        TypeDef::Tuple(vec![1, 2]),
        TypeDef::Primitive(Primitive::U8),
    ]);
    assert_eq!(
        failure(&decoder, 0, &[4, 5]),
        (EventsDecodingError::TypeNotFound(2), vec![4], 1)
    );
}

#[test]
fn a_failed_string_shows_as_the_codec_shows_it() {
    let (decoder, id) = decoder_of::<String>();
    for input in [
        vec![8u8, 0xff, 0xfe, 1],
        vec![8, 0xc3],
        vec![0x01, 0x00, 1],
        vec![0xfd],
        vec![],
        vec![12, b'a', b'b'],
    ] {
        let mut theirs = &input[..];
        assert!(String::decode(&mut theirs).is_err());
        let (_, copied, passed) = failure(&decoder, id, &input);
        assert_eq!(passed, input.len() - theirs.len());
        assert!(copied.is_empty());
    }
}

#[test]
fn a_failed_compact_integer_shows_as_the_codec_shows_it() {
    let decoder = decoder_with(vec![
        TypeDef::Compact(1),
        TypeDef::Primitive(Primitive::U128),
    ]);
    for first in 0..=255u8 {
        for second in [0u8, 1, 0x40, 0xff] {
            for len in 0..20usize {
                let mut input = vec![0u8; len];
                if len > 0 {
                    input[0] = first;
                }
                if len > 1 {
                    input[1] = second;
                }
                let mut theirs = &input[..];
                let decoded = Compact::<u128>::decode(&mut theirs);
                let mut ours = &input[..];
                let mut output = Vec::new();
                let result = decoder.decode_type(0, &mut ours, &mut output);
                assert_eq!(decoded.is_ok(), result.is_ok());
                assert_eq!(ours.len(), theirs.len());
                if result.is_err() {
                    assert!(output.is_empty());
                }
            }
        }
    }
}

#[test]
fn compact_wrapper_decodes_like_a_bare_compact() {
    let wrapped = decoder_with(vec![
        TypeDef::Compact(1),
        TypeDef::Composite(vec![2]),
        TypeDef::Primitive(Primitive::U64),
    ]);
    let bare = decoder_with(vec![
        TypeDef::Compact(1),
        TypeDef::Primitive(Primitive::U64),
    ]);
    assert_eq!(decode(&wrapped, 0, &[0x00]), Ok((vec![0x00], 1)));
    assert_eq!(decode(&bare, 0, &[0x00]), Ok((vec![0x00], 1)));
    for v in [1u64, 63, 64, 1 << 20, 1 << 40, u64::MAX] {
        let input = Compact(v).encode();
        assert_eq!(decode(&wrapped, 0, &input), decode(&bare, 0, &input));
        assert_eq!(decode(&wrapped, 0, &input), Ok((input.clone(), input.len())));
    }
}

#[test]
fn compact_fields_take_values_of_any_width() {
    let narrow = decoder_with(vec![
        TypeDef::Compact(1),
        TypeDef::Primitive(Primitive::U8),
    ]);
    let input = Compact(u128::MAX).encode();
    assert_eq!(decode(&narrow, 0, &input), Ok((input.clone(), input.len())));
}

fn tagged(indices: &[u8]) -> EventsDecoder<32> {
    let variants = indices
        .iter()
        .map(|&index| Variant {
            name: format!("V{}", index),
            index,
            fields: if index == 0 { vec![] } else { vec![1] },
        })
        .collect();
    decoder_with(vec![
        TypeDef::Variant(variants),
        TypeDef::Primitive(Primitive::U16),
    ])
}

#[test]
fn variants_are_found_by_declared_index() {
    // A = 0, B = 10, C = 2, declared in that order
    let decoder = tagged(&[0, 10, 2]);
    assert_eq!(decode(&decoder, 0, &[0]), Ok((vec![0], 1)));
    assert_eq!(decode(&decoder, 0, &[10, 7, 8]), Ok((vec![10, 7, 8], 3)));
    assert_eq!(decode(&decoder, 0, &[2, 7, 8]), Ok((vec![2, 7, 8], 3)));
    // the same indices declared in another order decode alike
    let shuffled = tagged(&[2, 0, 10]);
    for input in [vec![0u8], vec![10, 7, 8], vec![2, 7, 8]] {
        assert_eq!(decode(&decoder, 0, &input), decode(&shuffled, 0, &input));
    }
}

#[test]
fn a_tag_that_no_variant_declares_is_an_error() {
    let decoder = tagged(&[0, 10, 2]);
    // 1 is the position of a variant, not its index
    assert_eq!(
        decode(&decoder, 0, &[1, 0, 0]),
        Err(EventsDecodingError::VariantNotFound(1))
    );
    assert_eq!(
        decode(&decoder, 0, &[255]),
        Err(EventsDecodingError::VariantNotFound(255))
    );
    assert_eq!(
        decode(&decoder, 0, &[]),
        Err(EventsDecodingError::UnexpectedEof)
    );
}

#[test]
fn the_first_of_two_variants_with_one_index_is_taken() {
    let decoder = decoder_with(vec![
        TypeDef::Variant(vec![
            Variant {
                name: "Short".to_string(),
                index: 4,
                fields: vec![],
            },
            Variant {
                name: "Long".to_string(),
                index: 4,
                fields: vec![1],
            },
        ]),
        TypeDef::Primitive(Primitive::U16),
    ]);
    assert_eq!(decode(&decoder, 0, &[4, 9, 9]), Ok((vec![4], 1)));
}

#[test]
fn unsupported_primitives_are_errors() {
    for p in [Primitive::Char, Primitive::U256, Primitive::I256] {
        let decoder = decoder_with(vec![TypeDef::Primitive(p)]);
        assert_eq!(
            decode(&decoder, 0, &[0; 40]),
            Err(EventsDecodingError::UnsupportedPrimitive(p))
        );
        assert_eq!(
            decode(&decoder, 0, &[]),
            Err(EventsDecodingError::UnsupportedPrimitive(p))
        );
    }
    let (decoder, id) = decoder_of::<char>();
    assert_eq!(
        decode(&decoder, id, &[0x78, 0, 0, 0]),
        Err(EventsDecodingError::UnsupportedPrimitive(Primitive::Char))
    );
}

#[test]
fn an_unsupported_primitive_in_a_field_fails_the_whole_value() {
    let (decoder, id) = decoder_of::<(u8, Vec<Option<(u16, char)>>)>();
    // 1, then two elements: None, and Some of 2 and a character
    let input = vec![1u8, 8, 0, 1, 2, 0, 0x78, 0, 0, 0];
    assert_eq!(
        decode(&decoder, id, &input),
        Err(EventsDecodingError::UnsupportedPrimitive(Primitive::Char))
    );
    // where no value of the field is reached, nothing fails
    let empty = vec![1u8, 0];
    assert_eq!(decode(&decoder, id, &empty), Ok((empty.clone(), 2)));
}

#[test]
fn bit_sequences_are_not_implemented() {
    let decoder = decoder_with(vec![TypeDef::Tuple(vec![1, 2]), TypeDef::Primitive(Primitive::U8), TypeDef::BitSequence]);
    assert_eq!(
        decode(&decoder, 0, &[1, 2, 3]),
        Err(EventsDecodingError::Unimplemented(Feature::BitSequence))
    );
}

#[test]
fn missing_types_are_errors() {
    let decoder = decoder_with(vec![
        TypeDef::Composite(vec![1, 7]),
        TypeDef::Primitive(Primitive::U8),
        TypeDef::Sequence(9),
        TypeDef::Compact(11),
        TypeDef::Compact(5),
        TypeDef::Composite(vec![12]),
    ]);
    assert_eq!(
        decode(&decoder, 42, &[0]),
        Err(EventsDecodingError::TypeNotFound(42))
    );
    assert_eq!(
        decode(&decoder, 0, &[0, 0]),
        Err(EventsDecodingError::TypeNotFound(7))
    );
    // the element type is only looked up where there is an element
    assert_eq!(decode(&decoder, 2, &[0]), Ok((vec![0], 1)));
    assert_eq!(
        decode(&decoder, 2, &[4, 0]),
        Err(EventsDecodingError::TypeNotFound(9))
    );
    // the missing inner type of a compact type is reported under its own id
    assert_eq!(
        decode(&decoder, 3, &[0]),
        Err(EventsDecodingError::TypeNotFound(11))
    );
    // the missing field of a wrapped composite is reported under its own id
    assert_eq!(
        decode(&decoder, 4, &[0]),
        Err(EventsDecodingError::TypeNotFound(12))
    );
}

#[test]
fn compact_wrappers_of_the_wrong_shape_are_errors() {
    let decoder = decoder_with(vec![
        TypeDef::Compact(1),
        TypeDef::Primitive(Primitive::Bool),
        TypeDef::Compact(3),
        TypeDef::Composite(vec![]),
        TypeDef::Compact(5),
        TypeDef::Composite(vec![6, 6]),
        TypeDef::Primitive(Primitive::U8),
        TypeDef::Compact(8),
        TypeDef::Composite(vec![9]),
        TypeDef::Tuple(vec![]),
        TypeDef::Compact(9),
        TypeDef::Compact(12),
        TypeDef::Composite(vec![13]),
        TypeDef::Primitive(Primitive::I64),
    ]);
    assert_eq!(
        decode(&decoder, 0, &[0]),
        Err(EventsDecodingError::InvalidCompactPrimitive(Primitive::Bool))
    );
    assert_eq!(
        decode(&decoder, 2, &[0]),
        Err(EventsDecodingError::InvalidCompactType(
            CompactShape::NotSingleField
        ))
    );
    assert_eq!(
        decode(&decoder, 4, &[0]),
        Err(EventsDecodingError::InvalidCompactType(
            CompactShape::NotSingleField
        ))
    );
    assert_eq!(
        decode(&decoder, 7, &[0]),
        Err(EventsDecodingError::InvalidCompactType(
            CompactShape::FieldNotPrimitive
        ))
    );
    assert_eq!(
        decode(&decoder, 10, &[0]),
        Err(EventsDecodingError::InvalidCompactType(
            CompactShape::NotPrimitiveOrComposite
        ))
    );
    assert_eq!(
        decode(&decoder, 11, &[0]),
        Err(EventsDecodingError::InvalidCompactPrimitive(Primitive::I64))
    );
    assert_eq!(
        CompactShape::NotSingleField.message(),
        "Composite type must have a single field"
    );
    assert_eq!(
        CompactShape::FieldNotPrimitive.message(),
        "Composite type must have a single primitive field"
    );
    assert_eq!(
        CompactShape::NotPrimitiveOrComposite.message(),
        "Compact type must be a primitive or a composite type"
    );
}

#[test]
fn malformed_bytes_are_errors() {
    let (decoder, id) = decoder_of::<bool>();
    assert_eq!(
        decode(&decoder, id, &[2]),
        Err(EventsDecodingError::InvalidBool(2))
    );
    let (decoder, id) = decoder_of::<String>();
    assert_eq!(
        decode(&decoder, id, &[8, 0xff, 0xfe]),
        Err(EventsDecodingError::InvalidUtf8)
    );
    assert_eq!(
        decode(&decoder, id, &[8, 0xc3]),
        Err(EventsDecodingError::UnexpectedEof)
    );
    let (decoder, id) = decoder_of::<Vec<u8>>();
    assert_eq!(
        decode(&decoder, id, &[0x01, 0x00]),
        Err(EventsDecodingError::NonCanonicalCompact)
    );
    assert_eq!(
        decode(&decoder, id, &[0xff]),
        Err(EventsDecodingError::CompactTooWide)
    );
}

#[test]
fn a_type_that_holds_itself_bare_is_an_error() {
    let decoder = decoder_with(vec![
        TypeDef::Composite(vec![0]),
        TypeDef::Tuple(vec![2]),
        TypeDef::Array { len: 1, element: 1 },
        TypeDef::Composite(vec![4, 3]),
        TypeDef::Primitive(Primitive::U8),
    ]);
    assert_eq!(
        decode(&decoder, 0, &[1, 2, 3]),
        Err(EventsDecodingError::CyclicType(0))
    );
    assert!(matches!(
        decode(&decoder, 1, &[1, 2, 3]),
        Err(EventsDecodingError::CyclicType(_))
    ));
    // a type that holds itself behind a byte runs into the end of the input
    assert_eq!(
        decode(&decoder, 3, &[1, 2, 3]),
        Err(EventsDecodingError::UnexpectedEof)
    );
}

#[test]
fn nesting_as_deep_as_the_registry_is_large_is_no_cycle() {
    // each type wraps the next, none consumes a byte before the last
    let mut defs: Vec<TypeDef> = (1..50u32).map(|next| TypeDef::Tuple(vec![next])).collect();
    defs.push(TypeDef::Primitive(Primitive::U8));
    let decoder = decoder_with(defs);
    assert_eq!(decode(&decoder, 0, &[9]), Ok((vec![9], 1)));
}

#[test]
fn a_list_nests_as_deep_as_its_input_is_long() {
    // List = Nil | Cons(u8, List)
    let decoder = decoder_with(vec![
        TypeDef::Variant(vec![
            Variant {
                name: "Nil".to_string(),
                index: 0,
                fields: vec![],
            },
            Variant {
                name: "Cons".to_string(),
                index: 1,
                fields: vec![1, 0],
            },
        ]),
        TypeDef::Primitive(Primitive::U8),
    ]);
    let mut input = Vec::new();
    for i in 0..200u8 {
        input.extend([1, i]);
    }
    input.push(0);
    assert_eq!(decode(&decoder, 0, &input), Ok((input.clone(), input.len())));
    input.pop();
    assert_eq!(
        decode(&decoder, 0, &input),
        Err(EventsDecodingError::UnexpectedEof)
    );
}

#[test]
fn arrays_have_no_length_prefix() {
    let decoder = decoder_with(vec![
        TypeDef::Array { len: 3, element: 1 },
        TypeDef::Primitive(Primitive::U16),
        TypeDef::Array { len: 0, element: 1 },
    ]);
    assert_eq!(
        decode(&decoder, 0, &[1, 2, 3, 4, 5, 6, 7]),
        Ok((vec![1, 2, 3, 4, 5, 6], 6))
    );
    assert_eq!(
        decode(&decoder, 0, &[1, 2, 3, 4, 5]),
        Err(EventsDecodingError::UnexpectedEof)
    );
    assert_eq!(decode(&decoder, 2, &[1, 2]), Ok((vec![], 0)));
}

#[test]
fn fields_of_an_event_are_decoded_in_order() {
    let decoder = decoder_with(vec![
        TypeDef::Primitive(Primitive::U8),
        TypeDef::Primitive(Primitive::U32),
        TypeDef::Sequence(0),
    ]);
    let event = EventMetadata {
        pallet: "Test".to_string(),
        event: "E".to_string(),
        fields: vec![1, 0, 2],
    };
    let input = vec![1, 0, 0, 0, 2, 8, 3, 4, 0xff];
    let mut cursor = &input[..];
    let mut output = Vec::new();
    assert_eq!(
        decoder.decode_raw_event(&event, &mut cursor, &mut output),
        Ok(())
    );
    assert_eq!(output, &input[..8]);
    assert_eq!(cursor, &[0xff]);

    // the fields before the one that fails are passed over and copied
    let mut cursor = &input[..6];
    let mut output = vec![1];
    assert_eq!(
        decoder.decode_raw_event(&event, &mut cursor, &mut output),
        Err(EventsDecodingError::UnexpectedEof)
    );
    assert!(cursor.is_empty());
    assert_eq!(output, vec![1, 1, 0, 0, 0, 2, 8]);

    let mut cursor = &input[..3];
    let mut output = vec![];
    assert_eq!(
        decoder.decode_raw_event(&event, &mut cursor, &mut output),
        Err(EventsDecodingError::UnexpectedEof)
    );
    assert_eq!(cursor, &input[..3]);
    assert!(output.is_empty());

    let short = vec![1, 0, 0, 0];
    let mut cursor = &short[..];
    let mut output = vec![];
    assert_eq!(
        decoder.decode_raw_event(&event, &mut cursor, &mut output),
        Err(EventsDecodingError::UnexpectedEof)
    );
    assert!(cursor.is_empty());
    assert_eq!(output, short);
}
