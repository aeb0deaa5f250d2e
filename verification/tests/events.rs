use frame_metadata::v14::{
    ExtrinsicMetadata, PalletEventMetadata, PalletMetadata, RuntimeMetadataV14,
};
use parity_scale_codec::{Compact, CompactAs, Decode, Encode, Output};
use scale_events::error::{EventsDecodingError, Primitive};
use scale_events::events::{EventsDecoder, Phase};
use scale_events::metadata::{EventCatalog, Metadata, TypeDef, TypeRegistry, Variant};
use scale_info::build::{Fields, Variants};
use scale_info::{meta_type, Path, PortableRegistry, Type, TypeDefPrimitive, TypeInfo};

type Hash = [u8; 32];

struct EventRecord<E: Encode> {
    phase: Phase,
    pallet_index: u8,
    event: E,
    topics: Vec<Hash>,
}

impl<E: Encode> Encode for EventRecord<E> {
    fn encode_to<T: Output + ?Sized>(&self, dest: &mut T) {
        match self.phase {
            Phase::ApplyExtrinsic(index) => {
                dest.push_byte(0);
                index.encode_to(dest);
            }
            Phase::Finalization => dest.push_byte(1),
            Phase::Initialization => dest.push_byte(2),
        }
        self.pallet_index.encode_to(dest);
        self.event.encode_to(dest);
        self.topics.encode_to(dest);
    }
}

fn event_record<E: Encode>(pallet_index: u8, event: E) -> EventRecord<E> {
    EventRecord {
        phase: Phase::Finalization,
        pallet_index,
        event,
        topics: vec![],
    }
}

fn pallet_metadata<E: TypeInfo + 'static>(pallet_index: u8) -> PalletMetadata {
    let event = PalletEventMetadata {
        ty: meta_type::<E>(),
    };
    PalletMetadata {
        name: "Test",
        storage: None,
        calls: None,
        event: Some(event),
        constants: vec![],
        error: None,
        index: pallet_index,
    }
}

fn primitive(p: &TypeDefPrimitive) -> Primitive {
    match p {
        TypeDefPrimitive::Bool => Primitive::Bool,
        TypeDefPrimitive::Char => Primitive::Char,
        TypeDefPrimitive::Str => Primitive::Str,
        TypeDefPrimitive::U8 => Primitive::U8,
        TypeDefPrimitive::U16 => Primitive::U16,
        TypeDefPrimitive::U32 => Primitive::U32,
        TypeDefPrimitive::U64 => Primitive::U64,
        TypeDefPrimitive::U128 => Primitive::U128,
        TypeDefPrimitive::U256 => Primitive::U256,
        TypeDefPrimitive::I8 => Primitive::I8,
        TypeDefPrimitive::I16 => Primitive::I16,
        TypeDefPrimitive::I32 => Primitive::I32,
        TypeDefPrimitive::I64 => Primitive::I64,
        TypeDefPrimitive::I128 => Primitive::I128,
        TypeDefPrimitive::I256 => Primitive::I256,
    }
}

fn type_registry(portable: &PortableRegistry) -> TypeRegistry {
    let mut types = TypeRegistry::new();
    for entry in &portable.types {
        let def = match &entry.ty.type_def {
            scale_info::TypeDef::Composite(c) => {
                TypeDef::Composite(c.fields.iter().map(|f| f.ty.id).collect())
            }
            scale_info::TypeDef::Variant(v) => TypeDef::Variant(
                v.variants
                    .iter()
                    .map(|v| Variant {
                        name: v.name.clone(),
                        index: v.index,
                        fields: v.fields.iter().map(|f| f.ty.id).collect(),
                    })
                    .collect(),
            ),
            scale_info::TypeDef::Sequence(s) => TypeDef::Sequence(s.type_param.id),
            scale_info::TypeDef::Array(a) => TypeDef::Array {
                len: a.len as usize,
                element: a.type_param.id,
            },
            scale_info::TypeDef::Tuple(t) => {
                TypeDef::Tuple(t.fields.iter().map(|f| f.id).collect())
            }
            scale_info::TypeDef::Primitive(p) => TypeDef::Primitive(primitive(p)),
            scale_info::TypeDef::Compact(c) => TypeDef::Compact(c.type_param.id),
            scale_info::TypeDef::BitSequence(_) => TypeDef::BitSequence,
        };
        types.insert(entry.id, def);
    }
    types
}

fn init_decoder(pallets: Vec<PalletMetadata>) -> EventsDecoder<32> {
    let extrinsic = ExtrinsicMetadata {
        ty: meta_type::<()>(),
        version: 0,
        signed_extensions: vec![],
    };
    let v14 = RuntimeMetadataV14::new(pallets, extrinsic, meta_type::<()>());
    let types = type_registry(&v14.types);
    let mut events = EventCatalog::new();
    for pallet in &v14.pallets {
        if let Some(event) = &pallet.event {
            events
                .add_pallet(&types, &pallet.name, pallet.index, event.ty.id)
                .unwrap();
        }
    }
    EventsDecoder::<32>::new(Metadata::new(types, events))
}

#[test]
fn decode_single_event() {
    #[derive(Clone)]
    enum Event {
        A(u8),
    }

    impl Encode for Event {
        fn encode_to<T: Output + ?Sized>(&self, dest: &mut T) {
            match self {
                Event::A(a) => {
                    dest.push_byte(0);
                    a.encode_to(dest);
                }
            }
        }
    }

    impl TypeInfo for Event {
        type Identity = Self;

        fn type_info() -> Type {
            Type::builder()
                .path(Path::new("Event", "decode_single_event"))
                .variant(Variants::new().variant("A", |v| {
                    v.index(0)
                        .fields(Fields::unnamed().field(|f| f.ty::<u8>()))
                }))
        }
    }

    let pallet_index = 0;
    let pallet = pallet_metadata::<Event>(pallet_index);
    let decoder = init_decoder(vec![pallet]);

    let event = Event::A(1);
    let encoded_event = event.encode();
    let event_records = vec![event_record(pallet_index, event)];

    let mut input = Vec::new();
    event_records.encode_to(&mut input);

    let events = decoder.decode_events(&mut &input[..]).unwrap();

    assert_eq!(events[0].1.variant_index, encoded_event[0]);
    assert_eq!(events[0].1.data, encoded_event[1..]);
}

#[test]
fn decode_multiple_events() {
    #[derive(Clone)]
    enum Event {
        A(u8),
        B,
        C { a: u32 },
    }

    impl Encode for Event {
        fn encode_to<T: Output + ?Sized>(&self, dest: &mut T) {
            match self {
                Event::A(a) => {
                    dest.push_byte(0);
                    a.encode_to(dest);
                }
                Event::B => dest.push_byte(1),
                Event::C { a } => {
                    dest.push_byte(2);
                    a.encode_to(dest);
                }
            }
        }
    }

    impl TypeInfo for Event {
        type Identity = Self;

        fn type_info() -> Type {
            Type::builder()
                .path(Path::new("Event", "decode_multiple_events"))
                .variant(
                    Variants::new()
                        .variant("A", |v| {
                            v.index(0)
                                .fields(Fields::unnamed().field(|f| f.ty::<u8>()))
                        })
                        .variant("B", |v| v.index(1))
                        .variant("C", |v| {
                            v.index(2).fields(
                                Fields::named().field(|f| f.ty::<u32>().name("a")),
                            )
                        }),
                )
        }
    }

    let pallet_index = 0;
    let pallet = pallet_metadata::<Event>(pallet_index);
    let decoder = init_decoder(vec![pallet]);

    let event1 = Event::A(1);
    let event2 = Event::B;
    let event3 = Event::C { a: 3 };

    let encoded_event1 = event1.encode();
    let encoded_event2 = event2.encode();
    let encoded_event3 = event3.encode();

    let event_records = vec![
        event_record(pallet_index, event1),
        event_record(pallet_index, event2),
        event_record(pallet_index, event3),
    ];

    let mut input = Vec::new();
    event_records.encode_to(&mut input);

    let events = decoder.decode_events(&mut &input[..]).unwrap();

    assert_eq!(events[0].1.variant_index, encoded_event1[0]);
    assert_eq!(events[0].1.data, encoded_event1[1..]);

    assert_eq!(events[1].1.variant_index, encoded_event2[0]);
    assert_eq!(events[1].1.data, encoded_event2[1..]);

    assert_eq!(events[2].1.variant_index, encoded_event3[0]);
    assert_eq!(events[2].1.data, encoded_event3[1..]);
}

#[test]
fn compact_event_field() {
    #[derive(Clone)]
    enum Event {
        A(u32),
    }

    impl Encode for Event {
        fn encode_to<T: Output + ?Sized>(&self, dest: &mut T) {
            match self {
                Event::A(a) => {
                    dest.push_byte(0);
                    Compact(*a).encode_to(dest);
                }
            }
        }
    }

    impl TypeInfo for Event {
        type Identity = Self;

        fn type_info() -> Type {
            Type::builder()
                .path(Path::new("Event", "compact_event_field"))
                .variant(Variants::new().variant("A", |v| {
                    v.index(0)
                        .fields(Fields::unnamed().field(|f| f.compact::<u32>()))
                }))
        }
    }

    let pallet_index = 0;
    let pallet = pallet_metadata::<Event>(pallet_index);
    let decoder = init_decoder(vec![pallet]);

    let event = Event::A(u32::MAX);
    let encoded_event = event.encode();
    let event_records = vec![event_record(pallet_index, event)];

    let mut input = Vec::new();
    event_records.encode_to(&mut input);

    let events = decoder.decode_events(&mut &input[..]).unwrap();

    assert_eq!(events[0].1.variant_index, encoded_event[0]);
    assert_eq!(events[0].1.data, encoded_event[1..]);
}

#[test]
fn compact_wrapper_struct_field() {
    #[derive(Clone)]
    enum Event {
        A(CompactWrapper),
    }

    #[derive(Clone)]
    struct CompactWrapper(u64);

    impl CompactAs for CompactWrapper {
        type As = u64;

        fn encode_as(&self) -> &u64 {
            &self.0
        }

        fn decode_from(x: u64) -> Result<Self, parity_scale_codec::Error> {
            Ok(CompactWrapper(x))
        }
    }

    impl From<Compact<CompactWrapper>> for CompactWrapper {
        fn from(x: Compact<CompactWrapper>) -> Self {
            x.0
        }
    }

    impl TypeInfo for CompactWrapper {
        type Identity = Self;

        fn type_info() -> Type {
            Type::builder()
                .path(Path::new("CompactWrapper", "compact_wrapper_struct_field"))
                .composite(Fields::unnamed().field(|f| f.ty::<u64>()))
        }
    }

    impl Encode for Event {
        fn encode_to<T: Output + ?Sized>(&self, dest: &mut T) {
            match self {
                Event::A(a) => {
                    dest.push_byte(0);
                    Compact(a.clone()).encode_to(dest);
                }
            }
        }
    }

    impl TypeInfo for Event {
        type Identity = Self;

        fn type_info() -> Type {
            Type::builder()
                .path(Path::new("Event", "compact_wrapper_struct_field"))
                .variant(Variants::new().variant("A", |v| {
                    v.index(0).fields(Fields::unnamed().field(|f| {
                        f.compact::<CompactWrapper>()
                    }))
                }))
        }
    }

    let pallet_index = 0;
    let pallet = pallet_metadata::<Event>(pallet_index);
    let decoder = init_decoder(vec![pallet]);

    let event = Event::A(CompactWrapper(0));
    let encoded_event = event.encode();
    let event_records = vec![event_record(pallet_index, event)];

    let mut input = Vec::new();
    event_records.encode_to(&mut input);

    let events = decoder.decode_events(&mut &input[..]).unwrap();

    assert_eq!(events[0].1.variant_index, encoded_event[0]);
    assert_eq!(events[0].1.data, encoded_event[1..]);
    assert_eq!(events[0].1.data, vec![0x00]);
}

#[test]
fn event_containing_explicit_index() {
    #[derive(Clone)]
    pub enum MyType {
        B,
    }

    impl Encode for MyType {
        fn encode_to<T: Output + ?Sized>(&self, dest: &mut T) {
            match self {
                MyType::B => dest.push_byte(10),
            }
        }
    }

    impl TypeInfo for MyType {
        type Identity = Self;

        fn type_info() -> Type {
            Type::builder()
                .path(Path::new("MyType", "event_containing_explicit_index"))
                .variant(Variants::new().variant("B", |v| v.index(10)))
        }
    }

    #[derive(Clone)]
    enum Event {
        A(MyType),
    }

    impl Encode for Event {
        fn encode_to<T: Output + ?Sized>(&self, dest: &mut T) {
            match self {
                Event::A(a) => {
                    dest.push_byte(0);
                    a.encode_to(dest);
                }
            }
        }
    }

    impl TypeInfo for Event {
        type Identity = Self;

        fn type_info() -> Type {
            Type::builder()
                .path(Path::new("Event", "event_containing_explicit_index"))
                .variant(Variants::new().variant("A", |v| {
                    v.index(0).fields(
                        Fields::unnamed().field(|f| f.ty::<MyType>()),
                    )
                }))
        }
    }

    let pallet_index = 0;
    let pallet = pallet_metadata::<Event>(pallet_index);
    let decoder = init_decoder(vec![pallet]);

    let event = Event::A(MyType::B);
    let encoded_event = event.encode();
    let event_records = vec![event_record(pallet_index, event)];

    let mut input = Vec::new();
    event_records.encode_to(&mut input);

    // this would fail if the explicit enum item index were not correctly used
    let events = decoder.decode_events(&mut &input[..]).unwrap();

    assert_eq!(events[0].1.variant_index, encoded_event[0]);
    assert_eq!(events[0].1.data, encoded_event[1..]);
}

#[test]
fn single_event_from_plain_bytes() {
    let mut types = TypeRegistry::new();
    types.insert(
        0,
        TypeDef::Variant(vec![Variant {
            name: "A".to_string(),
            index: 0,
            fields: vec![1],
        }]),
    );
    types.insert(1, TypeDef::Primitive(Primitive::U8));
    let mut events = EventCatalog::new();
    events.add_pallet(&types, "Test", 0, 0).unwrap();
    let decoder = EventsDecoder::<32>::new(Metadata::new(types, events));

    // one record: phase Finalization, pallet 0, event [0x00, 0x01], no topics
    let input: Vec<u8> = vec![0x04, 0x01, 0x00, 0x00, 0x01, 0x00];
    let mut cursor = &input[..];
    let decoded = decoder.decode_events(&mut cursor).unwrap();

    assert_eq!(decoded.len(), 1);
    assert_eq!(decoded[0].0, Phase::Finalization);
    assert_eq!(decoded[0].1.pallet, "Test");
    assert_eq!(decoded[0].1.pallet_index, 0);
    assert_eq!(decoded[0].1.variant, "A");
    assert_eq!(decoded[0].1.variant_index, 0);
    assert_eq!(decoded[0].1.data, vec![0x01]);
    assert!(cursor.is_empty());
}

#[test]
fn unknown_event_ends_the_batch() {
    let mut types = TypeRegistry::new();
    types.insert(0, TypeDef::Variant(vec![]));
    let mut events = EventCatalog::new();
    events.add_pallet(&types, "Test", 0, 0).unwrap();
    let decoder = EventsDecoder::<32>::new(Metadata::new(types, events));

    let input: Vec<u8> = vec![0x04, 0x01, 0x07, 0x09, 0x00];
    let mut cursor = &input[..];
    assert_eq!(
        decoder.decode_events(&mut cursor),
        Err(EventsDecodingError::EventNotFound(7, 9))
    );
    // the two indices were read before the event was looked for
    assert_eq!(cursor, &input[4..]);
}

fn three_event_decoder<const HASH_LEN: usize>() -> EventsDecoder<HASH_LEN> {
    let mut types = TypeRegistry::new();
    types.insert(
        0,
        TypeDef::Variant(vec![
            Variant {
                name: "A".to_string(),
                index: 0,
                fields: vec![1],
            },
            Variant {
                name: "B".to_string(),
                index: 1,
                fields: vec![],
            },
            Variant {
                name: "C".to_string(),
                index: 2,
                fields: vec![2],
            },
        ]),
    );
    types.insert(1, TypeDef::Primitive(Primitive::U8));
    types.insert(2, TypeDef::Primitive(Primitive::U32));
    let mut events = EventCatalog::new();
    events.add_pallet(&types, "Test", 0, 0).unwrap();
    EventsDecoder::<HASH_LEN>::new(Metadata::new(types, events))
}

fn three_events() -> Vec<u8> {
    let mut input = vec![0x0c];
    // A(1) while applying extrinsic 7, with two topics
    input.extend([0x00, 0x07, 0x00, 0x00, 0x00, 0x00, 0x00, 0x01, 0x08]);
    input.extend([0xaa; 32]);
    input.extend([0xbb; 32]);
    // B at finalization, without topics
    input.extend([0x01, 0x00, 0x01, 0x00]);
    // C { a: 3 } at initialization, with one topic
    input.extend([0x02, 0x00, 0x02, 0x03, 0x00, 0x00, 0x00, 0x04]);
    input.extend([0xcc; 32]);
    input
}

#[test]
fn three_events_decode_in_order() {
    let decoder = three_event_decoder::<32>();
    let input = three_events();
    let mut cursor = &input[..];
    let events = decoder.decode_events(&mut cursor).unwrap();
    assert!(cursor.is_empty());

    assert_eq!(events.len(), 3);
    let phases: Vec<Phase> = events.iter().map(|e| e.0).collect();
    assert_eq!(
        phases,
        vec![
            Phase::ApplyExtrinsic(7),
            Phase::Finalization,
            Phase::Initialization
        ]
    );
    let indices: Vec<u8> = events.iter().map(|e| e.1.variant_index).collect();
    assert_eq!(indices, vec![0, 1, 2]);
    let lengths: Vec<usize> = events.iter().map(|e| e.1.data.len()).collect();
    assert_eq!(lengths, vec![1, 0, 4]);
    let names: Vec<&str> = events.iter().map(|e| e.1.variant.as_str()).collect();
    assert_eq!(names, vec!["A", "B", "C"]);
    assert_eq!(events[0].1.data, vec![1]);
    assert_eq!(events[2].1.data, vec![3, 0, 0, 0]);
    for (_, event) in &events {
        assert_eq!(event.pallet, "Test");
        assert_eq!(event.pallet_index, 0);
    }
}

#[test]
fn bytes_behind_a_batch_stay_in_the_cursor() {
    let decoder = three_event_decoder::<32>();
    let mut input = three_events();
    input.extend([0xde, 0xad]);
    let mut cursor = &input[..];
    assert_eq!(decoder.decode_events(&mut cursor).unwrap().len(), 3);
    assert_eq!(cursor, &[0xde, 0xad]);
}

#[test]
fn every_cut_of_a_batch_is_the_end_of_input() {
    let decoder = three_event_decoder::<32>();
    let input = three_events();
    for k in 0..input.len() {
        let mut cursor = &input[..k];
        assert_eq!(
            decoder.decode_events(&mut cursor),
            Err(EventsDecodingError::UnexpectedEof)
        );
    }
}

#[test]
fn topics_are_as_wide_as_the_decoder_says() {
    let decoder = three_event_decoder::<4>();
    let mut input = vec![0x08];
    input.extend([0x01, 0x00, 0x00, 0x09, 0x08, 1, 1, 1, 1, 2, 2, 2, 2]);
    input.extend([0x01, 0x00, 0x01, 0x00]);
    let mut cursor = &input[..];
    let events = decoder.decode_events(&mut cursor).unwrap();
    assert_eq!(events.len(), 2);
    assert_eq!(events[0].1.data, vec![9]);
    assert_eq!(events[1].1.variant, "B");
    assert!(cursor.is_empty());

    let narrow = three_event_decoder::<0>();
    let input = vec![0x04, 0x01, 0x00, 0x01, 0xfc];
    assert_eq!(narrow.decode_events(&mut &input[..]).unwrap().len(), 1);
}

#[test]
fn a_phase_that_there_is_not_is_an_error() {
    let decoder = three_event_decoder::<32>();
    let input = vec![0x04, 0x03, 0x00, 0x01, 0x00];
    assert_eq!(
        decoder.decode_events(&mut &input[..]),
        Err(EventsDecodingError::InvalidPhase(3))
    );
}

#[test]
fn a_failure_in_a_later_record_fails_the_batch() {
    let decoder = three_event_decoder::<32>();
    // the first record is sound, the second names a pallet that there is not
    let input = vec![0x08, 0x01, 0x00, 0x01, 0x00, 0x01, 0x05, 0x01, 0x00];
    let mut cursor = &input[..];
    assert_eq!(
        decoder.decode_events(&mut cursor),
        Err(EventsDecodingError::EventNotFound(5, 1))
    );
    // the first record and the indices of the second were read
    assert_eq!(cursor, &input[8..]);
}

#[test]
fn an_empty_batch_has_no_events() {
    let decoder = three_event_decoder::<32>();
    let mut cursor: &[u8] = &[0x00, 0x55];
    assert_eq!(decoder.decode_events(&mut cursor), Ok(vec![]));
    assert_eq!(cursor, &[0x55]);
    assert_eq!(
        decoder.decode_events(&mut &[][..]),
        Err(EventsDecodingError::UnexpectedEof)
    );
}

#[test]
fn a_decoder_can_be_shared() {
    fn shared<T: Send + Sync>(_: &T) {}
    let decoder = three_event_decoder::<32>();
    shared(&decoder);
    let input = three_events();
    let one = &decoder;
    let other = &decoder;
    assert_eq!(
        one.decode_events(&mut &input[..]),
        other.decode_events(&mut &input[..])
    );
}

/// The number of bytes that the cursor has passed when decoding fails.
fn passed(decoder: &EventsDecoder<32>, input: &[u8]) -> (EventsDecodingError, usize) {
    let mut cursor = input;
    let error = decoder.decode_events(&mut cursor).unwrap_err();
    (error, input.len() - cursor.len())
}

#[test]
fn a_failed_batch_leaves_the_cursor_where_the_failure_showed() {
    let decoder = three_event_decoder::<32>();
    let eof = EventsDecodingError::UnexpectedEof;
    // no count, and a count that is cut
    assert_eq!(passed(&decoder, &[]), (eof, 0));
    assert_eq!(passed(&decoder, &[0x01]), (eof, 1));
    assert_eq!(
        passed(&decoder, &[0x01, 0x00]),
        (EventsDecodingError::NonCanonicalCompact, 2)
    );
    // no phase, a phase whose index is cut, a phase that there is not
    assert_eq!(passed(&decoder, &[0x04]), (eof, 1));
    assert_eq!(passed(&decoder, &[0x04, 0x00, 0x07, 0x00]), (eof, 2));
    assert_eq!(
        passed(&decoder, &[0x04, 0x09, 0x00]),
        (EventsDecodingError::InvalidPhase(9), 2)
    );
    // no index, one index
    assert_eq!(passed(&decoder, &[0x04, 0x01]), (eof, 2));
    assert_eq!(passed(&decoder, &[0x04, 0x01, 0x00]), (eof, 3));
    // a field that is cut: C { a: u32 } with three bytes
    assert_eq!(passed(&decoder, &[0x04, 0x01, 0x00, 0x02, 1, 2, 3]), (eof, 4));
    // no topic count, and topics of which one is whole
    assert_eq!(passed(&decoder, &[0x04, 0x01, 0x00, 0x01]), (eof, 4));
    let mut input = vec![0x04, 0x01, 0x00, 0x01, 0x08];
    input.extend([0xaa; 40]);
    assert_eq!(passed(&decoder, &input), (eof, 5 + 32));
}

#[test]
fn cut_topics_show_as_the_codec_shows_them() {
    let decoder = three_event_decoder::<32>();
    for count in 0..4u8 {
        for held in 0..100usize {
            let mut topics = vec![count * 4];
            topics.extend(vec![0x11; held]);
            let mut theirs = &topics[..];
            let decoded = Vec::<[u8; 32]>::decode(&mut theirs);
            let mut input = vec![0x04, 0x01, 0x00, 0x01];
            input.extend(&topics);
            let mut ours = &input[..];
            let result = decoder.decode_events(&mut ours);
            assert_eq!(decoded.is_ok(), result.is_ok());
            assert_eq!(ours.len(), theirs.len());
        }
    }
}
