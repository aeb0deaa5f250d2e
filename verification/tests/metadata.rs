use scale_events::error::{EventsDecodingError, Primitive};
use scale_events::metadata::{
    EventCatalog, EventMetadata, Metadata, TypeDef, TypeRegistry, Variant,
};

fn variant(name: &str, index: u8, fields: Vec<u32>) -> Variant {
    Variant {
        name: name.to_string(),
        index,
        fields,
    }
}

#[test]
fn types_are_resolved_by_id() {
    let mut types = TypeRegistry::new();
    assert_eq!(types.len(), 0);
    assert!(matches!(
        types.resolve(0),
        Err(EventsDecodingError::TypeNotFound(0))
    ));
    types.insert(5, TypeDef::Primitive(Primitive::U8));
    types.insert(9, TypeDef::Sequence(5));
    assert_eq!(types.len(), 2);
    assert!(matches!(
        types.resolve(5),
        Ok(TypeDef::Primitive(Primitive::U8))
    ));
    assert!(matches!(types.resolve(9), Ok(TypeDef::Sequence(5))));
    assert!(matches!(
        types.resolve(6),
        Err(EventsDecodingError::TypeNotFound(6))
    ));
    // a later definition takes the place of an earlier one
    types.insert(5, TypeDef::Primitive(Primitive::U16));
    assert_eq!(types.len(), 2);
    assert!(matches!(
        types.resolve(5),
        Ok(TypeDef::Primitive(Primitive::U16))
    ));
}

#[test]
fn events_are_found_by_both_indices() {
    let mut events = EventCatalog::new();
    assert!(matches!(
        events.event_for(0, 0),
        Err(EventsDecodingError::EventNotFound(0, 0))
    ));
    events.insert(
        1,
        2,
        EventMetadata {
            pallet: "System".to_string(),
            event: "Remarked".to_string(),
            fields: vec![3, 4],
        },
    );
    events.insert(
        2,
        1,
        EventMetadata {
            pallet: "Balances".to_string(),
            event: "Transfer".to_string(),
            fields: vec![],
        },
    );
    let found = events.event_for(1, 2).unwrap();
    assert_eq!(found.pallet, "System");
    assert_eq!(found.event, "Remarked");
    assert_eq!(found.fields, vec![3, 4]);
    assert_eq!(events.event_for(2, 1).unwrap().event, "Transfer");
    assert!(matches!(
        events.event_for(1, 1),
        Err(EventsDecodingError::EventNotFound(1, 1))
    ));
    assert!(matches!(
        events.event_for(255, 255),
        Err(EventsDecodingError::EventNotFound(255, 255))
    ));
}

#[test]
fn a_pallet_enters_one_event_for_each_variant() {
    let mut types = TypeRegistry::new();
    types.insert(
        0,
        TypeDef::Variant(vec![
            variant("A", 0, vec![1]),
            variant("B", 10, vec![]),
            variant("C", 2, vec![1, 1]),
        ]),
    );
    types.insert(1, TypeDef::Primitive(Primitive::U8));
    let mut events = EventCatalog::new();
    assert_eq!(events.add_pallet(&types, "Test", 4, 0), Ok(()));

    let a = events.event_for(4, 0).unwrap();
    assert_eq!((a.pallet.as_str(), a.event.as_str()), ("Test", "A"));
    assert_eq!(a.fields, vec![1]);
    let b = events.event_for(4, 10).unwrap();
    assert_eq!((b.pallet.as_str(), b.event.as_str()), ("Test", "B"));
    assert!(b.fields.is_empty());
    let c = events.event_for(4, 2).unwrap();
    assert_eq!(c.event, "C");
    assert_eq!(c.fields, vec![1, 1]);
    // the position of a variant is not its index
    assert!(events.event_for(4, 1).is_err());
    assert!(events.event_for(0, 0).is_err());
}

#[test]
fn of_two_variants_with_one_index_the_later_is_entered() {
    let mut types = TypeRegistry::new();
    types.insert(
        0,
        TypeDef::Variant(vec![variant("First", 3, vec![]), variant("Second", 3, vec![7])]),
    );
    let mut events = EventCatalog::new();
    assert_eq!(events.add_pallet(&types, "Test", 0, 0), Ok(()));
    assert_eq!(events.event_for(0, 3).unwrap().event, "Second");
}

#[test]
fn an_event_type_must_be_a_tagged_union() {
    let mut types = TypeRegistry::new();
    types.insert(1, TypeDef::Primitive(Primitive::U8));
    let mut events = EventCatalog::new();
    assert_eq!(
        events.add_pallet(&types, "Test", 0, 0),
        Err(EventsDecodingError::TypeNotFound(0))
    );
    assert_eq!(
        events.add_pallet(&types, "Test", 0, 1),
        Err(EventsDecodingError::EventTypeNotVariant(1))
    );
}

#[test]
fn metadata_answers_for_both_parts() {
    let mut types = TypeRegistry::new();
    types.insert(0, TypeDef::Variant(vec![variant("A", 0, vec![])]));
    let mut events = EventCatalog::new();
    events.add_pallet(&types, "Test", 0, 0).unwrap();
    let metadata = Metadata::new(types, events);
    assert!(matches!(metadata.resolve_type(0), Ok(TypeDef::Variant(_))));
    assert!(matches!(
        metadata.resolve_type(1),
        Err(EventsDecodingError::TypeNotFound(1))
    ));
    assert_eq!(metadata.event(0, 0).unwrap().event, "A");
    assert!(matches!(
        metadata.event(0, 1),
        Err(EventsDecodingError::EventNotFound(0, 1))
    ));
}
