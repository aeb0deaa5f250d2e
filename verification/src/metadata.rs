//! The type registry and the event catalog that a decoder reads from. Both
//! are filled once and only read afterwards.

use vstd::prelude::*;
use std::collections::HashMap;
use crate::error::{EventsDecodingError, Primitive};

verus! {

/// One alternative of a tagged union: the index it declares and the type ids
/// of its fields, in order.
pub struct Variant {
    pub name: String,
    pub index: u8,
    pub fields: Vec<u32>,
}

/// The shape of a type. Nested types are named by their ids, never held.
pub enum TypeDef {
    /// Fields in declared order.
    Composite(Vec<u32>),
    /// A tagged union. The indices need be neither dense nor sorted.
    Variant(Vec<Variant>),
    /// A length-prefixed run of one element type.
    Sequence(u32),
    /// A run of `len` elements without a prefix.
    Array { len: usize, element: u32 },
    /// Elements in declared order.
    Tuple(Vec<u32>),
    Primitive(Primitive),
    /// A compact integer standing for the wrapped type.
    Compact(u32),
    BitSequence,
}

/// The mapping from type ids to type shapes.
pub struct TypeRegistry {
    types: HashMap<u32, TypeDef>,
}

impl View for TypeRegistry {
    type V = Map<u32, TypeDef>;

    closed spec fn view(&self) -> Map<u32, TypeDef> {
        self.types@
    }
}

impl TypeRegistry {
    /// A registry without types.
    pub fn new() -> (r: Self)
        ensures
            r@ == Map::<u32, TypeDef>::empty(),
    {
        TypeRegistry { types: HashMap::new() }
    }

    /// Puts `def` under `id`, in place of what was there.
    pub fn insert(&mut self, id: u32, def: TypeDef)
        ensures
            final(self)@ == old(self)@.insert(id, def),
    {
        self.types.insert(id, def);
    }

    /// The shape under `id`.
    pub fn resolve(&self, id: u32) -> (r: Result<&TypeDef, EventsDecodingError>)
        ensures
            self@.contains_key(id) ==> r == Ok::<&TypeDef, EventsDecodingError>(&self@[id]),
            !self@.contains_key(id) ==> r == Err::<&TypeDef, EventsDecodingError>(
                EventsDecodingError::TypeNotFound(id),
            ),
    {
        match self.types.get(&id) {
            Some(def) => Ok(def),
            None => Err(EventsDecodingError::TypeNotFound(id)),
        }
    }

    /// The number of types.
    pub fn len(&self) -> (r: usize)
        ensures
            r == self@.len(),
            self@.dom().finite(),
    {
        self.types.len()
    }
}

/// What the catalog knows of one event: the pallet it belongs to, its name,
/// and the type ids of its fields, in order.
pub struct EventMetadata {
    pub pallet: String,
    pub event: String,
    pub fields: Vec<u32>,
}

/// What an `EventMetadata` holds.
pub struct EventMetadataView {
    pub pallet: Seq<char>,
    pub event: Seq<char>,
    pub fields: Seq<u32>,
}

impl View for EventMetadata {
    type V = EventMetadataView;

    open spec fn view(&self) -> EventMetadataView {
        EventMetadataView { pallet: self.pallet@, event: self.event@, fields: self.fields@ }
    }
}

/// The place of an event in the catalog's table.
pub open spec fn event_key(pallet_index: u8, variant_index: u8) -> u16 {
    (pallet_index as int * 256 + variant_index as int) as u16
}

/// The catalog `catalog` after every one of `variants` has been entered, in
/// order, as an event of the pallet `pallet` with index `index`. Of two
/// variants that declare one index the later one stays.
pub open spec fn with_events(
    catalog: Map<(u8, u8), EventMetadataView>,
    pallet: Seq<char>,
    index: u8,
    variants: Seq<Variant>,
) -> Map<(u8, u8), EventMetadataView>
    decreases variants.len(),
{
    if variants.len() == 0 {
        catalog
    } else {
        with_events(catalog, pallet, index, variants.drop_last()).insert(
            (index, variants.last().index),
            EventMetadataView {
                pallet,
                event: variants.last().name@,
                fields: variants.last().fields@,
            },
        )
    }
}

/// Whether the variant at `i` is the last of `variants` that declares `index`.
pub open spec fn declares_last(variants: Seq<Variant>, index: u8, i: int) -> bool {
    &&& 0 <= i < variants.len()
    &&& variants[i].index == index
    &&& forall|j: int| i < j < variants.len() ==> (#[trigger] variants[j]).index != index
}

/// What entering the variants of a pallet does to a catalog: under the
/// pallet's index and an index that a variant declares stands the last
/// variant that declares it; everything else stays as it was.
pub proof fn lemma_with_events(
    catalog: Map<(u8, u8), EventMetadataView>,
    pallet: Seq<char>,
    index: u8,
    variants: Seq<Variant>,
    key: (u8, u8),
)
    ensures
        forall|i: int|
            key.0 == index && #[trigger] declares_last(variants, key.1, i) ==> {
                &&& with_events(catalog, pallet, index, variants).contains_key(key)
                &&& with_events(catalog, pallet, index, variants)[key] == (EventMetadataView {
                    pallet,
                    event: variants[i].name@,
                    fields: variants[i].fields@,
                })
            },
        !(key.0 == index && exists|i: int| #[trigger] declares_last(variants, key.1, i)) ==> {
            &&& with_events(catalog, pallet, index, variants).contains_key(key)
                == catalog.contains_key(key)
            &&& catalog.contains_key(key) ==> with_events(catalog, pallet, index, variants)[key]
                == catalog[key]
        },
    decreases variants.len(),
{
    if variants.len() > 0 {
        let front = variants.drop_last();
        let n = variants.len() - 1;
        lemma_with_events(catalog, pallet, index, front, key);
        if variants[n].index == key.1 {
            assert(declares_last(variants, key.1, n));
        } else {
            assert forall|i: int| declares_last(variants, key.1, i) implies declares_last(
                front,
                key.1,
                i,
            ) by {
                assert forall|j: int| i < j < front.len() implies (#[trigger] front[j]).index
                    != key.1 by {
                    assert(variants[j].index != key.1);
                }
            }
            assert forall|i: int| declares_last(front, key.1, i) implies declares_last(
                variants,
                key.1,
                i,
            ) by {
                assert forall|j: int| i < j < variants.len() implies (#[trigger] variants[j]).index
                    != key.1 by {
                    if j < n {
                        assert(front[j].index != key.1);
                    }
                }
            }
        }
    }
}

/// Where any variant declares an index, one of them is the last to do so.
pub proof fn lemma_declares_last(variants: Seq<Variant>, index: u8, i: int)
    requires
        0 <= i < variants.len(),
        variants[i].index == index,
    ensures
        exists|l: int| i <= l && #[trigger] declares_last(variants, index, l),
    decreases variants.len() - i,
{
    if exists|j: int| i < j < variants.len() && (#[trigger] variants[j]).index == index {
        let j = choose|j: int| i < j < variants.len() && (#[trigger] variants[j]).index == index;
        lemma_declares_last(variants, index, j);
    } else {
        assert(declares_last(variants, index, i));
    }
}

/// The mapping from a pallet index and a variant index to an event.
pub struct EventCatalog {
    events: HashMap<u16, EventMetadata>,
}

impl View for EventCatalog {
    type V = Map<(u8, u8), EventMetadataView>;

    closed spec fn view(&self) -> Map<(u8, u8), EventMetadataView> {
        Map::new(
            |k: (u8, u8)| self.events@.contains_key(event_key(k.0, k.1)),
            |k: (u8, u8)| self.events@[event_key(k.0, k.1)]@,
        )
    }
}

/// A copy of a list of type ids.
fn copy_ids(ids: &Vec<u32>) -> (r: Vec<u32>)
    ensures
        r@ == ids@,
{
    let mut r: Vec<u32> = Vec::new();
    let mut i: usize = 0;
    while i < ids.len()
        invariant
            i <= ids@.len(),
            r@ == ids@.subrange(0, i as int),
        decreases ids@.len() - i,
    {
        r.push(ids[i]);
        i = i + 1;
        proof {
            assert(r@ =~= ids@.subrange(0, i as int));
        }
    }
    proof {
        assert(ids@.subrange(0, ids@.len() as int) =~= ids@);
    }
    r
}

impl EventCatalog {
    /// A catalog without events.
    pub fn new() -> (r: Self)
        ensures
            r@ == Map::<(u8, u8), EventMetadataView>::empty(),
    {
        let r = EventCatalog { events: HashMap::new() };
        proof {
            assert(r@ =~= Map::<(u8, u8), EventMetadataView>::empty());
        }
        r
    }

    /// Puts `event` under the two indices, in place of what was there.
    pub fn insert(&mut self, pallet_index: u8, variant_index: u8, event: EventMetadata)
        ensures
            final(self)@ == old(self)@.insert((pallet_index, variant_index), event@),
    {
        let key: u16 = pallet_index as u16 * 256 + variant_index as u16;
        self.events.insert(key, event);
        proof {
            assert(self@ =~= old(self)@.insert((pallet_index, variant_index), event@));
        }
    }

    /// Enters the events of a pallet: one for each variant of the type
    /// `event_type`, under the pallet's index and the variant's. Where the
    /// registry has no such type, or one that is no tagged union, the catalog
    /// stays as it was.
    pub fn add_pallet(&mut self, types: &TypeRegistry, name: &str, index: u8, event_type: u32) -> (r:
        Result<(), EventsDecodingError>)
        ensures
            !types@.contains_key(event_type) ==> r == Err::<(), EventsDecodingError>(
                EventsDecodingError::TypeNotFound(event_type),
            ) && final(self)@ == old(self)@,
            types@.contains_key(event_type) && !(types@[event_type] is Variant) ==> r == Err::<
                (),
                EventsDecodingError,
            >(EventsDecodingError::EventTypeNotVariant(event_type)) && final(self)@ == old(self)@,
            types@.contains_key(event_type) && types@[event_type] is Variant ==> r is Ok
                && final(self)@ == with_events(
                old(self)@,
                name@,
                index,
                types@[event_type]->Variant_0@,
            ),
    {
        let def = match types.resolve(event_type) {
            Ok(def) => def,
            Err(e) => {
                return Err(e);
            },
        };
        match def {
            TypeDef::Variant(variants) => {
                let mut i: usize = 0;
                proof {
                    assert(variants@.subrange(0, 0) =~= Seq::<Variant>::empty());
                }
                while i < variants.len()
                    invariant
                        i <= variants@.len(),
                        self@ == with_events(
                            old(self)@,
                            name@,
                            index,
                            variants@.subrange(0, i as int),
                        ),
                    decreases variants@.len() - i,
                {
                    proof {
                        assert(variants@.subrange(0, i + 1).drop_last() =~= variants@.subrange(
                            0,
                            i as int,
                        ));
                    }
                    let event = EventMetadata {
                        pallet: name.to_owned(),
                        event: variants[i].name.clone(),
                        fields: copy_ids(&variants[i].fields),
                    };
                    self.insert(index, variants[i].index, event);
                    i = i + 1;
                }
                proof {
                    assert(variants@.subrange(0, variants@.len() as int) =~= variants@);
                }
                Ok(())
            },
            _ => Err(EventsDecodingError::EventTypeNotVariant(event_type)),
        }
    }

    /// The event under the two indices.
    pub fn event_for(&self, pallet_index: u8, variant_index: u8) -> (r: Result<
        &EventMetadata,
        EventsDecodingError,
    >)
        ensures
            self@.contains_key((pallet_index, variant_index)) ==> r is Ok && r->Ok_0@ == self@[(
                pallet_index,
                variant_index,
            )],
            !self@.contains_key((pallet_index, variant_index)) ==> r == Err::<
                &EventMetadata,
                EventsDecodingError,
            >(EventsDecodingError::EventNotFound(pallet_index, variant_index)),
    {
        let key: u16 = pallet_index as u16 * 256 + variant_index as u16;
        match self.events.get(&key) {
            Some(event) => Ok(event),
            None => Err(EventsDecodingError::EventNotFound(pallet_index, variant_index)),
        }
    }
}

/// A registry together with the catalog that was made from it.
pub struct Metadata {
    pub types: TypeRegistry,
    pub events: EventCatalog,
}

impl Metadata {
    /// Pairs a registry with its catalog.
    pub fn new(types: TypeRegistry, events: EventCatalog) -> (r: Self)
        ensures
            r.types == types,
            r.events == events,
    {
        Metadata { types, events }
    }

    /// The shape under `id`.
    pub fn resolve_type(&self, id: u32) -> (r: Result<&TypeDef, EventsDecodingError>)
        ensures
            self.types@.contains_key(id) ==> r == Ok::<&TypeDef, EventsDecodingError>(
                &self.types@[id],
            ),
            !self.types@.contains_key(id) ==> r == Err::<&TypeDef, EventsDecodingError>(
                EventsDecodingError::TypeNotFound(id),
            ),
    {
        self.types.resolve(id)
    }

    /// The event under the two indices.
    pub fn event(&self, pallet_index: u8, variant_index: u8) -> (r: Result<
        &EventMetadata,
        EventsDecodingError,
    >)
        ensures
            self.events@.contains_key((pallet_index, variant_index)) ==> r is Ok && r->Ok_0@
                == self.events@[(pallet_index, variant_index)],
            !self.events@.contains_key((pallet_index, variant_index)) ==> r == Err::<
                &EventMetadata,
                EventsDecodingError,
            >(EventsDecodingError::EventNotFound(pallet_index, variant_index)),
    {
        self.events.event_for(pallet_index, variant_index)
    }
}

} // verus!
