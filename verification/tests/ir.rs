use scale_events::ir::{get_mod, DuplicateAttributes, Item, ItemMod, Module, Subxt, SubxtItem};

fn substitute(generated: &str, with: &str) -> Item<syn::Item> {
    Item::Subxt(SubxtItem::TypeSubstitute {
        generated_type_path: generated.to_string(),
        substitute_with: syn::parse_str(with).unwrap(),
    })
}

fn module(items: Vec<Item<syn::Item>>) -> ItemMod<syn::Item> {
    ItemMod::new(
        syn::Visibility::Inherited,
        Default::default(),
        syn::parse_str("polkadot").unwrap(),
        Default::default(),
        items,
    )
}

#[test]
fn substitute_type_gives_the_path() {
    let attr = Subxt::SubstituteType("sp_runtime::multiaddress::MultiAddress".to_string());
    assert_eq!(
        attr.substitute_type(),
        "sp_runtime::multiaddress::MultiAddress"
    );
    // the attribute keeps its path
    assert_eq!(
        attr.substitute_type(),
        "sp_runtime::multiaddress::MultiAddress"
    );
}

#[test]
fn one_directive_is_taken_and_two_are_refused() {
    let none: Vec<Subxt> = vec![];
    assert!(matches!(Subxt::single(&none), Ok(None)));

    let one = vec![Subxt::SubstituteType("a::B".to_string())];
    match Subxt::single(&one) {
        Ok(Some(attr)) => assert_eq!(attr.substitute_type(), "a::B"),
        other => panic!("{:?}", other),
    }

    let two = vec![
        Subxt::SubstituteType("a::B".to_string()),
        Subxt::SubstituteType("c::D".to_string()),
    ];
    assert!(matches!(Subxt::single(&two), Err(DuplicateAttributes)));
}

#[test]
fn type_substitutes_are_the_directives_in_order() {
    let rust: syn::Item = syn::parse_str("pub struct S;").unwrap();
    let m = module(vec![
        substitute("sp_core::crypto::AccountId32", "crate::AccountId32"),
        Item::Rust(rust),
        substitute("sp_arithmetic::per_things::Perbill", "crate::Perbill"),
    ]);
    let substitutes = m.type_substitutes();
    assert_eq!(substitutes.len(), 2);
    assert_eq!(substitutes[0].0, "sp_core::crypto::AccountId32");
    assert_eq!(
        *substitutes[0].1,
        syn::parse_str::<syn::TypePath>("crate::AccountId32").unwrap()
    );
    assert_eq!(substitutes[1].0, "sp_arithmetic::per_things::Perbill");
    assert_eq!(
        *substitutes[1].1,
        syn::parse_str::<syn::TypePath>("crate::Perbill").unwrap()
    );
    assert_eq!(m.ident.to_string(), "polkadot");
}

#[test]
fn a_module_of_ordinary_items_has_no_substitutes() {
    let rust: syn::Item = syn::parse_str("use a::B;").unwrap();
    assert!(module(vec![Item::Rust(rust)]).type_substitutes().is_empty());
    assert!(module(vec![]).type_substitutes().is_empty());
}

fn leaf(name: &str) -> Module {
    Module {
        name: name.to_string(),
        children: vec![],
    }
}

#[test]
fn modules_are_found_by_their_path() {
    let root = Module {
        name: "root".to_string(),
        children: vec![
            leaf("other"),
            Module {
                name: "subxt_codegen".to_string(),
                children: vec![Module {
                    name: "types".to_string(),
                    children: vec![leaf("tests"), leaf("more")],
                }],
            },
        ],
    };
    let found = get_mod(&root, &["subxt_codegen", "types", "tests"]).unwrap();
    assert_eq!(found.name, "tests");
    assert!(found.children.is_empty());
    assert_eq!(get_mod(&root, &["subxt_codegen"]).unwrap().children.len(), 1);
    assert_eq!(get_mod(&root, &["other"]).unwrap().name, "other");
    assert!(get_mod(&root, &[]).is_none());
    assert!(get_mod(&root, &["types"]).is_none());
    assert!(get_mod(&root, &["subxt_codegen", "tests"]).is_none());
    assert!(get_mod(&root, &["subxt_codegen", "types", "tests", "deeper"]).is_none());
}

#[test]
fn the_later_of_two_substitutes_for_a_path_counts() {
    let rust: syn::Item = syn::parse_str("pub struct S;").unwrap();
    let m = module(vec![
        substitute("a::B", "crate::First"),
        substitute("c::D", "crate::Other"),
        Item::Rust(rust),
        substitute("a::B", "crate::Second"),
    ]);
    assert_eq!(
        m.substitute_for("a::B"),
        Some(&syn::parse_str::<syn::TypePath>("crate::Second").unwrap())
    );
    assert_eq!(
        m.substitute_for("c::D"),
        Some(&syn::parse_str::<syn::TypePath>("crate::Other").unwrap())
    );
    assert_eq!(m.substitute_for("e::F"), None);
    assert_eq!(module(vec![]).substitute_for("a::B"), None);

    // a map that is filled from the list holds the same
    let map: std::collections::HashMap<String, syn::TypePath> = m
        .type_substitutes()
        .into_iter()
        .map(|(path, with)| (path.clone(), with.clone()))
        .collect();
    assert_eq!(map.get("a::B"), m.substitute_for("a::B"));
    assert_eq!(map.get("c::D"), m.substitute_for("c::D"));
    assert_eq!(map.len(), 2);
}
