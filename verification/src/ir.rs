//! The items of a module that is to be filled from metadata: ordinary Rust,
//! which is carried along as parsed, and the directives among it.

use vstd::prelude::*;

verus! {

/// `syn::Visibility`, carried through unread.
#[verifier::external_type_specification]
#[verifier::external_body]
pub struct ExVisibility(syn::Visibility);

/// `syn::token::Mod`, carried through unread.
#[verifier::external_type_specification]
#[verifier::external_body]
pub struct ExModToken(syn::token::Mod);

/// `syn::token::Brace`, carried through unread.
#[verifier::external_type_specification]
#[verifier::external_body]
pub struct ExBrace(syn::token::Brace);

/// `syn::Ident`, carried through unread.
#[verifier::external_type_specification]
#[verifier::external_body]
pub struct ExIdent(syn::Ident);

/// `syn::TypePath`, carried through unread.
#[verifier::external_type_specification]
#[verifier::external_body]
pub struct ExTypePath(syn::TypePath);

/// An attribute on an item of a module that is to be filled from metadata.
#[derive(Debug)]
pub enum Subxt {
    /// Use the annotated type in place of the generated type with this path.
    SubstituteType(String),
}

/// More than one directive on one item.
#[derive(Clone, Copy, Debug, PartialEq, Eq, Structural)]
pub struct DuplicateAttributes;

impl Subxt {
    /// The path of the generated type that the attribute replaces.
    pub fn substitute_type(&self) -> (r: String)
        ensures
            r == self->SubstituteType_0,
    {
        match self {
            Subxt::SubstituteType(path) => path.clone(),
        }
    }

    /// The one directive among the attributes of an item: none where the
    /// item has none, and a failure where it has more than one.
    pub fn single(attrs: &Vec<Subxt>) -> (r: Result<Option<&Subxt>, DuplicateAttributes>)
        ensures
            attrs@.len() == 0 ==> r == Ok::<Option<&Subxt>, DuplicateAttributes>(None),
            attrs@.len() == 1 ==> r == Ok::<Option<&Subxt>, DuplicateAttributes>(
                Some(&attrs@[0]),
            ),
            attrs@.len() > 1 ==> r == Err::<Option<&Subxt>, DuplicateAttributes>(
                DuplicateAttributes,
            ),
    {
        if attrs.len() > 1 {
            Err(DuplicateAttributes)
        } else if attrs.len() == 1 {
            Ok(Some(&attrs[0]))
        } else {
            Ok(None)
        }
    }
}

/// A directive in place of an item.
#[derive(Debug, PartialEq, Eq)]
pub enum SubxtItem {
    /// Use `substitute_with` wherever the generated code would name the type
    /// with the path `generated_type_path`.
    TypeSubstitute { generated_type_path: String, substitute_with: syn::TypePath },
}

/// An item of a module: ordinary Rust of the form `R`, or a directive.
#[allow(clippy::large_enum_variant)]
#[derive(Debug, PartialEq, Eq)]
pub enum Item<R> {
    Rust(R),
    Subxt(SubxtItem),
}

/// A module with its items.
#[derive(Debug, PartialEq, Eq)]
pub struct ItemMod<R> {
    vis: syn::Visibility,
    mod_token: syn::token::Mod,
    pub ident: syn::Ident,
    brace: syn::token::Brace,
    items: Vec<Item<R>>,
}

/// The type substitutes among `items`, in their order: for each the path of
/// the generated type and the type to use for it.
pub open spec fn substitutes<R>(items: Seq<Item<R>>) -> Seq<(String, syn::TypePath)>
    decreases items.len(),
{
    if items.len() == 0 {
        Seq::empty()
    } else {
        match items.last() {
            Item::Subxt(SubxtItem::TypeSubstitute { generated_type_path, substitute_with }) => {
                substitutes(items.drop_last()).push((generated_type_path, substitute_with))
            },
            Item::Rust(_) => substitutes(items.drop_last()),
        }
    }
}

/// The type to use for the generated type with the path `path`: that of the
/// last type substitute among `items` that names the path.
pub open spec fn substitute_of<R>(items: Seq<Item<R>>, path: Seq<char>) -> Option<syn::TypePath>
    decreases items.len(),
{
    if items.len() == 0 {
        None
    } else {
        match items.last() {
            Item::Subxt(SubxtItem::TypeSubstitute { generated_type_path, substitute_with }) => {
                if generated_type_path@ == path {
                    Some(substitute_with)
                } else {
                    substitute_of(items.drop_last(), path)
                }
            },
            Item::Rust(_) => substitute_of(items.drop_last(), path),
        }
    }
}

/// The second part of the last of `pairs` whose first part is `path`.
pub open spec fn last_for(pairs: Seq<(String, syn::TypePath)>, path: Seq<char>) -> Option<
    syn::TypePath,
>
    decreases pairs.len(),
{
    if pairs.len() == 0 {
        None
    } else if pairs.last().0@ == path {
        Some(pairs.last().1)
    } else {
        last_for(pairs.drop_last(), path)
    }
}

/// The substitute for a path is the one of the last pair with that path in
/// the list of type substitutes: of two substitutes for one path the later
/// one counts, as in a map that is filled from the list.
pub proof fn lemma_substitute_is_last<R>(items: Seq<Item<R>>, path: Seq<char>)
    ensures
        substitute_of(items, path) == last_for(substitutes(items), path),
    decreases items.len(),
{
    if items.len() > 0 {
        lemma_substitute_is_last(items.drop_last(), path);
        match items.last() {
            Item::Subxt(SubxtItem::TypeSubstitute { generated_type_path, substitute_with }) => {
                let pairs = substitutes(items);
                assert(pairs.last() == (generated_type_path, substitute_with));
                assert(pairs.drop_last() =~= substitutes(items.drop_last()));
            },
            Item::Rust(_) => {},
        }
    }
}

impl<R> ItemMod<R> {
    /// The items of the module.
    pub closed spec fn items(&self) -> Seq<Item<R>> {
        self.items@
    }

    /// The name of the module.
    pub closed spec fn name(&self) -> syn::Ident {
        self.ident
    }

    /// The tokens around the module: its visibility, the keyword and the
    /// braces.
    pub closed spec fn tokens(&self) -> (syn::Visibility, syn::token::Mod, syn::token::Brace) {
        (self.vis, self.mod_token, self.brace)
    }

    /// A module of its parts.
    pub fn new(
        vis: syn::Visibility,
        mod_token: syn::token::Mod,
        ident: syn::Ident,
        brace: syn::token::Brace,
        items: Vec<Item<R>>,
    ) -> (r: Self)
        ensures
            r.items() == items@,
            r.name() == ident,
            r.tokens() == (vis, mod_token, brace),
    {
        ItemMod { vis, mod_token, ident, brace, items }
    }

    /// The type to use for the generated type with the path `path`, if the
    /// module has a type substitute for it: the last one, if it has several.
    pub fn substitute_for(&self, path: &str) -> (r: Option<&syn::TypePath>)
        ensures
            match r {
                Some(found) => substitute_of(self.items(), path@) == Some(*found),
                None => substitute_of(self.items(), path@) is None,
            },
    {
        let wanted: String = path.to_owned();
        let mut i: usize = self.items.len();
        proof {
            assert(self.items@.subrange(0, i as int) =~= self.items@);
        }
        while i > 0
            invariant
                i <= self.items@.len(),
                wanted@ == path@,
                substitute_of(self.items@, path@) == substitute_of(
                    self.items@.subrange(0, i as int),
                    path@,
                ),
            decreases i,
        {
            proof {
                assert(self.items@.subrange(0, i as int).drop_last() =~= self.items@.subrange(
                    0,
                    i - 1,
                ));
            }
            i = i - 1;
            match &self.items[i] {
                Item::Subxt(SubxtItem::TypeSubstitute { generated_type_path, substitute_with }) => {
                    if *generated_type_path == wanted {
                        return Some(substitute_with);
                    }
                },
                Item::Rust(_) => {},
            }
        }
        None
    }

    /// The type substitutes of the module, in the order of its items.
    pub fn type_substitutes(&self) -> (r: Vec<(&String, &syn::TypePath)>)
        ensures
            r@.map_values(|p: (&String, &syn::TypePath)| (*p.0, *p.1)) == substitutes(
                self.items(),
            ),
    {
        let mut r: Vec<(&String, &syn::TypePath)> = Vec::new();
        let mut i: usize = 0;
        proof {
            assert(self.items@.subrange(0, 0) =~= Seq::<Item<R>>::empty());
            assert(r@.map_values(|p: (&String, &syn::TypePath)| (*p.0, *p.1)) =~= Seq::<
                (String, syn::TypePath),
            >::empty());
        }
        while i < self.items.len()
            invariant
                i <= self.items@.len(),
                r@.map_values(|p: (&String, &syn::TypePath)| (*p.0, *p.1)) == substitutes(
                    self.items@.subrange(0, i as int),
                ),
            decreases self.items@.len() - i,
        {
            let ghost before = r@;
            proof {
                assert(self.items@.subrange(0, i + 1).drop_last() =~= self.items@.subrange(
                    0,
                    i as int,
                ));
            }
            match &self.items[i] {
                Item::Subxt(SubxtItem::TypeSubstitute { generated_type_path, substitute_with }) => {
                    r.push((generated_type_path, substitute_with));
                    proof {
                        assert(r@.map_values(|p: (&String, &syn::TypePath)| (*p.0, *p.1))
                            =~= before.map_values(
                            |p: (&String, &syn::TypePath)| (*p.0, *p.1),
                        ).push((*generated_type_path, *substitute_with)));
                    }
                },
                Item::Rust(_) => {},
            }
            i = i + 1;
        }
        proof {
            assert(self.items@.subrange(0, self.items@.len() as int) =~= self.items@);
        }
        r
    }
}


/// A module of generated code: its name and the modules inside it.
pub struct Module {
    pub name: String,
    pub children: Vec<Module>,
}

/// The place of the first of `modules` that has the name `name`, from `from`
/// on.
pub open spec fn child_named(modules: Seq<Module>, name: Seq<char>, from: int) -> Option<int>
    decreases modules.len() - from,
{
    if from < 0 || from >= modules.len() {
        None
    } else if modules[from].name@ == name {
        Some(from)
    } else {
        child_named(modules, name, from + 1)
    }
}

/// The module that the path `path_segs` leads to from `module`: each segment
/// names a child of the module before it. There is none for the empty path.
pub open spec fn module_at(module: Module, path_segs: Seq<&'static str>) -> Option<Module>
    decreases path_segs.len(),
{
    if path_segs.len() == 0 {
        None
    } else {
        match child_named(module.children@, path_segs[0]@, 0) {
            None => None,
            Some(i) => if path_segs.len() == 1 {
                Some(module.children@[i])
            } else {
                module_at(module.children@[i], path_segs.drop_first())
            },
        }
    }
}

/// The place of the first child of `module` that has the name `name`.
fn find_child(module: &Module, name: &str) -> (r: Option<usize>)
    ensures
        match r {
            Some(i) => i < module.children@.len() && child_named(module.children@, name@, 0)
                == Some(i as int),
            None => child_named(module.children@, name@, 0) is None,
        },
{
    let wanted: String = name.to_owned();
    let mut i: usize = 0;
    while i < module.children.len()
        invariant
            i <= module.children@.len(),
            wanted@ == name@,
            child_named(module.children@, name@, 0) == child_named(
                module.children@,
                name@,
                i as int,
            ),
        decreases module.children@.len() - i,
    {
        if module.children[i].name == wanted {
            return Some(i);
        }
        i = i + 1;
    }
    None
}

/// The module that the path `path_segs` leads to from `module`.
pub fn get_mod<'a>(module: &'a Module, path_segs: &[&'static str]) -> (r: Option<&'a Module>)
    ensures
        match r {
            Some(found) => module_at(*module, path_segs@) == Some(*found),
            None => module_at(*module, path_segs@) is None,
        },
    decreases path_segs@.len(),
{
    if path_segs.len() == 0 {
        return None;
    }
    let i = match find_child(module, path_segs[0]) {
        Some(i) => i,
        None => {
            return None;
        },
    };
    let child = &module.children[i];
    if path_segs.len() == 1 {
        Some(child)
    } else {
        let rest = vstd::slice::slice_subrange(path_segs, 1, path_segs.len());
        proof {
            assert(rest@ =~= path_segs@.drop_first());
        }
        get_mod(child, rest)
    }
}

} // verus!
