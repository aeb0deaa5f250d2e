//! What the bot decides when an event of the guild arrives: which kind of
//! event it is, which guild id stands for an account, and which of the
//! listed roles or channels is meant by a name.

use vstd::prelude::*;
use crate::events::RawEvent;
use crate::primitives::AccountId32;
use crate::table::Table;

verus! {

/// The events of the guild that the bot acts on.
#[derive(Clone, Copy, Debug, PartialEq, Eq, Structural)]
pub enum EventKind {
    MemberBanned,
    RoleCreated,
    RoleAssigned,
    RoleDeleted,
    MemberAdded,
    ChannelCreated,
    ChannelDeleted,
}

/// An event of the guild that the bot has no action for.
#[derive(Clone, Copy, Debug, PartialEq, Eq, Structural)]
pub struct Unhandled;

impl Unhandled {
    /// The sentence that describes this failure.
    pub fn message(&self) -> (r: &'static str)
        ensures
            r@ == "Unhandled socket event received"@,
    {
        "Unhandled socket event received"
    }
}

/// The kind of event that a name of the guild pallet stands for.
pub open spec fn kind_of(variant: Seq<char>) -> Option<EventKind> {
    if variant == "MemberBanned"@ {
        Some(EventKind::MemberBanned)
    } else if variant == "RoleCreated"@ {
        Some(EventKind::RoleCreated)
    } else if variant == "RoleAssigned"@ {
        Some(EventKind::RoleAssigned)
    } else if variant == "RoleDeleted"@ {
        Some(EventKind::RoleDeleted)
    } else if variant == "MemberAdded"@ {
        Some(EventKind::MemberAdded)
    } else if variant == "ChannelCreated"@ {
        Some(EventKind::ChannelCreated)
    } else if variant == "ChannelDeleted"@ {
        Some(EventKind::ChannelDeleted)
    } else {
        None
    }
}

/// Whether a string is the given text.
fn is_text(s: &String, text: &str) -> (r: bool)
    ensures
        r == (s@ == text@),
{
    let owned: String = text.to_owned();
    *s == owned
}

/// What the bot is to do with an event: nothing where it is no event of the
/// guild pallet, else what its name says, and a failure where the name is
/// none that the bot knows.
pub fn dispatch(raw: &RawEvent) -> (r: Result<Option<EventKind>, Unhandled>)
    ensures
        raw.pallet@ != "Discord"@ ==> r == Ok::<Option<EventKind>, Unhandled>(None),
        raw.pallet@ == "Discord"@ && kind_of(raw.variant@) is Some ==> r == Ok::<
            Option<EventKind>,
            Unhandled,
        >(kind_of(raw.variant@)),
        raw.pallet@ == "Discord"@ && kind_of(raw.variant@) is None ==> r == Err::<
            Option<EventKind>,
            Unhandled,
        >(Unhandled),
{
    if !is_text(&raw.pallet, "Discord") {
        return Ok(None);
    }
    if is_text(&raw.variant, "MemberBanned") {
        Ok(Some(EventKind::MemberBanned))
    } else if is_text(&raw.variant, "RoleCreated") {
        Ok(Some(EventKind::RoleCreated))
    } else if is_text(&raw.variant, "RoleAssigned") {
        Ok(Some(EventKind::RoleAssigned))
    } else if is_text(&raw.variant, "RoleDeleted") {
        Ok(Some(EventKind::RoleDeleted))
    } else if is_text(&raw.variant, "MemberAdded") {
        Ok(Some(EventKind::MemberAdded))
    } else if is_text(&raw.variant, "ChannelCreated") {
        Ok(Some(EventKind::ChannelCreated))
    } else if is_text(&raw.variant, "ChannelDeleted") {
        Ok(Some(EventKind::ChannelDeleted))
    } else {
        Err(Unhandled)
    }
}

/// The guild id to use for `account`: the one that `members` holds for it,
/// else `id`, which is then entered for the account.
pub fn member_id(members: &mut Table<u64>, account: &AccountId32, id: u64) -> (r: u64)
    ensures
        old(members)@.contains_key(account.0@) ==> r == old(members)@[account.0@]
            && final(members)@ == old(members)@,
        !old(members)@.contains_key(account.0@) ==> r == id
            && final(members)@ == old(members)@.insert(account.0@, id),
{
    match members.get(account.0.as_slice()) {
        Some(known) => *known,
        None => {
            members.insert(vstd::slice::slice_to_vec(account.0.as_slice()), id);
            id
        },
    }
}

/// The place of the first of `names` that is `name`.
pub fn find_named(names: &Vec<String>, name: &String) -> (r: Option<usize>)
    ensures
        match r {
            Some(i) => {
                &&& i < names@.len()
                &&& names@[i as int]@ == name@
                &&& forall|j: int| 0 <= j < i ==> names@[j]@ != name@
            },
            None => forall|j: int| 0 <= j < names@.len() ==> names@[j]@ != name@,
        },
{
    let mut i: usize = 0;
    while i < names.len()
        invariant
            i <= names@.len(),
            forall|j: int| 0 <= j < i ==> names@[j]@ != name@,
        decreases names@.len() - i,
    {
        if names[i] == *name {
            return Some(i);
        }
        i = i + 1;
    }
    None
}

} // verus!
