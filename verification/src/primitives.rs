//! The events and the values of the guild pallet that are read by hand.

use vstd::prelude::*;
use crate::compact::{le_value, lemma_le_value_bound, lemma_pow256_values, read_le};
use crate::error::EventsDecodingError;
use crate::events::{decode_bytes, Event};
use crate::layout::byte_run;

verus! {

/// The 32 bytes that name an account.
#[derive(Clone, Copy, Debug, PartialEq, Eq)]
pub struct AccountId32(pub [u8; 32]);

/// A member was banned: the account, its guild id, and the reason.
#[derive(Clone, Debug, PartialEq, Eq)]
pub struct MemberBanned(pub AccountId32, pub u64, pub Vec<u8>);

/// A role was given to a member: the account, its guild id, and the name of
/// the role.
#[derive(Clone, Debug, PartialEq, Eq)]
pub struct RoleAssigned(pub AccountId32, pub u64, pub Vec<u8>);

/// The kinds of channel.
#[allow(non_camel_case_types)]
#[derive(Clone, Copy, Debug, PartialEq, Eq, Structural)]
pub enum ChannelType {
    GUILD_TEXT,
    GUILD_VOICE,
    GUILD_CATEGORY,
    GUILD_NEWS,
    GUILD_NEWS_THREAD,
    GUILD_PUBLIC_THREAD,
    GUILD_PRIVATE_THREAD,
    GUILD_STAGE_VOICE,
}

/// The permissions of a role, in the order of their bits.
#[allow(non_camel_case_types)]
#[derive(Clone, Copy, Debug, PartialEq, Eq, Structural)]
pub enum Permissions {
    CREATE_INSTANT_INVITE,
    KICK_MEMBERS,
    BAN_MEMBERS,
    ADMINISTRATOR,
    MANAGE_CHANNELS,
    MANAGE_GUILD,
    ADD_REACTIONS,
    VIEW_AUDIT_LOG,
    PRIORITY_SPEAKER,
    STREAM,
    VIEW_CHANNEL,
    SEND_MESSAGES,
    SEND_TTS_MESSAGES,
    MANAGE_MESSAGES,
    EMBED_LINKS,
    ATTACH_FILES,
    READ_MESSAGE_HISTORY,
    MENTION_EVERYONE,
    USE_EXTERNAL_EMOJIS,
    VIEW_GUILD_INSIGHTS,
    CONNECT,
    SPEAK,
    MUTE_MEMBERS,
    DEAFEN_MEMBERS,
    MOVE_MEMBERS,
    USE_VAD,
    CHANGE_NICKNAME,
    MANAGE_NICKNAMES,
    MANAGE_ROLES,
    MANAGE_WEBHOOKS,
    MANAGE_EMOJIS_AND_STICKERS,
    USE_APPLICATION_COMMANDS,
    REQUEST_TO_SPEAK,
    MANAGE_EVENTS,
    MANAGE_THREADS,
    CREATE_PUBLIC_THREADS,
    CREATE_PRIVATE_THREADS,
    USE_EXTERNAL_STICKERS,
    SEND_MESSAGES_IN_THREADS,
    START_EMBEDDED_ACTIVITIES,
    MODERATE_MEMBERS,
}

/// The position of the bit that stands for a permission.
pub open spec fn permission_bit(p: Permissions) -> u32 {
    match p {
        Permissions::CREATE_INSTANT_INVITE => 0,
        Permissions::KICK_MEMBERS => 1,
        Permissions::BAN_MEMBERS => 2,
        Permissions::ADMINISTRATOR => 3,
        Permissions::MANAGE_CHANNELS => 4,
        Permissions::MANAGE_GUILD => 5,
        Permissions::ADD_REACTIONS => 6,
        Permissions::VIEW_AUDIT_LOG => 7,
        Permissions::PRIORITY_SPEAKER => 8,
        Permissions::STREAM => 9,
        Permissions::VIEW_CHANNEL => 10,
        Permissions::SEND_MESSAGES => 11,
        Permissions::SEND_TTS_MESSAGES => 12,
        Permissions::MANAGE_MESSAGES => 13,
        Permissions::EMBED_LINKS => 14,
        Permissions::ATTACH_FILES => 15,
        Permissions::READ_MESSAGE_HISTORY => 16,
        Permissions::MENTION_EVERYONE => 17,
        Permissions::USE_EXTERNAL_EMOJIS => 18,
        Permissions::VIEW_GUILD_INSIGHTS => 19,
        Permissions::CONNECT => 20,
        Permissions::SPEAK => 21,
        Permissions::MUTE_MEMBERS => 22,
        Permissions::DEAFEN_MEMBERS => 23,
        Permissions::MOVE_MEMBERS => 24,
        Permissions::USE_VAD => 25,
        Permissions::CHANGE_NICKNAME => 26,
        Permissions::MANAGE_NICKNAMES => 27,
        Permissions::MANAGE_ROLES => 28,
        Permissions::MANAGE_WEBHOOKS => 29,
        Permissions::MANAGE_EMOJIS_AND_STICKERS => 30,
        Permissions::USE_APPLICATION_COMMANDS => 31,
        Permissions::REQUEST_TO_SPEAK => 32,
        Permissions::MANAGE_EVENTS => 33,
        Permissions::MANAGE_THREADS => 34,
        Permissions::CREATE_PUBLIC_THREADS => 35,
        Permissions::CREATE_PRIVATE_THREADS => 36,
        Permissions::USE_EXTERNAL_STICKERS => 37,
        Permissions::SEND_MESSAGES_IN_THREADS => 38,
        Permissions::START_EMBEDDED_ACTIVITIES => 39,
        Permissions::MODERATE_MEMBERS => 40,
    }
}

impl Permissions {
    /// The position of the bit that stands for this permission.
    pub fn bit(&self) -> (r: u32)
        ensures
            r == permission_bit(*self),
            r <= 40,
    {
        match self {
        Permissions::CREATE_INSTANT_INVITE => 0,
        Permissions::KICK_MEMBERS => 1,
        Permissions::BAN_MEMBERS => 2,
        Permissions::ADMINISTRATOR => 3,
        Permissions::MANAGE_CHANNELS => 4,
        Permissions::MANAGE_GUILD => 5,
        Permissions::ADD_REACTIONS => 6,
        Permissions::VIEW_AUDIT_LOG => 7,
        Permissions::PRIORITY_SPEAKER => 8,
        Permissions::STREAM => 9,
        Permissions::VIEW_CHANNEL => 10,
        Permissions::SEND_MESSAGES => 11,
        Permissions::SEND_TTS_MESSAGES => 12,
        Permissions::MANAGE_MESSAGES => 13,
        Permissions::EMBED_LINKS => 14,
        Permissions::ATTACH_FILES => 15,
        Permissions::READ_MESSAGE_HISTORY => 16,
        Permissions::MENTION_EVERYONE => 17,
        Permissions::USE_EXTERNAL_EMOJIS => 18,
        Permissions::VIEW_GUILD_INSIGHTS => 19,
        Permissions::CONNECT => 20,
        Permissions::SPEAK => 21,
        Permissions::MUTE_MEMBERS => 22,
        Permissions::DEAFEN_MEMBERS => 23,
        Permissions::MOVE_MEMBERS => 24,
        Permissions::USE_VAD => 25,
        Permissions::CHANGE_NICKNAME => 26,
        Permissions::MANAGE_NICKNAMES => 27,
        Permissions::MANAGE_ROLES => 28,
        Permissions::MANAGE_WEBHOOKS => 29,
        Permissions::MANAGE_EMOJIS_AND_STICKERS => 30,
        Permissions::USE_APPLICATION_COMMANDS => 31,
        Permissions::REQUEST_TO_SPEAK => 32,
        Permissions::MANAGE_EVENTS => 33,
        Permissions::MANAGE_THREADS => 34,
        Permissions::CREATE_PUBLIC_THREADS => 35,
        Permissions::CREATE_PRIVATE_THREADS => 36,
        Permissions::USE_EXTERNAL_STICKERS => 37,
        Permissions::SEND_MESSAGES_IN_THREADS => 38,
        Permissions::START_EMBEDDED_ACTIVITIES => 39,
        Permissions::MODERATE_MEMBERS => 40,
        }
    }
}

/// The bits of all of `perms` together.
pub open spec fn permission_mask(perms: Seq<Permissions>) -> u64
    decreases perms.len(),
{
    if perms.len() == 0 {
        0
    } else {
        permission_mask(perms.drop_last()) | (1u64 << permission_bit(perms.last()))
    }
}

/// A bit of the mask is set where, and only where, it stands for one of the
/// permissions.
pub proof fn lemma_permission_mask(perms: Seq<Permissions>, b: u32)
    requires
        b < 64,
    ensures
        ((permission_mask(perms) >> b) & 1 == 1) <==> (exists|i: int|
            0 <= i < perms.len() && permission_bit(#[trigger] perms[i]) == b),
    decreases perms.len(),
{
    if perms.len() == 0 {
        assert((0u64 >> b) & 1 == 0) by (bit_vector);
    } else {
        let front = perms.drop_last();
        let k = permission_bit(perms.last());
        let m = permission_mask(front);
        lemma_permission_mask(front, b);
        assert((((m | (1u64 << k)) >> b) & 1 == 1) <==> ((m >> b) & 1 == 1 || b == k))
            by (bit_vector)
            requires
                b < 64,
                k < 64,
        ;
        if (m >> b) & 1 == 1 {
            let i = choose|i: int| 0 <= i < front.len() && permission_bit(#[trigger] front[i]) == b;
            assert(perms[i] == front[i]);
        }
        if b == k {
            assert(permission_bit(perms[perms.len() - 1]) == b);
        }
        if exists|i: int| 0 <= i < perms.len() && permission_bit(#[trigger] perms[i]) == b {
            let i = choose|i: int| 0 <= i < perms.len() && permission_bit(#[trigger] perms[i]) == b;
            if i < front.len() {
                assert(front[i] == perms[i]);
            }
        }
    }
}

/// The bits of all of `perms` together.
pub fn calculate_permissions(perms: Vec<Permissions>) -> (permissions: u64)
    ensures
        permissions == permission_mask(perms@),
{
    let mut permissions: u64 = 0;
    let mut i: usize = 0;
    proof {
        assert(perms@.subrange(0, 0) =~= Seq::<Permissions>::empty());
    }
    while i < perms.len()
        invariant
            i <= perms@.len(),
            permissions == permission_mask(perms@.subrange(0, i as int)),
        decreases perms@.len() - i,
    {
        proof {
            assert(perms@.subrange(0, i + 1).drop_last() =~= perms@.subrange(0, i as int));
        }
        permissions = permissions | (1u64 << perms[i].bit());
        i = i + 1;
    }
    proof {
        assert(perms@.subrange(0, perms@.len() as int) =~= perms@);
    }
    permissions
}

/// What the data of an event about a member holds: the 32 bytes of the
/// account, the guild id in eight bytes, and a run of bytes. Bytes behind
/// the run are not looked at.
pub open spec fn member_fields(data: Seq<u8>) -> Result<
    (Seq<u8>, u64, Seq<u8>),
    EventsDecodingError,
> {
    if data.len() < 40 {
        Err(EventsDecodingError::UnexpectedEof)
    } else {
        match byte_run(data, 40) {
            Err(e) => Err(e),
            Ok((start, end)) => Ok(
                (
                    data.subrange(0, 32),
                    le_value(data.subrange(32, 40)) as u64,
                    data.subrange(start, end),
                ),
            ),
        }
    }
}

/// Whether `r` is what `data` holds about a member.
pub open spec fn member_fields_are(
    data: Seq<u8>,
    r: Result<(AccountId32, u64, Vec<u8>), EventsDecodingError>,
) -> bool {
    match member_fields(data) {
        Ok((account, id, bytes)) => {
            &&& r is Ok
            &&& r->Ok_0.0.0@ == account
            &&& r->Ok_0.1 == id
            &&& r->Ok_0.2@ == bytes
        },
        Err(e) => r is Err && r->Err_0 == e,
    }
}

/// Reads what the data of an event about a member holds.
pub fn decode_member_fields(data: &[u8]) -> (r: Result<
    (AccountId32, u64, Vec<u8>),
    EventsDecodingError,
>)
    ensures
        member_fields_are(data@, r),
{
    if data.len() < 40 {
        return Err(EventsDecodingError::UnexpectedEof);
    }
    let mut account: [u8; 32] = [0u8; 32];
    let mut i: usize = 0;
    while i < 32
        invariant
            i <= 32,
            data@.len() >= 40,
            forall|j: int| 0 <= j < i ==> account@[j] == data@[j],
        decreases 32 - i,
    {
        account[i] = data[i];
        i = i + 1;
    }
    let id = read_le(data, 32, 8);
    proof {
        lemma_pow256_values();
        lemma_le_value_bound(data@.subrange(32, 40));
        assert(account@ =~= data@.subrange(0, 32));
    }
    match decode_bytes(data, 40) {
        Ok((bytes, _)) => Ok((AccountId32(account), id as u64, bytes)),
        Err(e) => Err(e),
    }
}

impl Event for MemberBanned {
    const PALLET: &'static str = "Discord";

    const EVENT: &'static str = "MemberBanned";

    open spec fn decoded(data: Seq<u8>, r: Result<Self, EventsDecodingError>) -> bool {
        match member_fields(data) {
            Ok((account, id, reason)) => {
                &&& r is Ok
                &&& r->Ok_0.0.0@ == account
                &&& r->Ok_0.1 == id
                &&& r->Ok_0.2@ == reason
            },
            Err(e) => r is Err && r->Err_0 == e,
        }
    }

    fn decode(data: &[u8]) -> (r: Result<Self, EventsDecodingError>) {
        match decode_member_fields(data) {
            Ok((account, id, reason)) => Ok(MemberBanned(account, id, reason)),
            Err(e) => Err(e),
        }
    }
}

impl Event for RoleAssigned {
    const PALLET: &'static str = "Discord";

    const EVENT: &'static str = "RoleAssigned";

    open spec fn decoded(data: Seq<u8>, r: Result<Self, EventsDecodingError>) -> bool {
        match member_fields(data) {
            Ok((account, id, role)) => {
                &&& r is Ok
                &&& r->Ok_0.0.0@ == account
                &&& r->Ok_0.1 == id
                &&& r->Ok_0.2@ == role
            },
            Err(e) => r is Err && r->Err_0 == e,
        }
    }

    fn decode(data: &[u8]) -> (r: Result<Self, EventsDecodingError>) {
        match decode_member_fields(data) {
            Ok((account, id, role)) => Ok(RoleAssigned(account, id, role)),
            Err(e) => Err(e),
        }
    }
}

} // verus!
