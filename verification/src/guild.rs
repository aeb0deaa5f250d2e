//! The guild: who its bots and members are, which roles and channels it
//! has, and the calls that change them. Every call checks first who makes
//! it; a call that fails changes nothing.

use vstd::prelude::*;
use vstd::slice::slice_to_vec;
use crate::primitives::{AccountId32, ChannelType, Permissions};
use crate::table::Table;

verus! {

/// A member of the guild.
pub struct GuildMember {
    pub id: u64,
    pub account: AccountId32,
    pub roles: Vec<Vec<u8>>,
    pub deaf: bool,
    pub mute: bool,
}

/// A role of the guild.
pub struct Role {
    pub id: Option<u64>,
    pub name: Vec<u8>,
    pub color: u64,
    pub hoist: bool,
    pub position: u8,
    pub permissions: Vec<Permissions>,
    pub managed: bool,
    pub mentionable: bool,
}

/// The settings of a guild.
pub struct Guild {
    pub id: u64,
    pub name: Vec<u8>,
    pub icon: Vec<u8>,
    pub owner_id: u64,
    pub afk_channel_id: u64,
    pub afk_timeout: u64,
    pub verification_level: u64,
    pub default_message_notifications: u64,
    pub explicit_content_filter: u64,
    pub rules_channel_id: u64,
    pub system_channel_id: u64,
}

/// A channel of the guild.
pub struct Channel {
    pub id: Option<u64>,
    pub channe_type: ChannelType,
    pub position: u64,
    pub permissions: Vec<(u64, Vec<Permissions>)>,
    pub name: Vec<u8>,
    pub topic: Vec<u8>,
    pub nsfw: bool,
    pub bitrate: Option<u64>,
    pub user_limit: Option<u64>,
    pub rate_limit_per_user: Option<u64>,
    pub parent_id: Option<u64>,
    pub voice_region: Option<Vec<u8>>,
}

/// Who makes a call.
#[derive(Clone, Copy, Debug, PartialEq, Eq)]
pub enum Origin {
    Root,
    Signed(AccountId32),
    /// Nobody: the call carries no origin.
    Unsigned,
}

/// Why the guild refuses a call.
#[derive(Clone, Copy, Debug, PartialEq, Eq, Structural)]
pub enum Error {
    NoneValue,
    StorageOverflow,
    /// Only a bot may make the call.
    NoPermission,
    NotAMemberOfTheGuild,
    RoleDoesntExist,
    NotAVoiceChannel,
    NotATextChannel,
    ChannelDoesntExist,
}

/// Why a call fails.
#[derive(Clone, Copy, Debug, PartialEq, Eq, Structural)]
pub enum DispatchError {
    /// The call was not made by the kind of origin it asks for.
    BadOrigin,
    /// The guild refuses the call.
    Module(Error),
}

/// What a call that succeeded has done.
#[derive(Clone, Debug, PartialEq, Eq)]
pub enum Event {
    BotAdded(AccountId32),
    MemberAdded(AccountId32, u64),
    MemberBanned(AccountId32, u64, Vec<u8>),
    /// Name, color, hoist, position, permissions, mentionable.
    RoleCreated(Vec<u8>, u64, bool, u8, Vec<Permissions>, bool),
    RoleAssigned(AccountId32, u64, Vec<u8>),
    /// Name, kind, position, permissions, topic, nsfw, bitrate, user limit,
    /// rate limit per user, parent, voice region.
    ChannelCreated(
        Vec<u8>,
        ChannelType,
        u64,
        Vec<(u64, Vec<Permissions>)>,
        Vec<u8>,
        bool,
        Option<u64>,
        Option<u64>,
        Option<u64>,
        Option<u64>,
        Option<Vec<u8>>,
    ),
    /// Name.
    ChannelDeleted(Vec<u8>),
}

/// What permission overwrites hold.
pub open spec fn overwrites_view(overwrites: Seq<(u64, Vec<Permissions>)>) -> Seq<
    (u64, Seq<Permissions>),
> {
    overwrites.map_values(|o: (u64, Vec<Permissions>)| (o.0, o.1@))
}

/// What an optional byte string holds.
pub open spec fn bytes_view(bytes: Option<Vec<u8>>) -> Option<Seq<u8>> {
    match bytes {
        Some(b) => Some(b@),
        None => None,
    }
}

/// A copy of a list of permissions.
fn copy_permissions(permissions: &Vec<Permissions>) -> (r: Vec<Permissions>)
    ensures
        r@ == permissions@,
{
    let mut r: Vec<Permissions> = Vec::new();
    let mut i: usize = 0;
    while i < permissions.len()
        invariant
            i <= permissions@.len(),
            r@ == permissions@.subrange(0, i as int),
        decreases permissions@.len() - i,
    {
        r.push(permissions[i]);
        i = i + 1;
        proof {
            assert(r@ =~= permissions@.subrange(0, i as int));
        }
    }
    proof {
        assert(permissions@.subrange(0, permissions@.len() as int) =~= permissions@);
    }
    r
}

/// A copy of a list of permission overwrites.
fn copy_overwrites(overwrites: &Vec<(u64, Vec<Permissions>)>) -> (r: Vec<(u64, Vec<Permissions>)>)
    ensures
        overwrites_view(r@) == overwrites_view(overwrites@),
{
    let mut r: Vec<(u64, Vec<Permissions>)> = Vec::new();
    let mut i: usize = 0;
    while i < overwrites.len()
        invariant
            i <= overwrites@.len(),
            overwrites_view(r@) == overwrites_view(overwrites@.subrange(0, i as int)),
        decreases overwrites@.len() - i,
    {
        let ghost before = r@;
        r.push((overwrites[i].0, copy_permissions(&overwrites[i].1)));
        proof {
            let entry = (overwrites@[i as int].0, overwrites@[i as int].1@);
            assert(overwrites_view(r@) =~= overwrites_view(before).push(entry));
            assert(overwrites_view(overwrites@.subrange(0, i + 1)) =~= overwrites_view(
                overwrites@.subrange(0, i as int),
            ).push(entry));
        }
        i = i + 1;
    }
    proof {
        assert(overwrites@.subrange(0, overwrites@.len() as int) =~= overwrites@);
    }
    r
}

/// A copy of an optional byte string.
fn copy_optional_bytes(bytes: &Option<Vec<u8>>) -> (r: Option<Vec<u8>>)
    ensures
        bytes_view(r) == bytes_view(*bytes),
{
    match bytes {
        Some(b) => Some(slice_to_vec(b.as_slice())),
        None => None,
    }
}

/// Whether a channel of the kind `channe_type` can have the settings that
/// are given: a bitrate, a user limit and a voice region only on a voice
/// channel, a rate limit per user only on a text channel.
pub open spec fn channel_kind_fits(
    channe_type: ChannelType,
    voice_settings: bool,
    rate_limit: bool,
) -> Result<(), DispatchError> {
    if voice_settings && channe_type != ChannelType::GUILD_VOICE {
        Err(DispatchError::Module(Error::NotAVoiceChannel))
    } else if rate_limit && channe_type != ChannelType::GUILD_TEXT {
        Err(DispatchError::Module(Error::NotATextChannel))
    } else {
        Ok(())
    }
}

/// Whether a channel of the kind `channe_type` can have the settings that
/// are given.
pub fn check_channel_kind(
    channe_type: ChannelType,
    bitrate: Option<u64>,
    user_limit: Option<u64>,
    rate_limit_per_user: Option<u64>,
    voice_region: &Option<Vec<u8>>,
) -> (r: Result<(), DispatchError>)
    ensures
        r == channel_kind_fits(
            channe_type,
            bitrate is Some || user_limit is Some || voice_region is Some,
            rate_limit_per_user is Some,
        ),
{
    if bitrate.is_some() || user_limit.is_some() || voice_region.is_some() {
        if channe_type != ChannelType::GUILD_VOICE {
            return Err(DispatchError::Module(Error::NotAVoiceChannel));
        }
    }
    if rate_limit_per_user.is_some() {
        if channe_type != ChannelType::GUILD_TEXT {
            return Err(DispatchError::Module(Error::NotATextChannel));
        }
    }
    Ok(())
}

/// Whether the call is made by a bot: signed, by an account among `bots`.
pub open spec fn made_by_bot(bots: Map<Seq<u8>, ()>, origin: Origin) -> Result<
    (),
    DispatchError,
> {
    match origin {
        Origin::Signed(who) => if bots.contains_key(who.0@) {
            Ok(())
        } else {
            Err(DispatchError::Module(Error::NoPermission))
        },
        _ => Err(DispatchError::BadOrigin),
    }
}

/// The state of the guild, and the events of the calls that succeeded.
pub struct Pallet {
    pub bots: Table<()>,
    pub members: Table<GuildMember>,
    pub banned: Table<(GuildMember, Vec<u8>)>,
    pub roles: Table<Role>,
    pub channels: Table<Channel>,
    pub events: Vec<Event>,
}


impl Pallet {
    /// A guild without bots, members, roles or channels.
    pub fn new() -> (r: Self)
        ensures
            r.bots@ == Map::<Seq<u8>, ()>::empty(),
            r.members@ == Map::<Seq<u8>, GuildMember>::empty(),
            r.banned@ == Map::<Seq<u8>, (GuildMember, Vec<u8>)>::empty(),
            r.roles@ == Map::<Seq<u8>, Role>::empty(),
            r.channels@ == Map::<Seq<u8>, Channel>::empty(),
            r.events@.len() == 0,
    {
        Pallet {
            bots: Table::new(),
            members: Table::new(),
            banned: Table::new(),
            roles: Table::new(),
            channels: Table::new(),
            events: Vec::new(),
        }
    }

    /// Whether the call is made by a bot.
    fn ensure_bot(&self, origin: Origin) -> (r: Result<(), DispatchError>)
        ensures
            r == made_by_bot(self.bots@, origin),
    {
        match origin {
            Origin::Signed(who) => {
                if self.bots.contains_key(who.0.as_slice()) {
                    Ok(())
                } else {
                    Err(DispatchError::Module(Error::NoPermission))
                }
            },
            _ => Err(DispatchError::BadOrigin),
        }
    }

    /// Makes `account` a bot. Only the root may do so.
    pub fn register_bot(&mut self, origin: Origin, account: AccountId32) -> (r: Result<
        (),
        DispatchError,
    >)
        ensures
            !(origin is Root) ==> r == Err::<(), DispatchError>(DispatchError::BadOrigin)
                && *final(self) == *old(self),
            origin is Root ==> {
                &&& r is Ok
                &&& final(self).bots@ == old(self).bots@.insert(account.0@, ())
                &&& final(self).members == old(self).members
                &&& final(self).banned == old(self).banned
                &&& final(self).roles == old(self).roles
                &&& final(self).channels == old(self).channels
                &&& final(self).events@ == old(self).events@.push(Event::BotAdded(account))
            },
    {
        match origin {
            Origin::Root => {},
            _ => {
                return Err(DispatchError::BadOrigin);
            },
        }
        self.bots.insert(slice_to_vec(account.0.as_slice()), ());
        self.events.push(Event::BotAdded(account));
        Ok(())
    }

    /// Enters `member` with the guild id `discord_id`, without roles, in
    /// place of an earlier entry of the account.
    pub fn add_member(&mut self, origin: Origin, discord_id: u64, member: AccountId32) -> (r:
        Result<(), DispatchError>)
        ensures
            made_by_bot(old(self).bots@, origin) is Err ==> r == made_by_bot(
                old(self).bots@,
                origin,
            ) && *final(self) == *old(self),
            made_by_bot(old(self).bots@, origin) is Ok ==> {
                &&& r is Ok
                &&& final(self).members@.contains_key(member.0@)
                &&& final(self).members@[member.0@].id == discord_id
                &&& final(self).members@[member.0@].account == member
                &&& final(self).members@[member.0@].roles@.len() == 0
                &&& !final(self).members@[member.0@].deaf
                &&& !final(self).members@[member.0@].mute
                &&& final(self).members@.remove(member.0@) == old(self).members@.remove(
                    member.0@,
                )
                &&& final(self).bots == old(self).bots
                &&& final(self).banned == old(self).banned
                &&& final(self).roles == old(self).roles
                &&& final(self).channels == old(self).channels
                &&& final(self).events@ == old(self).events@.push(
                    Event::MemberAdded(member, discord_id),
                )
            },
    {
        match self.ensure_bot(origin) {
            Ok(_) => {},
            Err(e) => {
                return Err(e);
            },
        }
        let entry = GuildMember {
            id: discord_id,
            account: member,
            roles: Vec::new(),
            deaf: false,
            mute: false,
        };
        self.members.insert(slice_to_vec(member.0.as_slice()), entry);
        self.events.push(Event::MemberAdded(member, discord_id));
        proof {
            assert(final(self).members@.remove(member.0@) =~= old(self).members@.remove(
                member.0@,
            ));
        }
        Ok(())
    }

    /// Moves `member` from the members to the banned, with the reason.
    pub fn ban_member(&mut self, origin: Origin, member: AccountId32, reason: Vec<u8>) -> (r:
        Result<(), DispatchError>)
        ensures
            made_by_bot(old(self).bots@, origin) is Err ==> r == made_by_bot(
                old(self).bots@,
                origin,
            ) && *final(self) == *old(self),
            made_by_bot(old(self).bots@, origin) is Ok && !old(self).members@.contains_key(
                member.0@,
            ) ==> r == Err::<(), DispatchError>(
                DispatchError::Module(Error::NotAMemberOfTheGuild),
            ) && *final(self) == *old(self),
            made_by_bot(old(self).bots@, origin) is Ok && old(self).members@.contains_key(
                member.0@,
            ) ==> {
                &&& r is Ok
                &&& final(self).members@ == old(self).members@.remove(member.0@)
                &&& final(self).banned@.contains_key(member.0@)
                &&& final(self).banned@[member.0@].0 == old(self).members@[member.0@]
                &&& final(self).banned@[member.0@].1@ == reason@
                &&& final(self).banned@.remove(member.0@) == old(self).banned@.remove(member.0@)
                &&& final(self).bots == old(self).bots
                &&& final(self).roles == old(self).roles
                &&& final(self).channels == old(self).channels
                &&& final(self).events@ == old(self).events@.push(
                    Event::MemberBanned(member, old(self).members@[member.0@].id, reason),
                )
            },
    {
        match self.ensure_bot(origin) {
            Ok(_) => {},
            Err(e) => {
                return Err(e);
            },
        }
        if !self.members.contains_key(member.0.as_slice()) {
            return Err(DispatchError::Module(Error::NotAMemberOfTheGuild));
        }
        let guild_member = match self.members.remove(member.0.as_slice()) {
            Some(guild_member) => guild_member,
            None => {
                return Err(DispatchError::Module(Error::NotAMemberOfTheGuild));
            },
        };
        let discord_id = guild_member.id;
        self.banned.insert(
            slice_to_vec(member.0.as_slice()),
            (guild_member, slice_to_vec(reason.as_slice())),
        );
        self.events.push(Event::MemberBanned(member, discord_id, reason));
        proof {
            assert(final(self).banned@.remove(member.0@) =~= old(self).banned@.remove(member.0@));
        }
        Ok(())
    }

    /// Enters a role under its name, in place of an earlier role of that
    /// name.
    pub fn create_role(
        &mut self,
        origin: Origin,
        name: Vec<u8>,
        color: u64,
        hoist: bool,
        position: u8,
        permissions: Vec<Permissions>,
        mentionable: bool,
    ) -> (r: Result<(), DispatchError>)
        ensures
            made_by_bot(old(self).bots@, origin) is Err ==> r == made_by_bot(
                old(self).bots@,
                origin,
            ) && *final(self) == *old(self),
            made_by_bot(old(self).bots@, origin) is Ok ==> {
                &&& r is Ok
                &&& final(self).roles@.contains_key(name@)
                &&& final(self).roles@[name@].id is None
                &&& final(self).roles@[name@].name@ == name@
                &&& final(self).roles@[name@].color == color
                &&& final(self).roles@[name@].hoist == hoist
                &&& final(self).roles@[name@].position == position
                &&& final(self).roles@[name@].permissions@ == permissions@
                &&& !final(self).roles@[name@].managed
                &&& final(self).roles@[name@].mentionable == mentionable
                &&& final(self).roles@.remove(name@) == old(self).roles@.remove(name@)
                &&& final(self).bots == old(self).bots
                &&& final(self).members == old(self).members
                &&& final(self).banned == old(self).banned
                &&& final(self).channels == old(self).channels
                &&& final(self).events@ == old(self).events@.push(
                    Event::RoleCreated(name, color, hoist, position, permissions, mentionable),
                )
            },
    {
        match self.ensure_bot(origin) {
            Ok(_) => {},
            Err(e) => {
                return Err(e);
            },
        }
        let role = Role {
            id: None,
            name: slice_to_vec(name.as_slice()),
            color,
            hoist,
            position,
            permissions: copy_permissions(&permissions),
            managed: false,
            mentionable,
        };
        self.roles.insert(slice_to_vec(name.as_slice()), role);
        self.events.push(
            Event::RoleCreated(name, color, hoist, position, permissions, mentionable),
        );
        proof {
            assert(final(self).roles@.remove(name@) =~= old(self).roles@.remove(name@));
        }
        Ok(())
    }

    /// Gives the role `role_name` to `target`. The entry of the member is
    /// taken out of the members as the role is given.
    pub fn assign_role(&mut self, origin: Origin, target: AccountId32, role_name: Vec<u8>) -> (r:
        Result<(), DispatchError>)
        ensures
            made_by_bot(old(self).bots@, origin) is Err ==> r == made_by_bot(
                old(self).bots@,
                origin,
            ) && *final(self) == *old(self),
            made_by_bot(old(self).bots@, origin) is Ok && !old(self).roles@.contains_key(
                role_name@,
            ) ==> r == Err::<(), DispatchError>(DispatchError::Module(Error::RoleDoesntExist))
                && *final(self) == *old(self),
            made_by_bot(old(self).bots@, origin) is Ok && old(self).roles@.contains_key(
                role_name@,
            ) && !old(self).members@.contains_key(target.0@) ==> r == Err::<(), DispatchError>(
                DispatchError::Module(Error::NotAMemberOfTheGuild),
            ) && *final(self) == *old(self),
            made_by_bot(old(self).bots@, origin) is Ok && old(self).roles@.contains_key(
                role_name@,
            ) && old(self).members@.contains_key(target.0@) ==> {
                &&& r is Ok
                &&& final(self).members@ == old(self).members@.remove(target.0@)
                &&& final(self).bots == old(self).bots
                &&& final(self).banned == old(self).banned
                &&& final(self).roles == old(self).roles
                &&& final(self).channels == old(self).channels
                &&& final(self).events@ == old(self).events@.push(
                    Event::RoleAssigned(target, old(self).members@[target.0@].id, role_name),
                )
            },
    {
        match self.ensure_bot(origin) {
            Ok(_) => {},
            Err(e) => {
                return Err(e);
            },
        }
        if !self.roles.contains_key(role_name.as_slice()) {
            return Err(DispatchError::Module(Error::RoleDoesntExist));
        }
        if !self.members.contains_key(target.0.as_slice()) {
            return Err(DispatchError::Module(Error::NotAMemberOfTheGuild));
        }
        let old_member = match self.members.remove(target.0.as_slice()) {
            Some(old_member) => old_member,
            None => {
                return Err(DispatchError::Module(Error::NotAMemberOfTheGuild));
            },
        };
        self.events.push(Event::RoleAssigned(target, old_member.id, role_name));
        Ok(())
    }

    /// Enters a channel under its name, in place of an earlier channel of
    /// that name, if its kind fits its settings.
    pub fn create_channel(
        &mut self,
        origin: Origin,
        channe_type: ChannelType,
        position: u64,
        permissions: Vec<(u64, Vec<Permissions>)>,
        name: Vec<u8>,
        topic: Vec<u8>,
        nsfw: bool,
        bitrate: Option<u64>,
        user_limit: Option<u64>,
        rate_limit_per_user: Option<u64>,
        parent_id: Option<u64>,
        voice_region: Option<Vec<u8>>,
    ) -> (r: Result<(), DispatchError>)
        ensures
            made_by_bot(old(self).bots@, origin) is Err ==> r == made_by_bot(
                old(self).bots@,
                origin,
            ) && *final(self) == *old(self),
            made_by_bot(old(self).bots@, origin) is Ok && channel_kind_fits(
                channe_type,
                bitrate is Some || user_limit is Some || voice_region is Some,
                rate_limit_per_user is Some,
            ) is Err ==> r == channel_kind_fits(
                channe_type,
                bitrate is Some || user_limit is Some || voice_region is Some,
                rate_limit_per_user is Some,
            ) && *final(self) == *old(self),
            made_by_bot(old(self).bots@, origin) is Ok && channel_kind_fits(
                channe_type,
                bitrate is Some || user_limit is Some || voice_region is Some,
                rate_limit_per_user is Some,
            ) is Ok ==> {
                &&& r is Ok
                &&& final(self).channels@.contains_key(name@)
                &&& final(self).channels@[name@].id is None
                &&& final(self).channels@[name@].channe_type == channe_type
                &&& final(self).channels@[name@].position == position
                &&& overwrites_view(final(self).channels@[name@].permissions@) == overwrites_view(
                    permissions@,
                )
                &&& final(self).channels@[name@].name@ == name@
                &&& final(self).channels@[name@].topic@ == topic@
                &&& final(self).channels@[name@].nsfw == nsfw
                &&& final(self).channels@[name@].bitrate == bitrate
                &&& final(self).channels@[name@].user_limit == user_limit
                &&& final(self).channels@[name@].rate_limit_per_user == rate_limit_per_user
                &&& final(self).channels@[name@].parent_id == parent_id
                &&& bytes_view(final(self).channels@[name@].voice_region) == bytes_view(
                    voice_region,
                )
                &&& final(self).channels@.remove(name@) == old(self).channels@.remove(name@)
                &&& final(self).bots == old(self).bots
                &&& final(self).members == old(self).members
                &&& final(self).banned == old(self).banned
                &&& final(self).roles == old(self).roles
                &&& final(self).events@ == old(self).events@.push(
                    Event::ChannelCreated(
                        name,
                        channe_type,
                        position,
                        permissions,
                        topic,
                        nsfw,
                        bitrate,
                        user_limit,
                        rate_limit_per_user,
                        parent_id,
                        voice_region,
                    ),
                )
            },
    {
        match self.ensure_bot(origin) {
            Ok(_) => {},
            Err(e) => {
                return Err(e);
            },
        }
        match check_channel_kind(
            channe_type,
            bitrate,
            user_limit,
            rate_limit_per_user,
            &voice_region,
        ) {
            Ok(_) => {},
            Err(e) => {
                return Err(e);
            },
        }
        let channel = Channel {
            id: None,
            channe_type,
            position,
            permissions: copy_overwrites(&permissions),
            name: slice_to_vec(name.as_slice()),
            topic: slice_to_vec(topic.as_slice()),
            nsfw,
            bitrate,
            user_limit,
            rate_limit_per_user,
            parent_id,
            voice_region: copy_optional_bytes(&voice_region),
        };
        self.channels.insert(slice_to_vec(name.as_slice()), channel);
        self.events.push(
            Event::ChannelCreated(
                name,
                channe_type,
                position,
                permissions,
                topic,
                nsfw,
                bitrate,
                user_limit,
                rate_limit_per_user,
                parent_id,
                voice_region,
            ),
        );
        proof {
            assert(final(self).channels@.remove(name@) =~= old(self).channels@.remove(name@));
        }
        Ok(())
    }

    /// Takes the channel `name` out.
    pub fn delete_channel(&mut self, origin: Origin, name: Vec<u8>) -> (r: Result<
        (),
        DispatchError,
    >)
        ensures
            made_by_bot(old(self).bots@, origin) is Err ==> r == made_by_bot(
                old(self).bots@,
                origin,
            ) && *final(self) == *old(self),
            made_by_bot(old(self).bots@, origin) is Ok && !old(self).channels@.contains_key(
                name@,
            ) ==> r == Err::<(), DispatchError>(DispatchError::Module(Error::ChannelDoesntExist))
                && *final(self) == *old(self),
            made_by_bot(old(self).bots@, origin) is Ok && old(self).channels@.contains_key(
                name@,
            ) ==> {
                &&& r is Ok
                &&& final(self).channels@ == old(self).channels@.remove(name@)
                &&& final(self).bots == old(self).bots
                &&& final(self).members == old(self).members
                &&& final(self).banned == old(self).banned
                &&& final(self).roles == old(self).roles
                &&& final(self).events@ == old(self).events@.push(Event::ChannelDeleted(name))
            },
    {
        match self.ensure_bot(origin) {
            Ok(_) => {},
            Err(e) => {
                return Err(e);
            },
        }
        if !self.channels.contains_key(name.as_slice()) {
            return Err(DispatchError::Module(Error::ChannelDoesntExist));
        }
        let _ = self.channels.remove(name.as_slice());
        self.events.push(Event::ChannelDeleted(name));
        Ok(())
    }
}

} // verus!
