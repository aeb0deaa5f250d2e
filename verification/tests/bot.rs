use scale_events::bot::{dispatch, find_named, member_id, EventKind, Unhandled};
use scale_events::events::RawEvent;
use scale_events::primitives::AccountId32;
use scale_events::table::Table;

fn raw(pallet: &str, variant: &str) -> RawEvent {
    RawEvent {
        pallet: pallet.to_string(),
        pallet_index: 0,
        variant: variant.to_string(),
        variant_index: 0,
        data: vec![],
    }
}

#[test]
fn events_of_the_guild_are_told_by_name() {
    let kinds = [
        ("MemberBanned", EventKind::MemberBanned),
        ("RoleCreated", EventKind::RoleCreated),
        ("RoleAssigned", EventKind::RoleAssigned),
        ("RoleDeleted", EventKind::RoleDeleted),
        ("MemberAdded", EventKind::MemberAdded),
        ("ChannelCreated", EventKind::ChannelCreated),
        ("ChannelDeleted", EventKind::ChannelDeleted),
    ];
    for (name, kind) in kinds {
        assert_eq!(dispatch(&raw("Discord", name)), Ok(Some(kind)));
    }
}

#[test]
fn events_of_other_pallets_are_passed_over() {
    assert_eq!(dispatch(&raw("Balances", "Transfer")), Ok(None));
    assert_eq!(dispatch(&raw("Balances", "MemberBanned")), Ok(None));
    assert_eq!(dispatch(&raw("discord", "MemberBanned")), Ok(None));
    assert_eq!(dispatch(&raw("", "")), Ok(None));
}

#[test]
fn unknown_events_of_the_guild_are_failures() {
    assert_eq!(dispatch(&raw("Discord", "BotAdded")), Err(Unhandled));
    assert_eq!(dispatch(&raw("Discord", "memberbanned")), Err(Unhandled));
    assert_eq!(dispatch(&raw("Discord", "")), Err(Unhandled));
    assert_eq!(Unhandled.message(), "Unhandled socket event received");
}

#[test]
fn the_known_id_of_a_member_is_kept() {
    let alice = AccountId32([1; 32]);
    let bob = AccountId32([2; 32]);
    let mut members: Table<u64> = Table::new();
    assert_eq!(member_id(&mut members, &alice, 10), 10);
    assert_eq!(members.get(&alice.0), Some(&10));
    assert_eq!(member_id(&mut members, &alice, 11), 10);
    assert_eq!(members.get(&alice.0), Some(&10));
    assert_eq!(member_id(&mut members, &bob, 12), 12);
    assert_eq!(members.get(&bob.0), Some(&12));
}

#[test]
fn the_first_of_the_names_is_found() {
    let names: Vec<String> = ["admin", "mod", "guest", "mod"]
        .iter()
        .map(|n| n.to_string())
        .collect();
    assert_eq!(find_named(&names, &"admin".to_string()), Some(0));
    assert_eq!(find_named(&names, &"mod".to_string()), Some(1));
    assert_eq!(find_named(&names, &"guest".to_string()), Some(2));
    assert_eq!(find_named(&names, &"owner".to_string()), None);
    assert_eq!(find_named(&vec![], &"mod".to_string()), None);
}
