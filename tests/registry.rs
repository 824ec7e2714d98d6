use poap::address_set::AddressSet;
use poap::enumeration::EnumerationIndex;
use poap::poap::{INTERFACE_ERC165, INTERFACE_ERC721, INTERFACE_ERC721_ENUMERABLE, INTERFACE_ERC721_METADATA};
use poap::uri::{build_token_uri, push_decimal};
use poap::{Address, LogRecord, Poap, PoapError};

fn addr(n: u128) -> Address {
    Address::new(0, n)
}

const OWNER: u128 = 1;
const X: u128 = 2;
const A: u128 = 3;
const B: u128 = 4;

fn registry() -> Poap {
    Poap::new(
        "Attendance".to_string(),
        "POAP".to_string(),
        "https://poap.example/meta".to_string(),
        addr(OWNER),
    )
}

fn create(p: &mut Poap, organizer: Address) -> u64 {
    p.create_event(
        addr(OWNER),
        "Meetup".to_string(),
        "A meetup".to_string(),
        "ipfs://image".to_string(),
        "2024-05-01".to_string(),
        organizer,
    )
    .unwrap()
}

#[test]
fn organizer_issues_then_conflict_then_inactive() {
    let mut p = registry();
    assert_eq!(create(&mut p, addr(X)), 1);
    assert_eq!(p.mint_token(addr(X), 1, addr(A)), Ok(1));
    assert_eq!(
        p.mint_token(addr(X), 1, addr(A)),
        Err(PoapError::TokenAlreadyMinted { recipient: addr(A), event_id: 1 })
    );
    assert_eq!(p.deactivate_event(addr(OWNER), 1), Ok(()));
    assert_eq!(p.mint_token(addr(X), 1, addr(B)), Err(PoapError::EventDoesNotExist { event_id: 1 }));
    assert_eq!(p.total_supply(), 1);
}

#[test]
fn batch_skips_attendees_and_repeats() {
    let mut p = registry();
    create(&mut p, addr(X));
    assert_eq!(create(&mut p, addr(X)), 2);
    assert_eq!(p.mint_token(addr(OWNER), 2, addr(A)), Ok(1));
    let ids = p.batch_mint_event_to_many(addr(OWNER), 2, vec![addr(A), addr(A), addr(B)]);
    assert_eq!(ids, Ok(vec![2]));
    assert_eq!(p.balance_of(addr(A)), 1);
    assert_eq!(p.balance_of(addr(B)), 1);
    assert_eq!(p.owner_of(2), Ok(addr(B)));
}

#[test]
fn batch_repeated_new_recipient_gets_one_badge() {
    let mut p = registry();
    create(&mut p, addr(X));
    let ids = p.batch_mint_event_to_many(addr(X), 1, vec![addr(A), addr(A), addr(B), addr(A)]);
    assert_eq!(ids, Ok(vec![1, 2]));
    assert_eq!(p.owner_of(1), Ok(addr(A)));
    assert_eq!(p.owner_of(2), Ok(addr(B)));
}

#[test]
fn batch_skips_null_recipient() {
    let mut p = registry();
    create(&mut p, addr(X));
    let ids = p.batch_mint_event_to_many(addr(X), 1, vec![Address::zero(), addr(A)]);
    assert_eq!(ids, Ok(vec![1]));
    assert!(!p.has_attended(1, Address::zero()));
}

#[test]
fn batch_checks_pause_event_and_rights() {
    let mut p = registry();
    create(&mut p, addr(X));
    assert_eq!(
        p.batch_mint_event_to_many(addr(A), 1, vec![addr(B)]),
        Err(PoapError::OnlyEventMinterOrOwner)
    );
    assert_eq!(
        p.batch_mint_event_to_many(addr(X), 5, vec![addr(B)]),
        Err(PoapError::EventDoesNotExist { event_id: 5 })
    );
    p.pause(addr(OWNER)).unwrap();
    assert_eq!(p.batch_mint_event_to_many(addr(X), 1, vec![addr(B)]), Err(PoapError::Paused));
    assert_eq!(p.total_supply(), 0);
}

#[test]
fn token_uri_joins_base_event_and_token() {
    let mut p = registry();
    create(&mut p, addr(X));
    create(&mut p, addr(X));
    assert_eq!(create(&mut p, addr(X)), 3);
    for n in 0..6u128 {
        p.mint_token(addr(X), 1 + (n % 2) as u64, addr(100 + n)).unwrap();
    }
    assert_eq!(p.mint_token(addr(X), 3, addr(A)), Ok(7));
    assert_eq!(p.token_uri(7), Ok("https://poap.example/meta/3/7".to_string()));
    assert_eq!(p.token_event(7), 3);
    assert_eq!(p.token_uri(8), Err(PoapError::NonexistentToken { token_id: 8 }));
}

#[test]
fn event_ids_are_sequential() {
    let mut p = registry();
    assert_eq!(p.get_last_event_id(), 0);
    for expected in 1..=5u64 {
        assert_eq!(create(&mut p, addr(X)), expected);
        assert_eq!(p.get_last_event_id(), expected);
    }
}

#[test]
fn token_ids_are_sequential_and_counted() {
    let mut p = registry();
    create(&mut p, addr(X));
    create(&mut p, addr(X));
    assert_eq!(p.mint_token(addr(X), 1, addr(A)), Ok(1));
    assert_eq!(p.batch_mint_event_to_many(addr(X), 2, vec![addr(A), addr(B)]), Ok(vec![2, 3]));
    assert_eq!(p.mint_token(addr(X), 1, addr(B)), Ok(4));
    assert_eq!(p.total_supply(), 4);
    assert_eq!(p.get_last_token_id(), 4);
    for i in 0..4u64 {
        assert_eq!(p.token_by_index(i), Ok(i + 1));
    }
}

#[test]
fn pause_and_unpause_are_idempotent() {
    let mut p = registry();
    create(&mut p, addr(X));
    assert_eq!(p.pause(addr(OWNER)), Ok(()));
    assert_eq!(p.pause(addr(OWNER)), Ok(()));
    assert!(p.is_paused());
    assert_eq!(p.mint_token(addr(X), 1, addr(A)), Err(PoapError::Paused));
    assert_eq!(p.unpause(addr(OWNER)), Ok(()));
    assert_eq!(p.unpause(addr(OWNER)), Ok(()));
    assert!(!p.is_paused());
    assert_eq!(p.mint_token(addr(X), 1, addr(A)), Ok(1));
}

#[test]
fn only_owner_pauses() {
    let mut p = registry();
    assert_eq!(p.pause(addr(A)), Err(PoapError::OwnableUnauthorizedAccount { account: addr(A) }));
    assert!(!p.is_paused());
    p.pause(addr(OWNER)).unwrap();
    assert_eq!(p.unpause(addr(A)), Err(PoapError::OwnableUnauthorizedAccount { account: addr(A) }));
    assert!(p.is_paused());
}

#[test]
fn attendance_blocks_every_later_issue() {
    let mut p = registry();
    create(&mut p, addr(X));
    p.mint_token(addr(X), 1, addr(A)).unwrap();
    assert!(p.has_attended(1, addr(A)));
    assert!(p.mint_token(addr(OWNER), 1, addr(A)).is_err());
    assert_eq!(p.batch_mint_event_to_many(addr(X), 1, vec![addr(A), addr(A)]), Ok(vec![]));
    assert_eq!(p.balance_of(addr(A)), 1);
    assert!(p.has_attended(1, addr(A)));
}

#[test]
fn enumerations_list_each_badge_once() {
    let mut p = registry();
    create(&mut p, addr(X));
    create(&mut p, addr(X));
    p.mint_token(addr(X), 1, addr(A)).unwrap();
    p.mint_token(addr(X), 1, addr(B)).unwrap();
    p.mint_token(addr(X), 2, addr(A)).unwrap();
    assert_eq!(p.balance_of(addr(A)), 2);
    assert_eq!(p.token_of_owner_by_index(addr(A), 0), Ok(1));
    assert_eq!(p.token_of_owner_by_index(addr(A), 1), Ok(3));
    assert_eq!(p.token_of_owner_by_index(addr(B), 0), Ok(2));
    assert_eq!(
        p.token_of_owner_by_index(addr(B), 1),
        Err(PoapError::OutOfBoundsIndex { owner: addr(B), index: 1 })
    );
    assert_eq!(
        p.token_by_index(3),
        Err(PoapError::OutOfBoundsIndex { owner: Address::zero(), index: 3 })
    );
    assert_eq!(p.balance_of(addr(X)), 0);
}

#[test]
fn transfers_and_approvals_always_fail() {
    let mut p = registry();
    create(&mut p, addr(X));
    p.mint_token(addr(X), 1, addr(A)).unwrap();
    assert_eq!(p.transfer_from(addr(A), addr(B), 1), Err(PoapError::TransferDisabled));
    assert_eq!(p.safe_transfer_from(addr(A), addr(B), 1), Err(PoapError::TransferDisabled));
    assert_eq!(
        p.safe_transfer_from_with_data(addr(A), addr(B), 1, vec![1, 2]),
        Err(PoapError::TransferDisabled)
    );
    assert_eq!(p.approve(addr(B), 1), Err(PoapError::TransferDisabled));
    assert_eq!(p.set_approval_for_all(addr(B), true), Err(PoapError::TransferDisabled));
    assert_eq!(p.approve(addr(B), 99), Err(PoapError::TransferDisabled));
    assert_eq!(p.owner_of(1), Ok(addr(A)));
    assert_eq!(p.get_approved(1), Ok(Address::zero()));
    assert_eq!(p.get_approved(2), Err(PoapError::NonexistentToken { token_id: 2 }));
    assert!(!p.is_approved_for_all(addr(A), addr(B)));
}

#[test]
fn only_owner_administers() {
    let mut p = registry();
    assert_eq!(
        p.create_event(addr(A), "n".to_string(), "d".to_string(), "i".to_string(), "t".to_string(), addr(X)),
        Err(PoapError::OwnableUnauthorizedAccount { account: addr(A) })
    );
    assert_eq!(p.get_last_event_id(), 0);
    create(&mut p, addr(X));
    assert_eq!(
        p.deactivate_event(addr(X), 1),
        Err(PoapError::OwnableUnauthorizedAccount { account: addr(X) })
    );
    assert_eq!(
        p.add_event_minter(addr(X), 1, addr(A)),
        Err(PoapError::OwnableUnauthorizedAccount { account: addr(X) })
    );
    assert!(p.is_event_active(1));
}

#[test]
fn unknown_events_are_reported() {
    let mut p = registry();
    create(&mut p, addr(X));
    assert_eq!(p.deactivate_event(addr(OWNER), 2), Err(PoapError::EventDoesNotExist { event_id: 2 }));
    assert_eq!(p.deactivate_event(addr(OWNER), 0), Err(PoapError::EventDoesNotExist { event_id: 0 }));
    assert_eq!(p.add_event_minter(addr(OWNER), 7, addr(A)), Err(PoapError::EventDoesNotExist { event_id: 7 }));
    assert_eq!(
        p.remove_event_minter(addr(OWNER), 7, addr(A)),
        Err(PoapError::EventDoesNotExist { event_id: 7 })
    );
    assert_eq!(p.mint_token(addr(OWNER), 2, addr(A)), Err(PoapError::EventDoesNotExist { event_id: 2 }));
}

#[test]
fn deactivation_is_repeatable() {
    let mut p = registry();
    create(&mut p, addr(X));
    assert_eq!(p.deactivate_event(addr(OWNER), 1), Ok(()));
    assert_eq!(p.deactivate_event(addr(OWNER), 1), Ok(()));
    assert!(!p.is_event_active(1));
}

#[test]
fn minters_are_granted_and_revoked() {
    let mut p = registry();
    create(&mut p, addr(X));
    assert!(p.is_event_minter(1, addr(X)));
    assert_eq!(p.mint_token(addr(A), 1, addr(B)), Err(PoapError::OnlyEventMinterOrOwner));
    assert_eq!(p.add_event_minter(addr(OWNER), 1, addr(A)), Ok(()));
    assert!(p.is_event_minter(1, addr(A)));
    assert_eq!(p.mint_token(addr(A), 1, addr(B)), Ok(1));
    assert_eq!(p.remove_event_minter(addr(OWNER), 1, addr(A)), Ok(()));
    assert!(!p.is_event_minter(1, addr(A)));
    assert_eq!(p.mint_token(addr(A), 1, addr(X)), Err(PoapError::OnlyEventMinterOrOwner));
    assert_eq!(p.remove_event_minter(addr(OWNER), 1, addr(X)), Ok(()));
    assert_eq!(p.mint_token(addr(X), 1, addr(A)), Err(PoapError::OnlyEventMinterOrOwner));
    assert_eq!(p.mint_token(addr(OWNER), 1, addr(A)), Ok(2));
}

#[test]
fn minters_change_on_inactive_event() {
    let mut p = registry();
    create(&mut p, addr(X));
    p.deactivate_event(addr(OWNER), 1).unwrap();
    assert_eq!(p.add_event_minter(addr(OWNER), 1, addr(A)), Ok(()));
    assert!(p.is_event_minter(1, addr(A)));
}

#[test]
fn null_recipient_is_refused_by_ledger() {
    let mut p = registry();
    create(&mut p, addr(X));
    assert_eq!(p.mint_token(addr(X), 1, Address::zero()), Err(PoapError::MintFailed));
    assert_eq!(p.total_supply(), 0);
    assert_eq!(p.mint_token(addr(X), 1, addr(A)), Ok(1));
}

#[test]
fn ownership_moves_only_to_real_address() {
    let mut p = registry();
    assert_eq!(
        p.transfer_ownership(addr(A), addr(B)),
        Err(PoapError::OwnableUnauthorizedAccount { account: addr(A) })
    );
    assert_eq!(
        p.transfer_ownership(addr(OWNER), Address::zero()),
        Err(PoapError::OwnableInvalidOwner { owner: Address::zero() })
    );
    assert_eq!(p.get_owner(), addr(OWNER));
    assert_eq!(p.transfer_ownership(addr(OWNER), addr(B)), Ok(()));
    assert_eq!(p.get_owner(), addr(B));
    assert!(p.pause(addr(OWNER)).is_err());
    assert!(p.pause(addr(B)).is_ok());
}

#[test]
fn event_fields_and_defaults() {
    let mut p = registry();
    create(&mut p, addr(X));
    assert_eq!(p.get_event_name(1), "Meetup");
    assert_eq!(p.get_event_description(1), "A meetup");
    assert_eq!(p.get_event_image_uri(1), "ipfs://image");
    assert_eq!(p.get_event_date(1), "2024-05-01");
    assert_eq!(p.get_event_organizer(1), addr(X));
    assert!(p.is_event_active(1));
    assert_eq!(p.get_event_name(2), "");
    assert_eq!(p.get_event_date(0), "");
    assert_eq!(p.get_event_organizer(2), Address::zero());
    assert!(!p.is_event_active(2));
    assert!(!p.is_event_minter(2, addr(X)));
    assert!(!p.has_attended(2, addr(X)));
    assert_eq!(p.token_event(1), 0);
    assert_eq!(p.name(), "Attendance");
    assert_eq!(p.symbol(), "POAP");
}

#[test]
fn log_records_follow_operations() {
    let mut p = registry();
    create(&mut p, addr(X));
    p.add_event_minter(addr(OWNER), 1, addr(A)).unwrap();
    p.remove_event_minter(addr(OWNER), 1, addr(A)).unwrap();
    p.mint_token(addr(X), 1, addr(B)).unwrap();
    p.mint_token(addr(X), 1, addr(B)).unwrap_err();
    assert_eq!(
        p.logs().clone(),
        vec![
            LogRecord::EventCreated { event_id: 1, name: "Meetup".to_string(), organizer: addr(X) },
            LogRecord::EventMinterAdded { event_id: 1, minter: addr(A) },
            LogRecord::EventMinterRemoved { event_id: 1, minter: addr(A) },
            LogRecord::BadgeMinted { recipient: addr(B), token_id: 1, event_id: 1 },
        ]
    );
}

#[test]
fn supported_interfaces() {
    let p = registry();
    assert!(p.supports_interface(INTERFACE_ERC165));
    assert!(p.supports_interface(INTERFACE_ERC721));
    assert!(p.supports_interface(INTERFACE_ERC721_METADATA));
    assert!(p.supports_interface(INTERFACE_ERC721_ENUMERABLE));
    assert!(p.supports_interface(0x01ffc9a7));
    assert!(!p.supports_interface(0xffffffff));
}

#[test]
fn decimal_notation() {
    let mut s = String::new();
    push_decimal(&mut s, 0);
    assert_eq!(s, "0");
    let mut s = "n=".to_string();
    push_decimal(&mut s, 1090);
    assert_eq!(s, "n=1090");
    let mut s = String::new();
    push_decimal(&mut s, u64::MAX);
    assert_eq!(s, "18446744073709551615");
    assert_eq!(build_token_uri(&"b".to_string(), 10, 205), "b/10/205");
}

#[test]
fn index_removal_swaps_in_last() {
    let mut idx = EnumerationIndex::new();
    idx.append(addr(A), 1);
    idx.append(addr(B), 2);
    idx.append(addr(A), 3);
    idx.append(addr(A), 4);
    assert_eq!(idx.remove(addr(A), 1), Ok(()));
    assert_eq!(idx.balance_of(addr(A)), 2);
    assert_eq!(idx.token_of_owner_by_index(addr(A), 0), Ok(4));
    assert_eq!(idx.token_of_owner_by_index(addr(A), 1), Ok(3));
    assert_eq!(idx.total_supply(), 4);
    assert_eq!(idx.token_by_index(0), Ok(1));
    assert_eq!(idx.remove(addr(A), 1), Err(PoapError::TokenNotIndexed { owner: addr(A), token_id: 1 }));
    assert_eq!(idx.remove(addr(B), 3), Err(PoapError::TokenNotIndexed { owner: addr(B), token_id: 3 }));
    assert_eq!(idx.remove(addr(X), 2), Err(PoapError::TokenNotIndexed { owner: addr(X), token_id: 2 }));
    assert_eq!(idx.remove(addr(B), 2), Ok(()));
    assert_eq!(idx.balance_of(addr(B)), 0);
    assert_eq!(idx.remove(addr(A), 3), Ok(()));
    assert_eq!(idx.token_of_owner_by_index(addr(A), 0), Ok(4));
}

#[test]
fn address_set_membership() {
    let mut s = AddressSet::new();
    assert!(!s.contains(addr(A)));
    s.insert(addr(A));
    s.insert(addr(A));
    s.insert(addr(B));
    assert!(s.contains(addr(A)));
    s.remove(addr(A));
    assert!(!s.contains(addr(A)));
    assert!(s.contains(addr(B)));
    s.remove(addr(X));
    assert!(s.contains(addr(B)));
}


#[test]
fn many_holders_sharing_address_halves() {
    let mut p = registry();
    create(&mut p, addr(X));
    create(&mut p, addr(X));
    let mut holders = Vec::new();
    for high in 0..4u32 {
        for low in 10..15u128 {
            holders.push(Address::new(high, low));
        }
    }
    let first = p.batch_mint_event_to_many(addr(X), 1, holders.clone()).unwrap();
    let second = p.batch_mint_event_to_many(addr(X), 2, holders.clone()).unwrap();
    assert_eq!(first, (1..=20).collect::<Vec<u64>>());
    assert_eq!(second, (21..=40).collect::<Vec<u64>>());
    for (k, h) in holders.iter().enumerate() {
        assert_eq!(p.balance_of(*h), 2);
        assert_eq!(p.token_of_owner_by_index(*h, 0), Ok(k as u64 + 1));
        assert_eq!(p.token_of_owner_by_index(*h, 1), Ok(k as u64 + 21));
        assert!(p.has_attended(1, *h) && p.has_attended(2, *h));
        assert!(!p.has_attended(3, *h));
    }
    assert_eq!(p.balance_of(Address::new(4, 10)), 0);
}
