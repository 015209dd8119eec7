use event_ticketing::{Address, EventTicketingContract, LedgerError};

fn ledger_with_event(total_tickets: u32, date: u64) -> (EventTicketingContract, u32) {
    let mut ledger = EventTicketingContract::new();
    ledger.initialize();
    let event_id = ledger
        .create_event(
            true,
            Address(10),
            "Show".to_string(),
            "OneNight".to_string(),
            date,
            total_tickets,
            2_500_000,
        )
        .unwrap();
    (ledger, event_id)
}

#[test]
fn purchase_beyond_supply_fails_sold_out() {
    let (mut ledger, event_id) = ledger_with_event(1, 1000);
    let buyer = Address(2);

    assert_eq!(ledger.purchase_ticket(true, buyer, event_id, 0), Ok(0));
    assert_eq!(ledger.get_event_stats(event_id).unwrap(), (1, 1));

    assert_eq!(ledger.purchase_ticket(true, buyer, event_id, 0), Err(LedgerError::SoldOut));
    assert_eq!(ledger.get_event_stats(event_id).unwrap(), (1, 1));
}

#[test]
fn purchase_after_date_fails_expired_at_date_succeeds() {
    let (mut ledger, event_id) = ledger_with_event(10, 1000);
    let buyer = Address(2);

    assert_eq!(ledger.purchase_ticket(true, buyer, event_id, 1001), Err(LedgerError::EventExpired));
    // the failed call changed nothing
    assert_eq!(ledger.get_event_stats(event_id).unwrap(), (0, 10));
    assert_eq!(ledger.get_user_tickets(buyer).len(), 0);

    // sales stay open exactly at the event's date, and the failed call did
    // not consume a ticket id
    assert_eq!(ledger.purchase_ticket(true, buyer, event_id, 1000), Ok(0));
}

#[test]
fn transfer_moves_ownership_and_index_rows() {
    let (mut ledger, event_id) = ledger_with_event(5, 1000);
    let b = Address(2);
    let c = Address(3);

    let tid = ledger.purchase_ticket(true, b, event_id, 0).unwrap();
    assert_eq!(tid, 0);
    assert_eq!(ledger.get_user_tickets(b), vec![0]);

    ledger.transfer_ticket(true, b, c, tid).unwrap();
    assert_eq!(ledger.get_user_tickets(b), Vec::<u32>::new());
    assert_eq!(ledger.get_user_tickets(c), vec![0]);
    assert!(ledger.verify_ticket(0, c));
    assert!(!ledger.verify_ticket(0, b));
}

#[test]
fn get_event_on_empty_ledger_fails_not_found() {
    let ledger = EventTicketingContract::new();
    assert!(matches!(ledger.get_event(999), Err(LedgerError::NotFound)));
}

#[test]
fn ticket_ids_are_global_across_events() {
    let mut ledger = EventTicketingContract::new();
    ledger.initialize();
    let first = ledger
        .create_event(true, Address(1), "First".to_string(), "f".to_string(), 100, 10, 1)
        .unwrap();
    let second = ledger
        .create_event(true, Address(1), "Second".to_string(), "s".to_string(), 100, 10, 1)
        .unwrap();
    assert_eq!(first, 0);
    assert_eq!(second, 1);

    // tickets against either event draw from one shared counter
    assert_eq!(ledger.purchase_ticket(true, Address(2), first, 0), Ok(0));
    assert_eq!(ledger.purchase_ticket(true, Address(3), second, 0), Ok(1));
    assert_eq!(ledger.purchase_ticket(true, Address(2), first, 0), Ok(2));
    assert_eq!(ledger.get_ticket(1).unwrap().event_id, second);
}

#[test]
fn transfer_by_non_owner_fails_and_changes_nothing() {
    let (mut ledger, event_id) = ledger_with_event(5, 1000);
    let owner = Address(2);
    let intruder = Address(4);
    let target = Address(5);

    let tid = ledger.purchase_ticket(true, owner, event_id, 0).unwrap();

    assert_eq!(
        ledger.transfer_ticket(true, intruder, target, tid),
        Err(LedgerError::NotAuthorized)
    );
    assert_eq!(ledger.get_ticket(tid).unwrap().owner, owner);
    assert_eq!(ledger.get_user_tickets(owner), vec![tid]);
    assert_eq!(ledger.get_user_tickets(intruder).len(), 0);
    assert_eq!(ledger.get_user_tickets(target).len(), 0);
}

#[test]
fn transfer_of_missing_ticket_fails_not_found() {
    let (mut ledger, _event_id) = ledger_with_event(5, 1000);
    assert_eq!(
        ledger.transfer_ticket(true, Address(2), Address(3), 7),
        Err(LedgerError::NotFound)
    );
}

#[test]
fn denied_authorization_fails_every_mutation() {
    let (mut ledger, event_id) = ledger_with_event(5, 1000);
    assert_eq!(
        ledger.create_event(false, Address(1), "X".to_string(), "x".to_string(), 1, 1, 1),
        Err(LedgerError::NotAuthorized)
    );
    assert_eq!(
        ledger.purchase_ticket(false, Address(2), event_id, 0),
        Err(LedgerError::NotAuthorized)
    );
    let tid = ledger.purchase_ticket(true, Address(2), event_id, 0).unwrap();
    assert_eq!(
        ledger.transfer_ticket(false, Address(2), Address(3), tid),
        Err(LedgerError::NotAuthorized)
    );
    assert_eq!(ledger.get_ticket(tid).unwrap().owner, Address(2));
}

#[test]
fn missing_ids_fail_not_found_and_verify_returns_false() {
    let ledger = EventTicketingContract::new();
    assert!(ledger.get_ticket(0).is_err());
    assert!(ledger.get_event_stats(0).is_err());
    assert!(!ledger.verify_ticket(0, Address(1)));
}

#[test]
fn self_transfer_moves_id_to_end_of_row() {
    let (mut ledger, event_id) = ledger_with_event(5, 1000);
    let b = Address(2);
    let first = ledger.purchase_ticket(true, b, event_id, 0).unwrap();
    let second = ledger.purchase_ticket(true, b, event_id, 0).unwrap();
    assert_eq!(ledger.get_user_tickets(b), vec![first, second]);

    // a transfer to oneself removes and re-appends the id
    ledger.transfer_ticket(true, b, b, first).unwrap();
    assert_eq!(ledger.get_user_tickets(b), vec![second, first]);
    assert!(ledger.verify_ticket(first, b));
}

#[test]
fn zero_supply_event_never_sells() {
    let (mut ledger, event_id) = ledger_with_event(0, 1000);
    assert_eq!(ledger.purchase_ticket(true, Address(2), event_id, 0), Err(LedgerError::SoldOut));
    assert_eq!(ledger.get_event_stats(event_id).unwrap(), (0, 0));
}

#[test]
fn failed_purchase_consumes_no_ticket_id() {
    let (mut ledger, event_id) = ledger_with_event(1, 1000);
    // expired attempt, then a denied one, then a sold-out path after selling
    assert_eq!(ledger.purchase_ticket(true, Address(2), event_id, 2000), Err(LedgerError::EventExpired));
    assert_eq!(ledger.purchase_ticket(false, Address(2), event_id, 0), Err(LedgerError::NotAuthorized));
    assert_eq!(ledger.purchase_ticket(true, Address(2), event_id, 0), Ok(0));
    assert_eq!(ledger.purchase_ticket(true, Address(3), event_id, 0), Err(LedgerError::SoldOut));

    let other_event = ledger
        .create_event(true, Address(1), "Next".to_string(), "n".to_string(), 1000, 1, 1)
        .unwrap();
    assert_eq!(ledger.purchase_ticket(true, Address(3), other_event, 0), Ok(1));
}

#[test]
fn purchase_of_missing_event_fails_not_found() {
    let mut ledger = EventTicketingContract::new();
    ledger.initialize();
    assert_eq!(ledger.purchase_ticket(true, Address(2), 999, 0), Err(LedgerError::NotFound));
}
