use event_ticketing::{Address, EventTicketingContract};

#[test]
fn test_initialize() {
    let mut ledger = EventTicketingContract::new();
    ledger.initialize();
}

#[test]
fn test_create_event() {
    let mut ledger = EventTicketingContract::new();
    ledger.initialize();

    let organizer = Address(1);
    let name = "Concert".to_string();
    let description = "MusicEvt".to_string();
    let date = 1735689600u64;
    let total_tickets = 100u32;
    let price = 10_000_000i128;

    let event_id = ledger
        .create_event(true, organizer, name.clone(), description, date, total_tickets, price)
        .unwrap();

    assert_eq!(event_id, 0u32);

    let event = ledger.get_event(event_id).unwrap();
    assert_eq!(event.name, name);
    assert_eq!(event.total_tickets, total_tickets);
    assert_eq!(event.price, price);
    assert_eq!(event.sold, 0u32);
}

#[test]
fn test_purchase_ticket() {
    let mut ledger = EventTicketingContract::new();
    ledger.initialize();

    let organizer = Address(1);
    let buyer = Address(2);
    let name = "Concert".to_string();
    let description = "MusicEvt".to_string();
    let date = 1735689600u64;
    let total_tickets = 100u32;
    let price = 10_000_000i128;

    let event_id = ledger
        .create_event(true, organizer, name, description, date, total_tickets, price)
        .unwrap();

    let ticket_id = ledger.purchase_ticket(true, buyer, event_id, 0).unwrap();

    assert_eq!(ticket_id, 0u32);

    let ticket = ledger.get_ticket(ticket_id).unwrap();
    assert_eq!(ticket.event_id, event_id);
    assert_eq!(ticket.owner, buyer);

    let stats = ledger.get_event_stats(event_id).unwrap();
    assert_eq!(stats.0, 1u32); // sold
    assert_eq!(stats.1, 100u32); // total

    let user_tickets = ledger.get_user_tickets(buyer);
    assert_eq!(user_tickets.len(), 1);
    assert_eq!(user_tickets[0], ticket_id);
}

#[test]
fn test_transfer_ticket() {
    let mut ledger = EventTicketingContract::new();
    ledger.initialize();

    let organizer = Address(1);
    let buyer = Address(2);
    let recipient = Address(3);
    let name = "Concert".to_string();
    let description = "MusicEvt".to_string();
    let date = 1735689600u64;
    let total_tickets = 100u32;
    let price = 10_000_000i128;

    let event_id = ledger
        .create_event(true, organizer, name, description, date, total_tickets, price)
        .unwrap();

    let ticket_id = ledger.purchase_ticket(true, buyer, event_id, 0).unwrap();

    ledger.transfer_ticket(true, buyer, recipient, ticket_id).unwrap();

    let ticket = ledger.get_ticket(ticket_id).unwrap();
    assert_eq!(ticket.owner, recipient);

    let is_verified = ledger.verify_ticket(ticket_id, recipient);
    assert_eq!(is_verified, true);

    let recipient_tickets = ledger.get_user_tickets(recipient);
    assert_eq!(recipient_tickets.len(), 1);
}

#[test]
#[should_panic]
fn test_purchase_ticket_sold_out() {
    let mut ledger = EventTicketingContract::new();
    ledger.initialize();

    let organizer = Address(1);
    let buyer = Address(2);
    let name = "Concert".to_string();
    let description = "MusicEvt".to_string();
    let date = 1735689600u64;
    let total_tickets = 1u32;
    let price = 10_000_000i128;

    let event_id = ledger
        .create_event(true, organizer, name, description, date, total_tickets, price)
        .unwrap();

    ledger.purchase_ticket(true, buyer, event_id, 0).unwrap();
    // the supply is exhausted, so this unwraps a SoldOut error
    ledger.purchase_ticket(true, buyer, event_id, 0).unwrap();
}

#[test]
fn test_get_all_events_in_id_order() {
    let mut ledger = EventTicketingContract::new();
    ledger.initialize();

    let a = ledger
        .create_event(true, Address(1), "A".to_string(), "a".to_string(), 10, 5, 1)
        .unwrap();
    let b = ledger
        .create_event(true, Address(2), "B".to_string(), "b".to_string(), 20, 6, 2)
        .unwrap();

    let all = ledger.get_all_events();
    assert_eq!(all.len(), 2);
    assert_eq!(all[0].id, a);
    assert_eq!(all[0].name, "A");
    assert_eq!(all[1].id, b);
    assert_eq!(all[1].name, "B");
}

#[test]
fn test_purchase_records_time_of_issue() {
    let mut ledger = EventTicketingContract::new();
    ledger.initialize();

    let event_id = ledger
        .create_event(true, Address(1), "E".to_string(), "e".to_string(), 500, 3, 0)
        .unwrap();
    let tid = ledger.purchase_ticket(true, Address(2), event_id, 432).unwrap();

    let ticket = ledger.get_ticket(tid).unwrap();
    assert_eq!(ticket.purchased_at, 432);
    assert_eq!(ticket.id, tid);
}
