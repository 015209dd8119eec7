//! The ledger's general laws, stated and proved once over the spec functions
//! that the operations' contracts use.

use crate::ledger::{
    entry_index, event_id_issued, has_entry, lemma_entry_at, no_dup, ticket_id_issued, tickets_of,
    EventTicketingContract,
};
use crate::types::Address;
use vstd::prelude::*;

verus! {

/// Supply bound: in a well-formed ledger, every event has sold at least 0 and
/// at most `total_tickets` tickets. Every operation ensures well-formedness,
/// so this holds at all times.
pub proof fn lemma_supply_bound(s: EventTicketingContract, i: int)
    requires
        s.wf(),
        0 <= i < s.events@.len(),
    ensures
        0 <= s.events@[i].sold <= s.events@[i].total_tickets,
{
}

/// Id monotonicity for events: two creations that both issue an id, with the
/// event counter never decreased in between, issue strictly increasing ids;
/// when nothing between them moves the counter — in particular when every
/// call in between failed and so left the ledger unchanged — the second id is
/// exactly one more than the first. `create_event`'s contract supplies
/// `event_id_issued` on success, and every operation's contract keeps the
/// counter from decreasing.
pub proof fn lemma_event_ids_strictly_increasing(
    pre1: EventTicketingContract,
    post1: EventTicketingContract,
    id1: u32,
    pre2: EventTicketingContract,
    post2: EventTicketingContract,
    id2: u32,
)
    requires
        event_id_issued(pre1, post1, id1),
        pre2.next_event_id >= post1.next_event_id,
        event_id_issued(pre2, post2, id2),
    ensures
        id2 > id1,
        pre2.next_event_id == post1.next_event_id ==> id2 == id1 + 1,
{
}

/// Id monotonicity for tickets: the same law for the one global ticket
/// counter, which purchases against every event share. `purchase_ticket`'s
/// contract supplies `ticket_id_issued` on success.
pub proof fn lemma_ticket_ids_strictly_increasing(
    pre1: EventTicketingContract,
    post1: EventTicketingContract,
    id1: u32,
    pre2: EventTicketingContract,
    post2: EventTicketingContract,
    id2: u32,
)
    requires
        ticket_id_issued(pre1, post1, id1),
        pre2.next_ticket_id >= post1.next_ticket_id,
        ticket_id_issued(pre2, post2, id2),
    ensures
        id2 > id1,
        pre2.next_ticket_id == post1.next_ticket_id ==> id2 == id1 + 1,
{
}

/// Ownership index consistency: in a well-formed ledger — so after any
/// sequence of operations, each of which ensures well-formedness — the ids
/// recorded for an address are, without duplicates, exactly the tickets that
/// address currently owns.
pub proof fn lemma_index_matches_ownership(s: EventTicketingContract, a: Address)
    requires
        s.wf(),
    ensures
        no_dup(tickets_of(s.user_tickets@, a)),
        forall|id: u32| #[trigger]
            tickets_of(s.user_tickets@, a).contains(id) <==> ((id as int) < s.tickets@.len()
                && s.tickets@[id as int].owner == a),
{
    let ut = s.user_tickets@;
    assert forall|id: u32| #[trigger]
        tickets_of(ut, a).contains(id) <==> ((id as int) < s.tickets@.len()
            && s.tickets@[id as int].owner == a) by {
        if tickets_of(ut, a).contains(id) {
            assert(has_entry(ut, a));
            let i = entry_index(ut, a);
            assert(0 <= i < ut.len() && ut[i].owner == a);
            lemma_entry_at(ut, i);
            let k = choose|k: int| 0 <= k < ut[i].ids@.len() && ut[i].ids@[k] == id;
            assert(ut[i].ids@[k] == id);
        }
        if (id as int) < s.tickets@.len() && s.tickets@[id as int].owner == a {
            assert(tickets_of(ut, s.tickets@[id as int].owner).contains(id));
        }
    }
    if has_entry(ut, a) {
        let i = entry_index(ut, a);
        assert(0 <= i < ut.len() && ut[i].owner == a);
        lemma_entry_at(ut, i);
        assert(no_dup(ut[i].ids@));
    }
}

} // verus!
