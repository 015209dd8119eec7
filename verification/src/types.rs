//! The ledger's record types: addresses, events, tickets, the rows of the
//! ownership index, and the error kinds.

use vstd::prelude::*;

verus! {

/// An account identity, as the host's identity subsystem presents it to the
/// ledger: an opaque stable code. The ledger never inspects an address; it
/// only compares addresses for equality and keys its ownership index by them.
#[derive(Clone, Copy, PartialEq, Eq, Structural, Debug)]
pub struct Address(pub u64);

/// Why a ledger operation was refused. Every error aborts the whole call and
/// leaves the ledger unchanged.
#[derive(Clone, Copy, PartialEq, Eq, Structural, Debug)]
pub enum LedgerError {
    /// The referenced event or ticket id does not exist.
    NotFound,
    /// A purchase was attempted against an event at full capacity.
    SoldOut,
    /// A purchase was attempted strictly after the event's date.
    EventExpired,
    /// The authorization collaborator denied the acting party, or a transfer
    /// was attempted by a caller that is not the ticket's current owner.
    NotAuthorized,
}

/// An event with a fixed ticket supply. `sold` is the only field that changes
/// after creation, and it never exceeds `total_tickets`.
pub struct Event {
    /// Stable identifier, assigned sequentially starting at 0, never reused.
    pub id: u32,
    /// Opaque display label; not validated for content.
    pub name: String,
    /// Opaque display label; not validated for content.
    pub description: String,
    /// Unix timestamp of the event; sales close strictly after this instant.
    pub date: u64,
    /// Immutable supply cap set at creation.
    pub total_tickets: u32,
    /// Nominal price in minor currency units; stored, never transferred.
    pub price: i128,
    /// The identity that created the event.
    pub organizer: Address,
    /// Tickets sold so far; always at most `total_tickets`.
    pub sold: u32,
}

impl Clone for Event {
    fn clone(&self) -> (res: Event)
        ensures
            res == *self,
    {
        Event {
            id: self.id,
            name: self.name.clone(),
            description: self.description.clone(),
            date: self.date,
            total_tickets: self.total_tickets,
            price: self.price,
            organizer: self.organizer,
            sold: self.sold,
        }
    }
}

/// A ticket issued against an event. `owner` is the only field that changes
/// after issuance.
#[derive(Clone, Copy, PartialEq, Eq, Structural, Debug)]
pub struct Ticket {
    /// Stable identifier drawn from one global counter shared by all events.
    pub id: u32,
    /// The event this ticket admits to.
    pub event_id: u32,
    /// The current holder.
    pub owner: Address,
    /// Timestamp of issuance, immutable after creation.
    pub purchased_at: u64,
}

/// One row of the ownership index: the ticket ids an address currently owns,
/// in the order they were received.
pub struct UserEntry {
    pub owner: Address,
    pub ids: Vec<u32>,
}

} // verus!
