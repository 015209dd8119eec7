//! An event-ticketing ledger.
//!
//! The ledger creates events with a fixed ticket supply, sells tickets against
//! that supply under supply and expiry constraints, and tracks per-user ticket
//! ownership with support for transfer and verification. Every mutation
//! touches several denormalized tables (events by id, tickets by id, and a
//! user-to-ticket-ids index) that must stay consistent; the contracts here pin
//! down exactly how each operation changes the tables, and the well-formedness
//! predicate [`ledger::EventTicketingContract::wf`] states the supply bound
//! and the ownership-index consistency that every operation preserves.
//!
//! The host environment is out of scope: the trusted clock's reading and the
//! authorization collaborator's verdict enter each operation as plain
//! arguments, and the caller durably stores the ledger value between calls.

pub mod laws;
pub mod ledger;
pub mod types;

pub use ledger::EventTicketingContract;
pub use types::{Address, Event, LedgerError, Ticket, UserEntry};
