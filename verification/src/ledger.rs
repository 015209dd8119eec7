//! The ticketing ledger itself: the tables, their well-formedness predicate,
//! and the operations that read and mutate them.

use crate::types::{Address, Event, LedgerError, Ticket, UserEntry};
use vstd::prelude::*;

verus! {

/// No two rows of the ownership index belong to the same address.
pub open spec fn owners_unique(entries: Seq<UserEntry>) -> bool {
    forall|i: int, j: int|
        0 <= i < entries.len() && 0 <= j < entries.len() && i != j ==> (#[trigger] entries[i].owner)
            != (#[trigger] entries[j].owner)
}

/// The sequence holds no ticket id twice.
pub open spec fn no_dup(ids: Seq<u32>) -> bool {
    forall|p: int, q: int|
        0 <= p < ids.len() && 0 <= q < ids.len() && p != q ==> (#[trigger] ids[p]) != (#[trigger] ids[q])
}

/// Some row of the index belongs to `user`.
pub open spec fn has_entry(entries: Seq<UserEntry>, user: Address) -> bool {
    exists|i: int| 0 <= i < entries.len() && (#[trigger] entries[i].owner) == user
}

/// The row position of `user`'s entry (meaningful only under `has_entry`).
pub open spec fn entry_index(entries: Seq<UserEntry>, user: Address) -> int {
    choose|i: int| 0 <= i < entries.len() && (#[trigger] entries[i].owner) == user
}

/// The ticket ids recorded for `user`: the stored row, or empty when the user
/// has no row. A missing row and an empty row mean the same thing.
pub open spec fn tickets_of(entries: Seq<UserEntry>, user: Address) -> Seq<u32> {
    if has_entry(entries, user) {
        entries[entry_index(entries, user)].ids@
    } else {
        Seq::<u32>::empty()
    }
}

/// `ids` with every occurrence of `id` removed, the order of the remaining
/// ids preserved.
pub open spec fn remove_id(ids: Seq<u32>, id: u32) -> Seq<u32> {
    ids.filter(|y: u32| y != id)
}

/// `e` with one more ticket sold and every other field kept.
pub open spec fn sold_incremented(e: Event) -> Event {
    Event { sold: (e.sold + 1) as u32, ..e }
}

/// `id` was issued by a creation that stepped the event counter past it.
pub open spec fn event_id_issued(
    pre: EventTicketingContract,
    post: EventTicketingContract,
    id: u32,
) -> bool {
    id == pre.next_event_id && post.next_event_id == id + 1
}

/// `id` was issued by a purchase that stepped the ticket counter past it.
pub open spec fn ticket_id_issued(
    pre: EventTicketingContract,
    post: EventTicketingContract,
    id: u32,
) -> bool {
    id == pre.next_ticket_id && post.next_ticket_id == id + 1
}

/// Under unique owners, the row at position `i` is the one `entry_index`
/// finds for its owner, so `tickets_of` returns exactly that row.
pub(crate) proof fn lemma_entry_at(entries: Seq<UserEntry>, i: int)
    requires
        owners_unique(entries),
        0 <= i < entries.len(),
    ensures
        has_entry(entries, entries[i].owner),
        entry_index(entries, entries[i].owner) == i,
        tickets_of(entries, entries[i].owner) == entries[i].ids@,
{
    let user = entries[i].owner;
    assert(has_entry(entries, user));
    let j = entry_index(entries, user);
    assert(0 <= j < entries.len() && entries[j].owner == user);
    assert(j == i);
}

/// Replacing row `i` by a row of the same owner changes that owner's
/// recorded ids to the new row's and leaves every other address's unchanged.
proof fn lemma_tickets_of_update(entries: Seq<UserEntry>, i: int, e2: UserEntry)
    requires
        owners_unique(entries),
        0 <= i < entries.len(),
        e2.owner == entries[i].owner,
    ensures
        owners_unique(entries.update(i, e2)),
        tickets_of(entries.update(i, e2), e2.owner) == e2.ids@,
        forall|a: Address|
            a != e2.owner ==> tickets_of(entries.update(i, e2), a) == tickets_of(entries, a),
{
    let upd = entries.update(i, e2);
    assert(forall|k: int| 0 <= k < upd.len() ==> (#[trigger] upd[k].owner) == entries[k].owner);
    lemma_entry_at(upd, i);
    assert forall|a: Address| a != e2.owner implies tickets_of(upd, a) == tickets_of(
        entries,
        a,
    ) by {
        if has_entry(entries, a) {
            let j = entry_index(entries, a);
            assert(0 <= j < entries.len() && entries[j].owner == a);
            assert(j != i);
            lemma_entry_at(entries, j);
            lemma_entry_at(upd, j);
            assert(upd[j] == entries[j]);
        } else {
            if has_entry(upd, a) {
                let k = entry_index(upd, a);
                assert(0 <= k < entries.len() && entries[k].owner == a);
                assert(has_entry(entries, a));
            }
        }
    }
}

/// Appending a row for an address that has none records that address's ids
/// as the new row's and leaves every other address's unchanged.
proof fn lemma_tickets_of_push(entries: Seq<UserEntry>, e2: UserEntry)
    requires
        owners_unique(entries),
        !has_entry(entries, e2.owner),
    ensures
        owners_unique(entries.push(e2)),
        tickets_of(entries.push(e2), e2.owner) == e2.ids@,
        forall|a: Address|
            a != e2.owner ==> tickets_of(entries.push(e2), a) == tickets_of(entries, a),
{
    let ext = entries.push(e2);
    assert(forall|k: int| 0 <= k < entries.len() ==> (#[trigger] ext[k].owner) == entries[k].owner);
    assert(ext[entries.len() as int].owner == e2.owner);
    assert(forall|k: int|
        0 <= k < entries.len() ==> (#[trigger] entries[k].owner) != e2.owner);
    lemma_entry_at(ext, entries.len() as int);
    assert forall|a: Address| a != e2.owner implies tickets_of(ext, a) == tickets_of(
        entries,
        a,
    ) by {
        if has_entry(entries, a) {
            let j = entry_index(entries, a);
            assert(0 <= j < entries.len() && entries[j].owner == a);
            lemma_entry_at(entries, j);
            lemma_entry_at(ext, j);
            assert(ext[j] == entries[j]);
        } else {
            if has_entry(ext, a) {
                let k = entry_index(ext, a);
                assert(0 <= k < ext.len() && ext[k].owner == a);
                assert(k == entries.len() as int);
            }
        }
    }
}

/// What `remove_id` keeps: exactly the ids of the input sequence other than
/// the removed one.
proof fn lemma_remove_id_membership(ids: Seq<u32>, id: u32)
    ensures
        forall|x: u32| #[trigger]
            remove_id(ids, id).contains(x) <==> (ids.contains(x) && x != id),
    decreases ids.len(),
{
    let pred = |y: u32| y != id;
    reveal_with_fuel(Seq::<_>::filter, 2);
    if ids.len() == 0 {
        assert(ids.filter(pred) =~= Seq::<u32>::empty());
        assert forall|x: u32| !(#[trigger] remove_id(ids, id).contains(x)) by {}
        assert forall|x: u32| !ids.contains(x) by {}
    } else {
        let prefix = ids.drop_last();
        let last = ids.last();
        lemma_remove_id_membership(prefix, id);
        assert(ids =~= prefix.push(last));
        assert(ids.filter(pred) == if pred(last) {
            prefix.filter(pred).push(last)
        } else {
            prefix.filter(pred)
        });
        assert forall|x: u32| #[trigger]
            remove_id(ids, id).contains(x) <==> (ids.contains(x) && x != id) by {
            assert(remove_id(prefix, id).contains(x) <==> (prefix.contains(x) && x != id));
            if !pred(last) {
                assert(remove_id(ids, id) == remove_id(prefix, id));
            }
            assert(ids.contains(x) <==> (prefix.contains(x) || last == x)) by {
                if ids.contains(x) {
                    let w = choose|w: int| 0 <= w < ids.len() && ids[w] == x;
                    if w < ids.len() - 1 {
                        assert(prefix[w] == x);
                    }
                }
                if prefix.contains(x) {
                    let w = choose|w: int| 0 <= w < prefix.len() && prefix[w] == x;
                    assert(ids[w] == x);
                }
                if last == x {
                    assert(ids[ids.len() - 1] == x);
                }
            }
            if pred(last) {
                assert(remove_id(ids, id).contains(x) <==> (remove_id(prefix, id).contains(x)
                    || last == x)) by {
                    let fp = remove_id(prefix, id);
                    if fp.push(last).contains(x) {
                        let w = choose|w: int| 0 <= w < fp.push(last).len() && fp.push(last)[w] == x;
                        if w < fp.len() {
                            assert(fp[w] == x);
                        }
                    }
                    if fp.contains(x) {
                        let w = choose|w: int| 0 <= w < fp.len() && fp[w] == x;
                        assert(fp.push(last)[w] == x);
                    }
                    if last == x {
                        assert(fp.push(last)[fp.len() as int] == x);
                    }
                }
            }
        }
    }
}

/// Removing an id from a duplicate-free sequence leaves it duplicate-free
/// and without the removed id.
proof fn lemma_remove_id_no_dup(ids: Seq<u32>, id: u32)
    requires
        no_dup(ids),
    ensures
        no_dup(remove_id(ids, id)),
        !remove_id(ids, id).contains(id),
    decreases ids.len(),
{
    lemma_remove_id_membership(ids, id);
    let pred = |y: u32| y != id;
    reveal_with_fuel(Seq::<_>::filter, 2);
    if ids.len() == 0 {
        assert(ids.filter(pred) =~= Seq::<u32>::empty());
    } else {
        let prefix = ids.drop_last();
        let last = ids.last();
        assert(no_dup(prefix)) by {
            assert(forall|p: int| 0 <= p < prefix.len() ==> prefix[p] == ids[p]);
        }
        lemma_remove_id_no_dup(prefix, id);
        assert(ids =~= prefix.push(last));
        assert(ids.filter(pred) == if pred(last) {
            prefix.filter(pred).push(last)
        } else {
            prefix.filter(pred)
        });
        if pred(last) {
            let fp = remove_id(prefix, id);
            assert(!fp.contains(last)) by {
                lemma_remove_id_membership(prefix, id);
                if fp.contains(last) {
                    assert(prefix.contains(last));
                    let w = choose|w: int| 0 <= w < prefix.len() && prefix[w] == last;
                    assert(ids[w] == ids[ids.len() - 1]);
                }
            }
            assert(no_dup(fp.push(last))) by {
                assert(forall|p: int|
                    0 <= p < fp.len() ==> (#[trigger] fp.push(last)[p]) == fp[p]);
                assert(forall|p: int| 0 <= p < fp.len() ==> fp[p] != last) by {
                    assert(forall|p: int| 0 <= p < fp.len() ==> fp.contains(#[trigger] fp[p]));
                }
                assert(fp.push(last)[fp.len() as int] == last);
            }
        }
    }
}

/// The ticketing ledger: the three tables and the two id counters.
///
/// Events and tickets are arenas: ids are assigned sequentially from 0 and
/// never reused, so the record with id `i` sits at position `i` of its table.
/// The ownership index is denormalized and maintained by hand; `wf` states
/// the consistency every operation preserves.
pub struct EventTicketingContract {
    pub events: Vec<Event>,
    pub tickets: Vec<Ticket>,
    pub user_tickets: Vec<UserEntry>,
    pub next_event_id: u32,
    pub next_ticket_id: u32,
}

impl EventTicketingContract {
    /// Every stored event sits at the position equal to its id, none has
    /// oversold its supply, and the event counter points just past the table.
    pub open spec fn events_ok(self) -> bool {
        &&& self.next_event_id == self.events@.len()
        &&& forall|i: int| 0 <= i < self.events@.len() ==> (#[trigger] self.events@[i]).id == i
        &&& forall|i: int|
            0 <= i < self.events@.len() ==> (#[trigger] self.events@[i]).sold
                <= self.events@[i].total_tickets
    }

    /// Every stored ticket sits at the position equal to its id and
    /// references an existing event, and the ticket counter points just past
    /// the table.
    pub open spec fn tickets_ok(self) -> bool {
        &&& self.next_ticket_id == self.tickets@.len()
        &&& forall|i: int| 0 <= i < self.tickets@.len() ==> (#[trigger] self.tickets@[i]).id == i
        &&& forall|i: int|
            0 <= i < self.tickets@.len() ==> (#[trigger] self.tickets@[i]).event_id
                < self.events@.len()
    }

    /// The ownership index agrees with ticket ownership: each address has at
    /// most one row; a row lists, without duplicates, only tickets its owner
    /// currently holds; and every ticket is listed in its owner's row.
    pub open spec fn index_ok(self) -> bool {
        &&& owners_unique(self.user_tickets@)
        &&& forall|i: int|
            0 <= i < self.user_tickets@.len() ==> no_dup((#[trigger] self.user_tickets@[i]).ids@)
        &&& forall|i: int, k: int|
            0 <= i < self.user_tickets@.len() && 0 <= k < self.user_tickets@[i].ids@.len()
                ==> (#[trigger] self.user_tickets@[i].ids@[k]) < self.tickets@.len()
                && self.tickets@[self.user_tickets@[i].ids@[k] as int].owner
                == self.user_tickets@[i].owner
        &&& forall|t: int|
            0 <= t < self.tickets@.len() ==> tickets_of(
                self.user_tickets@,
                (#[trigger] self.tickets@[t]).owner,
            ).contains(t as u32)
    }

    /// The ledger's well-formedness: established by `new` and preserved by
    /// every operation.
    pub open spec fn wf(self) -> bool {
        self.events_ok() && self.tickets_ok() && self.index_ok()
    }

    /// No event, ticket or index row has been recorded and both counters are
    /// at their starting value.
    pub open spec fn is_fresh(self) -> bool {
        &&& self.events@.len() == 0
        &&& self.tickets@.len() == 0
        &&& self.user_tickets@.len() == 0
        &&& self.next_event_id == 0
        &&& self.next_ticket_id == 0
    }

    /// A fresh, empty ledger.
    pub fn new() -> (r: EventTicketingContract)
        ensures
            r.wf(),
            r.is_fresh(),
    {
        EventTicketingContract {
            events: Vec::new(),
            tickets: Vec::new(),
            user_tickets: Vec::new(),
            next_event_id: 0,
            next_ticket_id: 0,
        }
    }

    /// Resets both id counters to 0.
    ///
    /// Administrative precondition: this runs exactly once, on a ledger that
    /// holds no records yet. Resetting the counters of a populated ledger
    /// would let ids be reissued and orphan existing records, so that state
    /// is excluded here rather than guarded against at run time.
    pub fn initialize(&mut self)
        requires
            old(self).events@.len() == 0,
            old(self).tickets@.len() == 0,
            old(self).user_tickets@.len() == 0,
        ensures
            final(self).wf(),
            final(self).is_fresh(),
            final(self).events@ == old(self).events@,
            final(self).tickets@ == old(self).tickets@,
            final(self).user_tickets@ == old(self).user_tickets@,
    {
        self.next_event_id = 0;
        self.next_ticket_id = 0;
    }

    /// The position of `user`'s row in the ownership index, if it has one.
    fn find_entry(&self, user: Address) -> (r: Option<usize>)
        ensures
            match r {
                Some(i) => i < self.user_tickets@.len() && self.user_tickets@[i as int].owner
                    == user,
                None => !has_entry(self.user_tickets@, user),
            },
    {
        let mut i: usize = 0;
        while i < self.user_tickets.len()
            invariant
                i <= self.user_tickets@.len(),
                forall|j: int| 0 <= j < i ==> (#[trigger] self.user_tickets@[j].owner) != user,
            decreases self.user_tickets@.len() - i,
        {
            if self.user_tickets[i].owner == user {
                return Some(i);
            }
            i += 1;
        }
        None
    }

    /// Allocates the next event id, records the event with nothing sold yet,
    /// and steps the event counter. The event's fields are taken as given:
    /// a past date, a zero supply or a negative price are permitted here and
    /// constrained at purchase time instead. `auth` is the authorization
    /// collaborator's verdict on the organizer's consent, supplied by the
    /// host; a denial is the only failure, and then nothing changes.
    pub fn create_event(
        &mut self,
        auth: bool,
        organizer: Address,
        name: String,
        description: String,
        date: u64,
        total_tickets: u32,
        price: i128,
    ) -> (r: Result<u32, LedgerError>)
        requires
            old(self).wf(),
            old(self).next_event_id < u32::MAX,
        ensures
            final(self).wf(),
            final(self).next_event_id >= old(self).next_event_id,
            final(self).next_ticket_id == old(self).next_ticket_id,
            r is Ok <==> auth,
            match r {
                Ok(id) => {
                    &&& event_id_issued(*old(self), *final(self), id)
                    &&& final(self).events@.len() == old(self).events@.len() + 1
                    &&& forall|j: int|
                        0 <= j < old(self).events@.len() ==> final(self).events@[j] == old(
                            self,
                        ).events@[j]
                    &&& final(self).events@.last() == (Event {
                        id,
                        name,
                        description,
                        date,
                        total_tickets,
                        price,
                        organizer,
                        sold: 0,
                    })
                    &&& final(self).tickets@ == old(self).tickets@
                    &&& final(self).user_tickets@ == old(self).user_tickets@
                },
                Err(e) => {
                    &&& e == LedgerError::NotAuthorized
                    &&& !auth
                    &&& *final(self) == *old(self)
                },
            },
    {
        if !auth {
            return Err(LedgerError::NotAuthorized);
        }
        let id = self.next_event_id;
        let event = Event { id, name, description, date, total_tickets, price, organizer, sold: 0 };
        self.events.push(event);
        self.next_event_id = id + 1;
        Ok(id)
    }

    /// Looks an event up by id; fails with `NotFound` exactly when the id
    /// was never allocated.
    pub fn get_event(&self, event_id: u32) -> (r: Result<Event, LedgerError>)
        ensures
            r is Ok <==> (event_id as int) < self.events@.len(),
            match r {
                Ok(ev) => ev == self.events@[event_id as int],
                Err(e) => e == LedgerError::NotFound,
            },
    {
        if (event_id as usize) < self.events.len() {
            Ok(self.events[event_id as usize].clone())
        } else {
            Err(LedgerError::NotFound)
        }
    }

    /// Every recorded event, in ascending id order.
    pub fn get_all_events(&self) -> (r: Vec<Event>)
        requires
            self.wf(),
        ensures
            r@ == self.events@,
    {
        let mut out: Vec<Event> = Vec::new();
        let mut i: usize = 0;
        let end = self.next_event_id as usize;
        while i < end
            invariant
                self.wf(),
                end == self.events@.len(),
                i <= end,
                out@ =~= self.events@.subrange(0, i as int),
            decreases end - i,
        {
            out.push(self.events[i].clone());
            i += 1;
        }
        proof {
            assert(out@ =~= self.events@);
        }
        out
    }

    /// Appends `tid` to `user`'s row of the ownership index, creating the
    /// row if the user has none. Touches nothing but the index.
    fn append_user_ticket(&mut self, user: Address, tid: u32)
        requires
            owners_unique(old(self).user_tickets@),
        ensures
            final(self).events == old(self).events,
            final(self).tickets == old(self).tickets,
            final(self).next_event_id == old(self).next_event_id,
            final(self).next_ticket_id == old(self).next_ticket_id,
            owners_unique(final(self).user_tickets@),
            tickets_of(final(self).user_tickets@, user) == tickets_of(
                old(self).user_tickets@,
                user,
            ).push(tid),
            forall|a: Address|
                a != user ==> tickets_of(final(self).user_tickets@, a) == tickets_of(
                    old(self).user_tickets@,
                    a,
                ),
            if has_entry(old(self).user_tickets@, user) {
                &&& final(self).user_tickets@.len() == old(self).user_tickets@.len()
                &&& forall|k: int|
                    0 <= k < old(self).user_tickets@.len() && k != entry_index(
                        old(self).user_tickets@,
                        user,
                    ) ==> final(self).user_tickets@[k] == old(self).user_tickets@[k]
                &&& final(self).user_tickets@[entry_index(old(self).user_tickets@, user)].owner
                    == user
                &&& final(self).user_tickets@[entry_index(old(self).user_tickets@, user)].ids@
                    == old(self).user_tickets@[entry_index(old(self).user_tickets@, user)].ids@.push(
                    tid,
                )
            } else {
                &&& final(self).user_tickets@.len() == old(self).user_tickets@.len() + 1
                &&& forall|k: int|
                    0 <= k < old(self).user_tickets@.len() ==> final(self).user_tickets@[k] == old(
                        self,
                    ).user_tickets@[k]
                &&& final(self).user_tickets@.last().owner == user
                &&& final(self).user_tickets@.last().ids@ == seq![tid]
            },
    {
        match self.find_entry(user) {
            Some(i) => {
                proof {
                    lemma_entry_at(self.user_tickets@, i as int);
                }
                let ghost old_entries = self.user_tickets@;
                self.user_tickets[i].ids.push(tid);
                proof {
                    lemma_tickets_of_update(old_entries, i as int, self.user_tickets@[i as int]);
                }
            },
            None => {
                let mut ids: Vec<u32> = Vec::new();
                ids.push(tid);
                let entry = UserEntry { owner: user, ids };
                let ghost ge = entry;
                let ghost old_entries = self.user_tickets@;
                self.user_tickets.push(entry);
                proof {
                    lemma_tickets_of_push(old_entries, ge);
                    assert(tickets_of(old_entries, user) =~= Seq::<u32>::empty());
                    assert(ge.ids@ =~= Seq::<u32>::empty().push(tid));
                    assert(ge.ids@ =~= seq![tid]);
                }
            },
        }
    }

    /// The central transaction: sells one ticket of `event_id` to `buyer`.
    /// `auth` is the authorization collaborator's verdict on the buyer's
    /// consent and `now` is the trusted clock's reading, both supplied by
    /// the host.
    ///
    /// Every validation runs before the first mutation, so a failed purchase
    /// leaves every table unchanged. On success the ticket is issued under
    /// the next global ticket id, recorded under its id, appended to the
    /// buyer's row of the ownership index, and counted against the event's
    /// supply. No payment is taken: the price is recorded at creation and
    /// deliberately never transferred.
    pub fn purchase_ticket(&mut self, auth: bool, buyer: Address, event_id: u32, now: u64) -> (r:
        Result<u32, LedgerError>)
        requires
            old(self).wf(),
            old(self).next_ticket_id < u32::MAX,
        ensures
            final(self).wf(),
            final(self).next_event_id == old(self).next_event_id,
            final(self).next_ticket_id >= old(self).next_ticket_id,
            r is Ok <==> (auth && (event_id as int) < old(self).events@.len() && old(
                self,
            ).events@[event_id as int].sold < old(self).events@[event_id as int].total_tickets
                && now <= old(self).events@[event_id as int].date),
            match r {
                Ok(tid) => {
                    &&& ticket_id_issued(*old(self), *final(self), tid)
                    &&& final(self).tickets@ == old(self).tickets@.push(
                        (Ticket { id: tid, event_id, owner: buyer, purchased_at: now }),
                    )
                    &&& final(self).events@ == old(self).events@.update(
                        event_id as int,
                        sold_incremented(old(self).events@[event_id as int]),
                    )
                    &&& tickets_of(final(self).user_tickets@, buyer) == tickets_of(
                        old(self).user_tickets@,
                        buyer,
                    ).push(tid)
                    &&& forall|a: Address|
                        a != buyer ==> tickets_of(final(self).user_tickets@, a) == tickets_of(
                            old(self).user_tickets@,
                            a,
                        )
                },
                Err(e) => {
                    &&& *final(self) == *old(self)
                    &&& (e == LedgerError::NotAuthorized <==> !auth)
                    &&& (e == LedgerError::NotFound <==> (auth && old(self).events@.len()
                        <= event_id as int))
                    &&& (e == LedgerError::SoldOut <==> (auth && (event_id as int) < old(
                        self,
                    ).events@.len() && old(self).events@[event_id as int].sold >= old(
                        self,
                    ).events@[event_id as int].total_tickets))
                    &&& (e == LedgerError::EventExpired <==> (auth && (event_id as int) < old(
                        self,
                    ).events@.len() && old(self).events@[event_id as int].sold < old(
                        self,
                    ).events@[event_id as int].total_tickets && now > old(
                        self,
                    ).events@[event_id as int].date))
                },
            },
    {
        if !auth {
            return Err(LedgerError::NotAuthorized);
        }
        if (event_id as usize) >= self.events.len() {
            return Err(LedgerError::NotFound);
        }
        let idx = event_id as usize;
        if self.events[idx].sold >= self.events[idx].total_tickets {
            return Err(LedgerError::SoldOut);
        }
        if now > self.events[idx].date {
            return Err(LedgerError::EventExpired);
        }
        let ghost pre = *self;
        let tid = self.next_ticket_id;
        let ticket = Ticket { id: tid, event_id, owner: buyer, purchased_at: now };
        self.tickets.push(ticket);
        self.append_user_ticket(buyer, tid);
        let new_sold = self.events[idx].sold + 1;
        self.events[idx].sold = new_sold;
        self.next_ticket_id = tid + 1;
        proof {
            lemma_purchase_preserves_index(pre, *self, buyer, tid, event_id, now);
        }
        Ok(tid)
    }

    /// Looks a ticket up by id; fails with `NotFound` exactly when the id
    /// was never issued.
    pub fn get_ticket(&self, ticket_id: u32) -> (r: Result<Ticket, LedgerError>)
        ensures
            r is Ok <==> (ticket_id as int) < self.tickets@.len(),
            match r {
                Ok(t) => t == self.tickets@[ticket_id as int],
                Err(e) => e == LedgerError::NotFound,
            },
    {
        if (ticket_id as usize) < self.tickets.len() {
            Ok(self.tickets[ticket_id as usize])
        } else {
            Err(LedgerError::NotFound)
        }
    }

    /// The ticket ids `user` currently owns, in the order they were
    /// received. A user without a row gets the empty sequence.
    pub fn get_user_tickets(&self, user: Address) -> (r: Vec<u32>)
        requires
            owners_unique(self.user_tickets@),
        ensures
            r@ == tickets_of(self.user_tickets@, user),
    {
        match self.find_entry(user) {
            Some(i) => {
                proof {
                    lemma_entry_at(self.user_tickets@, i as int);
                }
                copy_ids(&self.user_tickets[i].ids)
            },
            None => Vec::new(),
        }
    }

    /// Moves a ticket from its current owner `from` to `to`: the ticket's
    /// owner is rewritten, the id is removed from `from`'s row of the
    /// ownership index (the order of the remaining ids preserved) and
    /// appended to `to`'s row. `auth` is the authorization collaborator's
    /// verdict on `from`'s consent, supplied by the host.
    ///
    /// Every validation runs before the first mutation, so a failed transfer
    /// leaves every table unchanged. A transfer to oneself is not
    /// special-cased: the id is removed and re-appended, so it moves to the
    /// end of the owner's row.
    pub fn transfer_ticket(&mut self, auth: bool, from: Address, to: Address, ticket_id: u32) -> (r:
        Result<(), LedgerError>)
        requires
            old(self).wf(),
        ensures
            final(self).wf(),
            final(self).next_event_id == old(self).next_event_id,
            final(self).next_ticket_id == old(self).next_ticket_id,
            r is Ok <==> (auth && (ticket_id as int) < old(self).tickets@.len() && old(
                self,
            ).tickets@[ticket_id as int].owner == from),
            match r {
                Ok(u) => {
                    &&& final(self).tickets@ == old(self).tickets@.update(
                        ticket_id as int,
                        (Ticket { owner: to, ..old(self).tickets@[ticket_id as int] }),
                    )
                    &&& final(self).events@ == old(self).events@
                    &&& (from != to ==> tickets_of(final(self).user_tickets@, from) == remove_id(
                        tickets_of(old(self).user_tickets@, from),
                        ticket_id,
                    ))
                    &&& (from != to ==> tickets_of(final(self).user_tickets@, to) == tickets_of(
                        old(self).user_tickets@,
                        to,
                    ).push(ticket_id))
                    &&& (from == to ==> tickets_of(final(self).user_tickets@, to) == remove_id(
                        tickets_of(old(self).user_tickets@, to),
                        ticket_id,
                    ).push(ticket_id))
                    &&& forall|a: Address|
                        a != from && a != to ==> tickets_of(final(self).user_tickets@, a)
                            == tickets_of(old(self).user_tickets@, a)
                },
                Err(e) => {
                    &&& *final(self) == *old(self)
                    &&& (e == LedgerError::NotAuthorized <==> (!auth || ((ticket_id as int) < old(
                        self,
                    ).tickets@.len() && old(self).tickets@[ticket_id as int].owner != from)))
                    &&& (e == LedgerError::NotFound <==> (auth && old(self).tickets@.len()
                        <= ticket_id as int))
                },
            },
    {
        if !auth {
            return Err(LedgerError::NotAuthorized);
        }
        if (ticket_id as usize) >= self.tickets.len() {
            return Err(LedgerError::NotFound);
        }
        let t_idx = ticket_id as usize;
        if !(self.tickets[t_idx].owner == from) {
            return Err(LedgerError::NotAuthorized);
        }
        let ghost pre = *self;
        self.tickets[t_idx].owner = to;
        match self.find_entry(from) {
            Some(i) => {
                proof {
                    lemma_entry_at(self.user_tickets@, i as int);
                }
                let ghost before = self.user_tickets@;
                let filtered = remove_ticket_id(&self.user_tickets[i].ids, ticket_id);
                self.user_tickets[i].ids = filtered;
                proof {
                    lemma_tickets_of_update(before, i as int, self.user_tickets@[i as int]);
                }
            },
            None => {
                proof {
                    // unreachable: well-formedness lists every ticket in its
                    // owner's row, so the checked owner has a row
                    assert(tickets_of(pre.user_tickets@, from).contains(ticket_id));
                    assert(false);
                }
            },
        }
        let ghost mid = self.user_tickets@;
        self.append_user_ticket(to, ticket_id);
        proof {
            lemma_transfer_preserves_index(pre, *self, mid, from, to, ticket_id);
        }
        Ok(())
    }

    /// True exactly when the ticket exists and `owner` currently holds it; a
    /// never-issued id gives `false`, never an error.
    pub fn verify_ticket(&self, ticket_id: u32, owner: Address) -> (r: bool)
        ensures
            r == ((ticket_id as int) < self.tickets@.len() && self.tickets@[ticket_id as int].owner
                == owner),
    {
        if (ticket_id as usize) < self.tickets.len() {
            self.tickets[ticket_id as usize].owner == owner
        } else {
            false
        }
    }

    /// The sold and total counts of an event; fails with `NotFound` exactly
    /// as `get_event` does.
    pub fn get_event_stats(&self, event_id: u32) -> (r: Result<(u32, u32), LedgerError>)
        ensures
            r is Ok <==> (event_id as int) < self.events@.len(),
            match r {
                Ok(st) => st.0 == self.events@[event_id as int].sold && st.1
                    == self.events@[event_id as int].total_tickets,
                Err(e) => e == LedgerError::NotFound,
            },
    {
        match self.get_event(event_id) {
            Ok(ev) => Ok((ev.sold, ev.total_tickets)),
            Err(e) => Err(e),
        }
    }
}

/// A successful purchase preserves the ledger's well-formedness: the new
/// ticket is recorded under the next id, listed once in the buyer's row, and
/// counted against an event that had supply left.
proof fn lemma_purchase_preserves_index(
    pre: EventTicketingContract,
    post: EventTicketingContract,
    buyer: Address,
    tid: u32,
    event_id: u32,
    now: u64,
)
    requires
        pre.wf(),
        (event_id as int) < pre.events@.len(),
        pre.events@[event_id as int].sold < pre.events@[event_id as int].total_tickets,
        tid == pre.tickets@.len(),
        tid < u32::MAX,
        post.next_event_id == pre.next_event_id,
        post.next_ticket_id == tid + 1,
        post.events@ == pre.events@.update(
            event_id as int,
            sold_incremented(pre.events@[event_id as int]),
        ),
        post.tickets@ == pre.tickets@.push(
            (Ticket { id: tid, event_id, owner: buyer, purchased_at: now }),
        ),
        owners_unique(post.user_tickets@),
        tickets_of(post.user_tickets@, buyer) == tickets_of(pre.user_tickets@, buyer).push(tid),
        forall|a: Address|
            a != buyer ==> tickets_of(post.user_tickets@, a) == tickets_of(
                pre.user_tickets@,
                a,
            ),
        if has_entry(pre.user_tickets@, buyer) {
            &&& post.user_tickets@.len() == pre.user_tickets@.len()
            &&& forall|k: int|
                0 <= k < pre.user_tickets@.len() && k != entry_index(pre.user_tickets@, buyer)
                    ==> post.user_tickets@[k] == pre.user_tickets@[k]
            &&& post.user_tickets@[entry_index(pre.user_tickets@, buyer)].owner == buyer
            &&& post.user_tickets@[entry_index(pre.user_tickets@, buyer)].ids@
                == pre.user_tickets@[entry_index(pre.user_tickets@, buyer)].ids@.push(tid)
        } else {
            &&& post.user_tickets@.len() == pre.user_tickets@.len() + 1
            &&& forall|k: int|
                0 <= k < pre.user_tickets@.len() ==> post.user_tickets@[k]
                    == pre.user_tickets@[k]
            &&& post.user_tickets@.last().owner == buyer
            &&& post.user_tickets@.last().ids@ == seq![tid]
        },
    ensures
        post.wf(),
{
    let put = pre.user_tickets@;
    let qut = post.user_tickets@;
    let e = event_id as int;
    let ghost bi: int = if has_entry(put, buyer) {
        entry_index(put, buyer)
    } else {
        put.len() as int
    };
    if has_entry(put, buyer) {
        assert(0 <= bi < put.len() && put[bi].owner == buyer);
    }
    assert(post.events_ok()) by {
        assert forall|i: int| 0 <= i < post.events@.len() implies (#[trigger] post.events@[i]).id
            == i && post.events@[i].sold <= post.events@[i].total_tickets by {
            if i != e {
                assert(post.events@[i] == pre.events@[i]);
            }
        }
    }
    assert(post.tickets_ok()) by {
        assert forall|i: int| 0 <= i < post.tickets@.len() implies (#[trigger] post.tickets@[i]).id
            == i && post.tickets@[i].event_id < post.events@.len() by {
            if i < pre.tickets@.len() {
                assert(post.tickets@[i] == pre.tickets@[i]);
            }
        }
    }
    // every row of the new index is duplicate-free
    assert forall|i: int| 0 <= i < qut.len() implies no_dup((#[trigger] qut[i]).ids@) by {
        if i == bi {
            let old_ids = if has_entry(put, buyer) {
                put[bi].ids@
            } else {
                Seq::<u32>::empty()
            };
            assert(qut[i].ids@ =~= old_ids.push(tid));
            assert(no_dup(old_ids));
            assert forall|p: int, q: int|
                0 <= p < old_ids.push(tid).len() && 0 <= q < old_ids.push(tid).len() && p
                    != q implies (#[trigger] old_ids.push(tid)[p]) != (#[trigger] old_ids.push(
                tid,
            )[q]) by {
                if p < old_ids.len() && q < old_ids.len() {
                    assert(old_ids.push(tid)[p] == old_ids[p]);
                    assert(old_ids.push(tid)[q] == old_ids[q]);
                } else if q == old_ids.len() {
                    assert(old_ids[p] < pre.tickets@.len());
                } else {
                    assert(old_ids[q] < pre.tickets@.len());
                }
            }
        } else {
            assert(qut[i] == put[i]);
        }
    }
    // every listed id is a ticket its row's owner currently holds
    assert forall|i: int, k: int|
        0 <= i < qut.len() && 0 <= k < qut[i].ids@.len() implies (#[trigger] qut[i].ids@[k])
            < post.tickets@.len() && post.tickets@[qut[i].ids@[k] as int].owner
            == qut[i].owner by {
        let v = qut[i].ids@[k];
        if i == bi && has_entry(put, buyer) {
            if k < put[bi].ids@.len() {
                assert(v == put[bi].ids@[k]);
                assert(v < pre.tickets@.len() && pre.tickets@[v as int].owner == put[bi].owner);
                assert(post.tickets@[v as int] == pre.tickets@[v as int]);
            } else {
                assert(v == tid);
                assert(post.tickets@[tid as int].owner == buyer);
            }
        } else if i == bi {
            assert(qut[i].ids@ == seq![tid]);
            assert(v == tid);
            assert(post.tickets@[tid as int].owner == buyer);
        } else {
            assert(qut[i] == put[i]);
            assert(v < pre.tickets@.len() && pre.tickets@[v as int].owner == put[i].owner);
            assert(post.tickets@[v as int] == pre.tickets@[v as int]);
        }
    }
    // every ticket is listed in its owner's row
    assert forall|t: int| 0 <= t < post.tickets@.len() implies tickets_of(
        qut,
        (#[trigger] post.tickets@[t]).owner,
    ).contains(t as u32) by {
        if t < pre.tickets@.len() {
            assert(post.tickets@[t] == pre.tickets@[t]);
            let a = pre.tickets@[t].owner;
            assert(tickets_of(put, a).contains(t as u32));
            if a == buyer {
                let s = tickets_of(put, buyer);
                let w = choose|w: int| 0 <= w < s.len() && s[w] == t as u32;
                assert(tickets_of(qut, buyer)[w] == t as u32);
            }
        } else {
            assert(post.tickets@[t].owner == buyer);
            let s = tickets_of(put, buyer);
            assert(tickets_of(qut, buyer)[s.len() as int] == tid);
        }
    }
}

/// A successful transfer preserves the ledger's well-formedness: the ticket
/// changes owner, leaves the old owner's row, and enters the new owner's
/// row, with every other row and ticket untouched. `mid` is the index as it
/// stood after the removal and before the append.
proof fn lemma_transfer_preserves_index(
    pre: EventTicketingContract,
    post: EventTicketingContract,
    mid: Seq<UserEntry>,
    from: Address,
    to: Address,
    ticket_id: u32,
)
    requires
        pre.wf(),
        (ticket_id as int) < pre.tickets@.len(),
        pre.tickets@[ticket_id as int].owner == from,
        post.events@ == pre.events@,
        post.next_event_id == pre.next_event_id,
        post.next_ticket_id == pre.next_ticket_id,
        post.tickets@ == pre.tickets@.update(
            ticket_id as int,
            (Ticket { owner: to, ..pre.tickets@[ticket_id as int] }),
        ),
        mid.len() == pre.user_tickets@.len(),
        forall|k: int|
            0 <= k < mid.len() && k != entry_index(pre.user_tickets@, from) ==> mid[k]
                == pre.user_tickets@[k],
        mid[entry_index(pre.user_tickets@, from)].owner == from,
        mid[entry_index(pre.user_tickets@, from)].ids@ == remove_id(
            pre.user_tickets@[entry_index(pre.user_tickets@, from)].ids@,
            ticket_id,
        ),
        owners_unique(post.user_tickets@),
        if has_entry(mid, to) {
            &&& post.user_tickets@.len() == mid.len()
            &&& forall|k: int|
                0 <= k < mid.len() && k != entry_index(mid, to) ==> post.user_tickets@[k] == mid[k]
            &&& post.user_tickets@[entry_index(mid, to)].owner == to
            &&& post.user_tickets@[entry_index(mid, to)].ids@ == mid[entry_index(mid, to)].ids@.push(
                ticket_id,
            )
        } else {
            &&& post.user_tickets@.len() == mid.len() + 1
            &&& forall|k: int| 0 <= k < mid.len() ==> post.user_tickets@[k] == mid[k]
            &&& post.user_tickets@.last().owner == to
            &&& post.user_tickets@.last().ids@ == seq![ticket_id]
        },
    ensures
        post.wf(),
{
    let put = pre.user_tickets@;
    let qut = post.user_tickets@;
    let tix = ticket_id as int;
    // the old owner's row exists and is the one the removal rewrote
    assert(tickets_of(put, from).contains(ticket_id));
    assert(has_entry(put, from));
    let fi = entry_index(put, from);
    assert(0 <= fi < put.len() && put[fi].owner == from);
    lemma_entry_at(put, fi);
    let old_from_ids = put[fi].ids@;
    lemma_remove_id_membership(old_from_ids, ticket_id);
    lemma_remove_id_no_dup(old_from_ids, ticket_id);
    // the row the append rewrote or created
    let toi: int = if has_entry(mid, to) {
        entry_index(mid, to)
    } else {
        mid.len() as int
    };
    if has_entry(mid, to) {
        assert(0 <= toi < mid.len() && mid[toi].owner == to);
    }
    let base: Seq<u32> = if has_entry(mid, to) {
        mid[toi].ids@
    } else {
        Seq::<u32>::empty()
    };
    assert(qut[toi].owner == to && qut[toi].ids@ =~= base.push(ticket_id));
    // no ticket id is listed outside its owner's row
    assert forall|i: int, k: int|
        0 <= i < put.len() && 0 <= k < put[i].ids@.len() && i != fi implies (
        #[trigger] put[i].ids@[k]) != ticket_id by {
        if put[i].ids@[k] == ticket_id {
            assert(pre.tickets@[tix].owner == put[i].owner);
        }
    }
    // what the base of the new owner's row was, and that it lacks ticket_id
    assert(no_dup(base) && !base.contains(ticket_id)) by {
        if has_entry(mid, to) {
            if toi == fi {
                assert(base == remove_id(old_from_ids, ticket_id));
            } else {
                assert(mid[toi] == put[toi]);
                if base.contains(ticket_id) {
                    let k = choose|k: int| 0 <= k < base.len() && base[k] == ticket_id;
                    assert(put[toi].ids@[k] == ticket_id);
                }
            }
        }
    }
    assert(post.events_ok()) by {
        assert(forall|i: int|
            0 <= i < post.events@.len() ==> post.events@[i] == pre.events@[i]);
    }
    assert(post.tickets_ok()) by {
        assert forall|i: int| 0 <= i < post.tickets@.len() implies (#[trigger] post.tickets@[i]).id
            == i && post.tickets@[i].event_id < post.events@.len() by {
            if i != tix {
                assert(post.tickets@[i] == pre.tickets@[i]);
            }
        }
    }
    // every row of the new index is duplicate-free
    assert forall|i: int| 0 <= i < qut.len() implies no_dup((#[trigger] qut[i]).ids@) by {
        if i == toi {
            assert forall|p: int, q: int|
                0 <= p < qut[i].ids@.len() && 0 <= q < qut[i].ids@.len() && p != q implies (
            #[trigger] qut[i].ids@[p]) != (#[trigger] qut[i].ids@[q]) by {
                if p < base.len() && q < base.len() {
                    assert(qut[i].ids@[p] == base[p] && qut[i].ids@[q] == base[q]);
                } else if q == base.len() {
                    assert(qut[i].ids@[p] == base[p]);
                    assert(base.contains(base[p]));
                } else {
                    assert(qut[i].ids@[q] == base[q]);
                    assert(base.contains(base[q]));
                }
            }
        } else if i == fi {
            assert(qut[i].ids@ == remove_id(old_from_ids, ticket_id));
        } else {
            assert(qut[i] == mid[i]);
            assert(mid[i] == put[i]);
        }
    }
    // every listed id is a ticket its row's owner currently holds
    assert forall|i: int, k: int|
        0 <= i < qut.len() && 0 <= k < qut[i].ids@.len() implies (#[trigger] qut[i].ids@[k])
            < post.tickets@.len() && post.tickets@[qut[i].ids@[k] as int].owner
            == qut[i].owner by {
        let v = qut[i].ids@[k];
        if i == toi && k == base.len() {
            assert(v == ticket_id);
            assert(post.tickets@[tix].owner == to);
        } else if i == toi {
            assert(v == base[k]);
            assert(base.contains(v));
            assert(v != ticket_id);
            if has_entry(mid, to) {
                if toi == fi {
                    assert(old_from_ids.contains(v));
                    let w = choose|w: int| 0 <= w < old_from_ids.len() && old_from_ids[w] == v;
                    assert(pre.tickets@[v as int].owner == put[fi].owner);
                    assert(post.tickets@[v as int] == pre.tickets@[v as int]);
                } else {
                    assert(put[toi].ids@[k] == v);
                    assert(pre.tickets@[v as int].owner == put[toi].owner);
                    assert(post.tickets@[v as int] == pre.tickets@[v as int]);
                }
            }
        } else if i == fi {
            assert(qut[i].ids@ == remove_id(old_from_ids, ticket_id));
            assert(qut[i].ids@.contains(v)) by {
                assert(qut[i].ids@[k] == v);
            }
            assert(old_from_ids.contains(v) && v != ticket_id);
            let w = choose|w: int| 0 <= w < old_from_ids.len() && old_from_ids[w] == v;
            assert(pre.tickets@[v as int].owner == put[fi].owner);
            assert(post.tickets@[v as int] == pre.tickets@[v as int]);
            assert(qut[i].owner == from);
        } else {
            assert(qut[i] == mid[i]);
            assert(mid[i] == put[i]);
            assert(pre.tickets@[v as int].owner == put[i].owner);
            assert(v != ticket_id);
            assert(post.tickets@[v as int] == pre.tickets@[v as int]);
        }
    }
    // every ticket is listed in its owner's row
    assert forall|t: int| 0 <= t < post.tickets@.len() implies tickets_of(
        qut,
        (#[trigger] post.tickets@[t]).owner,
    ).contains(t as u32) by {
        lemma_entry_at(qut, toi);
        assert(tickets_of(qut, to) == base.push(ticket_id));
        if t == tix {
            assert(base.push(ticket_id)[base.len() as int] == ticket_id);
        } else {
            assert(post.tickets@[t] == pre.tickets@[t]);
            let a = pre.tickets@[t].owner;
            assert(tickets_of(put, a).contains(t as u32));
            let ai = entry_index(put, a);
            assert(has_entry(put, a));
            assert(0 <= ai < put.len() && put[ai].owner == a);
            lemma_entry_at(put, ai);
            let w = choose|w: int|
                0 <= w < put[ai].ids@.len() && put[ai].ids@[w] == t as u32;
            if ai == toi && has_entry(mid, to) && toi != fi {
                // an old ticket of the new owner: still in the row, before the push
                assert(base == put[toi].ids@);
                assert(base.push(ticket_id)[w] == t as u32);
                assert(tickets_of(qut, to).contains(t as u32));
            } else if ai == fi {
                // an old ticket of the old owner, other than the moved one
                assert(put[fi].ids@[w] == t as u32);
                assert(t as u32 != ticket_id);
                assert(old_from_ids.contains(t as u32));
                assert(remove_id(old_from_ids, ticket_id).contains(t as u32));
                if fi == toi {
                    assert(base == remove_id(old_from_ids, ticket_id));
                    let w2 = choose|w2: int| 0 <= w2 < base.len() && base[w2] == t as u32;
                    assert(base.push(ticket_id)[w2] == t as u32);
                    assert(tickets_of(qut, to).contains(t as u32));
                } else {
                    assert(qut[fi].ids@ == remove_id(old_from_ids, ticket_id));
                    lemma_entry_at(qut, fi);
                    assert(tickets_of(qut, from).contains(t as u32));
                }
            } else {
                // a ticket of an uninvolved owner
                assert(ai != fi && ai != toi);
                assert(qut[ai] == mid[ai]);
                assert(mid[ai] == put[ai]);
                lemma_entry_at(qut, ai);
                assert(tickets_of(qut, a) == put[ai].ids@);
            }
        }
    }
}

/// An element-for-element copy of a list of ticket ids.
fn copy_ids(ids: &Vec<u32>) -> (r: Vec<u32>)
    ensures
        r@ == ids@,
{
    let mut out: Vec<u32> = Vec::new();
    let mut i: usize = 0;
    while i < ids.len()
        invariant
            i <= ids@.len(),
            out@ =~= ids@.subrange(0, i as int),
        decreases ids@.len() - i,
    {
        out.push(ids[i]);
        i += 1;
    }
    proof {
        assert(out@ =~= ids@);
    }
    out
}

/// `ids` with every occurrence of `id` left out, the order of the remaining
/// ids preserved.
fn remove_ticket_id(ids: &Vec<u32>, id: u32) -> (r: Vec<u32>)
    ensures
        r@ == remove_id(ids@, id),
{
    let mut out: Vec<u32> = Vec::new();
    let mut i: usize = 0;
    while i < ids.len()
        invariant
            i <= ids@.len(),
            out@ == remove_id(ids@.subrange(0, i as int), id),
        decreases ids@.len() - i,
    {
        let v = ids[i];
        proof {
            let pred = |y: u32| y != id;
            reveal_with_fuel(Seq::<_>::filter, 2);
            let sub1 = ids@.subrange(0, (i + 1) as int);
            assert(sub1.drop_last() =~= ids@.subrange(0, i as int));
            assert(sub1.last() == ids@[i as int]);
            assert(sub1.filter(pred) == if pred(ids@[i as int]) {
                ids@.subrange(0, i as int).filter(pred).push(ids@[i as int])
            } else {
                ids@.subrange(0, i as int).filter(pred)
            });
        }
        if v != id {
            out.push(v);
        }
        i += 1;
    }
    proof {
        assert(ids@.subrange(0, ids@.len() as int) =~= ids@);
    }
    out
}

} // verus!
