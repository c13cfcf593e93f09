//! Requests for pieces that wait for an answer.
//!
//! A waiting task is known by a ticket. Whoever runs the tasks keeps for each ticket the
//! channel over which the piece is delivered.

use crate::types::cid::Cid;
use crate::types::piece::CodedPiece;
use crate::types::table;
use crate::types::table::KeyTable;
use vstd::prelude::*;

verus! {

/// One waiting task: its ticket, and the time in milliseconds when it began to wait.
#[derive(Clone, Copy, Debug, PartialEq, Eq, Structural)]
pub struct PendingEntry {
    pub ticket: u64,
    pub registered_at: u64,
}

/// Whether an entry is neither as old as `max_age` nor among the tickets given up.
pub open spec fn still_waits(e: PendingEntry, now: u64, max_age: u64, closed: Seq<u64>) -> bool {
    !(now >= e.registered_at && now - e.registered_at >= max_age) && !(now < e.registered_at
        && max_age == 0) && !closed.contains(e.ticket)
}

/// The entries that still wait, in their order.
pub open spec fn waiting_entries(
    row: Seq<PendingEntry>,
    now: u64,
    max_age: u64,
    closed: Seq<u64>,
) -> Seq<PendingEntry>
    decreases row.len(),
{
    if row.len() == 0 {
        row
    } else {
        let before = waiting_entries(row.drop_last(), now, max_age, closed);
        if still_waits(row.last(), now, max_age, closed) {
            before.push(row.last())
        } else {
            before
        }
    }
}

/// The number of entries under the first `n` keys.
pub open spec fn entry_count(
    all: Map<Seq<u8>, Seq<PendingEntry>>,
    keys: Seq<Seq<u8>>,
    n: int,
) -> nat
    decreases n,
{
    if n <= 0 {
        0
    } else {
        entry_count(all, keys, n - 1) + all[keys[n - 1]].len()
    }
}

/// The number of entries under the first `n` keys that no longer wait.
pub open spec fn stale_count(
    all: Map<Seq<u8>, Seq<PendingEntry>>,
    keys: Seq<Seq<u8>>,
    n: int,
    now: u64,
    max_age: u64,
    closed: Seq<u64>,
) -> nat
    decreases n,
{
    if n <= 0 {
        0
    } else {
        let row = all[keys[n - 1]];
        stale_count(all, keys, n - 1, now, max_age, closed) + (row.len() - waiting_entries(
            row,
            now,
            max_age,
            closed,
        ).len()) as nat
    }
}

/// The tickets of the entries that no longer wait, in their order.
pub open spec fn stale_in(row: Seq<PendingEntry>, now: u64, max_age: u64, closed: Seq<u64>) -> Seq<
    u64,
>
    decreases row.len(),
{
    if row.len() == 0 {
        Seq::empty()
    } else {
        let before = stale_in(row.drop_last(), now, max_age, closed);
        if still_waits(row.last(), now, max_age, closed) {
            before
        } else {
            before.push(row.last().ticket)
        }
    }
}

/// The tickets of the entries under the first `n` keys that no longer wait.
pub open spec fn stale_under(
    all: Map<Seq<u8>, Seq<PendingEntry>>,
    keys: Seq<Seq<u8>>,
    n: int,
    now: u64,
    max_age: u64,
    closed: Seq<u64>,
) -> Seq<u64>
    decreases n,
{
    if n <= 0 {
        Seq::empty()
    } else {
        stale_under(all, keys, n - 1, now, max_age, closed) + stale_in(
            all[keys[n - 1]],
            now,
            max_age,
            closed,
        )
    }
}

/// Every entry of a list waits on, or its ticket is among the stale ones.
pub proof fn lemma_stale_or_waiting(
    row: Seq<PendingEntry>,
    now: u64,
    max_age: u64,
    closed: Seq<u64>,
)
    ensures
        stale_in(row, now, max_age, closed).len() + waiting_entries(
            row,
            now,
            max_age,
            closed,
        ).len() == row.len(),
        forall|i: int|
            0 <= i < row.len() && !still_waits(#[trigger] row[i], now, max_age, closed)
                ==> stale_in(row, now, max_age, closed).contains(row[i].ticket),
    decreases row.len(),
{
    if row.len() > 0 {
        let shorter = row.drop_last();
        lemma_stale_or_waiting(shorter, now, max_age, closed);
        let before = stale_in(shorter, now, max_age, closed);
        let all = stale_in(row, now, max_age, closed);
        assert forall|i: int|
            0 <= i < row.len() && !still_waits(#[trigger] row[i], now, max_age, closed) implies
            all.contains(row[i].ticket) by {
            if i < shorter.len() {
                assert(shorter[i] == row[i]);
                let j = choose|j: int| 0 <= j < before.len() && before[j] == row[i].ticket;
                assert(all[j] == row[i].ticket);
            } else {
                assert(all[before.len() as int] == row[i].ticket);
            }
        }
    }
}

/// `n`, or the largest number where it is larger.
pub open spec fn capped(n: nat) -> nat {
    if n <= usize::MAX {
        n
    } else {
        usize::MAX as nat
    }
}

proof fn lemma_waiting_len(row: Seq<PendingEntry>, now: u64, max_age: u64, closed: Seq<u64>)
    ensures
        waiting_entries(row, now, max_age, closed).len() <= row.len(),
    decreases row.len(),
{
    if row.len() > 0 {
        lemma_waiting_len(row.drop_last(), now, max_age, closed);
    }
}

/// The tasks that wait for pieces, by content.
pub struct PendingFetches {
    waiters: KeyTable<Vec<PendingEntry>>,
    next_ticket: u64,
}

impl PendingFetches {
    /// The entries that wait for each content, oldest first.
    pub closed spec fn waiting(&self) -> Map<Seq<u8>, Seq<PendingEntry>> {
        self.waiters@.map_values(|row: Vec<PendingEntry>| row@)
    }

    /// The contents in the order in which they are walked.
    pub closed spec fn order(&self) -> Seq<Seq<u8>> {
        self.waiters.key_list()
    }

    /// The ticket that is given out next.
    pub closed spec fn next(&self) -> u64 {
        self.next_ticket
    }

    /// No content is listed without an entry, and every ticket was given out.
    pub closed spec fn wf(&self) -> bool {
        &&& self.waiters.wf()
        &&& forall|k: Seq<u8>| #[trigger]
            self.waiters@.contains_key(k) ==> row_ok(self.waiters@[k]@, self.next_ticket)
    }

    /// Every content listed has an entry, and no entry has the next ticket.
    pub proof fn lemma_entries(&self, cid: Seq<u8>)
        requires
            self.wf(),
            self.waiting().contains_key(cid),
        ensures
            row_ok(self.waiting()[cid], self.next()),
    {
    }

    /// Nothing waits.
    pub fn new() -> (pending: PendingFetches)
        ensures
            pending.wf(),
            pending.waiting() == Map::<Seq<u8>, Seq<PendingEntry>>::empty(),
            pending.next() == 0,
    {
        let pending = PendingFetches { waiters: KeyTable::new(), next_ticket: 0 };
        assert(pending.waiting() =~= Map::<Seq<u8>, Seq<PendingEntry>>::empty());
        pending
    }

    /// Whether there is a ticket left to give out.
    pub fn can_register(&self) -> (can: bool)
        ensures
            can == (self.next() < u64::MAX),
    {
        self.next_ticket < u64::MAX
    }

    /// Begins to wait for a content and returns the ticket.
    pub fn register(&mut self, cid: &Cid, now: u64) -> (ticket: u64)
        requires
            old(self).wf(),
            old(self).next() < u64::MAX,
        ensures
            final(self).wf(),
            ticket == old(self).next(),
            final(self).next() == old(self).next() + 1,
            final(self).waiting() == old(self).waiting().insert(
                cid@,
                entries_of(old(self).waiting(), cid@).push(
                    PendingEntry { ticket, registered_at: now },
                ),
            ),
    {
        let ticket: u64 = self.next_ticket;
        let mut row: Vec<PendingEntry> = match self.waiters.remove(cid.as_bytes()) {
            Some(row) => row,
            None => Vec::new(),
        };
        let ghost before = row@;
        proof {
            if !old(self).waiting().contains_key(cid@) {
                assert(before =~= Seq::<PendingEntry>::empty());
            }
        }
        row.push(PendingEntry { ticket, registered_at: now });
        self.waiters.set(cid.bytes, row);
        self.next_ticket = ticket + 1;
        proof {
            assert(self.waiting() =~= old(self).waiting().insert(
                cid@,
                entries_of(old(self).waiting(), cid@).push(
                    PendingEntry { ticket, registered_at: now },
                ),
            ));
        }
        ticket
    }

    /// Delivers a piece: every task that waits for the content gets a copy, and none waits
    /// any longer.
    pub fn resolve(&mut self, cid: &Cid, piece: CodedPiece) -> (deliveries: Vec<(u64, CodedPiece)>)
        requires
            old(self).wf(),
        ensures
            final(self).wf(),
            final(self).next() == old(self).next(),
            final(self).waiting() == old(self).waiting().remove(cid@),
            deliveries@.len() == entries_of(old(self).waiting(), cid@).len(),
            forall|i: int|
                0 <= i < deliveries@.len() ==> (#[trigger] deliveries@[i]).0 == entries_of(
                    old(self).waiting(),
                    cid@,
                )[i].ticket && deliveries@[i].1@ == piece@,
    {
        let mut deliveries: Vec<(u64, CodedPiece)> = Vec::new();
        if let Some(row) = self.waiters.remove(cid.as_bytes()) {
            let mut i: usize = 0;
            while i < row.len()
                invariant
                    i <= row@.len(),
                    deliveries@.len() == i,
                    forall|j: int|
                        0 <= j < i ==> (#[trigger] deliveries@[j]).0 == row@[j].ticket
                            && deliveries@[j].1@ == piece@,
                decreases row@.len() - i,
            {
                deliveries.push((row[i].ticket, piece.clone()));
                i = i + 1;
            }
        }
        proof {
            assert(self.waiting() =~= old(self).waiting().remove(cid@));
        }
        deliveries
    }

    /// The number of contents waited for.
    pub fn pending_count(&self) -> (n: usize)
        requires
            self.wf(),
        ensures
            n == self.waiting().dom().len(),
    {
        proof {
            assert(self.waiting().dom() =~= self.waiters@.dom());
        }
        self.waiters.len()
    }

    /// The number of entries of all contents.
    pub fn total_pending(&self) -> (n: usize)
        requires
            self.wf(),
        ensures
            self.order().no_duplicates(),
            self.order().to_set() == self.waiting().dom(),
            n == capped(entry_count(self.waiting(), self.order(), self.order().len() as int)),
    {
        proof {
            self.waiters.lemma_keys();
            assert(self.waiting().dom() =~= self.waiters@.dom());
        }
        let len: usize = self.waiters.len();
        let mut total: usize = 0;
        let mut i: usize = 0;
        while i < len
            invariant
                i <= len,
                len == self.order().len(),
                self.wf(),
                total == capped(entry_count(self.waiting(), self.order(), i as int)),
            decreases len - i,
        {
            let row = self.waiters.row_at(i);
            proof {
                assert(self.waiting()[self.order()[i as int]] == row@);
            }
            total = total.saturating_add(row.len());
            i = i + 1;
        }
        total
    }

    fn count_stale(&self, max_age: u64, now: u64, closed: &[u64]) -> (n: usize)
        requires
            self.wf(),
        ensures
            n == capped(
                stale_count(
                    self.waiting(),
                    self.order(),
                    self.order().len() as int,
                    now,
                    max_age,
                    closed@,
                ),
            ),
    {
        let len: usize = self.waiters.len();
        let mut total: usize = 0;
        let mut i: usize = 0;
        while i < len
            invariant
                i <= len,
                len == self.order().len(),
                self.wf(),
                total == capped(
                    stale_count(self.waiting(), self.order(), i as int, now, max_age, closed@),
                ),
            decreases len - i,
        {
            let row = self.waiters.row_at(i);
            let kept = keep_waiting(row, max_age, now, closed);
            proof {
                assert(self.waiting()[self.order()[i as int]] == row@);
                lemma_waiting_len(row@, now, max_age, closed@);
            }
            total = total.saturating_add(row.len() - kept.len());
            i = i + 1;
        }
        total
    }

    /// The tickets of the entries that are as old as `max_age` and of those whose task gave
    /// up (`closed` lists their tickets): those that would be dropped.
    pub fn stale_tickets(&self, max_age: u64, now: u64, closed: &[u64]) -> (tickets: Vec<u64>)
        requires
            self.wf(),
        ensures
            self.order().no_duplicates(),
            self.order().to_set() == self.waiting().dom(),
            tickets@ == stale_under(
                self.waiting(),
                self.order(),
                self.order().len() as int,
                now,
                max_age,
                closed@,
            ),
    {
        proof {
            self.waiters.lemma_keys();
            assert(self.waiting().dom() =~= self.waiters@.dom());
        }
        let len: usize = self.waiters.len();
        let mut tickets: Vec<u64> = Vec::new();
        let mut i: usize = 0;
        while i < len
            invariant
                i <= len,
                len == self.order().len(),
                self.wf(),
                tickets@ == stale_under(
                    self.waiting(),
                    self.order(),
                    i as int,
                    now,
                    max_age,
                    closed@,
                ),
            decreases len - i,
        {
            let row = self.waiters.row_at(i);
            proof {
                assert(self.waiting()[self.order()[i as int]] == row@);
            }
            push_stale(&mut tickets, row, max_age, now, closed);
            i = i + 1;
        }
        tickets
    }

    /// Drops the entries that are as old as `max_age` and those whose task gave up
    /// (`closed` lists their tickets). Returns how many were dropped.
    pub fn prune_stale(&mut self, max_age: u64, now: u64, closed: &[u64]) -> (pruned: usize)
        requires
            old(self).wf(),
        ensures
            final(self).wf(),
            final(self).next() == old(self).next(),
            pruned == capped(
                stale_count(
                    old(self).waiting(),
                    old(self).order(),
                    old(self).order().len() as int,
                    now,
                    max_age,
                    closed@,
                ),
            ),
            forall|cid: Seq<u8>| #[trigger]
                final(self).waiting().contains_key(cid) <==> old(self).waiting().contains_key(cid)
                    && waiting_entries(old(self).waiting()[cid], now, max_age, closed@).len() > 0,
            forall|cid: Seq<u8>| #[trigger]
                final(self).waiting().contains_key(cid) ==> final(self).waiting()[cid]
                    == waiting_entries(old(self).waiting()[cid], now, max_age, closed@),
    {
        let pruned: usize = self.count_stale(max_age, now, closed);
        let ghost all = self.waiters@;
        let ghost keys = self.waiters.key_list();
        let next: u64 = self.next_ticket;
        let mut fresh: KeyTable<Vec<PendingEntry>> = KeyTable::new();
        proof {
            self.waiters.lemma_keys();
            table::lemma_all_rows(all, keys);
            assert(keys.take(keys.len() as int) =~= keys);
        }
        let ghost mut n: int = keys.len() as int;
        let mut more = true;
        while more
            invariant
                0 <= n <= keys.len(),
                !more ==> n == 0,
                self.waiters.wf(),
                self.next_ticket == next,
                fresh.wf(),
                keys.no_duplicates(),
                keys.to_set() == all.dom(),
                self.waiters@ == table::first_rows(all, keys, n),
                self.waiters.key_list() == keys.take(n),
                forall|k: Seq<u8>| #[trigger] all.contains_key(k) ==> row_ok(all[k]@, next),
                forall|k: Seq<u8>| #[trigger]
                    fresh@.contains_key(k) ==> all.contains_key(k) && row_ok(fresh@[k]@, next)
                        && fresh@[k]@ == waiting_entries(all[k]@, now, max_age, closed@),
                forall|i: int|
                    n <= i < keys.len() ==> (fresh@.contains_key(#[trigger] keys[i])
                        <==> waiting_entries(all[keys[i]]@, now, max_age, closed@).len() > 0),
                forall|i: int| 0 <= i < n ==> !fresh@.contains_key(#[trigger] keys[i]),
            decreases n + if more {
                1int
            } else {
                0int
            },
        {
            match self.waiters.pop() {
                None => {
                    more = false;
                },
                Some((key, row)) => {
                    proof {
                        table::lemma_first_rows(all, keys, n);
                        n = n - 1;
                    }
                    let kept = keep_waiting(&row, max_age, now, closed);
                    proof {
                        assert(all.contains_key(key@));
                        lemma_waiting_ok(row@, now, max_age, closed@, next);
                        assert forall|i: int| 0 <= i < keys.len() && i != n implies #[trigger] keys[i]
                            != key@ by {}
                    }
                    if kept.len() > 0 {
                        fresh.set(key, kept);
                    }
                },
            }
        }
        self.waiters = fresh;
        proof {
            assert forall|cid: Seq<u8>| #[trigger] self.waiting().contains_key(cid) <==> old(
                self,
            ).waiting().contains_key(cid) && waiting_entries(
                old(self).waiting()[cid],
                now,
                max_age,
                closed@,
            ).len() > 0 by {
                if all.contains_key(cid) {
                    assert(keys.to_set().contains(cid));
                    let i = choose|i: int| 0 <= i < keys.len() && keys[i] == cid;
                    assert(keys[i] == cid);
                }
            }
        }
        pruned
    }
}

/// Whether a list of entries is not empty and has tickets below `next` only.
pub open spec fn row_ok(row: Seq<PendingEntry>, next: u64) -> bool {
    row.len() > 0 && forall|i: int| 0 <= i < row.len() ==> (#[trigger] row[i]).ticket < next
}

proof fn lemma_waiting_ok(
    row: Seq<PendingEntry>,
    now: u64,
    max_age: u64,
    closed: Seq<u64>,
    next: u64,
)
    requires
        forall|i: int| 0 <= i < row.len() ==> (#[trigger] row[i]).ticket < next,
    ensures
        forall|i: int|
            0 <= i < waiting_entries(row, now, max_age, closed).len() ==> (
            #[trigger] waiting_entries(row, now, max_age, closed)[i]).ticket < next,
    decreases row.len(),
{
    if row.len() > 0 {
        assert forall|i: int| 0 <= i < row.drop_last().len() implies (
        #[trigger] row.drop_last()[i]).ticket < next by {
            assert(row.drop_last()[i] == row[i]);
        }
        lemma_waiting_ok(row.drop_last(), now, max_age, closed, next);
        let before = waiting_entries(row.drop_last(), now, max_age, closed);
        let all = waiting_entries(row, now, max_age, closed);
        assert forall|i: int| 0 <= i < all.len() implies (#[trigger] all[i]).ticket < next by {
            if i < before.len() {
                assert(all[i] == before[i]);
            } else {
                assert(all[i] == row[row.len() - 1]);
            }
        }
    }
}

/// The entries of a content; none where it is not listed.
pub open spec fn entries_of(all: Map<Seq<u8>, Seq<PendingEntry>>, cid: Seq<u8>) -> Seq<
    PendingEntry,
> {
    if all.contains_key(cid) {
        all[cid]
    } else {
        Seq::empty()
    }
}

fn is_closed(ticket: u64, closed: &[u64]) -> (found: bool)
    ensures
        found == closed@.contains(ticket),
{
    let mut i: usize = 0;
    while i < closed.len()
        invariant
            i <= closed@.len(),
            forall|j: int| 0 <= j < i ==> closed@[j] != ticket,
        decreases closed@.len() - i,
    {
        if closed[i] == ticket {
            assert(closed@[i as int] == ticket);
            return true;
        }
        i = i + 1;
    }
    false
}

/// Whether an entry is as old as `max_age`, or its task gave up.
fn is_stale(e: &PendingEntry, max_age: u64, now: u64, closed: &[u64]) -> (stale: bool)
    ensures
        stale == !still_waits(*e, now, max_age, closed@),
{
    let old_enough: bool = if now >= e.registered_at {
        now - e.registered_at >= max_age
    } else {
        max_age == 0
    };
    old_enough || is_closed(e.ticket, closed)
}

fn push_stale(
    tickets: &mut Vec<u64>,
    row: &Vec<PendingEntry>,
    max_age: u64,
    now: u64,
    closed: &[u64],
)
    ensures
        final(tickets)@ == old(tickets)@ + stale_in(row@, now, max_age, closed@),
{
    let mut i: usize = 0;
    proof {
        assert(row@.take(0) =~= Seq::<PendingEntry>::empty());
        assert(tickets@ =~= old(tickets)@ + Seq::<u64>::empty());
    }
    while i < row.len()
        invariant
            i <= row@.len(),
            tickets@ == old(tickets)@ + stale_in(row@.take(i as int), now, max_age, closed@),
        decreases row@.len() - i,
    {
        let e: PendingEntry = row[i];
        let ghost before = tickets@;
        proof {
            let more = row@.take(i as int + 1);
            assert(more.drop_last() =~= row@.take(i as int));
            assert(more.last() == e);
        }
        if is_stale(&e, max_age, now, closed) {
            tickets.push(e.ticket);
        }
        proof {
            assert(tickets@ =~= old(tickets)@ + stale_in(
                row@.take(i as int + 1),
                now,
                max_age,
                closed@,
            ));
        }
        i = i + 1;
    }
    assert(row@.take(row@.len() as int) =~= row@);
}

fn keep_waiting(row: &Vec<PendingEntry>, max_age: u64, now: u64, closed: &[u64]) -> (kept: Vec<
    PendingEntry,
>)
    ensures
        kept@ == waiting_entries(row@, now, max_age, closed@),
{
    let mut kept: Vec<PendingEntry> = Vec::new();
    let mut i: usize = 0;
    assert(row@.take(0) =~= Seq::<PendingEntry>::empty());
    while i < row.len()
        invariant
            i <= row@.len(),
            kept@ == waiting_entries(row@.take(i as int), now, max_age, closed@),
        decreases row@.len() - i,
    {
        let e: PendingEntry = row[i];
        proof {
            let more = row@.take(i as int + 1);
            assert(more.drop_last() =~= row@.take(i as int));
            assert(more.last() == e);
        }
        if !is_stale(&e, max_age, now, closed) {
            kept.push(e);
        }
        i = i + 1;
    }
    assert(row@.take(row@.len() as int) =~= row@);
    kept
}

/// Every entry registered is delivered once: right after a registration, delivering brings
/// the piece to all who waited and to the new ticket last, and then nobody waits.
pub proof fn lemma_register_resolve(
    before: Map<Seq<u8>, Seq<PendingEntry>>,
    cid: Seq<u8>,
    entry: PendingEntry,
)
    ensures
        ({
            let after = before.insert(cid, entries_of(before, cid).push(entry));
            &&& entries_of(after, cid).last() == entry
            &&& entries_of(after, cid).drop_last() == entries_of(before, cid)
            &&& after.remove(cid) == before.remove(cid)
            &&& entries_of(after.remove(cid), cid) == Seq::<PendingEntry>::empty()
        }),
{
    let after = before.insert(cid, entries_of(before, cid).push(entry));
    assert(entries_of(after, cid).drop_last() =~= entries_of(before, cid));
    assert(after.remove(cid) =~= before.remove(cid));
}

}
