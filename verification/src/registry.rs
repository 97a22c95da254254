//! The generic verification registry: a submit / resolve / timeout lifecycle
//! for items of any payload kind (documents, payments).
//!
//! An item is `Pending` from submission until it is resolved by a caller or
//! expired by the per-tick sweep; `Approved`, `Rejected` and `Expired` are
//! terminal. The pending queue holds exactly the pending item ids, in
//! submission order, so the sweep's cost is proportional to the queue.

use vstd::prelude::*;
use crate::errors::CreditError;

verus! {

/// Lifecycle state of a verification item.
#[derive(Clone, Copy, PartialEq, Eq, Structural, Debug)]
pub enum ItemStatus {
    Pending,
    Approved,
    Rejected,
    Expired,
}

/// The two caller-chosen resolutions.
#[derive(Clone, Copy, PartialEq, Eq, Structural, Debug)]
pub enum ResolveOutcome {
    Approve,
    Reject,
}

/// One submitted item, tracked through its lifecycle.
pub struct VerificationItem<P> {
    /// Monotonically assigned id, starting at 1.
    pub id: u64,
    pub owner: u64,
    pub payload: P,
    pub status: ItemStatus,
    pub submitted_tick: u64,
    /// Tick of an explicit resolution, if one happened.
    pub resolved_tick: Option<u64>,
    /// Who resolved the item, if anyone did.
    pub resolver: Option<u64>,
    /// A note attached at resolution (a rejection reason, a proof).
    pub note: Option<Vec<u8>>,
}

/// Whether the queue holds an entry for `id`.
pub open spec fn pending_contains(q: Seq<(u64, u64)>, id: u64) -> bool {
    exists|k: int| 0 <= k < q.len() && q[k].0 == id
}

/// Queue entries carry strictly increasing ids: submission order.
pub open spec fn queue_sorted(q: Seq<(u64, u64)>) -> bool {
    forall|k1: int, k2: int| 0 <= k1 < k2 < q.len() ==> q[k1].0 < q[k2].0
}

/// The queue with the entry for `id` removed, order kept.
pub open spec fn queue_without(q: Seq<(u64, u64)>, id: u64) -> Seq<(u64, u64)>
    decreases q.len(),
{
    if q.len() == 0 {
        Seq::<(u64, u64)>::empty()
    } else if q.last().0 != id {
        queue_without(q.drop_last(), id).push(q.last())
    } else {
        queue_without(q.drop_last(), id)
    }
}

/// Removing an id keeps every other entry, in order.
pub proof fn lemma_queue_without(q: Seq<(u64, u64)>, id: u64)
    ensures
        forall|x: u64|
            (#[trigger] pending_contains(queue_without(q, id), x)) <==> (pending_contains(q, x)
                && x != id),
        forall|k: int|
            0 <= k < queue_without(q, id).len() ==> exists|k0: int|
                0 <= k0 < q.len() && q[k0] == #[trigger] queue_without(q, id)[k],
        queue_sorted(q) ==> queue_sorted(queue_without(q, id)),
    decreases q.len(),
{
    if q.len() > 0 {
        let q0 = q.drop_last();
        lemma_queue_without(q0, id);
        let w = queue_without(q, id);
        let w0 = queue_without(q0, id);
        assert forall|k0: int| 0 <= k0 < q0.len() implies q0[k0] == q[k0] by {}
        assert(q.last() == q[q.len() - 1]);
        if q.last().0 != id {
            assert(w == w0.push(q.last()));
        } else {
            assert(w == w0);
        }
        assert forall|x: u64| pending_contains(w, x) implies (pending_contains(q, x) && x != id) by {
            let k = choose|k: int| 0 <= k < w.len() && w[k].0 == x;
            assert(0 <= k < w.len() && w[k].0 == x);
            if q.last().0 != id && k == w.len() - 1 {
                assert(w[k] == q.last());
                assert(q[q.len() - 1].0 == x);
                assert(x == q.last().0);
                assert(x != id);
            } else {
                assert(w[k] == w0[k]);
                assert(0 <= k < w0.len() && w0[k].0 == x);
                assert(pending_contains(queue_without(q0, id), x));
                assert(x != id);
                let k0 = choose|k0: int| 0 <= k0 < q0.len() && q0[k0].0 == x;
                assert(q[k0].0 == x);
            }
        }
        assert forall|x: u64| pending_contains(q, x) && x != id implies pending_contains(w, x) by {
            let k = choose|k: int| 0 <= k < q.len() && q[k].0 == x;
            if k == q.len() - 1 {
                assert(q.last().0 == x && x != id);
                assert(w == w0.push(q.last()));
                assert(w[w.len() - 1].0 == x);
            } else {
                assert(q0[k].0 == x);
                assert(pending_contains(q0, x));
                assert(pending_contains(queue_without(q0, id), x));
                let k1 = choose|k1: int| 0 <= k1 < w0.len() && w0[k1].0 == x;
                assert(w[k1].0 == x);
            }
        }
        if q.last().0 != id {
            assert(w == w0.push(q.last()));
            if queue_sorted(q) {
                assert(queue_sorted(q0));
                assert forall|k1: int, k2: int| 0 <= k1 < k2 < w.len() implies w[k1].0 < w[k2].0 by {
                    if k2 < w.len() - 1 {
                        assert(w[k1] == w0[k1] && w[k2] == w0[k2]);
                    } else {
                        assert(w[k1] == w0[k1]);
                        let k0 = choose|k0: int| 0 <= k0 < q0.len() && q0[k0] == w0[k1];
                        assert(q[k0].0 < q[q.len() - 1].0);
                    }
                }
            }
        }
    }
}

/// Whether a sweep at `now` with this `timeout` removes a queue entry.
pub open spec fn entry_expire_due(e: (u64, u64), now: u64, timeout: u64) -> bool {
    now - e.1 > timeout
}

/// Whether the sweep expires this item.
pub open spec fn item_expire_due<P>(it: VerificationItem<P>, now: u64, timeout: u64) -> bool {
    it.status == ItemStatus::Pending && now - it.submitted_tick > timeout
}

/// What the sweep does to one item: a pending item past its deadline is
/// forced to `Expired`; every other item is untouched.
pub open spec fn expire_step<P>(it: VerificationItem<P>, now: u64, timeout: u64) -> VerificationItem<
    P,
> {
    if item_expire_due(it, now, timeout) {
        VerificationItem { status: ItemStatus::Expired, ..it }
    } else {
        it
    }
}

/// The queue after one sweep: entries past the deadline removed, order kept.
pub open spec fn queue_after_sweep(q: Seq<(u64, u64)>, now: u64, timeout: u64) -> Seq<(u64, u64)>
    decreases q.len(),
{
    if q.len() == 0 {
        Seq::<(u64, u64)>::empty()
    } else if !entry_expire_due(q.last(), now, timeout) {
        queue_after_sweep(q.drop_last(), now, timeout).push(q.last())
    } else {
        queue_after_sweep(q.drop_last(), now, timeout)
    }
}

/// The sweep keeps exactly the entries short of their deadline, in order.
pub proof fn lemma_queue_after_sweep(q: Seq<(u64, u64)>, now: u64, timeout: u64)
    ensures
        forall|x: u64|
            (#[trigger] pending_contains(queue_after_sweep(q, now, timeout), x)) <==> exists|
                k0: int,
            |
                0 <= k0 < q.len() && q[k0].0 == x && !entry_expire_due(q[k0], now, timeout),
        forall|k: int|
            0 <= k < queue_after_sweep(q, now, timeout).len() ==> exists|k0: int|
                0 <= k0 < q.len() && q[k0] == #[trigger] queue_after_sweep(q, now, timeout)[k],
        queue_sorted(q) ==> queue_sorted(queue_after_sweep(q, now, timeout)),
    decreases q.len(),
{
    if q.len() > 0 {
        let q0 = q.drop_last();
        lemma_queue_after_sweep(q0, now, timeout);
        let w = queue_after_sweep(q, now, timeout);
        let w0 = queue_after_sweep(q0, now, timeout);
        assert forall|k0: int| 0 <= k0 < q0.len() implies q0[k0] == q[k0] by {}
        assert(q.last() == q[q.len() - 1]);
        if !entry_expire_due(q.last(), now, timeout) {
            assert(w == w0.push(q.last()));
        } else {
            assert(w == w0);
        }
        assert forall|x: u64| pending_contains(w, x) implies exists|k0: int|
            0 <= k0 < q.len() && q[k0].0 == x && !entry_expire_due(q[k0], now, timeout) by {
            let k = choose|k: int| 0 <= k < w.len() && w[k].0 == x;
            if !entry_expire_due(q.last(), now, timeout) && k == w.len() - 1 {
                assert(q[q.len() - 1].0 == x && !entry_expire_due(q[q.len() - 1], now, timeout));
            } else {
                assert(w[k] == w0[k]);
                assert(pending_contains(queue_after_sweep(q0, now, timeout), x));
                let k0 = choose|k0: int|
                    0 <= k0 < q0.len() && q0[k0].0 == x && !entry_expire_due(q0[k0], now, timeout);
                assert(q[k0].0 == x && !entry_expire_due(q[k0], now, timeout));
            }
        }
        assert forall|x: u64| (exists|k0: int|
            0 <= k0 < q.len() && q[k0].0 == x && !entry_expire_due(q[k0], now, timeout)) implies
            pending_contains(w, x) by {
            let k = choose|k: int|
                0 <= k < q.len() && q[k].0 == x && !entry_expire_due(q[k], now, timeout);
            if k == q.len() - 1 {
                assert(w == w0.push(q.last()));
                assert(w[w.len() - 1].0 == x);
            } else {
                assert(q0[k].0 == x && !entry_expire_due(q0[k], now, timeout));
                assert(exists|kk: int|
                    0 <= kk < q0.len() && q0[kk].0 == x && !entry_expire_due(q0[kk], now, timeout));
                assert(pending_contains(queue_after_sweep(q0, now, timeout), x));
                let k1 = choose|k1: int| 0 <= k1 < w0.len() && w0[k1].0 == x;
                if !entry_expire_due(q.last(), now, timeout) {
                    assert(w[k1] == w0[k1]);
                } else {
                    assert(w == w0);
                }
                assert(w[k1].0 == x);
            }
        }
        if !entry_expire_due(q.last(), now, timeout) {
            assert(w == w0.push(q.last()));
            if queue_sorted(q) {
                assert(queue_sorted(q0));
                assert forall|k1: int, k2: int| 0 <= k1 < k2 < w.len() implies w[k1].0 < w[k2].0 by {
                    if k2 < w.len() - 1 {
                        assert(w[k1] == w0[k1] && w[k2] == w0[k2]);
                    } else {
                        assert(w[k1] == w0[k1]);
                        let k0 = choose|k0: int| 0 <= k0 < q0.len() && q0[k0] == w0[k1];
                        assert(q[k0].0 < q[q.len() - 1].0);
                    }
                }
            }
        }
    }
}

/// The ids the sweep expires, in submission (id) order.
pub open spec fn expired_ids<P>(items: Seq<VerificationItem<P>>, now: u64, timeout: u64) -> Seq<u64>
    decreases items.len(),
{
    if items.len() == 0 {
        Seq::<u64>::empty()
    } else if item_expire_due(items.last(), now, timeout) {
        expired_ids(items.drop_last(), now, timeout).push(items.last().id)
    } else {
        expired_ids(items.drop_last(), now, timeout)
    }
}

/// How many items of `s` the owner holds (all-time: resolution does not free
/// a slot).
pub open spec fn count_owned<P>(s: Seq<VerificationItem<P>>, owner: u64) -> int
    decreases s.len(),
{
    if s.len() == 0 {
        0
    } else {
        count_owned(s.drop_last(), owner) + if s.last().owner == owner {
            1int
        } else {
            0int
        }
    }
}

/// The registry: all items ever submitted (item `id` at index `id - 1`) and
/// the queue of pending ids.
pub struct VerificationRegistry<P> {
    /// Cap on items per owner, checked at submission.
    pub max_items_per_owner: usize,
    pub items: Vec<VerificationItem<P>>,
    /// `(id, submitted_tick)` of every pending item, in submission order.
    pub pending: Vec<(u64, u64)>,
}

impl<P> VerificationRegistry<P> {
    /// Well-formed: ids are dense and index-aligned; the queue lists exactly
    /// the pending items, in submission order, with their submission ticks;
    /// pending items carry no resolution fields.
    pub open spec fn wf(self) -> bool {
        &&& forall|i: int| 0 <= i < self.items@.len() ==> (#[trigger] self.items@[i]).id == i + 1
        &&& forall|i: int|
            0 <= i < self.items@.len() && (#[trigger] self.items@[i]).status == ItemStatus::Pending
                ==> self.items@[i].resolved_tick is None && self.items@[i].resolver is None
        &&& forall|k: int|
            0 <= k < self.pending@.len() ==> 1 <= (#[trigger] self.pending@[k]).0
                <= self.items@.len() && self.items@[self.pending@[k].0 - 1].status
                == ItemStatus::Pending && self.items@[self.pending@[k].0 - 1].submitted_tick
                == self.pending@[k].1
        &&& forall|i: int|
            0 <= i < self.items@.len() && (#[trigger] self.items@[i]).status == ItemStatus::Pending
                ==> pending_contains(self.pending@, self.items@[i].id)
        &&& queue_sorted(self.pending@)
    }

    /// A fresh registry with the given per-owner cap.
    pub fn new(max_items_per_owner: usize) -> (r: VerificationRegistry<P>)
        ensures
            r.wf(),
            r.items@.len() == 0,
            r.pending@.len() == 0,
            r.max_items_per_owner == max_items_per_owner,
    {
        VerificationRegistry { max_items_per_owner, items: Vec::new(), pending: Vec::new() }
    }

    /// How many items `owner` holds (all-time).
    pub fn owned_count(&self, owner: u64) -> (r: u64)
        requires
            self.items@.len() < u64::MAX,
        ensures
            r == count_owned(self.items@, owner),
    {
        let mut cnt: u64 = 0;
        let mut i: usize = 0;
        proof {
            lemma_count_owned_bounds(self.items@, owner);
        }
        while i < self.items.len()
            invariant
                i <= self.items@.len(),
                self.items@.len() < u64::MAX,
                cnt == count_owned(self.items@.subrange(0, i as int), owner),
                cnt <= i,
            decreases self.items@.len() - i,
        {
            proof {
                assert(self.items@.subrange(0, i + 1).drop_last() =~= self.items@.subrange(
                    0,
                    i as int,
                ));
                assert(self.items@.subrange(0, i + 1).last() == self.items@[i as int]);
            }
            if self.items[i].owner == owner {
                cnt = cnt + 1;
            }
            i = i + 1;
        }
        proof {
            assert(self.items@.subrange(0, self.items@.len() as int) =~= self.items@);
        }
        cnt
    }

    /// Submits an item: rejected with `CapacityError` while the owner holds
    /// at least the configured cap; otherwise the item gets the next id, is
    /// stored pending, and its id is queued with the submission tick.
    pub fn submit(&mut self, owner: u64, payload: P, tick: u64) -> (r: Result<u64, CreditError>)
        requires
            old(self).wf(),
            old(self).items@.len() < u64::MAX - 1,
        ensures
            final(self).wf(),
            count_owned(old(self).items@, owner) >= old(self).max_items_per_owner ==> *final(self)
                == *old(self) && r == Err::<u64, CreditError>(CreditError::CapacityError),
            count_owned(old(self).items@, owner) < old(self).max_items_per_owner ==> {
                let id = (old(self).items@.len() + 1) as u64;
                &&& r == Ok::<u64, CreditError>(id)
                &&& final(self).items@.len() == old(self).items@.len() + 1
                &&& final(self).items@.drop_last() == old(self).items@
                &&& final(self).items@.last() == (VerificationItem {
                    id,
                    owner,
                    payload,
                    status: ItemStatus::Pending,
                    submitted_tick: tick,
                    resolved_tick: None::<u64>,
                    resolver: None::<u64>,
                    note: None::<Vec<u8>>,
                })
                &&& final(self).pending@ == old(self).pending@.push((id, tick))
                &&& final(self).max_items_per_owner == old(self).max_items_per_owner
            },
    {
        let cnt = self.owned_count(owner);
        if cnt >= self.max_items_per_owner as u64 {
            return Err(CreditError::CapacityError);
        }
        let id = self.items.len() as u64 + 1;
        let item = VerificationItem {
            id,
            owner,
            payload,
            status: ItemStatus::Pending,
            submitted_tick: tick,
            resolved_tick: None,
            resolver: None,
            note: None,
        };
        let ghost old_items = self.items@;
        let ghost old_pending = self.pending@;
        self.items.push(item);
        self.pending.push((id, tick));
        proof {
            assert(self.items@.drop_last() =~= old_items);
            assert forall|i: int|
                0 <= i < self.items@.len() && (#[trigger] self.items@[i]).status
                    == ItemStatus::Pending implies pending_contains(
                self.pending@,
                self.items@[i].id,
            ) by {
                if i < old_items.len() {
                    assert(self.items@[i] == old_items[i]);
                    let k = choose|k: int|
                        0 <= k < old_pending.len() && old_pending[k].0 == old_items[i].id;
                    assert(self.pending@[k].0 == self.items@[i].id);
                } else {
                    assert(self.pending@[self.pending@.len() - 1].0 == id);
                }
            }
            assert forall|k: int| 0 <= k < self.pending@.len() implies 1 <= (
            #[trigger] self.pending@[k]).0 <= self.items@.len()
                && self.items@[self.pending@[k].0 - 1].status == ItemStatus::Pending
                && self.items@[self.pending@[k].0 - 1].submitted_tick == self.pending@[k].1 by {
                if k < old_pending.len() {
                    assert(self.pending@[k] == old_pending[k]);
                    assert(self.items@[old_pending[k].0 - 1] == old_items[old_pending[k].0 - 1]);
                }
            }
        }
        Ok(id)
    }

    /// Resolves a pending item to `Approved` or `Rejected`, recording the
    /// resolver, the tick, and the note, and dequeues it. An unknown id is
    /// rejected with `NotFound`; a non-pending item with `StateConflict`
    /// (terminal states are final).
#[verifier::spinoff_prover]
    #[verifier::rlimit(100)]
    pub fn resolve(
        &mut self,
        id: u64,
        resolver: u64,
        outcome: ResolveOutcome,
        note: Option<Vec<u8>>,
        tick: u64,
    ) -> (r: Result<(), CreditError>)
        requires
            old(self).wf(),
        ensures
            final(self).wf(),
            (id < 1 || id > old(self).items@.len()) ==> *final(self) == *old(self) && r == Err::<
                (),
                CreditError,
            >(CreditError::NotFound),
            (1 <= id <= old(self).items@.len() && old(self).items@[id - 1].status
                != ItemStatus::Pending) ==> *final(self) == *old(self) && r == Err::<
                (),
                CreditError,
            >(CreditError::StateConflict),
            (1 <= id <= old(self).items@.len() && old(self).items@[id - 1].status
                == ItemStatus::Pending) ==> {
                &&& r == Ok::<(), CreditError>(())
                &&& final(self).items@ == old(self).items@.update(
                    id - 1,
                    (VerificationItem {
                        status: (match outcome {
                            ResolveOutcome::Approve => ItemStatus::Approved,
                            ResolveOutcome::Reject => ItemStatus::Rejected,
                        }),
                        resolved_tick: Some(tick),
                        resolver: Some(resolver),
                        note: note,
                        ..old(self).items@[id - 1]
                    }),
                )
                &&& final(self).pending@ == queue_without(old(self).pending@, id)
                &&& final(self).max_items_per_owner == old(self).max_items_per_owner
            },
    {
        if id < 1 || id > self.items.len() as u64 {
            return Err(CreditError::NotFound);
        }
        let idx = (id - 1) as usize;
        let is_pending = matches!(self.items[idx].status, ItemStatus::Pending);
        if !is_pending {
            return Err(CreditError::StateConflict);
        }
        let ghost old_items = self.items@;
        let ghost old_pending = self.pending@;
        let slot = &mut self.items[idx];
        slot.status = match outcome {
            ResolveOutcome::Approve => ItemStatus::Approved,
            ResolveOutcome::Reject => ItemStatus::Rejected,
        };
        slot.resolved_tick = Some(tick);
        slot.resolver = Some(resolver);
        slot.note = note;
        let ghost mid_items = self.items@;
        let mut new_pending: Vec<(u64, u64)> = Vec::new();
        let mut k: usize = 0;
        while k < self.pending.len()
            invariant
                k <= self.pending@.len(),
                self.items@ == mid_items,
                self.pending@ == old_pending,
                self.max_items_per_owner == old(self).max_items_per_owner,
                new_pending@ == queue_without(self.pending@.subrange(0, k as int), id),
            decreases self.pending@.len() - k,
        {
            proof {
                assert(self.pending@.subrange(0, k + 1).drop_last() =~= self.pending@.subrange(
                    0,
                    k as int,
                ));
                assert(self.pending@.subrange(0, k + 1).last() == self.pending@[k as int]);
            }
            let e = self.pending[k];
            if e.0 != id {
                new_pending.push(e);
            }
            k = k + 1;
        }
        proof {
            assert(self.pending@.subrange(0, self.pending@.len() as int) =~= self.pending@);
        }
        self.pending = new_pending;
        proof {
            lemma_queue_without(old_pending, id);
            assert(self.items@ =~= old_items.update(
                id - 1,
                (VerificationItem {
                    status: (match outcome {
                        ResolveOutcome::Approve => ItemStatus::Approved,
                        ResolveOutcome::Reject => ItemStatus::Rejected,
                    }),
                    resolved_tick: Some(tick),
                    resolver: Some(resolver),
                    note: self.items@[id - 1].note,
                    ..old_items[id - 1]
                }),
            ));
            assert forall|i: int|
                0 <= i < self.items@.len() && (#[trigger] self.items@[i]).status
                    == ItemStatus::Pending implies pending_contains(
                self.pending@,
                self.items@[i].id,
            ) by {
                assert(i != id - 1);
                assert(self.items@[i] == old_items[i]);
                assert(pending_contains(old_pending, old_items[i].id));
                assert(old_items[i].id == i + 1);
                assert(pending_contains(queue_without(old_pending, id), old_items[i].id));
            }
            assert forall|k2: int| 0 <= k2 < self.pending@.len() implies 1 <= (
            #[trigger] self.pending@[k2]).0 <= self.items@.len()
                && self.items@[self.pending@[k2].0 - 1].status == ItemStatus::Pending
                && self.items@[self.pending@[k2].0 - 1].submitted_tick == self.pending@[k2].1 by {
                assert(self.pending@[k2] == queue_without(old_pending, id)[k2]);
                let k0 = choose|k0: int|
                    0 <= k0 < old_pending.len() && old_pending[k0] == queue_without(
                        old_pending,
                        id,
                    )[k2];
                let x = self.pending@[k2].0;
                assert(queue_without(old_pending, id)[k2].0 == x);
                assert(pending_contains(queue_without(old_pending, id), x));
                assert(x != id);
                assert(self.items@[old_pending[k0].0 - 1] == old_items[old_pending[k0].0 - 1]);
            }
        }
        Ok(())
    }

    /// Runs one timeout sweep: every pending item whose submission lies more
    /// than `timeout` ticks in the past is forced to `Expired` and removed
    /// from the queue; every other item — in particular every already
    /// resolved or expired one — is untouched, so the sweep is idempotent.
    /// Returns the expired ids in submission order.
#[verifier::spinoff_prover]
    #[verifier::rlimit(100)]
    pub fn tick_maintenance(&mut self, current_tick: u64, timeout: u64) -> (events: Vec<u64>)
        requires
            old(self).wf(),
        ensures
            final(self).wf(),
            final(self).items@.len() == old(self).items@.len(),
            forall|j: int|
                0 <= j < old(self).items@.len() ==> final(self).items@[j] == expire_step(
                    old(self).items@[j],
                    current_tick,
                    timeout,
                ),
            final(self).pending@ == queue_after_sweep(old(self).pending@, current_tick, timeout),
            events@ == expired_ids(old(self).items@, current_tick, timeout),
            final(self).max_items_per_owner == old(self).max_items_per_owner,
    {
        let ghost old_items = self.items@;
        let ghost old_pending = self.pending@;
        let mut events: Vec<u64> = Vec::new();
        let mut j: usize = 0;
        let n = self.items.len();
        while j < n
            invariant
                j <= n,
                n == self.items@.len(),
                self.items@.len() == old_items.len(),
                self.pending@ == old_pending,
                self.max_items_per_owner == old(self).max_items_per_owner,
                forall|i: int|
                    0 <= i < j ==> self.items@[i] == expire_step(
                        old_items[i],
                        current_tick,
                        timeout,
                    ),
                forall|i: int| j <= i < n ==> self.items@[i] == old_items[i],
                events@ == expired_ids(old_items.subrange(0, j as int), current_tick, timeout),
            decreases n - j,
        {
            proof {
                assert(old_items.subrange(0, j + 1).drop_last() =~= old_items.subrange(
                    0,
                    j as int,
                ));
                assert(old_items.subrange(0, j + 1).last() == old_items[j as int]);
            }
            let is_pending = matches!(self.items[j].status, ItemStatus::Pending);
            let submitted = self.items[j].submitted_tick;
            if is_pending && submitted <= current_tick && current_tick - submitted > timeout {
                let id = self.items[j].id;
                let slot = &mut self.items[j];
                slot.status = ItemStatus::Expired;
                events.push(id);
            }
            j = j + 1;
        }
        proof {
            assert(old_items.subrange(0, n as int) =~= old_items);
        }
        let ghost swept_items = self.items@;
        let ghost swept_events = events@;
        let mut new_pending: Vec<(u64, u64)> = Vec::new();
        let mut k: usize = 0;
        while k < self.pending.len()
            invariant
                k <= self.pending@.len(),
                self.items@ == swept_items,
                self.pending@ == old_pending,
                self.max_items_per_owner == old(self).max_items_per_owner,
                events@ == swept_events,
                new_pending@ == queue_after_sweep(
                    self.pending@.subrange(0, k as int),
                    current_tick,
                    timeout,
                ),
            decreases self.pending@.len() - k,
        {
            proof {
                assert(self.pending@.subrange(0, k + 1).drop_last() =~= self.pending@.subrange(
                    0,
                    k as int,
                ));
                assert(self.pending@.subrange(0, k + 1).last() == self.pending@[k as int]);
            }
            let e = self.pending[k];
            if !(e.1 <= current_tick && current_tick - e.1 > timeout) {
                new_pending.push(e);
            }
            k = k + 1;
        }
        proof {
            assert(self.pending@.subrange(0, self.pending@.len() as int) =~= self.pending@);
        }
        self.pending = new_pending;
        proof {
            lemma_queue_after_sweep(old_pending, current_tick, timeout);
            let qs = queue_after_sweep(old_pending, current_tick, timeout);
            assert(self.pending@ == qs);
            assert forall|i: int|
                0 <= i < self.items@.len() && (#[trigger] self.items@[i]).status
                    == ItemStatus::Pending implies pending_contains(
                self.pending@,
                self.items@[i].id,
            ) by {
                assert(self.items@[i] == expire_step(old_items[i], current_tick, timeout));
                assert(old_items[i].status == ItemStatus::Pending);
                assert(!item_expire_due(old_items[i], current_tick, timeout));
                let id = old_items[i].id;
                assert(pending_contains(old_pending, id));
                let k0 = choose|k0: int|
                    0 <= k0 < old_pending.len() && old_pending[k0].0 == id;
                assert(id == i + 1);
                assert(old_pending[k0].1 == old_items[i].submitted_tick);
                assert(!entry_expire_due(old_pending[k0], current_tick, timeout));
                assert(exists|kk: int|
                    0 <= kk < old_pending.len() && old_pending[kk].0 == id && !entry_expire_due(
                        old_pending[kk],
                        current_tick,
                        timeout,
                    ));
                assert(pending_contains(
                    queue_after_sweep(old_pending, current_tick, timeout),
                    id,
                ));
                assert(pending_contains(qs, id));
            }
            assert forall|k2: int| 0 <= k2 < self.pending@.len() implies 1 <= (
            #[trigger] self.pending@[k2]).0 <= self.items@.len()
                && self.items@[self.pending@[k2].0 - 1].status == ItemStatus::Pending
                && self.items@[self.pending@[k2].0 - 1].submitted_tick == self.pending@[k2].1 by {
                assert(self.pending@[k2] == qs[k2]);
                let k0 = choose|k0: int| 0 <= k0 < old_pending.len() && old_pending[k0] == qs[k2];
                assert(pending_contains(
                    queue_after_sweep(old_pending, current_tick, timeout),
                    qs[k2].0,
                )) by {
                    assert(queue_after_sweep(old_pending, current_tick, timeout)[k2].0 == qs[k2].0);
                }
                assert(exists|kk: int|
                    0 <= kk < old_pending.len() && old_pending[kk].0 == qs[k2].0
                        && !entry_expire_due(old_pending[kk], current_tick, timeout));
                let kd = choose|kk: int|
                    0 <= kk < old_pending.len() && old_pending[kk].0 == qs[k2].0
                        && !entry_expire_due(old_pending[kk], current_tick, timeout);
                let i = old_pending[kd].0 - 1;
                assert(old_items[i].status == ItemStatus::Pending);
                assert(old_items[i].submitted_tick == old_pending[kd].1);
                assert(!item_expire_due(old_items[i], current_tick, timeout));
                assert(self.items@[i] == expire_step(old_items[i], current_tick, timeout));
                assert(old_pending[kd].1 == old_pending[k0].1) by {
                    assert(old_pending[k0].0 == old_pending[kd].0);
                    if k0 != kd {
                        assert(queue_sorted(old_pending));
                    }
                }
            }
        }
        events
    }

    /// The item with the given id, if any.
    pub fn get(&self, id: u64) -> (r: Option<&VerificationItem<P>>)
        requires
            self.wf(),
        ensures
            match r {
                Some(it) => 1 <= id <= self.items@.len() && *it == self.items@[id - 1],
                None => id < 1 || id > self.items@.len(),
            },
    {
        if id < 1 || id > self.items.len() as u64 {
            return None;
        }
        Some(&self.items[(id - 1) as usize])
    }

    /// How many items were ever submitted.
    pub fn item_count(&self) -> (r: usize)
        ensures
            r == self.items@.len(),
    {
        self.items.len()
    }

    /// How many items are pending.
    pub fn pending_count(&self) -> (r: usize)
        ensures
            r == self.pending@.len(),
    {
        self.pending.len()
    }
}

/// The owner count never exceeds the list length.
pub proof fn lemma_count_owned_bounds<P>(s: Seq<VerificationItem<P>>, owner: u64)
    ensures
        0 <= count_owned(s, owner) <= s.len(),
    decreases s.len(),
{
    if s.len() > 0 {
        lemma_count_owned_bounds(s.drop_last(), owner);
    }
}

/// A sweep at or before an item's deadline leaves a pending item pending; the
/// first sweep past the deadline expires it, and never earlier.
pub proof fn lemma_timeout_exact<P>(it: VerificationItem<P>, now: u64, timeout: u64)
    ensures
        it.status == ItemStatus::Pending && now - it.submitted_tick <= timeout ==> expire_step(
            it,
            now,
            timeout,
        ) == it,
        it.status == ItemStatus::Pending && now - it.submitted_tick > timeout ==> expire_step(
            it,
            now,
            timeout,
        ) == (VerificationItem { status: ItemStatus::Expired, ..it }),
{
}

/// Terminal states are final under the sweep: an item that is `Approved`,
/// `Rejected` or `Expired` is left exactly as it is, so sweeping is
/// idempotent.
pub proof fn lemma_sweep_final<P>(it: VerificationItem<P>, now: u64, timeout: u64)
    ensures
        it.status != ItemStatus::Pending ==> expire_step(it, now, timeout) == it,
        expire_step(expire_step(it, now, timeout), now, timeout) == expire_step(it, now, timeout),
{
}

} // verus!
