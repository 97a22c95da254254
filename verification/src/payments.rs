//! The payment registry: records payments between principals and drives each
//! one through its lifecycle.
//!
//! A payment is `Pending` from creation; it becomes `Verified` by an explicit
//! verification or by the per-tick sweep once its verification period has
//! passed, then `Completed`, or `Failed` from either live state; a `Verified`
//! or `Completed` payment can be `Disputed` by its payer or payee, and a
//! dispute resolves back to `Completed`.

use vstd::prelude::*;
use crate::errors::CreditError;
use crate::registry::{entry_expire_due, lemma_queue_without, pending_contains, queue_sorted, queue_without};
use crate::util::{accumulate, add_sat_u128, bump, copy_all, inc_sat};

verus! {

/// Lifecycle state of a payment.
#[derive(Clone, Copy, PartialEq, Eq, Structural, Debug)]
pub enum PaymentStatus {
    Pending,
    Verified,
    Completed,
    Failed,
    Disputed,
}

/// One recorded payment.
pub struct PaymentRecord {
    /// Monotonically assigned id, starting at 1.
    pub id: u64,
    pub payer: u64,
    pub payee: u64,
    pub amount: u128,
    pub currency: Vec<u8>,
    pub description: Vec<u8>,
    pub status: PaymentStatus,
    pub created_tick: u64,
    pub verified_tick: Option<u64>,
    pub completed_tick: Option<u64>,
    pub transaction_hash: Option<Vec<u8>>,
    pub metadata: Vec<u8>,
}

/// Monotone counters over the payment lifecycle.
#[derive(Clone, Copy, PartialEq, Eq, Structural, Debug)]
pub struct PaymentStatistics {
    pub total_payments: u64,
    pub total_volume: u128,
    pub successful_payments: u64,
    pub failed_payments: u64,
    pub disputed_payments: u64,
}

/// The notification payload a successful payment command reports.
#[derive(Debug)]
pub struct PaymentNotice {
    pub payment_id: u64,
    /// The reason, resolution or transaction hash the command carried.
    pub detail: Vec<u8>,
}

/// How many payments `payer` has created (all-time: resolution does not free
/// a slot).
pub open spec fn count_payer(s: Seq<PaymentRecord>, payer: u64) -> int
    decreases s.len(),
{
    if s.len() == 0 {
        0
    } else {
        count_payer(s.drop_last(), payer) + if s.last().payer == payer {
            1int
        } else {
            0int
        }
    }
}

/// The payer count never exceeds the list length.
pub proof fn lemma_count_payer_bounds(s: Seq<PaymentRecord>, payer: u64)
    ensures
        0 <= count_payer(s, payer) <= s.len(),
    decreases s.len(),
{
    if s.len() > 0 {
        lemma_count_payer_bounds(s.drop_last(), payer);
    }
}

/// Whether the sweep auto-verifies this payment.
pub open spec fn auto_verify_due(p: PaymentRecord, now: u64, period: u64) -> bool {
    p.status == PaymentStatus::Pending && now - p.created_tick > period
}

/// What the sweep does to one payment: a pending payment past its
/// verification period becomes `Verified` at the sweep's tick; every other
/// payment is untouched.
pub open spec fn auto_verify_step(p: PaymentRecord, now: u64, period: u64) -> PaymentRecord {
    if auto_verify_due(p, now, period) {
        PaymentRecord { status: PaymentStatus::Verified, verified_tick: Some(now), ..p }
    } else {
        p
    }
}

/// The ids the sweep auto-verifies, in submission (id) order.
pub open spec fn auto_verified_ids(s: Seq<PaymentRecord>, now: u64, period: u64) -> Seq<u64>
    decreases s.len(),
{
    if s.len() == 0 {
        Seq::<u64>::empty()
    } else if auto_verify_due(s.last(), now, period) {
        auto_verified_ids(s.drop_last(), now, period).push(s.last().id)
    } else {
        auto_verified_ids(s.drop_last(), now, period)
    }
}

/// The queue after one sweep: entries past the verification period removed,
/// order kept. (Same removal rule as the document sweep, different effect on
/// the record: payments auto-verify instead of expiring.)
pub open spec fn payment_queue_after_sweep(q: Seq<(u64, u64)>, now: u64, period: u64) -> Seq<
    (u64, u64),
>
    decreases q.len(),
{
    if q.len() == 0 {
        Seq::<(u64, u64)>::empty()
    } else if !entry_expire_due(q.last(), now, period) {
        payment_queue_after_sweep(q.drop_last(), now, period).push(q.last())
    } else {
        payment_queue_after_sweep(q.drop_last(), now, period)
    }
}

/// The sweep keeps exactly the entries short of their deadline, in order.
pub proof fn lemma_payment_queue_after_sweep(q: Seq<(u64, u64)>, now: u64, period: u64)
    ensures
        forall|x: u64|
            (#[trigger] pending_contains(payment_queue_after_sweep(q, now, period), x)) <==> exists|
                k0: int,
            |
                0 <= k0 < q.len() && q[k0].0 == x && !entry_expire_due(q[k0], now, period),
        forall|k: int|
            0 <= k < payment_queue_after_sweep(q, now, period).len() ==> exists|k0: int|
                0 <= k0 < q.len() && q[k0] == #[trigger] payment_queue_after_sweep(
                    q,
                    now,
                    period,
                )[k],
        queue_sorted(q) ==> queue_sorted(payment_queue_after_sweep(q, now, period)),
    decreases q.len(),
{
    if q.len() > 0 {
        let q0 = q.drop_last();
        lemma_payment_queue_after_sweep(q0, now, period);
        let w = payment_queue_after_sweep(q, now, period);
        let w0 = payment_queue_after_sweep(q0, now, period);
        assert forall|k0: int| 0 <= k0 < q0.len() implies q0[k0] == q[k0] by {}
        assert(q.last() == q[q.len() - 1]);
        if !entry_expire_due(q.last(), now, period) {
            assert(w == w0.push(q.last()));
        } else {
            assert(w == w0);
        }
        assert forall|x: u64| pending_contains(w, x) implies exists|k0: int|
            0 <= k0 < q.len() && q[k0].0 == x && !entry_expire_due(q[k0], now, period) by {
            let k = choose|k: int| 0 <= k < w.len() && w[k].0 == x;
            if !entry_expire_due(q.last(), now, period) && k == w.len() - 1 {
                assert(q[q.len() - 1].0 == x && !entry_expire_due(q[q.len() - 1], now, period));
            } else {
                assert(w[k] == w0[k]);
                assert(pending_contains(payment_queue_after_sweep(q0, now, period), x));
                let k0 = choose|k0: int|
                    0 <= k0 < q0.len() && q0[k0].0 == x && !entry_expire_due(q0[k0], now, period);
                assert(q[k0].0 == x && !entry_expire_due(q[k0], now, period));
            }
        }
        assert forall|x: u64| (exists|k0: int|
            0 <= k0 < q.len() && q[k0].0 == x && !entry_expire_due(q[k0], now, period)) implies
            pending_contains(w, x) by {
            let k = choose|k: int|
                0 <= k < q.len() && q[k].0 == x && !entry_expire_due(q[k], now, period);
            if k == q.len() - 1 {
                assert(w == w0.push(q.last()));
                assert(w[w.len() - 1].0 == x);
            } else {
                assert(q0[k].0 == x && !entry_expire_due(q0[k], now, period));
                assert(exists|kk: int|
                    0 <= kk < q0.len() && q0[kk].0 == x && !entry_expire_due(q0[kk], now, period));
                assert(pending_contains(payment_queue_after_sweep(q0, now, period), x));
                let k1 = choose|k1: int| 0 <= k1 < w0.len() && w0[k1].0 == x;
                if !entry_expire_due(q.last(), now, period) {
                    assert(w[k1] == w0[k1]);
                } else {
                    assert(w == w0);
                }
                assert(w[k1].0 == x);
            }
        }
        if !entry_expire_due(q.last(), now, period) {
            if queue_sorted(q) {
                assert(queue_sorted(q0));
                assert forall|k1: int, k2: int| 0 <= k1 < k2 < w.len() implies w[k1].0 < w[k2].0 by {
                    if k2 < w.len() - 1 {
                        assert(w[k1] == w0[k1] && w[k2] == w0[k2]);
                    } else {
                        assert(w[k1] == w0[k1]);
                        let k0 = choose|k0: int| 0 <= k0 < q0.len() && q0[k0] == w0[k1];
                        assert(q[k0].0 < q[q.len() - 1].0);
                    }
                }
            }
        }
    }
}

/// The payment registry: configuration, all payments ever created (payment
/// `id` at index `id - 1`), the queue of pending ids, and the counters.
pub struct PaymentRegistry {
    /// Smallest amount the configuration admits.
    pub min_amount: u128,
    /// Largest amount the configuration admits.
    pub max_amount: u128,
    /// Cap on payments per payer, checked at creation.
    pub max_payments_per_payer: usize,
    /// Ticks after which a pending payment is auto-verified by the sweep.
    pub verification_period: u64,
    pub payments: Vec<PaymentRecord>,
    /// `(id, created_tick)` of every pending payment, in creation order.
    pub pending: Vec<(u64, u64)>,
    pub stats: PaymentStatistics,
}

impl PaymentRegistry {
    /// Well-formed: ids are dense and index-aligned; the queue lists exactly
    /// the pending payments, in creation order, with their creation ticks.
    pub open spec fn wf(self) -> bool {
        &&& self.min_amount <= self.max_amount
        &&& forall|i: int| 0 <= i < self.payments@.len() ==> (#[trigger] self.payments@[i]).id == i + 1
        &&& forall|k: int|
            0 <= k < self.pending@.len() ==> 1 <= (#[trigger] self.pending@[k]).0
                <= self.payments@.len() && self.payments@[self.pending@[k].0 - 1].status
                == PaymentStatus::Pending && self.payments@[self.pending@[k].0 - 1].created_tick
                == self.pending@[k].1
        &&& forall|i: int|
            0 <= i < self.payments@.len() && (#[trigger] self.payments@[i]).status
                == PaymentStatus::Pending ==> pending_contains(self.pending@, self.payments@[i].id)
        &&& queue_sorted(self.pending@)
    }

    /// A fresh registry with the given configuration.
    pub fn new(
        min_amount: u128,
        max_amount: u128,
        max_payments_per_payer: usize,
        verification_period: u64,
    ) -> (r: PaymentRegistry)
        requires
            min_amount <= max_amount,
        ensures
            r.wf(),
            r.payments@.len() == 0,
            r.pending@.len() == 0,
            r.min_amount == min_amount,
            r.max_amount == max_amount,
            r.max_payments_per_payer == max_payments_per_payer,
            r.verification_period == verification_period,
            r.stats == (PaymentStatistics {
                total_payments: 0,
                total_volume: 0,
                successful_payments: 0,
                failed_payments: 0,
                disputed_payments: 0,
            }),
    {
        PaymentRegistry {
            min_amount,
            max_amount,
            max_payments_per_payer,
            verification_period,
            payments: Vec::new(),
            pending: Vec::new(),
            stats: PaymentStatistics {
                total_payments: 0,
                total_volume: 0,
                successful_payments: 0,
                failed_payments: 0,
                disputed_payments: 0,
            },
        }
    }

    /// Creates a payment. The amount must lie in the configured band
    /// (`AmountTooLow` / `AmountTooHigh`, checked in that order) and the
    /// payer must be below the per-payer cap (`CapacityError`); the payment
    /// is then stored pending under the next id, queued, and counted.
    pub fn create_payment(
        &mut self,
        payer: u64,
        payee: u64,
        amount: u128,
        currency: Vec<u8>,
        description: Vec<u8>,
        metadata: Vec<u8>,
        tick: u64,
    ) -> (r: Result<u64, CreditError>)
        requires
            old(self).wf(),
            old(self).payments@.len() < u64::MAX - 1,
        ensures
            final(self).wf(),
            amount < old(self).min_amount ==> *final(self) == *old(self) && r == Err::<
                u64,
                CreditError,
            >(CreditError::AmountTooLow),
            amount >= old(self).min_amount && amount > old(self).max_amount ==> *final(self)
                == *old(self) && r == Err::<u64, CreditError>(CreditError::AmountTooHigh),
            old(self).min_amount <= amount <= old(self).max_amount && count_payer(
                old(self).payments@,
                payer,
            ) >= old(self).max_payments_per_payer ==> *final(self) == *old(self) && r == Err::<
                u64,
                CreditError,
            >(CreditError::CapacityError),
            old(self).min_amount <= amount <= old(self).max_amount && count_payer(
                old(self).payments@,
                payer,
            ) < old(self).max_payments_per_payer ==> {
                let id = (old(self).payments@.len() + 1) as u64;
                &&& r == Ok::<u64, CreditError>(id)
                &&& final(self).payments@.len() == old(self).payments@.len() + 1
                &&& final(self).payments@.drop_last() == old(self).payments@
                &&& final(self).payments@.last().id == id
                &&& final(self).payments@.last().payer == payer
                &&& final(self).payments@.last().payee == payee
                &&& final(self).payments@.last().amount == amount
                &&& final(self).payments@.last().currency@ == currency@
                &&& final(self).payments@.last().description@ == description@
                &&& final(self).payments@.last().metadata@ == metadata@
                &&& final(self).payments@.last().status == PaymentStatus::Pending
                &&& final(self).payments@.last().created_tick == tick
                &&& final(self).payments@.last().verified_tick is None
                &&& final(self).payments@.last().completed_tick is None
                &&& final(self).payments@.last().transaction_hash is None
                &&& final(self).pending@ == old(self).pending@.push((id, tick))
                &&& final(self).stats == (PaymentStatistics {
                    total_payments: inc_sat(old(self).stats.total_payments),
                    total_volume: add_sat_u128(old(self).stats.total_volume, amount),
                    ..old(self).stats
                })
                &&& final(self).min_amount == old(self).min_amount
                &&& final(self).max_amount == old(self).max_amount
                &&& final(self).max_payments_per_payer == old(self).max_payments_per_payer
                &&& final(self).verification_period == old(self).verification_period
            },
    {
        if amount < self.min_amount {
            return Err(CreditError::AmountTooLow);
        }
        if amount > self.max_amount {
            return Err(CreditError::AmountTooHigh);
        }
        let mut cnt: u64 = 0;
        let mut i: usize = 0;
        let ghost payments_view = self.payments@;
        proof {
            lemma_count_payer_bounds(self.payments@, payer);
        }
        while i < self.payments.len()
            invariant
                *self == *old(self),
                self.payments@ == payments_view,
                i <= payments_view.len(),
                payments_view.len() < u64::MAX - 1,
                cnt == count_payer(payments_view.subrange(0, i as int), payer),
                cnt <= i,
            decreases payments_view.len() - i,
        {
            proof {
                assert(payments_view.subrange(0, i + 1).drop_last() =~= payments_view.subrange(
                    0,
                    i as int,
                ));
                assert(payments_view.subrange(0, i + 1).last() == payments_view[i as int]);
            }
            if self.payments[i].payer == payer {
                cnt = cnt + 1;
            }
            i = i + 1;
        }
        proof {
            assert(payments_view.subrange(0, payments_view.len() as int) =~= payments_view);
        }
        if cnt >= self.max_payments_per_payer as u64 {
            return Err(CreditError::CapacityError);
        }
        let id = self.payments.len() as u64 + 1;
        let record = PaymentRecord {
            id,
            payer,
            payee,
            amount,
            currency,
            description,
            status: PaymentStatus::Pending,
            created_tick: tick,
            verified_tick: None,
            completed_tick: None,
            transaction_hash: None,
            metadata,
        };
        let ghost old_payments = self.payments@;
        let ghost old_pending = self.pending@;
        self.payments.push(record);
        self.pending.push((id, tick));
        bump(&mut self.stats.total_payments);
        accumulate(&mut self.stats.total_volume, amount);
        proof {
            assert(self.payments@.drop_last() =~= old_payments);
            assert forall|i2: int|
                0 <= i2 < self.payments@.len() && (#[trigger] self.payments@[i2]).status
                    == PaymentStatus::Pending implies pending_contains(
                self.pending@,
                self.payments@[i2].id,
            ) by {
                if i2 < old_payments.len() {
                    assert(self.payments@[i2] == old_payments[i2]);
                    let k = choose|k: int|
                        0 <= k < old_pending.len() && old_pending[k].0 == old_payments[i2].id;
                    assert(self.pending@[k].0 == self.payments@[i2].id);
                } else {
                    assert(self.pending@[self.pending@.len() - 1].0 == id);
                }
            }
            assert forall|k: int| 0 <= k < self.pending@.len() implies 1 <= (
            #[trigger] self.pending@[k]).0 <= self.payments@.len()
                && self.payments@[self.pending@[k].0 - 1].status == PaymentStatus::Pending
                && self.payments@[self.pending@[k].0 - 1].created_tick == self.pending@[k].1 by {
                if k < old_pending.len() {
                    assert(self.pending@[k] == old_pending[k]);
                    assert(self.payments@[old_pending[k].0 - 1] == old_payments[old_pending[k].0
                        - 1]);
                }
            }
        }
        Ok(id)
    }

    /// Removes the queue entry for `id`, keeping every other entry in order.
    fn dequeue(&mut self, id: u64)
        ensures
            final(self).pending@ == queue_without(old(self).pending@, id),
            final(self).payments == old(self).payments,
            final(self).stats == old(self).stats,
            final(self).min_amount == old(self).min_amount,
            final(self).max_amount == old(self).max_amount,
            final(self).max_payments_per_payer == old(self).max_payments_per_payer,
            final(self).verification_period == old(self).verification_period,
    {
        let mut new_pending: Vec<(u64, u64)> = Vec::new();
        let mut k: usize = 0;
        let ghost pre = *self;
        while k < self.pending.len()
            invariant
                *self == pre,
                k <= self.pending@.len(),
                new_pending@ == queue_without(self.pending@.subrange(0, k as int), id),
            decreases self.pending@.len() - k,
        {
            proof {
                assert(self.pending@.subrange(0, k + 1).drop_last() =~= self.pending@.subrange(
                    0,
                    k as int,
                ));
                assert(self.pending@.subrange(0, k + 1).last() == self.pending@[k as int]);
            }
            let e = self.pending[k];
            if e.0 != id {
                new_pending.push(e);
            }
            k = k + 1;
        }
        proof {
            assert(self.pending@.subrange(0, self.pending@.len() as int) =~= self.pending@);
        }
        self.pending = new_pending;
    }

    /// Marks a pending payment `Verified`, recording the tick and the
    /// transaction hash, and dequeues it. An unknown id is rejected with
    /// `NotFound`; any other state with `StateConflict`.
#[verifier::spinoff_prover]
    #[verifier::rlimit(100)]
    pub fn verify_payment(&mut self, payment_id: u64, transaction_hash: Vec<u8>, tick: u64) -> (r:
        Result<(), CreditError>)
        requires
            old(self).wf(),
        ensures
            final(self).wf(),
            (payment_id < 1 || payment_id > old(self).payments@.len()) ==> *final(self) == *old(
                self,
            ) && r == Err::<(), CreditError>(CreditError::NotFound),
            (1 <= payment_id <= old(self).payments@.len() && old(self).payments@[payment_id
                - 1].status != PaymentStatus::Pending) ==> *final(self) == *old(self) && r == Err::<
                (),
                CreditError,
            >(CreditError::StateConflict),
            (1 <= payment_id <= old(self).payments@.len() && old(self).payments@[payment_id
                - 1].status == PaymentStatus::Pending) ==> {
                &&& r == Ok::<(), CreditError>(())
                &&& final(self).payments@ == old(self).payments@.update(
                    payment_id - 1,
                    (PaymentRecord {
                        status: PaymentStatus::Verified,
                        verified_tick: Some(tick),
                        transaction_hash: Some(transaction_hash),
                        ..old(self).payments@[payment_id - 1]
                    }),
                )
                &&& final(self).pending@ == queue_without(old(self).pending@, payment_id)
                &&& final(self).stats == old(self).stats
                &&& final(self).min_amount == old(self).min_amount
                &&& final(self).max_amount == old(self).max_amount
                &&& final(self).max_payments_per_payer == old(self).max_payments_per_payer
                &&& final(self).verification_period == old(self).verification_period
            },
    {
        if payment_id < 1 || payment_id > self.payments.len() as u64 {
            return Err(CreditError::NotFound);
        }
        let idx = (payment_id - 1) as usize;
        if !matches!(self.payments[idx].status, PaymentStatus::Pending) {
            return Err(CreditError::StateConflict);
        }
        let ghost old_payments = self.payments@;
        let ghost old_pending = self.pending@;
        let slot = &mut self.payments[idx];
        slot.status = PaymentStatus::Verified;
        slot.verified_tick = Some(tick);
        slot.transaction_hash = Some(transaction_hash);
        self.dequeue(payment_id);
        proof {
            lemma_queue_without(old_pending, payment_id);
            self.lemma_after_unpend(old_payments, old_pending, payment_id);
        }
        Ok(())
    }

    /// After payment `id` left `Pending` and its entry was removed, the
    /// queue invariants hold again.
    proof fn lemma_after_unpend(
        self,
        old_payments: Seq<PaymentRecord>,
        old_pending: Seq<(u64, u64)>,
        id: u64,
    )
        requires
            1 <= id <= old_payments.len(),
            forall|i: int| 0 <= i < old_payments.len() ==> (#[trigger] old_payments[i]).id == i + 1,
            forall|k: int|
                0 <= k < old_pending.len() ==> 1 <= (#[trigger] old_pending[k]).0
                    <= old_payments.len() && old_payments[old_pending[k].0 - 1].status
                    == PaymentStatus::Pending && old_payments[old_pending[k].0 - 1].created_tick
                    == old_pending[k].1,
            forall|i: int|
                0 <= i < old_payments.len() && (#[trigger] old_payments[i]).status
                    == PaymentStatus::Pending ==> pending_contains(old_pending, old_payments[i].id),
            queue_sorted(old_pending),
            self.payments@.len() == old_payments.len(),
            forall|i: int|
                0 <= i < old_payments.len() && i != id - 1 ==> self.payments@[i] == old_payments[i],
            self.payments@[id - 1].id == old_payments[id - 1].id,
            self.payments@[id - 1].created_tick == old_payments[id - 1].created_tick,
            self.payments@[id - 1].status != PaymentStatus::Pending,
            self.pending@ == queue_without(old_pending, id),
        ensures
            self.wf() <== self.min_amount <= self.max_amount,
    {
        lemma_queue_without(old_pending, id);
        if self.min_amount <= self.max_amount {
            assert forall|i: int| 0 <= i < self.payments@.len() implies (
            #[trigger] self.payments@[i]).id == i + 1 by {
                if i != id - 1 {
                    assert(self.payments@[i] == old_payments[i]);
                }
            }
            assert(queue_sorted(self.pending@));
            assert forall|i: int|
                0 <= i < self.payments@.len() && (#[trigger] self.payments@[i]).status
                    == PaymentStatus::Pending implies pending_contains(
                self.pending@,
                self.payments@[i].id,
            ) by {
                assert(i != id - 1);
                assert(self.payments@[i] == old_payments[i]);
                assert(pending_contains(old_pending, old_payments[i].id));
                assert(old_payments[i].id == i + 1);
                assert(pending_contains(queue_without(old_pending, id), old_payments[i].id));
            }
            assert forall|k2: int| 0 <= k2 < self.pending@.len() implies 1 <= (
            #[trigger] self.pending@[k2]).0 <= self.payments@.len()
                && self.payments@[self.pending@[k2].0 - 1].status == PaymentStatus::Pending
                && self.payments@[self.pending@[k2].0 - 1].created_tick == self.pending@[k2].1 by {
                assert(self.pending@[k2] == queue_without(old_pending, id)[k2]);
                let k0 = choose|k0: int|
                    0 <= k0 < old_pending.len() && old_pending[k0] == queue_without(
                        old_pending,
                        id,
                    )[k2];
                let x = self.pending@[k2].0;
                assert(queue_without(old_pending, id)[k2].0 == x);
                assert(pending_contains(queue_without(old_pending, id), x));
                assert(x != id);
                assert(self.payments@[old_pending[k0].0 - 1] == old_payments[old_pending[k0].0
                    - 1]);
            }
        }
    }

    /// Completes a verified payment, recording the tick and counting it
    /// successful; reports the payment's transaction hash (empty if none was
    /// recorded). Errors mirror `verify_payment`, with `StateConflict` for
    /// every state but `Verified`.
    pub fn complete_payment(&mut self, payment_id: u64, tick: u64) -> (r: Result<
        PaymentNotice,
        CreditError,
    >)
        requires
            old(self).wf(),
        ensures
            final(self).wf(),
            (payment_id < 1 || payment_id > old(self).payments@.len()) ==> *final(self) == *old(
                self,
            ) && r == Err::<PaymentNotice, CreditError>(CreditError::NotFound),
            (1 <= payment_id <= old(self).payments@.len() && old(self).payments@[payment_id
                - 1].status != PaymentStatus::Verified) ==> *final(self) == *old(self) && r
                == Err::<PaymentNotice, CreditError>(CreditError::StateConflict),
            (1 <= payment_id <= old(self).payments@.len() && old(self).payments@[payment_id
                - 1].status == PaymentStatus::Verified) ==> {
                &&& match r {
                    Ok(n) => n.payment_id == payment_id && n.detail@ == (match old(
                        self,
                    ).payments@[payment_id - 1].transaction_hash {
                        Some(h) => h@,
                        None => Seq::<u8>::empty(),
                    }),
                    Err(_) => false,
                }
                &&& final(self).payments@ == old(self).payments@.update(
                    payment_id - 1,
                    (PaymentRecord {
                        status: PaymentStatus::Completed,
                        completed_tick: Some(tick),
                        ..old(self).payments@[payment_id - 1]
                    }),
                )
                &&& final(self).pending@ == old(self).pending@
                &&& final(self).stats == (PaymentStatistics {
                    successful_payments: inc_sat(old(self).stats.successful_payments),
                    ..old(self).stats
                })
                &&& final(self).min_amount == old(self).min_amount
                &&& final(self).max_amount == old(self).max_amount
                &&& final(self).max_payments_per_payer == old(self).max_payments_per_payer
                &&& final(self).verification_period == old(self).verification_period
            },
    {
        if payment_id < 1 || payment_id > self.payments.len() as u64 {
            return Err(CreditError::NotFound);
        }
        let idx = (payment_id - 1) as usize;
        if !matches!(self.payments[idx].status, PaymentStatus::Verified) {
            return Err(CreditError::StateConflict);
        }
        let ghost old_payments = self.payments@;
        let detail: Vec<u8> = match &self.payments[idx].transaction_hash {
            Some(h) => copy_all(h),
            None => Vec::new(),
        };
        let slot = &mut self.payments[idx];
        slot.status = PaymentStatus::Completed;
        slot.completed_tick = Some(tick);
        bump(&mut self.stats.successful_payments);
        proof {
            self.lemma_still_wf(old_payments, payment_id);
        }
        Ok(PaymentNotice { payment_id, detail })
    }

    /// A status change away from `Pending` on a payment that was not
    /// `Pending` leaves the queue invariants intact.
    proof fn lemma_still_wf(self, old_payments: Seq<PaymentRecord>, id: u64)
        requires
            1 <= id <= old_payments.len(),
            forall|i: int| 0 <= i < old_payments.len() ==> (#[trigger] old_payments[i]).id == i + 1,
            forall|k: int|
                0 <= k < self.pending@.len() ==> 1 <= (#[trigger] self.pending@[k]).0
                    <= old_payments.len() && old_payments[self.pending@[k].0 - 1].status
                    == PaymentStatus::Pending && old_payments[self.pending@[k].0 - 1].created_tick
                    == self.pending@[k].1,
            forall|i: int|
                0 <= i < old_payments.len() && (#[trigger] old_payments[i]).status
                    == PaymentStatus::Pending ==> pending_contains(
                    self.pending@,
                    old_payments[i].id,
                ),
            queue_sorted(self.pending@),
            self.min_amount <= self.max_amount,
            self.payments@.len() == old_payments.len(),
            forall|i: int|
                0 <= i < old_payments.len() && i != id - 1 ==> self.payments@[i] == old_payments[i],
            self.payments@[id - 1].id == old_payments[id - 1].id,
            self.payments@[id - 1].created_tick == old_payments[id - 1].created_tick,
            old_payments[id - 1].status != PaymentStatus::Pending,
            self.payments@[id - 1].status != PaymentStatus::Pending,
        ensures
            self.wf(),
    {
        assert forall|i: int| 0 <= i < self.payments@.len() implies (
        #[trigger] self.payments@[i]).id == i + 1 by {
            if i != id - 1 {
                assert(self.payments@[i] == old_payments[i]);
            }
        }
        assert forall|i: int|
            0 <= i < self.payments@.len() && (#[trigger] self.payments@[i]).status
                == PaymentStatus::Pending implies pending_contains(
            self.pending@,
            self.payments@[i].id,
        ) by {
            assert(i != id - 1);
            assert(self.payments@[i] == old_payments[i]);
        }
        assert forall|k: int| 0 <= k < self.pending@.len() implies 1 <= (
        #[trigger] self.pending@[k]).0 <= self.payments@.len()
            && self.payments@[self.pending@[k].0 - 1].status == PaymentStatus::Pending
            && self.payments@[self.pending@[k].0 - 1].created_tick == self.pending@[k].1 by {
            assert(self.pending@[k].0 != id);
            assert(self.payments@[self.pending@[k].0 - 1] == old_payments[self.pending@[k].0 - 1]);
        }
    }

    /// Fails a live (`Pending` or `Verified`) payment with a reason, counting
    /// it failed and dequeuing it if it was still pending; any other state is
    /// rejected with `StateConflict`.
#[verifier::spinoff_prover]
    #[verifier::rlimit(100)]
    pub fn fail_payment(&mut self, payment_id: u64, reason: Vec<u8>, tick: u64) -> (r: Result<
        PaymentNotice,
        CreditError,
    >)
        requires
            old(self).wf(),
        ensures
            final(self).wf(),
            (payment_id < 1 || payment_id > old(self).payments@.len()) ==> *final(self) == *old(
                self,
            ) && r == Err::<PaymentNotice, CreditError>(CreditError::NotFound),
            (1 <= payment_id <= old(self).payments@.len() && !(old(self).payments@[payment_id
                - 1].status == PaymentStatus::Pending || old(self).payments@[payment_id - 1].status
                == PaymentStatus::Verified)) ==> *final(self) == *old(self) && r == Err::<
                PaymentNotice,
                CreditError,
            >(CreditError::StateConflict),
            (1 <= payment_id <= old(self).payments@.len() && (old(self).payments@[payment_id
                - 1].status == PaymentStatus::Pending || old(self).payments@[payment_id - 1].status
                == PaymentStatus::Verified)) ==> {
                &&& match r {
                    Ok(n) => n.payment_id == payment_id && n.detail@ == reason@,
                    Err(_) => false,
                }
                &&& final(self).payments@ == old(self).payments@.update(
                    payment_id - 1,
                    (PaymentRecord {
                        status: PaymentStatus::Failed,
                        ..old(self).payments@[payment_id - 1]
                    }),
                )
                &&& final(self).pending@ == (if old(self).payments@[payment_id - 1].status
                    == PaymentStatus::Pending {
                    queue_without(old(self).pending@, payment_id)
                } else {
                    old(self).pending@
                })
                &&& final(self).stats == (PaymentStatistics {
                    failed_payments: inc_sat(old(self).stats.failed_payments),
                    ..old(self).stats
                })
                &&& final(self).min_amount == old(self).min_amount
                &&& final(self).max_amount == old(self).max_amount
                &&& final(self).max_payments_per_payer == old(self).max_payments_per_payer
                &&& final(self).verification_period == old(self).verification_period
            },
    {
        if payment_id < 1 || payment_id > self.payments.len() as u64 {
            return Err(CreditError::NotFound);
        }
        let idx = (payment_id - 1) as usize;
        let was_pending = matches!(self.payments[idx].status, PaymentStatus::Pending);
        let was_verified = matches!(self.payments[idx].status, PaymentStatus::Verified);
        if !(was_pending || was_verified) {
            return Err(CreditError::StateConflict);
        }
        let ghost old_payments = self.payments@;
        let ghost old_pending = self.pending@;
        let slot = &mut self.payments[idx];
        slot.status = PaymentStatus::Failed;
        if was_pending {
            self.dequeue(payment_id);
            proof {
                lemma_queue_without(old_pending, payment_id);
                self.lemma_after_unpend(old_payments, old_pending, payment_id);
            }
        } else {
            proof {
                self.lemma_still_wf(old_payments, payment_id);
            }
        }
        bump(&mut self.stats.failed_payments);
        proof {
            if was_pending {
                self.lemma_after_unpend(old_payments, old_pending, payment_id);
            } else {
                self.lemma_still_wf(old_payments, payment_id);
            }
        }
        Ok(PaymentNotice { payment_id, detail: reason })
    }

    /// Disputes a `Verified` or `Completed` payment. Only the payer or the
    /// payee may dispute (`InsufficientPermissions`, checked after existence
    /// and before the state); any other state is rejected with
    /// `StateConflict`.
    pub fn dispute_payment(&mut self, payment_id: u64, disputer: u64, reason: Vec<u8>, tick: u64) -> (r:
        Result<PaymentNotice, CreditError>)
        requires
            old(self).wf(),
        ensures
            final(self).wf(),
            (payment_id < 1 || payment_id > old(self).payments@.len()) ==> *final(self) == *old(
                self,
            ) && r == Err::<PaymentNotice, CreditError>(CreditError::NotFound),
            (1 <= payment_id <= old(self).payments@.len() && old(self).payments@[payment_id
                - 1].payer != disputer && old(self).payments@[payment_id - 1].payee != disputer)
                ==> *final(self) == *old(self) && r == Err::<PaymentNotice, CreditError>(
                CreditError::InsufficientPermissions,
            ),
            (1 <= payment_id <= old(self).payments@.len() && (old(self).payments@[payment_id
                - 1].payer == disputer || old(self).payments@[payment_id - 1].payee == disputer)
                && !(old(self).payments@[payment_id - 1].status == PaymentStatus::Verified || old(
                self,
            ).payments@[payment_id - 1].status == PaymentStatus::Completed)) ==> *final(self)
                == *old(self) && r == Err::<PaymentNotice, CreditError>(CreditError::StateConflict),
            (1 <= payment_id <= old(self).payments@.len() && (old(self).payments@[payment_id
                - 1].payer == disputer || old(self).payments@[payment_id - 1].payee == disputer)
                && (old(self).payments@[payment_id - 1].status == PaymentStatus::Verified || old(
                self,
            ).payments@[payment_id - 1].status == PaymentStatus::Completed)) ==> {
                &&& match r {
                    Ok(n) => n.payment_id == payment_id && n.detail@ == reason@,
                    Err(_) => false,
                }
                &&& final(self).payments@ == old(self).payments@.update(
                    payment_id - 1,
                    (PaymentRecord {
                        status: PaymentStatus::Disputed,
                        ..old(self).payments@[payment_id - 1]
                    }),
                )
                &&& final(self).pending@ == old(self).pending@
                &&& final(self).stats == (PaymentStatistics {
                    disputed_payments: inc_sat(old(self).stats.disputed_payments),
                    ..old(self).stats
                })
                &&& final(self).min_amount == old(self).min_amount
                &&& final(self).max_amount == old(self).max_amount
                &&& final(self).max_payments_per_payer == old(self).max_payments_per_payer
                &&& final(self).verification_period == old(self).verification_period
            },
    {
        if payment_id < 1 || payment_id > self.payments.len() as u64 {
            return Err(CreditError::NotFound);
        }
        let idx = (payment_id - 1) as usize;
        if self.payments[idx].payer != disputer && self.payments[idx].payee != disputer {
            return Err(CreditError::InsufficientPermissions);
        }
        let was_verified = matches!(self.payments[idx].status, PaymentStatus::Verified);
        let was_completed = matches!(self.payments[idx].status, PaymentStatus::Completed);
        if !(was_verified || was_completed) {
            return Err(CreditError::StateConflict);
        }
        let ghost old_payments = self.payments@;
        let slot = &mut self.payments[idx];
        slot.status = PaymentStatus::Disputed;
        bump(&mut self.stats.disputed_payments);
        proof {
            self.lemma_still_wf(old_payments, payment_id);
        }
        Ok(PaymentNotice { payment_id, detail: reason })
    }

    /// Resolves a disputed payment back to `Completed`, reporting the
    /// resolution; any other state is rejected with `StateConflict`.
    pub fn resolve_dispute(&mut self, payment_id: u64, resolution: Vec<u8>, tick: u64) -> (r:
        Result<PaymentNotice, CreditError>)
        requires
            old(self).wf(),
        ensures
            final(self).wf(),
            (payment_id < 1 || payment_id > old(self).payments@.len()) ==> *final(self) == *old(
                self,
            ) && r == Err::<PaymentNotice, CreditError>(CreditError::NotFound),
            (1 <= payment_id <= old(self).payments@.len() && old(self).payments@[payment_id
                - 1].status != PaymentStatus::Disputed) ==> *final(self) == *old(self) && r
                == Err::<PaymentNotice, CreditError>(CreditError::StateConflict),
            (1 <= payment_id <= old(self).payments@.len() && old(self).payments@[payment_id
                - 1].status == PaymentStatus::Disputed) ==> {
                &&& match r {
                    Ok(n) => n.payment_id == payment_id && n.detail@ == resolution@,
                    Err(_) => false,
                }
                &&& final(self).payments@ == old(self).payments@.update(
                    payment_id - 1,
                    (PaymentRecord {
                        status: PaymentStatus::Completed,
                        ..old(self).payments@[payment_id - 1]
                    }),
                )
                &&& final(self).pending@ == old(self).pending@
                &&& final(self).stats == old(self).stats
                &&& final(self).min_amount == old(self).min_amount
                &&& final(self).max_amount == old(self).max_amount
                &&& final(self).max_payments_per_payer == old(self).max_payments_per_payer
                &&& final(self).verification_period == old(self).verification_period
            },
    {
        if payment_id < 1 || payment_id > self.payments.len() as u64 {
            return Err(CreditError::NotFound);
        }
        let idx = (payment_id - 1) as usize;
        if !matches!(self.payments[idx].status, PaymentStatus::Disputed) {
            return Err(CreditError::StateConflict);
        }
        let ghost old_payments = self.payments@;
        let slot = &mut self.payments[idx];
        slot.status = PaymentStatus::Completed;
        proof {
            self.lemma_still_wf(old_payments, payment_id);
        }
        Ok(PaymentNotice { payment_id, detail: resolution })
    }

    /// Runs one verification sweep: every payment pending for more than the
    /// configured period is auto-verified at this tick and dequeued; every
    /// other payment is untouched, so the sweep is idempotent. Returns the
    /// auto-verified ids in creation order.
#[verifier::spinoff_prover]
    #[verifier::rlimit(100)]
    pub fn tick_maintenance(&mut self, current_tick: u64) -> (events: Vec<u64>)
        requires
            old(self).wf(),
        ensures
            final(self).wf(),
            final(self).payments@.len() == old(self).payments@.len(),
            forall|j: int|
                0 <= j < old(self).payments@.len() ==> final(self).payments@[j] == auto_verify_step(
                    old(self).payments@[j],
                    current_tick,
                    old(self).verification_period,
                ),
            final(self).pending@ == payment_queue_after_sweep(
                old(self).pending@,
                current_tick,
                old(self).verification_period,
            ),
            events@ == auto_verified_ids(
                old(self).payments@,
                current_tick,
                old(self).verification_period,
            ),
            final(self).stats == old(self).stats,
            final(self).min_amount == old(self).min_amount,
            final(self).max_amount == old(self).max_amount,
            final(self).max_payments_per_payer == old(self).max_payments_per_payer,
            final(self).verification_period == old(self).verification_period,
    {
        let period = self.verification_period;
        let ghost old_payments = self.payments@;
        let ghost old_pending = self.pending@;
        let mut events: Vec<u64> = Vec::new();
        let mut j: usize = 0;
        let n = self.payments.len();
        while j < n
            invariant
                j <= n,
                n == self.payments@.len(),
                self.payments@.len() == old_payments.len(),
                self.pending@ == old_pending,
                self.stats == old(self).stats,
                self.min_amount == old(self).min_amount,
                self.max_amount == old(self).max_amount,
                self.max_payments_per_payer == old(self).max_payments_per_payer,
                self.verification_period == old(self).verification_period,
                period == old(self).verification_period,
                forall|i: int|
                    0 <= i < j ==> self.payments@[i] == auto_verify_step(
                        old_payments[i],
                        current_tick,
                        period,
                    ),
                forall|i: int| j <= i < n ==> self.payments@[i] == old_payments[i],
                events@ == auto_verified_ids(
                    old_payments.subrange(0, j as int),
                    current_tick,
                    period,
                ),
            decreases n - j,
        {
            proof {
                assert(old_payments.subrange(0, j + 1).drop_last() =~= old_payments.subrange(
                    0,
                    j as int,
                ));
                assert(old_payments.subrange(0, j + 1).last() == old_payments[j as int]);
            }
            let is_pending = matches!(self.payments[j].status, PaymentStatus::Pending);
            let created = self.payments[j].created_tick;
            if is_pending && created <= current_tick && current_tick - created > period {
                let id = self.payments[j].id;
                let slot = &mut self.payments[j];
                slot.status = PaymentStatus::Verified;
                slot.verified_tick = Some(current_tick);
                events.push(id);
            }
            j = j + 1;
        }
        proof {
            assert(old_payments.subrange(0, n as int) =~= old_payments);
        }
        let ghost swept_payments = self.payments@;
        let ghost swept_events = events@;
        let mut new_pending: Vec<(u64, u64)> = Vec::new();
        let mut k: usize = 0;
        while k < self.pending.len()
            invariant
                k <= self.pending@.len(),
                self.payments@ == swept_payments,
                self.pending@ == old_pending,
                self.stats == old(self).stats,
                self.min_amount == old(self).min_amount,
                self.max_amount == old(self).max_amount,
                self.max_payments_per_payer == old(self).max_payments_per_payer,
                self.verification_period == old(self).verification_period,
                period == old(self).verification_period,
                events@ == swept_events,
                new_pending@ == payment_queue_after_sweep(
                    self.pending@.subrange(0, k as int),
                    current_tick,
                    period,
                ),
            decreases self.pending@.len() - k,
        {
            proof {
                assert(self.pending@.subrange(0, k + 1).drop_last() =~= self.pending@.subrange(
                    0,
                    k as int,
                ));
                assert(self.pending@.subrange(0, k + 1).last() == self.pending@[k as int]);
            }
            let e = self.pending[k];
            if !(e.1 <= current_tick && current_tick - e.1 > period) {
                new_pending.push(e);
            }
            k = k + 1;
        }
        proof {
            assert(self.pending@.subrange(0, self.pending@.len() as int) =~= self.pending@);
        }
        self.pending = new_pending;
        proof {
            lemma_payment_queue_after_sweep(old_pending, current_tick, period);
            let qs = payment_queue_after_sweep(old_pending, current_tick, period);
            assert(self.pending@ == qs);
            assert forall|i: int|
                0 <= i < self.payments@.len() && (#[trigger] self.payments@[i]).status
                    == PaymentStatus::Pending implies pending_contains(
                self.pending@,
                self.payments@[i].id,
            ) by {
                assert(self.payments@[i] == auto_verify_step(old_payments[i], current_tick, period));
                assert(old_payments[i].status == PaymentStatus::Pending);
                assert(!auto_verify_due(old_payments[i], current_tick, period));
                let id = old_payments[i].id;
                assert(pending_contains(old_pending, id));
                let k0 = choose|k0: int| 0 <= k0 < old_pending.len() && old_pending[k0].0 == id;
                assert(id == i + 1);
                assert(old_pending[k0].1 == old_payments[i].created_tick);
                assert(!entry_expire_due(old_pending[k0], current_tick, period));
                assert(exists|kk: int|
                    0 <= kk < old_pending.len() && old_pending[kk].0 == id && !entry_expire_due(
                        old_pending[kk],
                        current_tick,
                        period,
                    ));
                assert(pending_contains(
                    payment_queue_after_sweep(old_pending, current_tick, period),
                    id,
                ));
                assert(pending_contains(qs, id));
            }
            assert forall|k2: int| 0 <= k2 < self.pending@.len() implies 1 <= (
            #[trigger] self.pending@[k2]).0 <= self.payments@.len()
                && self.payments@[self.pending@[k2].0 - 1].status == PaymentStatus::Pending
                && self.payments@[self.pending@[k2].0 - 1].created_tick == self.pending@[k2].1 by {
                assert(self.pending@[k2] == qs[k2]);
                let k0 = choose|k0: int| 0 <= k0 < old_pending.len() && old_pending[k0] == qs[k2];
                assert(pending_contains(
                    payment_queue_after_sweep(old_pending, current_tick, period),
                    qs[k2].0,
                )) by {
                    assert(payment_queue_after_sweep(old_pending, current_tick, period)[k2].0
                        == qs[k2].0);
                }
                assert(exists|kk: int|
                    0 <= kk < old_pending.len() && old_pending[kk].0 == qs[k2].0
                        && !entry_expire_due(old_pending[kk], current_tick, period));
                let kd = choose|kk: int|
                    0 <= kk < old_pending.len() && old_pending[kk].0 == qs[k2].0
                        && !entry_expire_due(old_pending[kk], current_tick, period);
                let i = old_pending[kd].0 - 1;
                assert(old_payments[i].status == PaymentStatus::Pending);
                assert(old_payments[i].created_tick == old_pending[kd].1);
                assert(!auto_verify_due(old_payments[i], current_tick, period));
                assert(self.payments@[i] == auto_verify_step(old_payments[i], current_tick, period));
                assert(old_pending[kd].1 == old_pending[k0].1) by {
                    assert(old_pending[k0].0 == old_pending[kd].0);
                    if k0 != kd {
                        assert(queue_sorted(old_pending));
                    }
                }
            }
        }
        events
    }

    /// The payment with the given id, if any.
    pub fn payments(&self, payment_id: u64) -> (r: Option<&PaymentRecord>)
        requires
            self.wf(),
        ensures
            match r {
                Some(p) => 1 <= payment_id <= self.payments@.len() && *p == self.payments@[
                    payment_id - 1],
                None => payment_id < 1 || payment_id > self.payments@.len(),
            },
    {
        if payment_id < 1 || payment_id > self.payments.len() as u64 {
            return None;
        }
        Some(&self.payments[(payment_id - 1) as usize])
    }

    /// How many payments were ever created.
    pub fn payment_count(&self) -> (r: u64)
        requires
            self.payments@.len() <= u64::MAX,
        ensures
            r == self.payments@.len(),
    {
        self.payments.len() as u64
    }

    /// The payment lifecycle counters.
    pub fn payment_stats(&self) -> (r: PaymentStatistics)
        ensures
            r == self.stats,
    {
        self.stats
    }
}

/// Terminal payment states (`Completed`, `Failed`) and `Disputed` are never
/// touched by the sweep, and sweeping twice equals sweeping once.
pub proof fn lemma_payment_sweep_idempotent(p: PaymentRecord, now: u64, period: u64)
    ensures
        p.status != PaymentStatus::Pending ==> auto_verify_step(p, now, period) == p,
        auto_verify_step(auto_verify_step(p, now, period), now, period) == auto_verify_step(
            p,
            now,
            period,
        ),
{
}

} // verus!
