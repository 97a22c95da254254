//! The append-only audit trail of score changes.
//!
//! Entries are never mutated or removed; per principal they are strictly
//! ordered by tick, so a replica's history is a faithful, replayable record.

use vstd::prelude::*;
use crate::score::ScoreChangeEvent;

verus! {

/// The subsequence of `s` whose entries concern principal `p`, in order.
pub open spec fn history_of(s: Seq<ScoreChangeEvent>, p: u64) -> Seq<ScoreChangeEvent>
    decreases s.len(),
{
    if s.len() == 0 {
        Seq::<ScoreChangeEvent>::empty()
    } else if s.last().principal == p {
        history_of(s.drop_last(), p).push(s.last())
    } else {
        history_of(s.drop_last(), p)
    }
}

/// Entries of one principal appear in strictly increasing tick order.
pub open spec fn events_wf(s: Seq<ScoreChangeEvent>) -> bool {
    forall|i: int, j: int|
        0 <= i < j < s.len() && s[i].principal == s[j].principal ==> s[i].tick < s[j].tick
}

/// Appending an entry extends exactly its principal's history, at the end,
/// and leaves every other principal's history untouched.
pub proof fn lemma_history_push(s: Seq<ScoreChangeEvent>, e: ScoreChangeEvent, p: u64)
    ensures
        e.principal == p ==> history_of(s.push(e), p) == history_of(s, p).push(e),
        e.principal != p ==> history_of(s.push(e), p) == history_of(s, p),
{
    assert(s.push(e).drop_last() =~= s);
    assert(s.push(e).last() == e);
}

/// Each principal's history holds only that principal's entries, in strictly
/// increasing tick order, with its last entry carrying the greatest tick of
/// any entry for that principal.
pub proof fn lemma_history_props(s: Seq<ScoreChangeEvent>, p: u64)
    requires
        events_wf(s),
    ensures
        forall|k: int| 0 <= k < history_of(s, p).len() ==> history_of(s, p)[k].principal == p,
        forall|k1: int, k2: int|
            0 <= k1 < k2 < history_of(s, p).len() ==> history_of(s, p)[k1].tick < history_of(
                s,
                p,
            )[k2].tick,
        history_of(s, p).len() > 0 ==> exists|i: int|
            0 <= i < s.len() && s[i].principal == p && s[i].tick == history_of(s, p).last().tick,
        forall|i: int|
            0 <= i < s.len() && s[i].principal == p ==> history_of(s, p).len() > 0 && s[i].tick
                <= history_of(s, p).last().tick,
    decreases s.len(),
{
    if s.len() > 0 {
        let s0 = s.drop_last();
        assert(events_wf(s0));
        lemma_history_props(s0, p);
        let h0 = history_of(s0, p);
        let e = s.last();
        if e.principal == p {
            let h = history_of(s, p);
            assert(h == h0.push(e));
            assert forall|k: int| 0 <= k < h0.len() implies h0[k].tick < e.tick by {
                let i = choose|i: int|
                    0 <= i < s0.len() && s0[i].principal == p && s0[i].tick == h0.last().tick;
                assert(s[i] == s0[i]);
                assert(s[i].tick < e.tick);
                assert(h0[k].tick <= h0[h0.len() - 1].tick);
            }
            assert forall|i: int| 0 <= i < s.len() && s[i].principal == p implies h.len() > 0
                && s[i].tick <= h.last().tick by {
                if i < s.len() - 1 {
                    assert(s[i] == s0[i]);
                    assert(s[i].tick < e.tick);
                }
            }
            assert(exists|i: int|
                0 <= i < s.len() && s[i].principal == p && s[i].tick == h.last().tick) by {
                assert(s[s.len() - 1].principal == p && s[s.len() - 1].tick == h.last().tick);
            }
        } else {
            assert forall|i: int| 0 <= i < s0.len() implies s[i] == s0[i] by {}
        }
    }
}

/// The append-only log of score change events.
pub struct AuditTrail {
    pub entries: Vec<ScoreChangeEvent>,
}

impl AuditTrail {
    /// Well-formed: strictly tick-ordered per principal.
    pub open spec fn wf(self) -> bool {
        events_wf(self.entries@)
    }

    /// The history of one principal, as a mathematical sequence.
    pub open spec fn history_spec(self, p: u64) -> Seq<ScoreChangeEvent> {
        history_of(self.entries@, p)
    }

    /// An empty trail.
    pub fn new() -> (r: AuditTrail)
        ensures
            r.wf(),
            r.entries@ =~= Seq::<ScoreChangeEvent>::empty(),
    {
        AuditTrail { entries: Vec::new() }
    }

    /// Appends one event.
    ///
    /// The event's tick must exceed every tick already recorded for its
    /// principal (the host's logical clock is monotone and a principal's
    /// score changes at most once per tick), so the log stays strictly
    /// ordered and is never rewritten.
    pub fn append(&mut self, event: ScoreChangeEvent)
        requires
            old(self).wf(),
            old(self).history_spec(event.principal).len() > 0 ==> old(self).history_spec(
                event.principal,
            ).last().tick < event.tick,
        ensures
            final(self).wf(),
            final(self).entries@ == old(self).entries@.push(event),
            final(self).history_spec(event.principal) == old(self).history_spec(
                event.principal,
            ).push(event),
            forall|q: u64|
                q != event.principal ==> final(self).history_spec(q) == old(self).history_spec(q),
    {
        proof {
            lemma_history_props(self.entries@, event.principal);
        }
        let ghost s0 = self.entries@;
        self.entries.push(event);
        proof {
            lemma_history_push(s0, event, event.principal);
            assert forall|q: u64| q != event.principal implies history_of(s0.push(event), q)
                == history_of(s0, q) by {
                lemma_history_push(s0, event, q);
            }
            assert forall|i: int, j: int|
                0 <= i < j < self.entries@.len() && self.entries@[i].principal
                    == self.entries@[j].principal implies self.entries@[i].tick
                < self.entries@[j].tick by {
                if j == self.entries@.len() - 1 {
                    assert(self.entries@[i] == s0[i]);
                    if s0[i].principal == event.principal {
                        assert(s0[i].tick <= history_of(s0, event.principal).last().tick);
                    }
                } else {
                    assert(self.entries@[i] == s0[i] && self.entries@[j] == s0[j]);
                }
            }
        }
    }

    /// The number of recorded events.
    pub fn len(&self) -> (r: usize)
        ensures
            r == self.entries@.len(),
    {
        self.entries.len()
    }

    /// The history of one principal: every event that concerns it, in
    /// strictly ascending tick order.
    pub fn history(&self, principal: u64) -> (r: Vec<&ScoreChangeEvent>)
        ensures
            r@.len() == self.history_spec(principal).len(),
            forall|k: int|
                0 <= k < r@.len() ==> *r@[k] == self.history_spec(principal)[k],
    {
        let mut r: Vec<&ScoreChangeEvent> = Vec::new();
        let mut i: usize = 0;
        while i < self.entries.len()
            invariant
                i <= self.entries@.len(),
                r@.len() == history_of(self.entries@.subrange(0, i as int), principal).len(),
                forall|k: int|
                    0 <= k < r@.len() ==> *r@[k] == history_of(
                        self.entries@.subrange(0, i as int),
                        principal,
                    )[k],
            decreases self.entries@.len() - i,
        {
            let ghost pre = self.entries@.subrange(0, i as int);
            proof {
                assert(self.entries@.subrange(0, i + 1).drop_last() =~= pre);
                assert(self.entries@.subrange(0, i + 1).last() == self.entries@[i as int]);
            }
            if self.entries[i].principal == principal {
                r.push(&self.entries[i]);
            }
            i = i + 1;
        }
        proof {
            assert(self.entries@.subrange(0, self.entries@.len() as int) =~= self.entries@);
        }
        r
    }
}

/// No operation shortens a history: appending an event extends exactly its
/// principal's history by one entry and leaves every other history as it
/// was, so each history's length is non-decreasing across any sequence of
/// operations.
pub proof fn lemma_history_monotone(s: Seq<ScoreChangeEvent>, e: ScoreChangeEvent, p: u64)
    ensures
        history_of(s.push(e), p).len() >= history_of(s, p).len(),
        e.principal == p ==> history_of(s.push(e), p).len() == history_of(s, p).len() + 1,
        e.principal != p ==> history_of(s.push(e), p) == history_of(s, p),
{
    lemma_history_push(s, e, p);
}

/// A principal's history is strictly ordered by tick, ascending.
pub proof fn lemma_history_strictly_ordered(t: AuditTrail, p: u64)
    requires
        t.wf(),
    ensures
        forall|k1: int, k2: int|
            0 <= k1 < k2 < t.history_spec(p).len() ==> t.history_spec(p)[k1].tick < t.history_spec(
                p,
            )[k2].tick,
{
    lemma_history_props(t.entries@, p);
}

} // verus!
