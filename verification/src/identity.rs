//! Identity documents: the verification registry instantiated for identity
//! papers, plus the per-user profile that summarizes them.
//!
//! Approving a document recomputes the owner's profile: the highest
//! verification level among the approved documents, compared against the
//! configured required level to yield the overall KYC state.

use vstd::prelude::*;
use crate::errors::CreditError;
use crate::registry::{
    count_owned, queue_without, queue_after_sweep, expire_step, expired_ids, ItemStatus,
    ResolveOutcome, VerificationItem, VerificationRegistry,
};
use crate::util::{bump, dec_floor, dec_floor_n, inc_sat, inc_sat_n, lower};

verus! {

/// The kinds of identity papers a user can submit.
#[derive(Clone, Copy, PartialEq, Eq, Structural, Debug)]
pub enum DocumentType {
    CPF,
    CNH,
    RG,
    Passport,
    BirthCertificate,
    AddressProof,
    IncomeProof,
}

/// How much verification a document of this type contributes.
pub open spec fn doc_level(t: DocumentType) -> u8 {
    match t {
        DocumentType::CPF => 1,
        DocumentType::RG => 1,
        DocumentType::CNH => 2,
        DocumentType::Passport => 3,
        DocumentType::BirthCertificate => 2,
        DocumentType::AddressProof => 1,
        DocumentType::IncomeProof => 2,
    }
}

/// The verification-level contribution of a document type.
pub fn document_level(t: DocumentType) -> (r: u8)
    ensures
        r == doc_level(t),
{
    match t {
        DocumentType::CPF => 1,
        DocumentType::RG => 1,
        DocumentType::CNH => 2,
        DocumentType::Passport => 3,
        DocumentType::BirthCertificate => 2,
        DocumentType::AddressProof => 1,
        DocumentType::IncomeProof => 2,
    }
}

/// What a submitted document carries.
pub struct DocumentInfo {
    pub document_type: DocumentType,
    pub document_number: Vec<u8>,
    pub document_hash: Vec<u8>,
    pub metadata: Vec<u8>,
}

/// A user's identity profile, recomputed from their documents.
pub struct IdentityProfile {
    pub principal: u64,
    pub verification_level: u8,
    /// Ids of every document the user ever submitted.
    pub documents: Vec<u64>,
    /// Whether the verification level reaches the configured requirement.
    pub kyc_verified: bool,
    pub created_tick: u64,
    pub updated_tick: u64,
}

/// Monotone counters over the document lifecycle.
#[derive(Clone, Copy, PartialEq, Eq, Structural, Debug)]
pub struct IdentityStatistics {
    pub total_documents: u64,
    pub verified_documents: u64,
    pub rejected_documents: u64,
    pub expired_documents: u64,
    pub pending_documents: u64,
}

/// What a recomputation returns: the new level and KYC state.
#[derive(Clone, Copy, PartialEq, Eq, Structural, Debug)]
pub struct ProfileUpdate {
    pub user: u64,
    pub verification_level: u8,
    pub kyc_verified: bool,
}

/// The highest verification level among the user's approved documents.
pub open spec fn profile_level(items: Seq<VerificationItem<DocumentInfo>>, owner: u64) -> int
    decreases items.len(),
{
    if items.len() == 0 {
        0
    } else {
        let rest = profile_level(items.drop_last(), owner);
        if items.last().owner == owner && items.last().status == ItemStatus::Approved && doc_level(
            items.last().payload.document_type,
        ) > rest {
            doc_level(items.last().payload.document_type) as int
        } else {
            rest
        }
    }
}

/// The ids of the user's documents, in submission order.
pub open spec fn owned_ids(items: Seq<VerificationItem<DocumentInfo>>, owner: u64) -> Seq<u64>
    decreases items.len(),
{
    if items.len() == 0 {
        Seq::<u64>::empty()
    } else if items.last().owner == owner {
        owned_ids(items.drop_last(), owner).push(items.last().id)
    } else {
        owned_ids(items.drop_last(), owner)
    }
}

/// Whether a profile for `p` exists.
pub open spec fn has_profile(s: Seq<IdentityProfile>, p: u64) -> bool {
    exists|i: int| 0 <= i < s.len() && s[i].principal == p
}

/// The index of the profile for `p`.
pub open spec fn profile_index(s: Seq<IdentityProfile>, p: u64) -> int {
    choose|i: int| 0 <= i < s.len() && s[i].principal == p
}

/// The profile for `p`.
pub open spec fn profile_of(s: Seq<IdentityProfile>, p: u64) -> IdentityProfile {
    s[profile_index(s, p)]
}

/// With unique principals, a witness index is the index the lookup names.
pub proof fn lemma_profile_lookup(s: Seq<IdentityProfile>, p: u64, i: int)
    requires
        forall|i1: int, i2: int| 0 <= i1 < i2 < s.len() ==> s[i1].principal != s[i2].principal,
        0 <= i < s.len(),
        s[i].principal == p,
    ensures
        has_profile(s, p),
        profile_index(s, p) == i,
        profile_of(s, p) == s[i],
{
    assert(has_profile(s, p));
    let j = profile_index(s, p);
    assert(0 <= j < s.len() && s[j].principal == p);
}

/// What a freshly recomputed profile holds.
pub open spec fn profile_current(
    p: IdentityProfile,
    items: Seq<VerificationItem<DocumentInfo>>,
    user: u64,
    required: u8,
    tick: u64,
) -> bool {
    &&& p.principal == user
    &&& p.verification_level == profile_level(items, user)
    &&& p.kyc_verified == (profile_level(items, user) >= required)
    &&& p.documents@ == owned_ids(items, user)
    &&& p.created_tick == tick
    &&& p.updated_tick == tick
}

/// The effect of resolving document `id` on the inner registry.
pub open spec fn doc_resolved(
    pre: VerificationRegistry<DocumentInfo>,
    post: VerificationRegistry<DocumentInfo>,
    id: u64,
    resolver: u64,
    status: ItemStatus,
    note: Option<Vec<u8>>,
    tick: u64,
) -> bool {
    &&& post.items@ == pre.items@.update(
        id - 1,
        (VerificationItem {
            status: status,
            resolved_tick: Some(tick),
            resolver: Some(resolver),
            note: note,
            ..pre.items@[id - 1]
        }),
    )
    &&& post.pending@ == queue_without(pre.pending@, id)
    &&& post.max_items_per_owner == pre.max_items_per_owner
}

/// The identity component: documents in a verification registry, profiles,
/// statistics, and its configuration.
pub struct IdentityRegistry {
    pub registry: VerificationRegistry<DocumentInfo>,
    pub profiles: Vec<IdentityProfile>,
    pub stats: IdentityStatistics,
    /// Level a user must reach for the KYC state to be verified.
    pub required_level: u8,
    /// Ticks after which an unresolved document expires.
    pub timeout: u64,
}

impl IdentityRegistry {
    /// Well-formed: the registry invariants hold and profiles are unique per
    /// principal.
    pub open spec fn wf(self) -> bool {
        &&& self.registry.wf()
        &&& forall|i: int, j: int|
            0 <= i < j < self.profiles@.len() ==> self.profiles@[i].principal
                != self.profiles@[j].principal
    }

    /// A fresh component with the given configuration.
    pub fn new(max_documents_per_user: usize, required_level: u8, timeout: u64) -> (r:
        IdentityRegistry)
        ensures
            r.wf(),
            r.registry.items@.len() == 0,
            r.registry.pending@.len() == 0,
            r.registry.max_items_per_owner == max_documents_per_user,
            r.profiles@.len() == 0,
            r.stats == (IdentityStatistics {
                total_documents: 0,
                verified_documents: 0,
                rejected_documents: 0,
                expired_documents: 0,
                pending_documents: 0,
            }),
            r.required_level == required_level,
            r.timeout == timeout,
    {
        IdentityRegistry {
            registry: VerificationRegistry::new(max_documents_per_user),
            profiles: Vec::new(),
            stats: IdentityStatistics {
                total_documents: 0,
                verified_documents: 0,
                rejected_documents: 0,
                expired_documents: 0,
                pending_documents: 0,
            },
            required_level,
            timeout,
        }
    }

    /// Submits an identity document: rejected with `CapacityError` while the
    /// user already holds the configured cap of documents; otherwise stored
    /// pending under the next id, queued, and counted.
    pub fn submit_document(
        &mut self,
        user: u64,
        document_type: DocumentType,
        document_number: Vec<u8>,
        document_hash: Vec<u8>,
        metadata: Vec<u8>,
        tick: u64,
    ) -> (r: Result<u64, CreditError>)
        requires
            old(self).wf(),
            old(self).registry.items@.len() < u64::MAX - 1,
        ensures
            final(self).wf(),
            count_owned(old(self).registry.items@, user) >= old(self).registry.max_items_per_owner
                ==> *final(self) == *old(self) && r == Err::<u64, CreditError>(
                CreditError::CapacityError,
            ),
            count_owned(old(self).registry.items@, user) < old(self).registry.max_items_per_owner
                ==> {
                let id = (old(self).registry.items@.len() + 1) as u64;
                &&& r == Ok::<u64, CreditError>(id)
                &&& final(self).registry.items@.len() == old(self).registry.items@.len() + 1
                &&& final(self).registry.items@.drop_last() == old(self).registry.items@
                &&& final(self).registry.items@.last().id == id
                &&& final(self).registry.items@.last().owner == user
                &&& final(self).registry.items@.last().status == ItemStatus::Pending
                &&& final(self).registry.items@.last().submitted_tick == tick
                &&& final(self).registry.items@.last().payload.document_type == document_type
                &&& final(self).registry.items@.last().payload.document_number@ == document_number@
                &&& final(self).registry.items@.last().payload.document_hash@ == document_hash@
                &&& final(self).registry.items@.last().payload.metadata@ == metadata@
                &&& final(self).registry.pending@ == old(self).registry.pending@.push((id, tick))
                &&& final(self).stats == (IdentityStatistics {
                    total_documents: inc_sat(old(self).stats.total_documents),
                    pending_documents: inc_sat(old(self).stats.pending_documents),
                    ..old(self).stats
                })
                &&& final(self).profiles == old(self).profiles
                &&& final(self).required_level == old(self).required_level
                &&& final(self).timeout == old(self).timeout
                &&& final(self).registry.max_items_per_owner == old(
                    self,
                ).registry.max_items_per_owner
            },
    {
        let payload = DocumentInfo { document_type, document_number, document_hash, metadata };
        let r = self.registry.submit(user, payload, tick);
        match r {
            Ok(id) => {
                bump(&mut self.stats.total_documents);
                bump(&mut self.stats.pending_documents);
                Ok(id)
            },
            Err(e) => Err(e),
        }
    }

    /// Recomputes `user`'s profile from the document registry and stores it.
    fn recompute_profile(&mut self, user: u64, tick: u64) -> (r: ProfileUpdate)
        requires
            old(self).wf(),
        ensures
            final(self).wf(),
            final(self).registry == old(self).registry,
            final(self).stats == old(self).stats,
            final(self).required_level == old(self).required_level,
            final(self).timeout == old(self).timeout,
            r.user == user,
            r.verification_level == profile_level(old(self).registry.items@, user),
            r.kyc_verified == (profile_level(old(self).registry.items@, user) >= old(
                self,
            ).required_level),
            has_profile(final(self).profiles@, user),
            profile_current(
                profile_of(final(self).profiles@, user),
                old(self).registry.items@,
                user,
                old(self).required_level,
                tick,
            ),
            final(self).profiles@.len() == old(self).profiles@.len() + (if has_profile(
                old(self).profiles@,
                user,
            ) {
                0int
            } else {
                1int
            }),
            forall|q: u64|
                q != user ==> has_profile(final(self).profiles@, q) == has_profile(
                    old(self).profiles@,
                    q,
                ),
            forall|q: u64|
                q != user && has_profile(old(self).profiles@, q) ==> profile_of(
                    final(self).profiles@,
                    q,
                ) == profile_of(old(self).profiles@, q),
    {
        let items = &self.registry.items;
        let ghost items_view = self.registry.items@;
        let mut level: u8 = 0;
        let mut ids: Vec<u64> = Vec::new();
        let mut i: usize = 0;
        while i < items.len()
            invariant
                i <= items_view.len(),
                items@ == items_view,
                level == profile_level(items_view.subrange(0, i as int), user),
                0 <= level <= 3,
                ids@ == owned_ids(items_view.subrange(0, i as int), user),
            decreases items_view.len() - i,
        {
            proof {
                assert(items_view.subrange(0, i + 1).drop_last() =~= items_view.subrange(
                    0,
                    i as int,
                ));
                assert(items_view.subrange(0, i + 1).last() == items_view[i as int]);
            }
            if items[i].owner == user {
                ids.push(items[i].id);
                if matches!(items[i].status, ItemStatus::Approved) {
                    let l = document_level(items[i].payload.document_type);
                    if l > level {
                        level = l;
                    }
                }
            }
            i = i + 1;
        }
        proof {
            assert(items_view.subrange(0, items_view.len() as int) =~= items_view);
        }
        let kyc_verified = level >= self.required_level;
        let profile = IdentityProfile {
            principal: user,
            verification_level: level,
            documents: ids,
            kyc_verified,
            created_tick: tick,
            updated_tick: tick,
        };
        let ghost old_profiles = self.profiles@;
        let mut idx_found: Option<usize> = None;
        let mut j: usize = 0;
        while j < self.profiles.len()
            invariant
                j <= self.profiles@.len(),
                self.profiles@ == old_profiles,
                match idx_found {
                    Some(k) => 0 <= k < j && old_profiles[k as int].principal == user,
                    None => forall|k: int| 0 <= k < j ==> old_profiles[k].principal != user,
                },
            decreases self.profiles@.len() - j,
        {
            if matches!(idx_found, None) && self.profiles[j].principal == user {
                idx_found = Some(j);
            }
            j = j + 1;
        }
        match idx_found {
            Some(k) => {
                proof {
                    lemma_profile_lookup(old_profiles, user, k as int);
                }
                crate::util::replace_at(&mut self.profiles, k, profile);
                proof {
                    lemma_profile_lookup(self.profiles@, user, k as int);
                    assert forall|q: u64| q != user implies has_profile(self.profiles@, q)
                        == has_profile(old_profiles, q) by {
                        if has_profile(old_profiles, q) {
                            let j2 = profile_index(old_profiles, q);
                            assert(self.profiles@[j2].principal == q);
                        }
                        if has_profile(self.profiles@, q) {
                            let j2 = profile_index(self.profiles@, q);
                            assert(old_profiles[j2].principal == q);
                        }
                    }
                    assert forall|q: u64| q != user && has_profile(old_profiles, q) implies
                        profile_of(self.profiles@, q) == profile_of(old_profiles, q) by {
                        let j2 = profile_index(old_profiles, q);
                        assert(old_profiles[j2].principal == q);
                        lemma_profile_lookup(self.profiles@, q, j2);
                    }
                }
            },
            None => {
                self.profiles.push(profile);
                proof {
                    assert forall|i1: int, i2: int|
                        0 <= i1 < i2 < self.profiles@.len() implies self.profiles@[i1].principal
                        != self.profiles@[i2].principal by {
                        if i2 < old_profiles.len() {
                            assert(self.profiles@[i1] == old_profiles[i1]);
                            assert(self.profiles@[i2] == old_profiles[i2]);
                        } else {
                            assert(self.profiles@[i1] == old_profiles[i1]);
                        }
                    }
                    lemma_profile_lookup(self.profiles@, user, old_profiles.len() as int);
                    assert forall|q: u64| q != user implies has_profile(self.profiles@, q)
                        == has_profile(old_profiles, q) by {
                        if has_profile(old_profiles, q) {
                            let j2 = profile_index(old_profiles, q);
                            assert(self.profiles@[j2].principal == q);
                        }
                        if has_profile(self.profiles@, q) {
                            let j2 = profile_index(self.profiles@, q);
                            assert(0 <= j2 < old_profiles.len());
                            assert(old_profiles[j2].principal == q);
                        }
                    }
                    assert forall|q: u64| q != user && has_profile(old_profiles, q) implies
                        profile_of(self.profiles@, q) == profile_of(old_profiles, q) by {
                        let j2 = profile_index(old_profiles, q);
                        assert(old_profiles[j2].principal == q);
                        lemma_profile_lookup(self.profiles@, q, j2);
                    }
                }
            },
        }
        ProfileUpdate { user, verification_level: level, kyc_verified }
    }

    /// Recomputes and stores `user`'s identity profile on demand.
    pub fn update_identity_profile(&mut self, user: u64, tick: u64) -> (r: ProfileUpdate)
        requires
            old(self).wf(),
        ensures
            final(self).wf(),
            final(self).registry == old(self).registry,
            final(self).stats == old(self).stats,
            r.user == user,
            r.verification_level == profile_level(old(self).registry.items@, user),
            r.kyc_verified == (profile_level(old(self).registry.items@, user) >= old(
                self,
            ).required_level),
            has_profile(final(self).profiles@, user),
            profile_current(
                profile_of(final(self).profiles@, user),
                old(self).registry.items@,
                user,
                old(self).required_level,
                tick,
            ),
            forall|q: u64|
                q != user ==> has_profile(final(self).profiles@, q) == has_profile(
                    old(self).profiles@,
                    q,
                ),
            forall|q: u64|
                q != user && has_profile(old(self).profiles@, q) ==> profile_of(
                    final(self).profiles@,
                    q,
                ) == profile_of(old(self).profiles@, q),
    {
        self.recompute_profile(user, tick)
    }

    /// Approves a pending document and recomputes the owner's profile. An
    /// unknown id is rejected with `NotFound`, a non-pending document with
    /// `StateConflict`; terminal states are final.
    pub fn verify_document(&mut self, document_id: u64, verifier: u64, tick: u64) -> (r: Result<
        ProfileUpdate,
        CreditError,
    >)
        requires
            old(self).wf(),
        ensures
            final(self).wf(),
            (document_id < 1 || document_id > old(self).registry.items@.len()) ==> *final(self)
                == *old(self) && r == Err::<ProfileUpdate, CreditError>(CreditError::NotFound),
            (1 <= document_id <= old(self).registry.items@.len() && old(self).registry.items@[
                document_id - 1].status != ItemStatus::Pending) ==> *final(self) == *old(self) && r
                == Err::<ProfileUpdate, CreditError>(CreditError::StateConflict),
            (1 <= document_id <= old(self).registry.items@.len() && old(self).registry.items@[
                document_id - 1].status == ItemStatus::Pending) ==> {
                let owner = old(self).registry.items@[document_id - 1].owner;
                &&& doc_resolved(
                    old(self).registry,
                    final(self).registry,
                    document_id,
                    verifier,
                    ItemStatus::Approved,
                    None::<Vec<u8>>,
                    tick,
                )
                &&& match r {
                    Ok(u) => u.user == owner && u.verification_level == profile_level(
                        final(self).registry.items@,
                        owner,
                    ) && u.kyc_verified == (profile_level(final(self).registry.items@, owner)
                        >= old(self).required_level),
                    Err(_) => false,
                }
                &&& has_profile(final(self).profiles@, owner)
                &&& profile_current(
                    profile_of(final(self).profiles@, owner),
                    final(self).registry.items@,
                    owner,
                    old(self).required_level,
                    tick,
                )
                &&& forall|q: u64|
                    q != owner ==> has_profile(final(self).profiles@, q) == has_profile(
                        old(self).profiles@,
                        q,
                    )
                &&& forall|q: u64|
                    q != owner && has_profile(old(self).profiles@, q) ==> profile_of(
                        final(self).profiles@,
                        q,
                    ) == profile_of(old(self).profiles@, q)
                &&& final(self).stats == (IdentityStatistics {
                    verified_documents: inc_sat(old(self).stats.verified_documents),
                    pending_documents: dec_floor(old(self).stats.pending_documents),
                    ..old(self).stats
                })
                &&& final(self).required_level == old(self).required_level
                &&& final(self).timeout == old(self).timeout
            },
    {
        let owner = match self.registry.get(document_id) {
            Some(item) => item.owner,
            None => {
                return Err(CreditError::NotFound);
            },
        };
        match self.registry.resolve(document_id, verifier, ResolveOutcome::Approve, None, tick) {
            Ok(()) => {},
            Err(e) => {
                return Err(e);
            },
        }
        bump(&mut self.stats.verified_documents);
        lower(&mut self.stats.pending_documents);
        let update = self.recompute_profile(owner, tick);
        Ok(update)
    }

    /// Rejects a pending document with a reason; the owner's profile is not
    /// recomputed (a rejected document contributed nothing). Errors mirror
    /// `verify_document`.
    pub fn reject_document(
        &mut self,
        document_id: u64,
        verifier: u64,
        reason: Vec<u8>,
        tick: u64,
    ) -> (r: Result<(), CreditError>)
        requires
            old(self).wf(),
        ensures
            final(self).wf(),
            (document_id < 1 || document_id > old(self).registry.items@.len()) ==> *final(self)
                == *old(self) && r == Err::<(), CreditError>(CreditError::NotFound),
            (1 <= document_id <= old(self).registry.items@.len() && old(self).registry.items@[
                document_id - 1].status != ItemStatus::Pending) ==> *final(self) == *old(self) && r
                == Err::<(), CreditError>(CreditError::StateConflict),
            (1 <= document_id <= old(self).registry.items@.len() && old(self).registry.items@[
                document_id - 1].status == ItemStatus::Pending) ==> {
                &&& r == Ok::<(), CreditError>(())
                &&& doc_resolved(
                    old(self).registry,
                    final(self).registry,
                    document_id,
                    verifier,
                    ItemStatus::Rejected,
                    Some(reason),
                    tick,
                )
                &&& final(self).profiles == old(self).profiles
                &&& final(self).stats == (IdentityStatistics {
                    rejected_documents: inc_sat(old(self).stats.rejected_documents),
                    pending_documents: dec_floor(old(self).stats.pending_documents),
                    ..old(self).stats
                })
                &&& final(self).required_level == old(self).required_level
                &&& final(self).timeout == old(self).timeout
            },
    {
        match self.registry.resolve(
            document_id,
            verifier,
            ResolveOutcome::Reject,
            Some(reason),
            tick,
        ) {
            Ok(()) => {},
            Err(e) => {
                return Err(e);
            },
        }
        bump(&mut self.stats.rejected_documents);
        lower(&mut self.stats.pending_documents);
        Ok(())
    }

    /// Runs the per-tick sweep: documents pending for more than the
    /// configured timeout are expired, dequeued and counted; everything else
    /// — profiles included — is untouched. Returns the expired ids.
    pub fn tick_maintenance(&mut self, current_tick: u64) -> (expired: Vec<u64>)
        requires
            old(self).wf(),
        ensures
            final(self).wf(),
            final(self).registry.items@.len() == old(self).registry.items@.len(),
            forall|j: int|
                0 <= j < old(self).registry.items@.len() ==> final(self).registry.items@[j]
                    == expire_step(old(self).registry.items@[j], current_tick, old(self).timeout),
            final(self).registry.pending@ == queue_after_sweep(
                old(self).registry.pending@,
                current_tick,
                old(self).timeout,
            ),
            expired@ == expired_ids(old(self).registry.items@, current_tick, old(self).timeout),
            final(self).profiles == old(self).profiles,
            final(self).stats.total_documents == old(self).stats.total_documents,
            final(self).stats.verified_documents == old(self).stats.verified_documents,
            final(self).stats.rejected_documents == old(self).stats.rejected_documents,
            final(self).stats.expired_documents == inc_sat_n(
                old(self).stats.expired_documents,
                expired@.len() as int,
            ),
            final(self).stats.pending_documents == dec_floor_n(
                old(self).stats.pending_documents,
                expired@.len() as int,
            ),
            final(self).required_level == old(self).required_level,
            final(self).timeout == old(self).timeout,
            final(self).registry.max_items_per_owner == old(self).registry.max_items_per_owner,
    {
        let timeout = self.timeout;
        let expired = self.registry.tick_maintenance(current_tick, timeout);
        let mut k: usize = 0;
        let ghost mid = *self;
        let ghost expired_view = expired@;
        while k < expired.len()
            invariant
                k <= expired@.len(),
                self.registry == mid.registry,
                self.profiles == mid.profiles,
                self.required_level == mid.required_level,
                self.timeout == mid.timeout,
                self.stats.total_documents == mid.stats.total_documents,
                self.stats.verified_documents == mid.stats.verified_documents,
                self.stats.rejected_documents == mid.stats.rejected_documents,
                self.stats.expired_documents == inc_sat_n(
                    mid.stats.expired_documents,
                    k as int,
                ),
                self.stats.pending_documents == dec_floor_n(
                    mid.stats.pending_documents,
                    k as int,
                ),
                expired@ == expired_view,
            decreases expired@.len() - k,
        {
            bump(&mut self.stats.expired_documents);
            lower(&mut self.stats.pending_documents);
            k = k + 1;
        }
        expired
    }

    /// The document with the given id, if any.
    pub fn documents(&self, document_id: u64) -> (r: Option<&VerificationItem<DocumentInfo>>)
        requires
            self.wf(),
        ensures
            match r {
                Some(it) => 1 <= document_id <= self.registry.items@.len() && *it
                    == self.registry.items@[document_id - 1],
                None => document_id < 1 || document_id > self.registry.items@.len(),
            },
    {
        self.registry.get(document_id)
    }

    /// The profile of `user`, if one was ever computed.
    pub fn identity_profiles(&self, user: u64) -> (r: Option<&IdentityProfile>)
        requires
            self.wf(),
        ensures
            match r {
                Some(p) => has_profile(self.profiles@, user) && *p == profile_of(
                    self.profiles@,
                    user,
                ),
                None => !has_profile(self.profiles@, user),
            },
    {
        let mut j: usize = 0;
        while j < self.profiles.len()
            invariant
                self.wf(),
                j <= self.profiles@.len(),
                forall|k: int| 0 <= k < j ==> self.profiles@[k].principal != user,
            decreases self.profiles@.len() - j,
        {
            if self.profiles[j].principal == user {
                proof {
                    lemma_profile_lookup(self.profiles@, user, j as int);
                }
                return Some(&self.profiles[j]);
            }
            j = j + 1;
        }
        None
    }

    /// The document lifecycle counters.
    pub fn identity_stats(&self) -> (r: IdentityStatistics)
        ensures
            r == self.stats,
    {
        self.stats
    }

    /// How many documents were ever submitted.
    pub fn document_counter(&self) -> (r: u64)
        requires
            self.registry.items@.len() <= u64::MAX,
        ensures
            r == self.registry.items@.len(),
    {
        self.registry.item_count() as u64
    }
}

} // verus!
