//! The verification registry and the identity documents built on it:
//! submission caps, resolution, the timeout sweep, and profile recompute.

use credchain::errors::CreditError;
use credchain::identity::{DocumentType, IdentityRegistry};
use credchain::registry::{ItemStatus, ResolveOutcome, VerificationRegistry};

fn submit_doc(reg: &mut IdentityRegistry, user: u64, t: DocumentType, tick: u64) -> u64 {
    reg.submit_document(user, t, b"123".to_vec(), b"hash".to_vec(), b"".to_vec(), tick).unwrap()
}

#[test]
fn pending_until_timeout_then_expired() {
    // timeout 5: submitted at tick 10, the item must survive every sweep up
    // to tick 15 and expire at the first sweep past it.
    let mut reg = IdentityRegistry::new(10, 2, 5);
    let id = submit_doc(&mut reg, 1, DocumentType::Passport, 10);
    for tick in 10..=15 {
        let expired = reg.tick_maintenance(tick);
        assert!(expired.is_empty());
        assert_eq!(reg.documents(id).unwrap().status, ItemStatus::Pending);
    }
    let expired = reg.tick_maintenance(16);
    assert_eq!(expired, vec![id]);
    assert_eq!(reg.documents(id).unwrap().status, ItemStatus::Expired);
    assert_eq!(reg.identity_stats().expired_documents, 1);
    assert_eq!(reg.identity_stats().pending_documents, 0);
}

#[test]
fn terminal_states_are_final() {
    let mut reg = IdentityRegistry::new(10, 2, 5);
    let approved = submit_doc(&mut reg, 1, DocumentType::Passport, 1);
    let rejected = submit_doc(&mut reg, 1, DocumentType::RG, 1);
    let expired = submit_doc(&mut reg, 2, DocumentType::CNH, 1);
    reg.verify_document(approved, 9, 2).unwrap();
    reg.reject_document(rejected, 9, b"blurry".to_vec(), 2).unwrap();
    reg.tick_maintenance(100);
    assert_eq!(reg.documents(approved).unwrap().status, ItemStatus::Approved);
    assert_eq!(reg.documents(rejected).unwrap().status, ItemStatus::Rejected);
    assert_eq!(reg.documents(expired).unwrap().status, ItemStatus::Expired);
    // a direct resolve on any terminal item reports a state conflict
    for id in [approved, rejected, expired] {
        assert_eq!(
            reg.verify_document(id, 9, 101).unwrap_err(),
            CreditError::StateConflict
        );
        assert_eq!(
            reg.reject_document(id, 9, b"again".to_vec(), 101).unwrap_err(),
            CreditError::StateConflict
        );
    }
    // and further sweeps change nothing
    let again = reg.tick_maintenance(200);
    assert!(again.is_empty());
    assert_eq!(reg.documents(approved).unwrap().status, ItemStatus::Approved);
    assert_eq!(reg.documents(rejected).unwrap().status, ItemStatus::Rejected);
    assert_eq!(reg.documents(expired).unwrap().status, ItemStatus::Expired);
}

#[test]
fn submission_cap_is_enforced() {
    // a cap of 2 outstanding items per owner: the third submission fails,
    // and a slot is never freed by resolution (all-time policy).
    let mut reg = IdentityRegistry::new(2, 2, 5);
    let first = submit_doc(&mut reg, 1, DocumentType::CPF, 1);
    submit_doc(&mut reg, 1, DocumentType::RG, 1);
    let refused = reg.submit_document(
        1,
        DocumentType::CNH,
        b"9".to_vec(),
        b"h".to_vec(),
        b"".to_vec(),
        2,
    );
    assert_eq!(refused.unwrap_err(), CreditError::CapacityError);
    // resolving does not free the slot
    reg.verify_document(first, 9, 2).unwrap();
    let still_refused = reg.submit_document(
        1,
        DocumentType::CNH,
        b"9".to_vec(),
        b"h".to_vec(),
        b"".to_vec(),
        3,
    );
    assert_eq!(still_refused.unwrap_err(), CreditError::CapacityError);
    // another owner is unaffected
    assert!(reg.submit_document(
        2,
        DocumentType::CNH,
        b"9".to_vec(),
        b"h".to_vec(),
        b"".to_vec(),
        3
    )
    .is_ok());
}

#[test]
fn approval_recomputes_profile_level() {
    // required level 2: a CPF (level 1) leaves KYC pending, a CNH (level 2)
    // verifies it.
    let mut reg = IdentityRegistry::new(10, 2, 5);
    let cpf = submit_doc(&mut reg, 1, DocumentType::CPF, 1);
    let cnh = submit_doc(&mut reg, 1, DocumentType::CNH, 1);
    let up1 = reg.verify_document(cpf, 9, 2).unwrap();
    assert_eq!(up1.verification_level, 1);
    assert!(!up1.kyc_verified);
    let up2 = reg.verify_document(cnh, 9, 3).unwrap();
    assert_eq!(up2.verification_level, 2);
    assert!(up2.kyc_verified);
    let profile = reg.identity_profiles(1).unwrap();
    assert_eq!(profile.verification_level, 2);
    assert!(profile.kyc_verified);
    assert_eq!(profile.documents, vec![cpf, cnh]);
    // rejecting another document does not lower the level
    let extra = submit_doc(&mut reg, 1, DocumentType::Passport, 4);
    reg.reject_document(extra, 9, b"fake".to_vec(), 5).unwrap();
    assert_eq!(reg.identity_profiles(1).unwrap().verification_level, 2);
}

#[test]
fn document_statistics_track_lifecycle() {
    let mut reg = IdentityRegistry::new(10, 2, 5);
    let a = submit_doc(&mut reg, 1, DocumentType::CPF, 1);
    let b = submit_doc(&mut reg, 2, DocumentType::RG, 1);
    submit_doc(&mut reg, 3, DocumentType::CNH, 1);
    let s = reg.identity_stats();
    assert_eq!(s.total_documents, 3);
    assert_eq!(s.pending_documents, 3);
    reg.verify_document(a, 9, 2).unwrap();
    reg.reject_document(b, 9, b"no".to_vec(), 2).unwrap();
    reg.tick_maintenance(100);
    let s = reg.identity_stats();
    assert_eq!(s.verified_documents, 1);
    assert_eq!(s.rejected_documents, 1);
    assert_eq!(s.expired_documents, 1);
    assert_eq!(s.pending_documents, 0);
    assert_eq!(reg.document_counter(), 3);
}

#[test]
fn unknown_document_is_not_found() {
    let mut reg = IdentityRegistry::new(10, 2, 5);
    assert_eq!(reg.verify_document(7, 9, 1).unwrap_err(), CreditError::NotFound);
    assert_eq!(
        reg.reject_document(0, 9, b"r".to_vec(), 1).unwrap_err(),
        CreditError::NotFound
    );
    assert!(reg.documents(7).is_none());
}

#[test]
fn generic_registry_assigns_monotonic_ids() {
    let mut reg: VerificationRegistry<u32> = VerificationRegistry::new(10);
    let a = reg.submit(1, 11, 5).unwrap();
    let b = reg.submit(1, 22, 5).unwrap();
    let c = reg.submit(2, 33, 6).unwrap();
    assert_eq!((a, b, c), (1, 2, 3));
    assert_eq!(reg.item_count(), 3);
    assert_eq!(reg.pending_count(), 3);
    reg.resolve(b, 9, ResolveOutcome::Reject, Some(b"bad".to_vec()), 7).unwrap();
    assert_eq!(reg.pending_count(), 2);
    let item = reg.get(b).unwrap();
    assert_eq!(item.status, ItemStatus::Rejected);
    assert_eq!(item.resolver, Some(9));
    assert_eq!(item.resolved_tick, Some(7));
    assert_eq!(item.note.as_deref(), Some(b"bad".as_slice()));
    // resolving again conflicts; the item is untouched
    let again = reg.resolve(b, 8, ResolveOutcome::Approve, None, 8);
    assert_eq!(again.unwrap_err(), CreditError::StateConflict);
    assert_eq!(reg.get(b).unwrap().resolver, Some(9));
}
