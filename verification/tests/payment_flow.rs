//! The payment registry: creation bounds, the lifecycle, disputes, and the
//! auto-verification sweep.

use credchain::errors::CreditError;
use credchain::payments::{PaymentRegistry, PaymentStatus};

fn registry() -> PaymentRegistry {
    // amounts in [1, 1_000_000], at most 100 payments per payer, pending
    // payments auto-verify after 10 ticks
    PaymentRegistry::new(1, 1_000_000, 100, 10)
}

fn create(reg: &mut PaymentRegistry, payer: u64, amount: u128, tick: u64) -> u64 {
    reg.create_payment(payer, 2, amount, b"BRL".to_vec(), b"rent".to_vec(), b"".to_vec(), tick)
        .unwrap()
}

#[test]
fn test_record_payment_success() {
    let mut reg = registry();
    let id = create(&mut reg, 1, 1000, 5);
    assert_eq!(id, 1);
    let p = reg.payments(id).unwrap();
    assert_eq!(p.amount, 1000);
    assert_eq!(p.payer, 1);
    assert_eq!(p.payee, 2);
    assert_eq!(p.status, PaymentStatus::Pending);
    assert_eq!(p.created_tick, 5);
    assert_eq!(reg.payment_count(), 1);
    assert_eq!(reg.payment_stats().total_payments, 1);
    assert_eq!(reg.payment_stats().total_volume, 1000);
}

#[test]
fn test_record_payment_invalid_amount() {
    let mut reg = registry();
    let low = reg.create_payment(1, 2, 0, b"BRL".to_vec(), b"".to_vec(), b"".to_vec(), 1);
    assert_eq!(low.unwrap_err(), CreditError::AmountTooLow);
    let high = reg.create_payment(1, 2, 1_000_001, b"BRL".to_vec(), b"".to_vec(), b"".to_vec(), 1);
    assert_eq!(high.unwrap_err(), CreditError::AmountTooHigh);
    assert_eq!(reg.payment_count(), 0);
}

#[test]
fn per_payer_cap_is_enforced() {
    let mut reg = PaymentRegistry::new(1, 1_000_000, 2, 10);
    create(&mut reg, 1, 100, 1);
    create(&mut reg, 1, 100, 1);
    let refused = reg.create_payment(1, 2, 100, b"BRL".to_vec(), b"".to_vec(), b"".to_vec(), 2);
    assert_eq!(refused.unwrap_err(), CreditError::CapacityError);
    // a different payer still fits
    assert!(reg.create_payment(3, 2, 100, b"BRL".to_vec(), b"".to_vec(), b"".to_vec(), 2).is_ok());
}

#[test]
fn test_update_payment_status() {
    let mut reg = registry();
    let id = create(&mut reg, 1, 1000, 1);
    reg.verify_payment(id, b"0xabc".to_vec(), 2).unwrap();
    let p = reg.payments(id).unwrap();
    assert_eq!(p.status, PaymentStatus::Verified);
    assert_eq!(p.verified_tick, Some(2));
    assert_eq!(p.transaction_hash.as_deref(), Some(b"0xabc".as_slice()));
    let n = reg.complete_payment(id, 3).unwrap();
    assert_eq!(n.detail, b"0xabc".to_vec());
    let p = reg.payments(id).unwrap();
    assert_eq!(p.status, PaymentStatus::Completed);
    assert_eq!(p.completed_tick, Some(3));
    assert_eq!(reg.payment_stats().successful_payments, 1);
}

#[test]
fn test_update_payment_status_not_found() {
    let mut reg = registry();
    assert_eq!(
        reg.verify_payment(999, b"h".to_vec(), 1).unwrap_err(),
        CreditError::NotFound
    );
    assert_eq!(reg.complete_payment(999, 1).unwrap_err(), CreditError::NotFound);
}

#[test]
fn test_get_payment_not_found() {
    let reg = registry();
    assert!(reg.payments(999).is_none());
}

#[test]
fn test_payment_count() {
    let mut reg = registry();
    assert_eq!(reg.payment_count(), 0);
    create(&mut reg, 1, 1000, 1);
    assert_eq!(reg.payment_count(), 1);
    create(&mut reg, 2, 2000, 1);
    assert_eq!(reg.payment_count(), 2);
    assert_eq!(reg.payment_stats().total_volume, 3000);
}

#[test]
fn lifecycle_transitions_are_guarded() {
    let mut reg = registry();
    let id = create(&mut reg, 1, 1000, 1);
    // completing or disputing a pending payment conflicts
    assert_eq!(reg.complete_payment(id, 2).unwrap_err(), CreditError::StateConflict);
    assert_eq!(
        reg.dispute_payment(id, 1, b"r".to_vec(), 2).unwrap_err(),
        CreditError::StateConflict
    );
    reg.verify_payment(id, b"h".to_vec(), 2).unwrap();
    // verifying twice conflicts
    assert_eq!(
        reg.verify_payment(id, b"h".to_vec(), 3).unwrap_err(),
        CreditError::StateConflict
    );
    reg.complete_payment(id, 3).unwrap();
    // only the payer or payee may dispute
    assert_eq!(
        reg.dispute_payment(id, 7, b"who".to_vec(), 4).unwrap_err(),
        CreditError::InsufficientPermissions
    );
    let n = reg.dispute_payment(id, 2, b"charge".to_vec(), 4).unwrap();
    assert_eq!(n.detail, b"charge".to_vec());
    assert_eq!(reg.payments(id).unwrap().status, PaymentStatus::Disputed);
    assert_eq!(reg.payment_stats().disputed_payments, 1);
    // resolving the dispute completes the payment again
    reg.resolve_dispute(id, b"refunded".to_vec(), 5).unwrap();
    assert_eq!(reg.payments(id).unwrap().status, PaymentStatus::Completed);
    assert_eq!(
        reg.resolve_dispute(id, b"again".to_vec(), 6).unwrap_err(),
        CreditError::StateConflict
    );
}

#[test]
fn fail_payment_from_live_states() {
    let mut reg = registry();
    let pending = create(&mut reg, 1, 100, 1);
    let verified = create(&mut reg, 1, 200, 1);
    reg.verify_payment(verified, b"h".to_vec(), 2).unwrap();
    let n = reg.fail_payment(pending, b"insufficient funds".to_vec(), 3).unwrap();
    assert_eq!(n.detail, b"insufficient funds".to_vec());
    reg.fail_payment(verified, b"reversed".to_vec(), 3).unwrap();
    assert_eq!(reg.payments(pending).unwrap().status, PaymentStatus::Failed);
    assert_eq!(reg.payments(verified).unwrap().status, PaymentStatus::Failed);
    assert_eq!(reg.payment_stats().failed_payments, 2);
    // a failed payment is terminal
    assert_eq!(
        reg.fail_payment(pending, b"again".to_vec(), 4).unwrap_err(),
        CreditError::StateConflict
    );
}

#[test]
fn sweep_auto_verifies_overdue_pending_payments() {
    let mut reg = registry();
    let early = create(&mut reg, 1, 100, 1);
    let late = create(&mut reg, 2, 100, 8);
    // at tick 11: 11 - 1 = 10 is not past the period of 10 yet
    assert!(reg.tick_maintenance(11).is_empty());
    // at tick 12: the early payment crosses the period, the late one does not
    let events = reg.tick_maintenance(12);
    assert_eq!(events, vec![early]);
    let p = reg.payments(early).unwrap();
    assert_eq!(p.status, PaymentStatus::Verified);
    assert_eq!(p.verified_tick, Some(12));
    assert_eq!(reg.payments(late).unwrap().status, PaymentStatus::Pending);
    // the sweep is idempotent for already verified payments
    let again = reg.tick_maintenance(12);
    assert!(again.is_empty());
    assert_eq!(reg.payments(early).unwrap().verified_tick, Some(12));
}

#[test]
fn test_payment_registry_initialization() {
    let reg = registry();
    assert!(reg.payments(1).is_none());
    assert_eq!(reg.payment_count(), 0);
    assert_eq!(reg.payment_stats().total_volume, 0);
}

#[test]
fn test_get_payment() {
    let mut reg = registry();
    let id = create(&mut reg, 1, 1000, 7);
    let p = reg.payments(id).unwrap();
    assert_eq!(p.id, id);
    assert_eq!(p.amount, 1000);
    assert_eq!(p.currency, b"BRL".to_vec());
    assert_eq!(p.description, b"rent".to_vec());
    assert_eq!(p.created_tick, 7);
}

#[test]
fn test_payment_edge_cases() {
    let mut reg = registry();
    // the smallest and the largest configured amount
    assert!(reg.create_payment(1, 2, 1, b"BRL".to_vec(), b"".to_vec(), b"".to_vec(), 1).is_ok());
    assert!(reg
        .create_payment(3, 2, 1_000_000, b"BRL".to_vec(), b"".to_vec(), b"".to_vec(), 1)
        .is_ok());
}

#[test]
fn test_payment_storage_limits() {
    let mut reg = registry();
    for i in 1..=1000u64 {
        assert!(reg
            .create_payment(i, 2, 1000, b"BRL".to_vec(), b"".to_vec(), b"".to_vec(), 1)
            .is_ok());
    }
    assert_eq!(reg.payment_count(), 1000);
}

#[test]
fn test_payment_performance() {
    let mut reg = registry();
    for i in 1..=100u64 {
        create(&mut reg, i, 1000, 1);
    }
    assert_eq!(reg.payment_count(), 100);
    for id in 1..=100u64 {
        assert_eq!(reg.payments(id).unwrap().amount, 1000);
    }
}

#[test]
fn test_payment_cleanup() {
    let mut reg = registry();
    let id = create(&mut reg, 1, 1000, 1);
    assert!(reg.payments(id).is_some());
}
