//! The score engine: computation, bounds, hashes, and the audit trail.

use credchain::audit::AuditTrail;
use credchain::errors::CreditError;
use credchain::score::{compute_score, integrity_hash, verification_hash, ScoreEngine, ScoreFactor,
    ScoreFactorType};
use credchain::testing::Test;

fn factor(t: ScoreFactorType, value: u32, weight: u32) -> ScoreFactor {
    ScoreFactor { factor_type: t, value, weight }
}

#[test]
fn weighted_average_example() {
    // (100 * 50 + 50 * 50) * 1000 / ((50 + 50) * 100) = 7500000 / 10000 = 750
    let factors = vec![
        factor(ScoreFactorType::PaymentHistory, 100, 50),
        factor(ScoreFactorType::CreditUtilization, 50, 50),
    ];
    assert_eq!(compute_score(&factors, 10), Ok(750));
}

#[test]
fn score_always_in_range() {
    let samples = vec![
        vec![factor(ScoreFactorType::CreditAge, 1, 1)],
        vec![factor(ScoreFactorType::CreditAge, 1, 100)],
        vec![factor(ScoreFactorType::CreditAge, u32::MAX, 100)],
        vec![
            factor(ScoreFactorType::PaymentHistory, 4_000_000, 3),
            factor(ScoreFactorType::NewCredit, 7, 100),
        ],
        vec![factor(ScoreFactorType::DebtToIncome, 100, 100); 10],
    ];
    for factors in samples {
        let score = compute_score(&factors, 10).unwrap();
        assert!(score <= 1000);
    }
}

#[test]
fn invalid_factors_rejected() {
    // empty list
    assert_eq!(compute_score(&vec![], 10), Err(CreditError::InvalidFactor));
    // zero value
    let zero_value = vec![factor(ScoreFactorType::CreditMix, 0, 50)];
    assert_eq!(compute_score(&zero_value, 10), Err(CreditError::InvalidFactor));
    // zero weight
    let zero_weight = vec![factor(ScoreFactorType::CreditMix, 10, 0)];
    assert_eq!(compute_score(&zero_weight, 10), Err(CreditError::InvalidFactor));
    // weight above 100
    let heavy = vec![factor(ScoreFactorType::CreditMix, 10, 101)];
    assert_eq!(compute_score(&heavy, 10), Err(CreditError::InvalidFactor));
    // too many factors
    let crowd = vec![factor(ScoreFactorType::CreditMix, 10, 10); 11];
    assert_eq!(compute_score(&crowd, 10), Err(CreditError::InvalidFactor));
}

#[test]
fn hashes_are_deterministic_and_content_addressed() {
    let factors = vec![
        factor(ScoreFactorType::PaymentHistory, 100, 50),
        factor(ScoreFactorType::CreditUtilization, 50, 50),
    ];
    let h1 = integrity_hash(1, 750, &factors);
    let h2 = integrity_hash(1, 750, &factors);
    assert_eq!(h1, h2);
    assert_eq!(h1.len(), 32);
    // a different principal, score or factor changes the preimage
    assert_ne!(integrity_hash(2, 750, &factors), h1);
    assert_ne!(integrity_hash(1, 751, &factors), h1);
    let other = vec![factor(ScoreFactorType::PaymentHistory, 100, 51)];
    assert_ne!(integrity_hash(1, 750, &other), h1);
    // verification hashes bind the verifier and the tick
    let v1 = verification_hash(1, 750, 9, 5);
    assert_eq!(v1, verification_hash(1, 750, 9, 5));
    assert_eq!(v1.len(), 32);
    assert_ne!(v1, verification_hash(1, 750, 9, 6));
}

#[test]
fn calculate_stores_record_with_hash() {
    let mut engine = Test::new().score_engine();
    let mut audit = AuditTrail::new();
    let factors = vec![
        factor(ScoreFactorType::PaymentHistory, 100, 50),
        factor(ScoreFactorType::CreditUtilization, 50, 50),
    ];
    let event = engine.calculate_score(&mut audit, 1, factors.clone(), 3).unwrap();
    assert_eq!(event.new_score, 750);
    assert_eq!(event.old_score, None);
    let record = engine.credit_score(1).unwrap();
    assert_eq!(record.score, 750);
    assert_eq!(record.tick, 3);
    assert!(!record.is_verified);
    assert_eq!(record.verification_count, 0);
    assert_eq!(record.integrity_hash, integrity_hash(1, 750, &factors));
    assert_eq!(engine.score_count(), 1);
    assert_eq!(engine.total_scores_calculated(), 1);
}

#[test]
fn update_requires_existing_record() {
    let mut engine = ScoreEngine::new(0, 1000, 10);
    let mut audit = AuditTrail::new();
    let factors = vec![factor(ScoreFactorType::PaymentHistory, 100, 50)];
    let miss = engine.update_score(&mut audit, 1, factors.clone(), 1);
    assert_eq!(miss.unwrap_err(), CreditError::ScoreNotFound);
    engine.calculate_score(&mut audit, 1, factors, 1).unwrap();
    let update = vec![factor(ScoreFactorType::PaymentHistory, 80, 50)];
    let event = engine.update_score(&mut audit, 1, update, 2).unwrap();
    assert_eq!(event.old_score, Some(1000));
    assert_eq!(engine.credit_score(1).unwrap().score, event.new_score);
    // replacing does not version the record
    assert_eq!(engine.score_count(), 1);
}

#[test]
fn out_of_band_scores_rejected() {
    // a configuration band of [600, 800]
    let mut engine = ScoreEngine::new(600, 800, 10);
    let mut audit = AuditTrail::new();
    // value 1 with weight 100 computes far below 600
    let low = vec![factor(ScoreFactorType::CreditAge, 1, 100)];
    let r = engine.calculate_score(&mut audit, 1, low, 1);
    assert_eq!(r.unwrap_err(), CreditError::ScoreOutOfRange);
    assert_eq!(engine.score_count(), 0);
    assert_eq!(audit.len(), 0);
}

#[test]
fn verify_score_marks_and_counts() {
    let mut engine = ScoreEngine::new(0, 1000, 10);
    let mut audit = AuditTrail::new();
    assert_eq!(
        engine.verify_score(1, 9, 4).unwrap_err(),
        CreditError::ScoreNotFound
    );
    let factors = vec![factor(ScoreFactorType::PaymentHistory, 100, 50)];
    engine.calculate_score(&mut audit, 1, factors, 3).unwrap();
    let v = engine.verify_score(1, 9, 4).unwrap();
    assert_eq!(v.score, 1000);
    assert_eq!(v.verifier, 9);
    assert_eq!(v.verification_hash, verification_hash(1, 1000, 9, 4));
    let record = engine.credit_score(1).unwrap();
    assert!(record.is_verified);
    assert_eq!(record.verification_count, 1);
}

#[test]
fn add_score_factor_validates_and_replaces() {
    let mut engine = ScoreEngine::new(0, 1000, 10);
    assert_eq!(
        engine.add_score_factor(1, ScoreFactorType::CreditAge, 0, 50),
        Err(CreditError::InvalidFactor)
    );
    assert_eq!(
        engine.add_score_factor(1, ScoreFactorType::CreditAge, 10, 101),
        Err(CreditError::InvalidFactorWeight)
    );
    engine.add_score_factor(1, ScoreFactorType::CreditAge, 10, 50).unwrap();
    assert_eq!(engine.score_factor(1, ScoreFactorType::CreditAge), Some(10));
    engine.add_score_factor(1, ScoreFactorType::CreditAge, 20, 50).unwrap();
    assert_eq!(engine.score_factor(1, ScoreFactorType::CreditAge), Some(20));
    assert_eq!(engine.score_factor(1, ScoreFactorType::CreditMix), None);
}

#[test]
fn audit_history_is_strictly_tick_ordered() {
    let mut engine = ScoreEngine::new(0, 1000, 10);
    let mut audit = AuditTrail::new();
    let mk = |v: u32| vec![factor(ScoreFactorType::PaymentHistory, v, 50)];
    engine.calculate_score(&mut audit, 1, mk(100), 1).unwrap();
    engine.calculate_score(&mut audit, 2, mk(40), 1).unwrap();
    engine.update_score(&mut audit, 1, mk(80), 2).unwrap();
    engine.update_score(&mut audit, 1, mk(60), 5).unwrap();
    let history = audit.history(1);
    assert_eq!(history.len(), 3);
    let ticks: Vec<u64> = history.iter().map(|e| e.tick).collect();
    assert_eq!(ticks, vec![1, 2, 5]);
    for w in ticks.windows(2) {
        assert!(w[0] < w[1]);
    }
    // histories never shrink and other principals are untouched
    assert_eq!(audit.history(2).len(), 1);
    assert_eq!(audit.len(), 4);
}

#[test]
fn test_credit_score_count() {
    let mut engine = ScoreEngine::new(0, 1000, 10);
    let mut audit = AuditTrail::new();
    let mk = |v: u32| vec![factor(ScoreFactorType::PaymentHistory, v, 50)];
    assert_eq!(engine.score_count(), 0);
    engine.calculate_score(&mut audit, 1, mk(750), 1).unwrap();
    assert_eq!(engine.score_count(), 1);
    engine.calculate_score(&mut audit, 2, mk(800), 2).unwrap();
    assert_eq!(engine.score_count(), 2);
    // updating an existing principal does not change the count
    engine.calculate_score(&mut audit, 1, mk(850), 3).unwrap();
    assert_eq!(engine.score_count(), 2);
}

#[test]
fn test_get_credit_score_not_found() {
    let engine = ScoreEngine::new(0, 1000, 10);
    assert!(engine.credit_score(999).is_none());
}

#[test]
fn test_credit_score_initialization() {
    let engine = ScoreEngine::new(0, 1000, 10);
    assert!(engine.credit_score(1).is_none());
    assert_eq!(engine.score_count(), 0);
    assert_eq!(engine.total_scores_calculated(), 0);
}

#[test]
fn test_credit_score_storage_limits() {
    let mut engine = ScoreEngine::new(0, 1000, 100);
    let mut audit = AuditTrail::new();
    // the configured maximum number of factors
    let max_factors = vec![factor(ScoreFactorType::PaymentHistory, 750, 1); 100];
    assert!(engine.calculate_score(&mut audit, 1, max_factors, 1).is_ok());
    // the minimum: a single factor
    let min_factors = vec![factor(ScoreFactorType::PaymentHistory, 750, 1)];
    assert!(engine.calculate_score(&mut audit, 2, min_factors, 1).is_ok());
}

#[test]
fn test_credit_score_performance() {
    let mut engine = ScoreEngine::new(0, 1000, 10);
    let mut audit = AuditTrail::new();
    let factors = vec![factor(ScoreFactorType::PaymentHistory, 75, 100)];
    for i in 1..=100u64 {
        assert!(engine.calculate_score(&mut audit, i, factors.clone(), 1).is_ok());
    }
    assert_eq!(engine.score_count(), 100);
    for i in 1..=100u64 {
        assert_eq!(engine.credit_score(i).unwrap().score, 750);
    }
}
