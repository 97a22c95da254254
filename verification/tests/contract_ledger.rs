//! The string-keyed scoring ledger and its payment-derived score.

use credchain::contract::{
    CreditScoreContract, ContractError, PaymentStatus, ScoreFactor,
};

fn admin() -> u64 {
    1
}

#[test]
fn test_contract_creation() {
    let contract = CreditScoreContract::new(admin());
    assert_eq!(contract.get_version(), "1.0.0");
}

#[test]
fn lib_test_update_credit_score() {
    let mut contract = CreditScoreContract::new(admin());
    let user_id = String::from("user123");
    let score = 750u32;
    let factors: Vec<ScoreFactor> = vec![];
    let metadata = String::from("Test score");
    let result = contract.update_credit_score(admin(), user_id.clone(), score, factors, metadata, 7);
    assert!(result.is_ok());
    let retrieved_score = contract.get_credit_score(&user_id);
    assert!(retrieved_score.is_ok());
    assert_eq!(retrieved_score.unwrap().score, score);
}

#[test]
fn test_register_payment() {
    let mut contract = CreditScoreContract::new(admin());
    let user_id = String::from("user123");
    let payment_id = String::from("payment123");
    let amount = 1000u64;
    let currency = String::from("BRL");
    let due_date = 1234567890u64;
    let result = contract.register_payment(admin(), user_id, payment_id.clone(), amount, currency, due_date);
    assert!(result.is_ok());
    let payment = contract.get_payment(&payment_id);
    assert!(payment.is_ok());
    assert_eq!(payment.unwrap().amount, amount);
}

#[test]
fn only_the_admin_writes() {
    let mut contract = CreditScoreContract::new(admin());
    let r = contract.update_credit_score(
        2,
        String::from("u"),
        100,
        vec![],
        String::new(),
        1,
    );
    assert_eq!(r.unwrap_err(), ContractError::Unauthorized);
    let r = contract.register_payment(2, String::from("u"), String::from("p"), 1, String::from("BRL"), 1);
    assert_eq!(r.unwrap_err(), ContractError::Unauthorized);
    let r = contract.calculate_score_from_payments(2, String::from("u"), 1);
    assert_eq!(r.unwrap_err(), ContractError::Unauthorized);
}

#[test]
fn test_credit_score_validation() {
    let mut contract = CreditScoreContract::new(admin());
    for score in [0u32, 100, 500, 750, 1000] {
        let r = contract.update_credit_score(
            admin(),
            String::from("u"),
            score,
            vec![],
            String::new(),
            1,
        );
        assert!(r.is_ok());
    }
    for score in [1001u32, 2000] {
        let r = contract.update_credit_score(
            admin(),
            String::from("u"),
            score,
            vec![],
            String::new(),
            1,
        );
        assert_eq!(r.unwrap_err(), ContractError::InvalidScore);
    }
}

#[test]
fn test_payment_statuses() {
    let mut contract = CreditScoreContract::new(admin());
    contract
        .register_payment(
            admin(),
            String::from("user123"),
            String::from("p1"),
            1000,
            String::from("BRL"),
            1640995200,
        )
        .unwrap();
    let statuses = vec![
        PaymentStatus::Pending,
        PaymentStatus::Paid,
        PaymentStatus::Late,
        PaymentStatus::Defaulted,
        PaymentStatus::Cancelled,
    ];
    for status in statuses {
        contract
            .update_payment_status(admin(), &String::from("p1"), status, None, String::new())
            .unwrap();
        assert_eq!(contract.get_payment(&String::from("p1")).unwrap().status, status);
    }
    let missing = contract.update_payment_status(
        admin(),
        &String::from("p999"),
        PaymentStatus::Paid,
        None,
        String::new(),
    );
    assert_eq!(missing.unwrap_err(), ContractError::PaymentNotFound);
}

#[test]
fn payment_history_is_per_user() {
    let mut contract = CreditScoreContract::new(admin());
    for (pid, user, amount) in [("p1", "alice", 100u64), ("p2", "bob", 200), ("p3", "alice", 300)] {
        contract
            .register_payment(
                admin(),
                String::from(user),
                String::from(pid),
                amount,
                String::from("BRL"),
                10,
            )
            .unwrap();
    }
    let alice = contract.get_payment_history(&String::from("alice"));
    assert_eq!(alice.len(), 2);
    assert_eq!(alice[0].amount, 100);
    assert_eq!(alice[1].amount, 300);
    assert!(contract.get_payment_history(&String::from("carol")).is_empty());
    let (users, payments, volume) = contract.get_contract_stats();
    assert_eq!((users, payments, volume), (0, 3, 600));
}

#[test]
fn score_from_payments_follows_the_formula() {
    let mut contract = CreditScoreContract::new(admin());
    // two payments, both paid on time, one currency, total 2000
    for (pid, due, paid) in [("p1", 1000u64, 900u64), ("p2", 2000, 1500)] {
        contract
            .register_payment(
                admin(),
                String::from("user123"),
                String::from(pid),
                1000,
                String::from("BRL"),
                due,
            )
            .unwrap();
        contract
            .update_payment_status(
                admin(),
                &String::from(pid),
                PaymentStatus::Paid,
                Some(paid),
                String::from("proof"),
            )
            .unwrap();
    }
    // now = 3000: less than a month after the oldest due date
    let score = contract
        .calculate_score_from_payments(admin(), String::from("user123"), 3000)
        .unwrap();
    // base 500 + punctuality 100 * 35 / 100 + paid 100 * 30 / 100
    //          + diversity (1 * 100 / 2) * 15 / 100 + volume (2000/1000) * 10 / 100
    //          + time 0
    // = 500 + 35 + 30 + 7 + 0 + 0 = 572
    assert_eq!(score, 572);
    let stored = contract.get_credit_score(&String::from("user123")).unwrap();
    assert_eq!(stored.score, 572);
    assert_eq!(stored.factors.len(), 3);
    assert_eq!(stored.factors[0].value, 100);
    assert_eq!(stored.factors[0].weight, 35);
    assert_eq!(stored.factors[1].value, 2);
    assert_eq!(stored.factors[2].value, 1);
    // a user without payments is rejected
    let nobody = contract.calculate_score_from_payments(admin(), String::from("ghost"), 3000);
    assert_eq!(nobody.unwrap_err(), ContractError::InvalidUser);
}

#[test]
fn test_has_valid_score() {
    let mut contract = CreditScoreContract::new(admin());
    assert!(!contract.has_valid_score(&String::from("u")));
    contract
        .update_credit_score(admin(), String::from("u"), 10, vec![], String::new(), 1)
        .unwrap();
    assert!(contract.has_valid_score(&String::from("u")));
}

fn simple_factors() -> Vec<ScoreFactor> {
    (1u32..=5)
        .map(|v| ScoreFactor {
            name: format!("f{v}"),
            value: v,
            weight: v,
            impact: String::new(),
        })
        .collect()
}

#[test]
fn test_set_credit_score_success() {
    let mut contract = CreditScoreContract::new(admin());
    let r = contract.update_credit_score(
        admin(),
        String::from("acct-1"),
        750,
        simple_factors(),
        String::new(),
        0,
    );
    assert!(r.is_ok());
    let stored = contract.get_credit_score(&String::from("acct-1")).unwrap();
    assert_eq!(stored.score, 750);
    assert_eq!(stored.factors.len(), 5);
    assert_eq!(stored.calculated_at, 0);
    assert_eq!(contract.get_contract_stats().0, 1);
}

#[test]
fn test_set_credit_score_unauthorized() {
    let mut contract = CreditScoreContract::new(admin());
    let r = contract.update_credit_score(
        2,
        String::from("acct-1"),
        750,
        simple_factors(),
        String::new(),
        0,
    );
    assert_eq!(r.unwrap_err(), ContractError::Unauthorized);
}

#[test]
fn test_set_credit_score_invalid_score() {
    let mut contract = CreditScoreContract::new(admin());
    let r = contract.update_credit_score(
        admin(),
        String::from("acct-1"),
        1001,
        simple_factors(),
        String::new(),
        0,
    );
    assert_eq!(r.unwrap_err(), ContractError::InvalidScore);
}

#[test]
fn tests_test_update_credit_score() {
    let mut contract = CreditScoreContract::new(admin());
    contract
        .update_credit_score(admin(), String::from("acct-1"), 750, simple_factors(), String::new(), 0)
        .unwrap();
    contract
        .update_credit_score(admin(), String::from("acct-1"), 800, simple_factors(), String::new(), 1)
        .unwrap();
    let stored = contract.get_credit_score(&String::from("acct-1")).unwrap();
    assert_eq!(stored.score, 800);
    // replacing a score does not add a user
    assert_eq!(contract.get_contract_stats().0, 1);
}

#[test]
fn test_get_credit_score() {
    let mut contract = CreditScoreContract::new(admin());
    contract
        .update_credit_score(admin(), String::from("acct-1"), 750, simple_factors(), String::new(), 0)
        .unwrap();
    let stored = contract.get_credit_score(&String::from("acct-1")).unwrap();
    assert_eq!(stored.score, 750);
    assert_eq!(stored.factors.len(), 5);
}

#[test]
fn test_credit_score_edge_cases() {
    let mut contract = CreditScoreContract::new(admin());
    // the lowest and highest admissible scores, and an empty factor list
    assert!(contract
        .update_credit_score(admin(), String::from("a"), 0, vec![], String::new(), 0)
        .is_ok());
    assert!(contract
        .update_credit_score(admin(), String::from("b"), 1000, vec![], String::new(), 0)
        .is_ok());
    assert!(contract
        .update_credit_score(admin(), String::from("c"), 500, vec![], String::new(), 0)
        .is_ok());
}

#[test]
fn test_credit_score_concurrent_updates() {
    let mut contract = CreditScoreContract::new(admin());
    contract
        .update_credit_score(admin(), String::from("acct-1"), 750, vec![], String::new(), 0)
        .unwrap();
    contract
        .update_credit_score(admin(), String::from("acct-1"), 800, vec![], String::new(), 0)
        .unwrap();
    // the last write wins
    assert_eq!(contract.get_credit_score(&String::from("acct-1")).unwrap().score, 800);
}

#[test]
fn test_credit_score_cleanup() {
    let mut contract = CreditScoreContract::new(admin());
    contract
        .update_credit_score(admin(), String::from("acct-1"), 750, vec![], String::new(), 0)
        .unwrap();
    assert!(contract.has_valid_score(&String::from("acct-1")));
}

#[test]
fn test_record_payment_unauthorized() {
    let mut contract = CreditScoreContract::new(admin());
    let r = contract.register_payment(
        2,
        String::from("u"),
        String::from("p"),
        1000,
        String::from("BRL"),
        1640995200,
    );
    assert_eq!(r.unwrap_err(), ContractError::Unauthorized);
}

#[test]
fn test_payment_concurrent_updates() {
    let mut contract = CreditScoreContract::new(admin());
    contract
        .register_payment(admin(), String::from("u"), String::from("p1"), 1000, String::from("BRL"), 1640995200)
        .unwrap();
    contract
        .register_payment(admin(), String::from("u"), String::from("p1"), 2000, String::from("BRL"), 1640995200)
        .unwrap();
    // re-registering the same payment id keeps the last record
    assert_eq!(contract.get_payment(&String::from("p1")).unwrap().amount, 2000);
    assert_eq!(contract.get_contract_stats().1, 1);
}
