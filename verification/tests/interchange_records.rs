//! Cross-ledger records: canonical serialization, the origin allow-list, and
//! validated ingestion.

use credchain::errors::CreditError;
use credchain::interchange::{
    serialize_analytics_data, serialize_compliance_data, serialize_credit_score,
    serialize_fraud_data, serialize_identity_data, serialize_payment_data,
    validate_and_ingest_analytics_data, validate_and_ingest_compliance_data,
    validate_and_ingest_credit_score, validate_and_ingest_fraud_data,
    validate_and_ingest_identity_data, validate_and_ingest_payment_data,
    AnalyticsDataRecord, ComplianceDataRecord, CreditScoreRecord, FraudDataRecord,
    IdentityDataRecord, InterchangeConfig, PaymentDataRecord,
};

fn config() -> InterchangeConfig {
    InterchangeConfig { trusted_origins: vec![1000, 1001, 2000, 2001] }
}

#[test]
fn credit_score_round_trip() {
    let cfg = config();
    let record = CreditScoreRecord { subject: b"user-77".to_vec(), score: 750 };
    let bytes = serialize_credit_score(&record);
    let back = validate_and_ingest_credit_score(&bytes, 1000, &cfg).unwrap();
    assert_eq!(back.subject, b"user-77".to_vec());
    assert_eq!(back.score, 750);
}

#[test]
fn untrusted_origin_is_rejected_before_parsing() {
    let cfg = config();
    let record = CreditScoreRecord { subject: b"u".to_vec(), score: 1 };
    let bytes = serialize_credit_score(&record);
    let r = validate_and_ingest_credit_score(&bytes, 1234, &cfg);
    assert_eq!(r.unwrap_err(), CreditError::UntrustedOrigin);
    // even garbage reports the origin problem first
    let r = validate_and_ingest_credit_score(&b"xx".to_vec(), 1234, &cfg);
    assert_eq!(r.unwrap_err(), CreditError::UntrustedOrigin);
}

#[test]
fn credit_score_bounds_and_framing_are_checked() {
    let cfg = config();
    let record = CreditScoreRecord { subject: b"u".to_vec(), score: 1001 };
    let bytes = serialize_credit_score(&record);
    let r = validate_and_ingest_credit_score(&bytes, 1000, &cfg);
    assert_eq!(r.unwrap_err(), CreditError::MalformedRecord);
    // tampering with the frame is caught
    let good = serialize_credit_score(&CreditScoreRecord { subject: b"u".to_vec(), score: 900 });
    let mut truncated = good.clone();
    truncated.pop();
    assert_eq!(
        validate_and_ingest_credit_score(&truncated, 1000, &cfg).unwrap_err(),
        CreditError::MalformedRecord
    );
    let mut extended = good.clone();
    extended.push(0);
    assert_eq!(
        validate_and_ingest_credit_score(&extended, 1000, &cfg).unwrap_err(),
        CreditError::MalformedRecord
    );
    let mut wrong_tag = good.clone();
    wrong_tag[0] = 9;
    assert_eq!(
        validate_and_ingest_credit_score(&wrong_tag, 1000, &cfg).unwrap_err(),
        CreditError::MalformedRecord
    );
}

#[test]
fn payment_round_trip_and_validation() {
    let cfg = config();
    let record = PaymentDataRecord {
        payment_id: b"pay-1".to_vec(),
        amount: 123_456,
        subject: b"user-77".to_vec(),
    };
    let bytes = serialize_payment_data(&record);
    let back = validate_and_ingest_payment_data(&bytes, 2000, &cfg).unwrap();
    assert_eq!(back.payment_id, b"pay-1".to_vec());
    assert_eq!(back.amount, 123_456);
    assert_eq!(back.subject, b"user-77".to_vec());
    // a zero amount is structurally invalid
    let zero = PaymentDataRecord {
        payment_id: b"pay-2".to_vec(),
        amount: 0,
        subject: b"u".to_vec(),
    };
    let bytes = serialize_payment_data(&zero);
    assert_eq!(
        validate_and_ingest_payment_data(&bytes, 2000, &cfg).unwrap_err(),
        CreditError::MalformedRecord
    );
}

#[test]
fn identity_round_trip_and_validation() {
    let cfg = config();
    let record = IdentityDataRecord {
        cpf: b"12345678901".to_vec(),
        name: b"Ana Souza".to_vec(),
        birth_date: b"1990-01-01".to_vec(),
        document_number: b"123456789".to_vec(),
        subject: b"user-9".to_vec(),
    };
    let bytes = serialize_identity_data(&record);
    let back = validate_and_ingest_identity_data(&bytes, 1001, &cfg).unwrap();
    assert_eq!(back.cpf, b"12345678901".to_vec());
    assert_eq!(back.name, b"Ana Souza".to_vec());
    assert_eq!(back.birth_date, b"1990-01-01".to_vec());
    assert_eq!(back.document_number, b"123456789".to_vec());
    assert_eq!(back.subject, b"user-9".to_vec());
    // an empty document number is structurally invalid
    let anonymous = IdentityDataRecord {
        cpf: b"1".to_vec(),
        name: b"x".to_vec(),
        birth_date: b"y".to_vec(),
        document_number: b"".to_vec(),
        subject: b"u".to_vec(),
    };
    let bytes = serialize_identity_data(&anonymous);
    assert_eq!(
        validate_and_ingest_identity_data(&bytes, 1001, &cfg).unwrap_err(),
        CreditError::MalformedRecord
    );
}

#[test]
fn compliance_round_trip_and_validation() {
    let cfg = config();
    let record = ComplianceDataRecord {
        is_compliant: true,
        regulations: vec![b"lgpd".to_vec(), b"basel".to_vec()],
        compliance_score: 90,
        last_check: 7,
    };
    let bytes = serialize_compliance_data(&record);
    let back = validate_and_ingest_compliance_data(&bytes, 1000, &cfg).unwrap();
    assert!(back.is_compliant);
    assert_eq!(back.regulations, vec![b"lgpd".to_vec(), b"basel".to_vec()]);
    assert_eq!(back.compliance_score, 90);
    assert_eq!(back.last_check, 7);
    // a report that does not attest compliance is rejected
    let non_compliant = ComplianceDataRecord { is_compliant: false, ..record };
    let bytes = serialize_compliance_data(&non_compliant);
    assert_eq!(
        validate_and_ingest_compliance_data(&bytes, 1000, &cfg).unwrap_err(),
        CreditError::MalformedRecord
    );
    assert_eq!(
        validate_and_ingest_compliance_data(&bytes, 5, &cfg).unwrap_err(),
        CreditError::UntrustedOrigin
    );
}

#[test]
fn fraud_round_trip_and_validation() {
    let cfg = config();
    let record = FraudDataRecord {
        risk_level: 55,
        fraud_indicators: vec![b"velocity".to_vec(), b"geo".to_vec()],
        detection_method: b"rules".to_vec(),
    };
    let bytes = serialize_fraud_data(&record);
    let back = validate_and_ingest_fraud_data(&bytes, 1000, &cfg).unwrap();
    assert_eq!(back.risk_level, 55);
    assert_eq!(back.fraud_indicators, vec![b"velocity".to_vec(), b"geo".to_vec()]);
    assert_eq!(back.detection_method, b"rules".to_vec());
    // a risk level above 100 is rejected
    let absurd = FraudDataRecord { risk_level: 101, ..record };
    let bytes = serialize_fraud_data(&absurd);
    assert_eq!(
        validate_and_ingest_fraud_data(&bytes, 1000, &cfg).unwrap_err(),
        CreditError::MalformedRecord
    );
}

#[test]
fn analytics_round_trip_and_validation() {
    let cfg = config();
    let record = AnalyticsDataRecord { metrics: vec![b"volume".to_vec()] };
    let bytes = serialize_analytics_data(&record);
    let back = validate_and_ingest_analytics_data(&bytes, 1000, &cfg).unwrap();
    assert_eq!(back.metrics, vec![b"volume".to_vec()]);
    // an empty metric list is rejected
    let empty = AnalyticsDataRecord { metrics: vec![] };
    let bytes = serialize_analytics_data(&empty);
    assert_eq!(
        validate_and_ingest_analytics_data(&bytes, 1000, &cfg).unwrap_err(),
        CreditError::MalformedRecord
    );
    // and so is a tampered count
    let good = serialize_analytics_data(&AnalyticsDataRecord { metrics: vec![b"m".to_vec()] });
    let mut wrong_count = good.clone();
    wrong_count[1] = 2;
    assert_eq!(
        validate_and_ingest_analytics_data(&wrong_count, 1000, &cfg).unwrap_err(),
        CreditError::MalformedRecord
    );
}
