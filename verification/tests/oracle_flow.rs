//! The oracle aggregator: source and oracle registration, publication under
//! the permission model, and the request workflow.

use credchain::errors::CreditError;
use credchain::oracle::{DataType, OracleAggregator, RequestStatus};

fn aggregator_with_score_source() -> OracleAggregator {
    let mut aggr = OracleAggregator::new(5);
    aggr.add_data_source(
        b"bureau-1".to_vec(),
        b"bureau".to_vec(),
        b"https://api.example.com/score".to_vec(),
        DataType::CreditScore,
    )
    .unwrap();
    aggr.register_oracle(7, vec![b"bureau-1".to_vec()]).unwrap();
    aggr
}

#[test]
fn credit_score_payload_must_parse_and_fit() {
    let mut aggr = aggregator_with_score_source();
    // "1500" parses but exceeds 1000
    let too_big = aggr.update_external_data(7, DataType::CreditScore, b"1500".to_vec(), 99, 1);
    assert_eq!(too_big.unwrap_err(), CreditError::InvalidDataFormat);
    assert!(aggr.external_data(DataType::CreditScore).is_none());
    // "900" is accepted and becomes the latest value
    aggr.update_external_data(7, DataType::CreditScore, b"900".to_vec(), 99, 1).unwrap();
    let point = aggr.external_data(DataType::CreditScore).unwrap();
    assert_eq!(point.value, b"900".to_vec());
    assert_eq!(point.oracle, 7);
    assert_eq!(point.timestamp, 99);
    // non-numeric and empty payloads are rejected
    let junk = aggr.update_external_data(7, DataType::CreditScore, b"9a0".to_vec(), 99, 2);
    assert_eq!(junk.unwrap_err(), CreditError::InvalidDataFormat);
    let empty = aggr.update_external_data(7, DataType::CreditScore, b"".to_vec(), 99, 2);
    assert_eq!(empty.unwrap_err(), CreditError::InvalidDataFormat);
    // leading zeros are fine: "0900" is 900
    aggr.update_external_data(7, DataType::CreditScore, b"0900".to_vec(), 100, 2).unwrap();
    assert_eq!(aggr.external_data(DataType::CreditScore).unwrap().value, b"0900".to_vec());
}

#[test]
fn latest_value_wins_per_data_type() {
    let mut aggr = aggregator_with_score_source();
    aggr.update_external_data(7, DataType::CreditScore, b"800".to_vec(), 1, 1).unwrap();
    aggr.update_external_data(7, DataType::CreditScore, b"900".to_vec(), 2, 2).unwrap();
    let point = aggr.external_data(DataType::CreditScore).unwrap();
    assert_eq!(point.value, b"900".to_vec());
    assert_eq!(point.tick, 2);
    assert!(aggr.external_data(DataType::PaymentHistory).is_none());
}

#[test]
fn publication_needs_registration_and_permission() {
    let mut aggr = aggregator_with_score_source();
    // an unregistered principal cannot publish
    let unknown = aggr.update_external_data(8, DataType::CreditScore, b"900".to_vec(), 1, 1);
    assert_eq!(unknown.unwrap_err(), CreditError::OracleNotFound);
    // a registered oracle without a source of the type lacks permission
    let wrong_type = aggr.update_external_data(7, DataType::PaymentHistory, b"x".to_vec(), 1, 1);
    assert_eq!(wrong_type.unwrap_err(), CreditError::InsufficientPermissions);
}

#[test]
fn source_registration_is_validated() {
    let mut aggr = OracleAggregator::new(2);
    let bad_url = aggr.add_data_source(
        b"s1".to_vec(),
        b"n".to_vec(),
        b"ftp://example.com".to_vec(),
        DataType::CreditScore,
    );
    assert_eq!(bad_url.unwrap_err(), CreditError::InvalidDataSourceUrl);
    aggr.add_data_source(
        b"s1".to_vec(),
        b"n".to_vec(),
        b"http://example.com".to_vec(),
        DataType::CreditScore,
    )
    .unwrap();
    let duplicate = aggr.add_data_source(
        b"s1".to_vec(),
        b"other".to_vec(),
        b"https://example.com".to_vec(),
        DataType::ExternalData,
    );
    assert_eq!(duplicate.unwrap_err(), CreditError::SourceExists);
    let source = aggr.data_sources(&b"s1".to_vec()).unwrap();
    assert_eq!(source.url, b"http://example.com".to_vec());
    assert!(source.is_active);
}

#[test]
fn oracle_registration_is_validated() {
    let mut aggr = OracleAggregator::new(2);
    aggr.add_data_source(
        b"s1".to_vec(),
        b"n".to_vec(),
        b"https://a.example".to_vec(),
        DataType::CreditScore,
    )
    .unwrap();
    // an unknown source id is rejected
    let missing = aggr.register_oracle(7, vec![b"nope".to_vec()]);
    assert_eq!(missing.unwrap_err(), CreditError::DataSourceNotFound);
    // more sources than the cap of 2
    let crowd = aggr.register_oracle(
        7,
        vec![b"s1".to_vec(), b"s1".to_vec(), b"s1".to_vec()],
    );
    assert_eq!(crowd.unwrap_err(), CreditError::DataSourceLimitExceeded);
    aggr.register_oracle(7, vec![b"s1".to_vec()]).unwrap();
    let dup = aggr.register_oracle(7, vec![b"s1".to_vec()]);
    assert_eq!(dup.unwrap_err(), CreditError::OracleExists);
    let info = aggr.oracle_data(7).unwrap();
    assert_eq!(info.reputation, 100);
    assert!(info.is_active);
}

#[test]
fn request_ids_are_deterministic_and_unique() {
    let mut aggr = OracleAggregator::new(2);
    let a = aggr.create_oracle_request(1, DataType::CreditScore, 10, 5);
    let b = aggr.create_oracle_request(1, DataType::CreditScore, 10, 5);
    let c = aggr.create_oracle_request(2, DataType::PaymentHistory, 20, 6);
    assert_ne!(a, b);
    assert_ne!(b, c);
    assert_ne!(a, c);
    // the id encodes (tick, sequence-within-tick): tick 5 seq 0, tick 5 seq 1
    assert_eq!(&a[0..8], &5u64.to_le_bytes());
    assert_eq!(&a[8..12], &0u32.to_le_bytes());
    assert_eq!(&b[8..12], &1u32.to_le_bytes());
    assert_eq!(&c[0..8], &6u64.to_le_bytes());
    let req = aggr.oracle_requests(&a).unwrap();
    assert_eq!(req.status, RequestStatus::Pending);
    assert_eq!(req.requester, 1);
    assert_eq!(req.max_fee, 10);
}

#[test]
fn requests_resolve_exactly_once() {
    let mut aggr = OracleAggregator::new(2);
    let a = aggr.create_oracle_request(1, DataType::CreditScore, 10, 5);
    let b = aggr.create_oracle_request(1, DataType::CreditScore, 10, 5);
    let missing = aggr.fulfill_oracle_request(7, &b"zzzz".to_vec(), b"d".to_vec(), 6);
    assert_eq!(missing.unwrap_err(), CreditError::RequestNotFound);
    aggr.fulfill_oracle_request(7, &a, b"825".to_vec(), 6).unwrap();
    let req = aggr.oracle_requests(&a).unwrap();
    assert_eq!(req.status, RequestStatus::Fulfilled);
    assert_eq!(req.fulfiller, Some(7));
    assert_eq!(req.resolved_tick, Some(6));
    assert_eq!(req.result.as_deref(), Some(b"825".as_slice()));
    // no second resolution of any kind
    let twice = aggr.fulfill_oracle_request(7, &a, b"1".to_vec(), 7);
    assert_eq!(twice.unwrap_err(), CreditError::RequestAlreadyFulfilled);
    let fail_after = aggr.fail_oracle_request(7, &a, b"late".to_vec(), 7);
    assert_eq!(fail_after.unwrap_err(), CreditError::RequestAlreadyFulfilled);
    // failure path
    aggr.fail_oracle_request(7, &b, b"no data".to_vec(), 7).unwrap();
    let req = aggr.oracle_requests(&b).unwrap();
    assert_eq!(req.status, RequestStatus::Failed);
    assert_eq!(req.error.as_deref(), Some(b"no data".as_slice()));
}
