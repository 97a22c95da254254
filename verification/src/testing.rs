//! A canned runtime configuration for exercising the components, standing in
//! for a minimal host.

use vstd::prelude::*;
use crate::identity::IdentityRegistry;
use crate::oracle::OracleAggregator;
use crate::payments::PaymentRegistry;
use crate::score::ScoreEngine;

verus! {

/// The configuration a test host runs the components under.
#[derive(Clone, Copy, PartialEq, Eq, Structural, Debug)]
pub struct Test {
    pub min_score: u32,
    pub max_score: u32,
    pub max_score_factors: usize,
    pub max_documents_per_user: usize,
    pub required_verification_level: u8,
    pub verification_timeout: u64,
    pub min_payment_amount: u128,
    pub max_payment_amount: u128,
    pub max_payments_per_user: usize,
    pub payment_verification_period: u64,
    pub max_data_sources: usize,
}

impl Test {
    /// The default bounds: the full score range, ten factors, ten documents
    /// and a hundred payments per user, short timeouts, five sources per
    /// oracle.
    pub fn new() -> (r: Test)
        ensures
            r.min_score == 0,
            r.max_score == 1000,
            r.max_score_factors == 10,
            r.max_documents_per_user == 10,
            r.required_verification_level == 2,
            r.verification_timeout == 5,
            r.min_payment_amount == 1,
            r.max_payment_amount == u128::MAX,
            r.max_payments_per_user == 100,
            r.payment_verification_period == 10,
            r.max_data_sources == 5,
    {
        Test {
            min_score: 0,
            max_score: 1000,
            max_score_factors: 10,
            max_documents_per_user: 10,
            required_verification_level: 2,
            verification_timeout: 5,
            min_payment_amount: 1,
            max_payment_amount: u128::MAX,
            max_payments_per_user: 100,
            max_data_sources: 5,
            payment_verification_period: 10,
        }
    }

    /// A score engine under this configuration.
    pub fn score_engine(&self) -> (r: ScoreEngine)
        requires
            self.min_score <= self.max_score,
            self.max_score <= 1000,
            self.max_score_factors >= 1,
        ensures
            r.wf(),
            r.records@.len() == 0,
            r.min_score == self.min_score,
            r.max_score == self.max_score,
            r.max_factors == self.max_score_factors,
    {
        ScoreEngine::new(self.min_score, self.max_score, self.max_score_factors)
    }

    /// An identity registry under this configuration.
    pub fn identity_registry(&self) -> (r: IdentityRegistry)
        ensures
            r.wf(),
            r.registry.items@.len() == 0,
            r.registry.max_items_per_owner == self.max_documents_per_user,
            r.required_level == self.required_verification_level,
            r.timeout == self.verification_timeout,
    {
        IdentityRegistry::new(
            self.max_documents_per_user,
            self.required_verification_level,
            self.verification_timeout,
        )
    }

    /// A payment registry under this configuration.
    pub fn payment_registry(&self) -> (r: PaymentRegistry)
        requires
            self.min_payment_amount <= self.max_payment_amount,
        ensures
            r.wf(),
            r.payments@.len() == 0,
            r.min_amount == self.min_payment_amount,
            r.max_amount == self.max_payment_amount,
            r.max_payments_per_payer == self.max_payments_per_user,
            r.verification_period == self.payment_verification_period,
    {
        PaymentRegistry::new(
            self.min_payment_amount,
            self.max_payment_amount,
            self.max_payments_per_user,
            self.payment_verification_period,
        )
    }

    /// An oracle aggregator under this configuration.
    pub fn oracle_aggregator(&self) -> (r: OracleAggregator)
        ensures
            r.wf(),
            r.sources@.len() == 0,
            r.max_data_sources == self.max_data_sources,
    {
        OracleAggregator::new(self.max_data_sources)
    }
}

} // verus!
