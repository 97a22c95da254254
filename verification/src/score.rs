//! The score engine: weighted-factor score computation, tamper-evident
//! hashes, and the live score record per principal.

use vstd::prelude::*;
use crate::audit::AuditTrail;
use crate::codec::{encode_u32, encode_u64, u32_le_bytes, u64_le_bytes};
use crate::errors::CreditError;
use crate::hashing::{blake2b256, blake2b256_of};
use crate::util::{copy_all, replace_at};

verus! {

/// The kind of observation a score factor reports.
#[derive(Clone, Copy, PartialEq, Eq, Structural, Debug)]
pub enum ScoreFactorType {
    PaymentHistory,
    CreditUtilization,
    CreditAge,
    CreditMix,
    NewCredit,
    IncomeStability,
    EmploymentHistory,
    DebtToIncome,
}

/// One weighted observation feeding a score.
#[derive(Clone, Copy, PartialEq, Eq, Structural, Debug)]
pub struct ScoreFactor {
    pub factor_type: ScoreFactorType,
    pub value: u32,
    /// Relative weight of this factor, in `[1, 100]`.
    pub weight: u32,
}

/// Why a score changed.
#[derive(Clone, Copy, PartialEq, Eq, Structural, Debug)]
pub enum ScoreUpdateReason {
    InitialCalculation,
    UserUpdate,
    SystemUpdate,
    VerificationUpdate,
    ComplianceUpdate,
}

/// The live score record of one principal: replaced on each update, with
/// history kept in the audit trail.
pub struct ScoreRecord {
    pub principal: u64,
    pub score: u32,
    pub factors: Vec<ScoreFactor>,
    /// Tick at which this record was computed.
    pub tick: u64,
    /// Digest binding the principal, score and factors (32 bytes).
    pub integrity_hash: Vec<u8>,
    pub is_verified: bool,
    pub verification_count: u32,
}

/// An immutable record of one score change, as appended to the audit trail.
#[derive(Debug)]
pub struct ScoreChangeEvent {
    pub principal: u64,
    /// The previous score, absent on the first calculation.
    pub old_score: Option<u32>,
    pub new_score: u32,
    pub factors: Vec<ScoreFactor>,
    pub tick: u64,
    pub reason: ScoreUpdateReason,
}

/// A factor is well-formed when its value is positive and its weight lies in
/// `[1, 100]`.
pub open spec fn factor_valid(f: ScoreFactor) -> bool {
    f.value > 0 && 1 <= f.weight && f.weight <= 100
}

/// A factor list is acceptable when it is non-empty, within the configured
/// cap, and every factor is well-formed.
pub open spec fn factors_valid(fs: Seq<ScoreFactor>, max_factors: int) -> bool {
    &&& fs.len() > 0
    &&& fs.len() <= max_factors
    &&& forall|i: int| 0 <= i < fs.len() ==> factor_valid(#[trigger] fs[i])
}

/// The sum of `value * weight` over a factor list.
pub open spec fn weighted_value_sum(fs: Seq<ScoreFactor>) -> int
    decreases fs.len(),
{
    if fs.len() == 0 {
        0
    } else {
        weighted_value_sum(fs.drop_last()) + fs.last().value * fs.last().weight
    }
}

/// The sum of the weights of a factor list.
pub open spec fn weight_sum(fs: Seq<ScoreFactor>) -> int
    decreases fs.len(),
{
    if fs.len() == 0 {
        0
    } else {
        weight_sum(fs.drop_last()) + fs.last().weight
    }
}

/// The weighted average scaled to the score range, before capping: integer
/// (floor) division throughout, so every replica computes the same value.
pub open spec fn raw_score(fs: Seq<ScoreFactor>) -> int {
    weighted_value_sum(fs) * 1000 / (weight_sum(fs) * 100)
}

/// The score of a factor list: the scaled weighted average, capped at 1000.
pub open spec fn score_of(fs: Seq<ScoreFactor>) -> int {
    if raw_score(fs) > 1000 {
        1000
    } else {
        raw_score(fs)
    }
}

/// Bounds on the factor sums, by induction over the list.
proof fn lemma_sum_bounds(fs: Seq<ScoreFactor>)
    requires
        forall|i: int| 0 <= i < fs.len() ==> factor_valid(#[trigger] fs[i]),
    ensures
        0 <= weighted_value_sum(fs) <= fs.len() * 429496729500,
        fs.len() <= weight_sum(fs) <= fs.len() * 100,
    decreases fs.len(),
{
    if fs.len() > 0 {
        lemma_sum_bounds(fs.drop_last());
        assert(fs.last() == fs[fs.len() - 1]);
        assert(0 <= fs.last().value * fs.last().weight <= 429496729500) by (nonlinear_arith)
            requires 0 < fs.last().value <= 4294967295 && 0 < fs.last().weight <= 100;
    }
}

/// Every score computed from a valid factor list lies in `[0, 1000]`.
pub proof fn lemma_score_in_range(fs: Seq<ScoreFactor>, max_factors: int)
    requires
        factors_valid(fs, max_factors),
    ensures
        0 <= score_of(fs) <= 1000,
{
    lemma_sum_bounds(fs);
    vstd::arithmetic::div_mod::lemma_div_pos_is_pos(
        weighted_value_sum(fs) * 1000,
        weight_sum(fs) * 100,
    );
}

/// Computes the score of a factor list.
///
/// Returns `Ok` exactly on the inputs that `factors_valid` admits, with the
/// capped, floor-divided weighted average; every invalid list is rejected
/// with `InvalidFactor` and nothing else.
pub fn compute_score(factors: &Vec<ScoreFactor>, max_factors: usize) -> (r: Result<
    u32,
    CreditError,
>)
    ensures
        factors_valid(factors@, max_factors as int) ==> r == Ok::<u32, CreditError>(
            score_of(factors@) as u32,
        ),
        !factors_valid(factors@, max_factors as int) ==> r == Err::<u32, CreditError>(
            CreditError::InvalidFactor,
        ),
        r matches Ok(s) ==> 0 <= s <= 1000,
{
    let n = factors.len();
    if n == 0 || n > max_factors {
        return Err(CreditError::InvalidFactor);
    }
    let mut total_weighted: u128 = 0;
    let mut total_weight: u128 = 0;
    let mut i: usize = 0;
    while i < n
        invariant
            n == factors@.len(),
            0 < n <= max_factors,
            i <= n,
            forall|j: int| 0 <= j < i ==> factor_valid(#[trigger] factors@[j]),
            total_weighted == weighted_value_sum(factors@.subrange(0, i as int)),
            total_weight == weight_sum(factors@.subrange(0, i as int)),
            total_weighted <= i * 429496729500,
            total_weight <= i * 100,
        decreases n - i,
    {
        let f = factors[i];
        if f.value == 0 || f.weight == 0 || f.weight > 100 {
            assert(!factor_valid(factors@[i as int]));
            return Err(CreditError::InvalidFactor);
        }
        proof {
            lemma_sum_bounds(factors@.subrange(0, i as int));
            assert(factors@.subrange(0, i + 1).drop_last() =~= factors@.subrange(0, i as int));
            assert(factors@.subrange(0, i + 1).last() == factors@[i as int]);
            assert(f.value * f.weight <= 429496729500) by (nonlinear_arith)
                requires 0 < f.value <= 4294967295 && 0 < f.weight <= 100;
            assert(i * 429496729500 + 429496729500 == (i + 1) * 429496729500) by (nonlinear_arith);
            assert(i * 100 + 100 == (i + 1) * 100) by (nonlinear_arith);
        }
        total_weighted = total_weighted + (f.value as u128) * (f.weight as u128);
        total_weight = total_weight + f.weight as u128;
        i = i + 1;
    }
    proof {
        assert(factors@.subrange(0, n as int) =~= factors@);
        lemma_sum_bounds(factors@);
        assert(weight_sum(factors@) >= factors@.len());
        lemma_score_in_range(factors@, max_factors as int);
    }
    let numerator = total_weighted * 1000;
    let denominator = total_weight * 100;
    let quotient = numerator / denominator;
    let capped: u128 = if quotient > 1000 {
        1000
    } else {
        quotient
    };
    Ok(capped as u32)
}

/// The canonical preimage of a factor: one tag byte for its type, then the
/// little-endian bytes of its value and weight.
pub open spec fn factor_type_tag(t: ScoreFactorType) -> u8 {
    match t {
        ScoreFactorType::PaymentHistory => 0,
        ScoreFactorType::CreditUtilization => 1,
        ScoreFactorType::CreditAge => 2,
        ScoreFactorType::CreditMix => 3,
        ScoreFactorType::NewCredit => 4,
        ScoreFactorType::IncomeStability => 5,
        ScoreFactorType::EmploymentHistory => 6,
        ScoreFactorType::DebtToIncome => 7,
    }
}

/// The canonical bytes of one factor.
pub open spec fn factor_bytes(f: ScoreFactor) -> Seq<u8> {
    seq![factor_type_tag(f.factor_type)] + u32_le_bytes(f.value) + u32_le_bytes(f.weight)
}

/// The canonical bytes of a factor list, in list order.
pub open spec fn factors_bytes(fs: Seq<ScoreFactor>) -> Seq<u8>
    decreases fs.len(),
{
    if fs.len() == 0 {
        Seq::empty()
    } else {
        factors_bytes(fs.drop_last()) + factor_bytes(fs.last())
    }
}

/// The canonical preimage binding a principal, a score and its factors.
pub open spec fn score_preimage(principal: u64, score: u32, fs: Seq<ScoreFactor>) -> Seq<u8> {
    u64_le_bytes(principal) + u32_le_bytes(score) + factors_bytes(fs)
}

/// The integrity hash of a score record: the digest of its canonical
/// preimage, so any verifier can recompute and compare.
pub open spec fn integrity_hash_of(principal: u64, score: u32, fs: Seq<ScoreFactor>) -> Seq<u8> {
    blake2b256_of(score_preimage(principal, score, fs))
}

/// The preimage of a verification attestation: principal, score, verifier,
/// and the tick of the attestation.
pub open spec fn verification_preimage(principal: u64, score: u32, verifier: u64, tick: u64) -> Seq<
    u8,
> {
    u64_le_bytes(principal) + u32_le_bytes(score) + u64_le_bytes(verifier) + u64_le_bytes(tick)
}

/// The hash attached to a third-party verification.
pub open spec fn verification_hash_of(principal: u64, score: u32, verifier: u64, tick: u64) -> Seq<
    u8,
> {
    blake2b256_of(verification_preimage(principal, score, verifier, tick))
}

/// Appends the tag, value and weight bytes of each factor in order.
fn encode_factors(out: &mut Vec<u8>, factors: &Vec<ScoreFactor>)
    ensures
        final(out)@ == old(out)@ + factors_bytes(factors@),
{
    let mut i: usize = 0;
    while i < factors.len()
        invariant
            i <= factors@.len(),
            out@ == old(out)@ + factors_bytes(factors@.subrange(0, i as int)),
        decreases factors@.len() - i,
    {
        let f = factors[i];
        let tag: u8 = match f.factor_type {
            ScoreFactorType::PaymentHistory => 0,
            ScoreFactorType::CreditUtilization => 1,
            ScoreFactorType::CreditAge => 2,
            ScoreFactorType::CreditMix => 3,
            ScoreFactorType::NewCredit => 4,
            ScoreFactorType::IncomeStability => 5,
            ScoreFactorType::EmploymentHistory => 6,
            ScoreFactorType::DebtToIncome => 7,
        };
        out.push(tag);
        encode_u32(out, f.value);
        encode_u32(out, f.weight);
        proof {
            assert(factors@.subrange(0, i + 1).drop_last() =~= factors@.subrange(0, i as int));
            assert(factors@.subrange(0, i + 1).last() == factors@[i as int]);
            assert(out@ =~= old(out)@ + factors_bytes(factors@.subrange(0, i + 1)));
        }
        i = i + 1;
    }
    assert(factors@.subrange(0, factors@.len() as int) =~= factors@);
}

/// Computes the integrity hash of `(principal, score, factors)` over the
/// canonical encoding: deterministic, so independent recomputation of the
/// same inputs reproduces the same digest.
pub fn integrity_hash(principal: u64, score: u32, factors: &Vec<ScoreFactor>) -> (h: Vec<u8>)
    ensures
        h@ == integrity_hash_of(principal, score, factors@),
        h@.len() == 32,
{
    let mut data: Vec<u8> = Vec::new();
    encode_u64(&mut data, principal);
    encode_u32(&mut data, score);
    encode_factors(&mut data, factors);
    assert(data@ =~= score_preimage(principal, score, factors@));
    blake2b256(&data)
}

/// Computes the verification hash of `(principal, score, verifier, tick)`.
pub fn verification_hash(principal: u64, score: u32, verifier: u64, tick: u64) -> (h: Vec<u8>)
    ensures
        h@ == verification_hash_of(principal, score, verifier, tick),
        h@.len() == 32,
{
    let mut data: Vec<u8> = Vec::new();
    encode_u64(&mut data, principal);
    encode_u32(&mut data, score);
    encode_u64(&mut data, verifier);
    encode_u64(&mut data, tick);
    assert(data@ =~= verification_preimage(principal, score, verifier, tick));
    blake2b256(&data)
}

} // verus!

// The engine that owns the live records.
use vstd::prelude::*;

verus! {

/// No two records concern the same principal.
pub open spec fn unique_principals(s: Seq<ScoreRecord>) -> bool {
    forall|i: int, j: int| 0 <= i < j < s.len() ==> s[i].principal != s[j].principal
}

/// Whether a record for `p` exists.
pub open spec fn has_record(s: Seq<ScoreRecord>, p: u64) -> bool {
    exists|i: int| 0 <= i < s.len() && s[i].principal == p
}

/// The index of the record for `p`.
pub open spec fn record_index(s: Seq<ScoreRecord>, p: u64) -> int {
    choose|i: int| 0 <= i < s.len() && s[i].principal == p
}

/// The record for `p`.
pub open spec fn record_of(s: Seq<ScoreRecord>, p: u64) -> ScoreRecord {
    s[record_index(s, p)]
}

/// With unique principals, a witness index is the index the lookup names.
pub proof fn lemma_record_lookup(s: Seq<ScoreRecord>, p: u64, i: int)
    requires
        unique_principals(s),
        0 <= i < s.len(),
        s[i].principal == p,
    ensures
        has_record(s, p),
        record_index(s, p) == i,
        record_of(s, p) == s[i],
{
    assert(has_record(s, p));
    let j = record_index(s, p);
    assert(0 <= j < s.len() && s[j].principal == p);
}

/// A stored record is internally consistent: valid factors, the score they
/// compute to (inside the configured band), and the matching integrity hash.
pub open spec fn record_wf(r: ScoreRecord, min_score: u32, max_score: u32, max_factors: int) -> bool {
    &&& factors_valid(r.factors@, max_factors)
    &&& r.score == score_of(r.factors@)
    &&& min_score <= r.score <= max_score
    &&& r.integrity_hash@ == integrity_hash_of(r.principal, r.score, r.factors@)
}

/// One stored per-type factor value of a principal.
#[derive(Clone, Copy, PartialEq, Eq, Structural, Debug)]
pub struct FactorEntry {
    pub principal: u64,
    pub factor_type: ScoreFactorType,
    pub value: u32,
}

/// No two entries share a `(principal, factor type)` key.
pub open spec fn unique_factor_keys(s: Seq<FactorEntry>) -> bool {
    forall|i: int, j: int|
        0 <= i < j < s.len() ==> !(s[i].principal == s[j].principal && s[i].factor_type
            == s[j].factor_type)
}

/// Whether a factor value is stored under `(p, t)`.
pub open spec fn has_factor(s: Seq<FactorEntry>, p: u64, t: ScoreFactorType) -> bool {
    exists|i: int| 0 <= i < s.len() && s[i].principal == p && s[i].factor_type == t
}

/// The index of the entry under `(p, t)`.
pub open spec fn factor_index(s: Seq<FactorEntry>, p: u64, t: ScoreFactorType) -> int {
    choose|i: int| 0 <= i < s.len() && s[i].principal == p && s[i].factor_type == t
}

/// The value stored under `(p, t)`.
pub open spec fn factor_value_of(s: Seq<FactorEntry>, p: u64, t: ScoreFactorType) -> u32 {
    s[factor_index(s, p, t)].value
}

/// With unique keys, a witness index is the index the lookup names.
pub proof fn lemma_factor_lookup(s: Seq<FactorEntry>, p: u64, t: ScoreFactorType, i: int)
    requires
        unique_factor_keys(s),
        0 <= i < s.len(),
        s[i].principal == p,
        s[i].factor_type == t,
    ensures
        has_factor(s, p, t),
        factor_index(s, p, t) == i,
        factor_value_of(s, p, t) == s[i].value,
{
    assert(has_factor(s, p, t));
    let j = factor_index(s, p, t);
    assert(0 <= j < s.len() && s[j].principal == p && s[j].factor_type == t);
}

/// What an event must say about a score change.
pub open spec fn event_matches(
    e: ScoreChangeEvent,
    principal: u64,
    old_score: Option<u32>,
    fs: Seq<ScoreFactor>,
    tick: u64,
    reason: ScoreUpdateReason,
) -> bool {
    &&& e.principal == principal
    &&& e.old_score == old_score
    &&& e.new_score == score_of(fs)
    &&& e.factors@ == fs
    &&& e.tick == tick
    &&& e.reason == reason
}

/// What the freshly written record of a successful score change holds.
pub open spec fn record_matches(rec: ScoreRecord, principal: u64, fs: Seq<ScoreFactor>, tick: u64) -> bool {
    &&& rec.principal == principal
    &&& rec.score == score_of(fs)
    &&& rec.factors@ == fs
    &&& rec.tick == tick
    &&& rec.integrity_hash@ == integrity_hash_of(principal, score_of(fs) as u32, fs)
    &&& rec.is_verified == false
    &&& rec.verification_count == 0
}

/// The attestation returned by a successful third-party verification.
#[derive(Debug)]
pub struct ScoreVerification {
    pub principal: u64,
    pub verifier: u64,
    pub score: u32,
    pub verification_hash: Vec<u8>,
}

/// The full outcome of one `apply` step: either the exact rejection with no
/// state change, or the replaced record, the audit append, and the event.
pub open spec fn apply_post(
    pre: ScoreEngine,
    audit_pre: AuditTrail,
    post: ScoreEngine,
    audit_post: AuditTrail,
    r: Result<ScoreChangeEvent, CreditError>,
    principal: u64,
    fs: Seq<ScoreFactor>,
    reason: ScoreUpdateReason,
    tick: u64,
) -> bool {
    if !factors_valid(fs, pre.max_factors as int) {
        &&& post == pre
        &&& audit_post == audit_pre
        &&& r == Err::<ScoreChangeEvent, CreditError>(CreditError::InvalidFactor)
    } else if !(pre.min_score <= score_of(fs) && score_of(fs) <= pre.max_score) {
        &&& post == pre
        &&& audit_post == audit_pre
        &&& r == Err::<ScoreChangeEvent, CreditError>(CreditError::ScoreOutOfRange)
    } else {
        match r {
            Ok(e) => {
                let old_score = if has_record(pre.records@, principal) {
                    Some(record_of(pre.records@, principal).score)
                } else {
                    None::<u32>
                };
                &&& event_matches(e, principal, old_score, fs, tick, reason)
                &&& has_record(post.records@, principal)
                &&& record_matches(record_of(post.records@, principal), principal, fs, tick)
                &&& post.records@.len() == pre.records@.len() + (if has_record(pre.records@, principal) { 0int } else { 1int })
                &&& forall|q: u64| q != principal ==> has_record(post.records@, q) == has_record(pre.records@, q)
                &&& forall|q: u64|
                    q != principal && has_record(pre.records@, q) ==> record_of(post.records@, q)
                        == record_of(pre.records@, q)
                &&& audit_post.entries@.len() == audit_pre.entries@.len() + 1
                &&& audit_post.entries@.drop_last() == audit_pre.entries@
                &&& event_matches(audit_post.entries@.last(), principal, old_score, fs, tick, reason)
                &&& post.total_calculated == (if pre.total_calculated < u64::MAX { pre.total_calculated + 1 } else { u64::MAX as int })
                &&& post.min_score == pre.min_score
                &&& post.max_score == pre.max_score
                &&& post.max_factors == pre.max_factors
                &&& post.factor_values == pre.factor_values
            },
            Err(_) => false,
        }
    }
}

/// The score engine: configuration, the live record per principal, stored
/// per-type factor values, and the global calculated-count.
pub struct ScoreEngine {
    /// Lowest score the configuration admits.
    pub min_score: u32,
    /// Highest score the configuration admits (at most 1000).
    pub max_score: u32,
    /// Cap on the number of factors per computation.
    pub max_factors: usize,
    pub records: Vec<ScoreRecord>,
    pub factor_values: Vec<FactorEntry>,
    /// How many score applications have succeeded (saturating).
    pub total_calculated: u64,
}

/// Finds the index of the record for `principal`, if any.
fn find_record_index(records: &Vec<ScoreRecord>, principal: u64) -> (r: Option<usize>)
    ensures
        match r {
            Some(i) => 0 <= i < records@.len() && records@[i as int].principal == principal,
            None => !has_record(records@, principal),
        },
{
    let mut i: usize = 0;
    while i < records.len()
        invariant
            i <= records@.len(),
            forall|j: int| 0 <= j < i ==> records@[j].principal != principal,
        decreases records@.len() - i,
    {
        if records[i].principal == principal {
            return Some(i);
        }
        i = i + 1;
    }
    None
}

/// Finds the index of the factor entry under `(principal, t)`, if any.
fn find_factor_index(entries: &Vec<FactorEntry>, principal: u64, t: ScoreFactorType) -> (r: Option<
    usize,
>)
    ensures
        match r {
            Some(i) => 0 <= i < entries@.len() && entries@[i as int].principal == principal
                && entries@[i as int].factor_type == t,
            None => !has_factor(entries@, principal, t),
        },
{
    let mut i: usize = 0;
    while i < entries.len()
        invariant
            i <= entries@.len(),
            forall|j: int|
                0 <= j < i ==> !(entries@[j].principal == principal && entries@[j].factor_type
                    == t),
        decreases entries@.len() - i,
    {
        if entries[i].principal == principal && matches!(entries[i].factor_type, t2 if t2 == t) {
            return Some(i);
        }
        i = i + 1;
    }
    None
}

impl ScoreEngine {
    /// Well-formed: sane configuration, one record per principal, every
    /// record internally consistent, one factor value per key.
    pub open spec fn wf(self) -> bool {
        &&& self.min_score <= self.max_score
        &&& self.max_score <= 1000
        &&& unique_principals(self.records@)
        &&& forall|i: int|
            0 <= i < self.records@.len() ==> record_wf(
                #[trigger] self.records@[i],
                self.min_score,
                self.max_score,
                self.max_factors as int,
            )
        &&& unique_factor_keys(self.factor_values@)
    }

    /// A fresh engine with the given configuration and no records.
    pub fn new(min_score: u32, max_score: u32, max_factors: usize) -> (r: ScoreEngine)
        requires
            min_score <= max_score,
            max_score <= 1000,
            max_factors >= 1,
        ensures
            r.wf(),
            r.records@.len() == 0,
            r.factor_values@.len() == 0,
            r.total_calculated == 0,
            r.min_score == min_score,
            r.max_score == max_score,
            r.max_factors == max_factors,
    {
        ScoreEngine {
            min_score,
            max_score,
            max_factors,
            records: Vec::new(),
            factor_values: Vec::new(),
            total_calculated: 0,
        }
    }

    /// Applies one score change: validates the factors, computes the score
    /// and its integrity hash, replaces the principal's record, appends the
    /// change to the audit trail and bumps the calculated-count — or rejects
    /// the command with the first violated precondition and changes nothing.
#[verifier::spinoff_prover]
    #[verifier::rlimit(80)]
    pub fn apply(
        &mut self,
        audit: &mut AuditTrail,
        principal: u64,
        factors: Vec<ScoreFactor>,
        reason: ScoreUpdateReason,
        tick: u64,
    ) -> (r: Result<ScoreChangeEvent, CreditError>)
        requires
            old(self).wf(),
            old(audit).wf(),
            old(audit).history_spec(principal).len() > 0 ==> old(audit).history_spec(
                principal,
            ).last().tick < tick,
        ensures
            final(self).wf(),
            final(audit).wf(),
            apply_post(
                *old(self),
                *old(audit),
                *final(self),
                *final(audit),
                r,
                principal,
                factors@,
                reason,
                tick,
            ),
    {
        let score = match compute_score(&factors, self.max_factors) {
            Ok(s) => s,
            Err(e) => {
                return Err(e);
            },
        };
        if score < self.min_score || score > self.max_score {
            return Err(CreditError::ScoreOutOfRange);
        }
        let hash = integrity_hash(principal, score, &factors);
        let idx = find_record_index(&self.records, principal);
        let ghost old_records = self.records@;
        let old_score: Option<u32> = match idx {
            Some(i) => Some(self.records[i].score),
            None => None,
        };
        let event_factors = copy_all(&factors);
        let return_factors = copy_all(&factors);
        let rec = ScoreRecord {
            principal,
            score,
            factors,
            tick,
            integrity_hash: hash,
            is_verified: false,
            verification_count: 0,
        };
        match idx {
            Some(i) => {
                proof {
                    lemma_record_lookup(old_records, principal, i as int);
                }
                replace_at(&mut self.records, i, rec);
                proof {
                    lemma_score_in_range(factors@, self.max_factors as int);
                    assert(unique_principals(self.records@));
                    assert forall|k: int| 0 <= k < self.records@.len() implies record_wf(
                        #[trigger] self.records@[k],
                        self.min_score,
                        self.max_score,
                        self.max_factors as int,
                    ) by {
                        if k != i {
                            assert(self.records@[k] == old_records[k]);
                        }
                    }
                    lemma_record_lookup(self.records@, principal, i as int);
                    assert forall|q: u64| q != principal implies has_record(self.records@, q)
                        == has_record(old_records, q) by {
                        if has_record(old_records, q) {
                            let j = record_index(old_records, q);
                            assert(self.records@[j].principal == q);
                        }
                        if has_record(self.records@, q) {
                            let j = record_index(self.records@, q);
                            assert(old_records[j].principal == q);
                        }
                    }
                    assert forall|q: u64| q != principal && has_record(old_records, q) implies
                        record_of(self.records@, q) == record_of(old_records, q) by {
                        let j = record_index(old_records, q);
                        assert(old_records[j].principal == q);
                        lemma_record_lookup(self.records@, q, j);
                    }
                }
            },
            None => {
                self.records.push(rec);
                proof {
                    lemma_score_in_range(factors@, self.max_factors as int);
                    assert forall|k1: int, k2: int| 0 <= k1 < k2 < self.records@.len() implies
                        self.records@[k1].principal != self.records@[k2].principal by {
                        if k2 < old_records.len() {
                            assert(self.records@[k1] == old_records[k1]);
                            assert(self.records@[k2] == old_records[k2]);
                        } else {
                            assert(self.records@[k1] == old_records[k1]);
                            assert(!has_record(old_records, principal) ==> old_records[k1].principal != principal);
                        }
                    }
                    assert(unique_principals(self.records@));
                    assert forall|k: int| 0 <= k < self.records@.len() implies record_wf(
                        #[trigger] self.records@[k],
                        self.min_score,
                        self.max_score,
                        self.max_factors as int,
                    ) by {
                        if k < old_records.len() {
                            assert(self.records@[k] == old_records[k]);
                        }
                    }
                    lemma_record_lookup(self.records@, principal, old_records.len() as int);
                    assert forall|q: u64| q != principal implies has_record(self.records@, q)
                        == has_record(old_records, q) by {
                        if has_record(old_records, q) {
                            let j = record_index(old_records, q);
                            assert(self.records@[j].principal == q);
                        }
                        if has_record(self.records@, q) {
                            let j = record_index(self.records@, q);
                            assert(0 <= j < old_records.len());
                            assert(old_records[j].principal == q);
                        }
                    }
                    assert forall|q: u64| q != principal && has_record(old_records, q) implies
                        record_of(self.records@, q) == record_of(old_records, q) by {
                        let j = record_index(old_records, q);
                        assert(old_records[j].principal == q);
                        lemma_record_lookup(self.records@, q, j);
                    }
                }
            },
        }
        let event = ScoreChangeEvent {
            principal,
            old_score,
            new_score: score,
            factors: event_factors,
            tick,
            reason,
        };
        audit.append(event);
        proof {
            assert(audit.entries@.drop_last() =~= old(audit).entries@);
        }
        if self.total_calculated < u64::MAX {
            self.total_calculated = self.total_calculated + 1;
        }
        Ok(
            ScoreChangeEvent {
                principal,
                old_score,
                new_score: score,
                factors: return_factors,
                tick,
                reason,
            },
        )
    }

    /// Registers a newly calculated score for `principal` (reason: initial
    /// calculation); an existing record is replaced.
    pub fn calculate_score(
        &mut self,
        audit: &mut AuditTrail,
        principal: u64,
        factors: Vec<ScoreFactor>,
        tick: u64,
    ) -> (r: Result<ScoreChangeEvent, CreditError>)
        requires
            old(self).wf(),
            old(audit).wf(),
            old(audit).history_spec(principal).len() > 0 ==> old(audit).history_spec(
                principal,
            ).last().tick < tick,
        ensures
            final(self).wf(),
            final(audit).wf(),
            apply_post(
                *old(self),
                *old(audit),
                *final(self),
                *final(audit),
                r,
                principal,
                factors@,
                ScoreUpdateReason::InitialCalculation,
                tick,
            ),
    {
        self.apply(audit, principal, factors, ScoreUpdateReason::InitialCalculation, tick)
    }

    /// Recomputes an existing score from new factors (reason: user update);
    /// a principal without a record is rejected with `ScoreNotFound`.
    pub fn update_score(
        &mut self,
        audit: &mut AuditTrail,
        principal: u64,
        new_factors: Vec<ScoreFactor>,
        tick: u64,
    ) -> (r: Result<ScoreChangeEvent, CreditError>)
        requires
            old(self).wf(),
            old(audit).wf(),
            old(audit).history_spec(principal).len() > 0 ==> old(audit).history_spec(
                principal,
            ).last().tick < tick,
        ensures
            final(self).wf(),
            final(audit).wf(),
            !has_record(old(self).records@, principal) ==> *final(self) == *old(self) && *final(audit)
                == *old(audit) && r == Err::<ScoreChangeEvent, CreditError>(
                CreditError::ScoreNotFound,
            ),
            has_record(old(self).records@, principal) ==> apply_post(
                *old(self),
                *old(audit),
                *final(self),
                *final(audit),
                r,
                principal,
                new_factors@,
                ScoreUpdateReason::UserUpdate,
                tick,
            ),
    {
        match find_record_index(&self.records, principal) {
            None => Err(CreditError::ScoreNotFound),
            Some(i) => {
                proof {
                    lemma_record_lookup(self.records@, principal, i as int);
                }
                self.apply(audit, principal, new_factors, ScoreUpdateReason::UserUpdate, tick)
            },
        }
    }

    /// Records a third-party verification of `target`'s score: marks the
    /// record verified, bumps its verification count (saturating) and
    /// returns the attestation with its fresh verification hash.
    pub fn verify_score(&mut self, target: u64, verifier: u64, tick: u64) -> (r: Result<
        ScoreVerification,
        CreditError,
    >)
        requires
            old(self).wf(),
        ensures
            final(self).wf(),
            !has_record(old(self).records@, target) ==> *final(self) == *old(self) && r == Err::<
                ScoreVerification,
                CreditError,
            >(CreditError::ScoreNotFound),
            has_record(old(self).records@, target) ==> match r {
                Ok(v) => {
                    let pre = record_of(old(self).records@, target);
                    &&& v.principal == target
                    &&& v.verifier == verifier
                    &&& v.score == pre.score
                    &&& v.verification_hash@ == verification_hash_of(target, pre.score, verifier, tick)
                    &&& has_record(final(self).records@, target)
                    &&& record_of(final(self).records@, target) == (ScoreRecord {
                        is_verified: true,
                        verification_count: (if pre.verification_count < u32::MAX {
                            (pre.verification_count + 1) as u32
                        } else {
                            u32::MAX
                        }),
                        ..pre
                    })
                    &&& final(self).records@.len() == old(self).records@.len()
                    &&& forall|q: u64|
                        q != target ==> has_record(final(self).records@, q) == has_record(
                            old(self).records@,
                            q,
                        )
                    &&& forall|q: u64|
                        q != target && has_record(old(self).records@, q) ==> record_of(
                            final(self).records@,
                            q,
                        ) == record_of(old(self).records@, q)
                    &&& final(self).factor_values == old(self).factor_values
                    &&& final(self).total_calculated == old(self).total_calculated
                },
                Err(_) => false,
            },
    {
        let idx = match find_record_index(&self.records, target) {
            None => {
                return Err(CreditError::ScoreNotFound);
            },
            Some(i) => i,
        };
        let ghost old_records = self.records@;
        proof {
            lemma_record_lookup(old_records, target, idx as int);
        }
        let score = self.records[idx].score;
        let h = verification_hash(target, score, verifier, tick);
        let slot = &mut self.records[idx];
        slot.is_verified = true;
        slot.verification_count = if slot.verification_count < u32::MAX {
            slot.verification_count + 1
        } else {
            u32::MAX
        };
        proof {
            lemma_record_lookup(self.records@, target, idx as int);
            assert forall|q: u64| q != target implies has_record(self.records@, q) == has_record(
                old_records,
                q,
            ) by {
                if has_record(old_records, q) {
                    let j = record_index(old_records, q);
                    assert(self.records@[j].principal == q);
                }
                if has_record(self.records@, q) {
                    let j = record_index(self.records@, q);
                    assert(old_records[j].principal == q);
                }
            }
            assert forall|q: u64| q != target && has_record(old_records, q) implies record_of(
                self.records@,
                q,
            ) == record_of(old_records, q) by {
                let j = record_index(old_records, q);
                assert(old_records[j].principal == q);
                lemma_record_lookup(self.records@, q, j);
            }
        }
        Ok(ScoreVerification { principal: target, verifier, score, verification_hash: h })
    }

    /// Stores one per-type factor value for `principal`, replacing any value
    /// under the same key; the value must be positive and the weight in
    /// `[1, 100]`.
    pub fn add_score_factor(
        &mut self,
        principal: u64,
        factor_type: ScoreFactorType,
        value: u32,
        weight: u32,
    ) -> (r: Result<(), CreditError>)
        requires
            old(self).wf(),
        ensures
            final(self).wf(),
            value == 0 ==> *final(self) == *old(self) && r == Err::<(), CreditError>(
                CreditError::InvalidFactor,
            ),
            value > 0 && (weight == 0 || weight > 100) ==> *final(self) == *old(self) && r == Err::<
                (),
                CreditError,
            >(CreditError::InvalidFactorWeight),
            value > 0 && 1 <= weight <= 100 ==> {
                &&& r == Ok::<(), CreditError>(())
                &&& has_factor(final(self).factor_values@, principal, factor_type)
                &&& factor_value_of(final(self).factor_values@, principal, factor_type) == value
                &&& final(self).factor_values@.len() == old(self).factor_values@.len() + (
                if has_factor(old(self).factor_values@, principal, factor_type) {
                    0int
                } else {
                    1int
                })
                &&& forall|q: u64, t: ScoreFactorType|
                    !(q == principal && t == factor_type) ==> has_factor(
                        final(self).factor_values@,
                        q,
                        t,
                    ) == has_factor(old(self).factor_values@, q, t)
                &&& forall|q: u64, t: ScoreFactorType|
                    !(q == principal && t == factor_type) && has_factor(
                        old(self).factor_values@,
                        q,
                        t,
                    ) ==> factor_value_of(final(self).factor_values@, q, t) == factor_value_of(
                        old(self).factor_values@,
                        q,
                        t,
                    )
                &&& final(self).records == old(self).records
                &&& final(self).total_calculated == old(self).total_calculated
            },
    {
        if value == 0 {
            return Err(CreditError::InvalidFactor);
        }
        if weight == 0 || weight > 100 {
            return Err(CreditError::InvalidFactorWeight);
        }
        let entry = FactorEntry { principal, factor_type, value };
        let ghost old_entries = self.factor_values@;
        match find_factor_index(&self.factor_values, principal, factor_type) {
            Some(i) => {
                proof {
                    lemma_factor_lookup(old_entries, principal, factor_type, i as int);
                }
                replace_at(&mut self.factor_values, i, entry);
                proof {
                    lemma_factor_lookup(self.factor_values@, principal, factor_type, i as int);
                    assert forall|q: u64, t: ScoreFactorType| !(q == principal && t == factor_type)
                        implies has_factor(self.factor_values@, q, t) == has_factor(
                        old_entries,
                        q,
                        t,
                    ) by {
                        if has_factor(old_entries, q, t) {
                            let j = factor_index(old_entries, q, t);
                            assert(self.factor_values@[j].principal == q
                                && self.factor_values@[j].factor_type == t);
                        }
                        if has_factor(self.factor_values@, q, t) {
                            let j = factor_index(self.factor_values@, q, t);
                            assert(old_entries[j].principal == q && old_entries[j].factor_type
                                == t);
                        }
                    }
                    assert forall|q: u64, t: ScoreFactorType|
                        !(q == principal && t == factor_type) && has_factor(old_entries, q, t)
                        implies factor_value_of(self.factor_values@, q, t) == factor_value_of(
                        old_entries,
                        q,
                        t,
                    ) by {
                        let j = factor_index(old_entries, q, t);
                        lemma_factor_lookup(self.factor_values@, q, t, j);
                    }
                }
            },
            None => {
                self.factor_values.push(entry);
                proof {
                    lemma_factor_lookup(
                        self.factor_values@,
                        principal,
                        factor_type,
                        old_entries.len() as int,
                    );
                    assert forall|q: u64, t: ScoreFactorType| !(q == principal && t == factor_type)
                        implies has_factor(self.factor_values@, q, t) == has_factor(
                        old_entries,
                        q,
                        t,
                    ) by {
                        if has_factor(old_entries, q, t) {
                            let j = factor_index(old_entries, q, t);
                            assert(self.factor_values@[j].principal == q
                                && self.factor_values@[j].factor_type == t);
                        }
                        if has_factor(self.factor_values@, q, t) {
                            let j = factor_index(self.factor_values@, q, t);
                            assert(0 <= j < old_entries.len());
                            assert(old_entries[j].principal == q && old_entries[j].factor_type
                                == t);
                        }
                    }
                    assert forall|q: u64, t: ScoreFactorType|
                        !(q == principal && t == factor_type) && has_factor(old_entries, q, t)
                        implies factor_value_of(self.factor_values@, q, t) == factor_value_of(
                        old_entries,
                        q,
                        t,
                    ) by {
                        let j = factor_index(old_entries, q, t);
                        lemma_factor_lookup(self.factor_values@, q, t, j);
                    }
                }
            },
        }
        Ok(())
    }

    /// The live record of `principal`, if one exists.
    pub fn credit_score(&self, principal: u64) -> (r: Option<&ScoreRecord>)
        requires
            self.wf(),
        ensures
            match r {
                Some(rec) => has_record(self.records@, principal) && *rec == record_of(
                    self.records@,
                    principal,
                ),
                None => !has_record(self.records@, principal),
            },
    {
        match find_record_index(&self.records, principal) {
            Some(i) => {
                proof {
                    lemma_record_lookup(self.records@, principal, i as int);
                }
                Some(&self.records[i])
            },
            None => None,
        }
    }

    /// How many principals currently hold a record.
    pub fn score_count(&self) -> (r: usize)
        ensures
            r == self.records@.len(),
    {
        self.records.len()
    }

    /// How many score applications have succeeded (saturating).
    pub fn total_scores_calculated(&self) -> (r: u64)
        ensures
            r == self.total_calculated,
    {
        self.total_calculated
    }

    /// The stored per-type factor value of `principal`, if any.
    pub fn score_factor(&self, principal: u64, factor_type: ScoreFactorType) -> (r: Option<u32>)
        requires
            self.wf(),
        ensures
            match r {
                Some(v) => has_factor(self.factor_values@, principal, factor_type) && v
                    == factor_value_of(self.factor_values@, principal, factor_type),
                None => !has_factor(self.factor_values@, principal, factor_type),
            },
    {
        match find_factor_index(&self.factor_values, principal, factor_type) {
            Some(i) => {
                proof {
                    lemma_factor_lookup(self.factor_values@, principal, factor_type, i as int);
                }
                Some(self.factor_values[i].value)
            },
            None => None,
        }
    }
}

} // verus!

verus! {

/// Score computation and hashing are pure and deterministic: the contracts
/// of `compute_score`, `integrity_hash` and `verification_hash` pin each
/// result to a mathematical function of the arguments alone, so identical
/// inputs yield identical outputs across independent invocations and
/// independent replicas.
pub proof fn lemma_scoring_deterministic(
    p1: u64,
    s1: u32,
    fs1: Seq<ScoreFactor>,
    p2: u64,
    s2: u32,
    fs2: Seq<ScoreFactor>,
)
    requires
        p1 == p2,
        s1 == s2,
        fs1 == fs2,
    ensures
        score_of(fs1) == score_of(fs2),
        integrity_hash_of(p1, s1, fs1) == integrity_hash_of(p2, s2, fs2),
{
}

} // verus!
