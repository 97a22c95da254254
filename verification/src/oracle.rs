//! The oracle aggregator: registers data sources and oracles, validates and
//! republishes externally supplied values under a permission model, and runs
//! the request / fulfill / fail workflow.
//!
//! Request ids are derived from `(tick, sequence-within-tick)`, so they are
//! unique on every replica without randomness.

use vstd::prelude::*;
use crate::codec::{
    encode_u32, encode_u64, lemma_u32_le_round_trip, lemma_u64_le_round_trip, u32_from_le,
    u32_le_bytes, u64_from_le, u64_le_bytes,
};
use crate::errors::CreditError;
use crate::util::bytes_eq;

verus! {

/// The kinds of data an oracle can publish.
#[derive(Clone, Copy, PartialEq, Eq, Structural, Debug)]
pub enum DataType {
    CreditScore,
    PaymentHistory,
    IdentityVerification,
    ExternalData,
}

/// Lifecycle state of an oracle request.
#[derive(Clone, Copy, PartialEq, Eq, Structural, Debug)]
pub enum RequestStatus {
    Pending,
    Fulfilled,
    Failed,
}

/// A registered data source.
pub struct DataSourceInfo {
    pub id: Vec<u8>,
    pub name: Vec<u8>,
    pub url: Vec<u8>,
    pub data_type: DataType,
    pub is_active: bool,
}

/// A registered oracle: a principal allowed to publish for the data types of
/// its sources.
pub struct OracleInfo {
    pub principal: u64,
    pub source_ids: Vec<Vec<u8>>,
    pub is_active: bool,
    pub reputation: u32,
}

/// The latest published value for one data type (last write wins).
pub struct ExternalDataPoint {
    pub data_type: DataType,
    pub oracle: u64,
    pub value: Vec<u8>,
    pub timestamp: u64,
    pub tick: u64,
}

/// One oracle request.
pub struct OracleRequest {
    /// The canonical bytes of `(created_tick, seq_in_tick)`.
    pub id: Vec<u8>,
    pub requester: u64,
    pub data_type: DataType,
    pub max_fee: u128,
    pub status: RequestStatus,
    pub created_tick: u64,
    /// Position of this request among those created in the same tick.
    pub seq_in_tick: u32,
    pub resolved_tick: Option<u64>,
    pub fulfiller: Option<u64>,
    pub result: Option<Vec<u8>>,
    pub error: Option<Vec<u8>>,
}

/// An ASCII decimal digit.
pub open spec fn is_digit(b: u8) -> bool {
    48 <= b <= 57
}

/// The number a digit string denotes, most significant digit first.
pub open spec fn dec_value(s: Seq<u8>) -> int
    decreases s.len(),
{
    if s.len() == 0 {
        0
    } else {
        dec_value(s.drop_last()) * 10 + (s.last() - 48)
    }
}

/// `x`, capped just above the score range so overflow cannot hide validity.
pub open spec fn clamp1001(x: int) -> int {
    if x > 1001 {
        1001
    } else {
        x
    }
}

/// A digit string's value is never negative.
pub proof fn lemma_dec_value_nonneg(s: Seq<u8>)
    requires
        forall|j: int| 0 <= j < s.len() ==> is_digit(#[trigger] s[j]),
    ensures
        dec_value(s) >= 0,
    decreases s.len(),
{
    if s.len() > 0 {
        assert(forall|j: int| 0 <= j < s.drop_last().len() ==> is_digit(#[trigger] s.drop_last()[j]));
        lemma_dec_value_nonneg(s.drop_last());
    }
}

/// A valid credit-score payload: a non-empty decimal string denoting a value
/// of at most 1000.
pub open spec fn credit_score_payload_valid(v: Seq<u8>) -> bool {
    &&& v.len() > 0
    &&& forall|j: int| 0 <= j < v.len() ==> is_digit(#[trigger] v[j])
    &&& dec_value(v) <= 1000
}

/// The format rule for each data type: a credit score must parse as a
/// decimal integer of at most 1000; every other type needs a non-empty
/// payload.
pub open spec fn payload_valid(dt: DataType, v: Seq<u8>) -> bool {
    match dt {
        DataType::CreditScore => credit_score_payload_valid(v),
        _ => v.len() > 0,
    }
}

/// Checks a payload against its data type's format rule.
pub fn validate_data_format(data_type: DataType, value: &Vec<u8>) -> (r: bool)
    ensures
        r == payload_valid(data_type, value@),
{
    match data_type {
        DataType::CreditScore => {
            if value.len() == 0 {
                return false;
            }
            let mut acc: u32 = 0;
            let mut i: usize = 0;
            while i < value.len()
                invariant
                    data_type == DataType::CreditScore,
                    i <= value@.len(),
                    forall|j: int| 0 <= j < i ==> is_digit(#[trigger] value@[j]),
                    acc == clamp1001(dec_value(value@.subrange(0, i as int))),
                    acc <= 1001,
                decreases value@.len() - i,
            {
                let b = value[i];
                if b < 48 || b > 57 {
                    assert(!is_digit(value@[i as int]));
                    return false;
                }
                proof {
                    assert(value@.subrange(0, i + 1).drop_last() =~= value@.subrange(0, i as int));
                    assert(value@.subrange(0, i + 1).last() == value@[i as int]);
                    lemma_dec_value_nonneg(value@.subrange(0, i as int));
                }
                let t = acc * 10 + (b - 48) as u32;
                acc = if t > 1001 {
                    1001
                } else {
                    t
                };
                i = i + 1;
            }
            proof {
                assert(value@.subrange(0, value@.len() as int) =~= value@);
            }
            acc <= 1000
        },
        _ => value.len() > 0,
    }
}

/// The canonical bytes of "http://".
pub open spec fn http_prefix() -> Seq<u8> {
    seq![104u8, 116u8, 116u8, 112u8, 58u8, 47u8, 47u8]
}

/// The canonical bytes of "https://".
pub open spec fn https_prefix() -> Seq<u8> {
    seq![104u8, 116u8, 116u8, 112u8, 115u8, 58u8, 47u8, 47u8]
}

/// A syntactically acceptable source url: it starts with `http://` or
/// `https://` (no further validation — reachability is not checked here).
pub open spec fn url_valid(u: Seq<u8>) -> bool {
    (u.len() >= 7 && u.subrange(0, 7) == http_prefix()) || (u.len() >= 8 && u.subrange(0, 8)
        == https_prefix())
}

/// Checks the url rule.
pub fn is_valid_url(url: &Vec<u8>) -> (r: bool)
    ensures
        r == url_valid(url@),
{
    if url.len() >= 7 && url[0] == 104 && url[1] == 116 && url[2] == 116 && url[3] == 112 {
        if url[4] == 58 && url[5] == 47 && url[6] == 47 {
            assert(url@.subrange(0, 7) =~= http_prefix());
            return true;
        }
        if url.len() >= 8 && url[4] == 115 && url[5] == 58 && url[6] == 47 && url[7] == 47 {
            assert(url@.subrange(0, 8) =~= https_prefix());
            return true;
        }
    }
    proof {
        if url@.len() >= 7 && url@.subrange(0, 7) == http_prefix() {
            assert(url@[0] == 104 && url@[1] == 116 && url@[2] == 116 && url@[3] == 112 && url@[4]
                == 58 && url@[5] == 47 && url@[6] == 47) by {
                assert(forall|j: int| 0 <= j < 7 ==> url@.subrange(0, 7)[j] == url@[j]);
            }
        }
        if url@.len() >= 8 && url@.subrange(0, 8) == https_prefix() {
            assert(url@[0] == 104 && url@[1] == 116 && url@[2] == 116 && url@[3] == 112 && url@[4]
                == 115 && url@[5] == 58 && url@[6] == 47 && url@[7] == 47) by {
                assert(forall|j: int| 0 <= j < 8 ==> url@.subrange(0, 8)[j] == url@[j]);
            }
        }
    }
    false
}

/// Whether a source with this id is registered.
pub open spec fn has_source(s: Seq<DataSourceInfo>, id: Seq<u8>) -> bool {
    exists|i: int| 0 <= i < s.len() && s[i].id@ == id
}

/// The index of the source with this id.
pub open spec fn source_index(s: Seq<DataSourceInfo>, id: Seq<u8>) -> int {
    choose|i: int| 0 <= i < s.len() && s[i].id@ == id
}

/// The source with this id.
pub open spec fn source_of(s: Seq<DataSourceInfo>, id: Seq<u8>) -> DataSourceInfo {
    s[source_index(s, id)]
}

/// With unique ids, a witness index is the index the lookup names.
pub proof fn lemma_source_lookup(s: Seq<DataSourceInfo>, id: Seq<u8>, i: int)
    requires
        forall|i1: int, i2: int| 0 <= i1 < i2 < s.len() ==> s[i1].id@ != s[i2].id@,
        0 <= i < s.len(),
        s[i].id@ == id,
    ensures
        has_source(s, id),
        source_index(s, id) == i,
        source_of(s, id) == s[i],
{
    assert(has_source(s, id));
    let j = source_index(s, id);
    assert(0 <= j < s.len() && s[j].id@ == id);
}

/// Whether an oracle under this principal is registered.
pub open spec fn has_oracle(s: Seq<OracleInfo>, p: u64) -> bool {
    exists|i: int| 0 <= i < s.len() && s[i].principal == p
}

/// The index of the oracle under this principal.
pub open spec fn oracle_index(s: Seq<OracleInfo>, p: u64) -> int {
    choose|i: int| 0 <= i < s.len() && s[i].principal == p
}

/// The oracle under this principal.
pub open spec fn oracle_of(s: Seq<OracleInfo>, p: u64) -> OracleInfo {
    s[oracle_index(s, p)]
}

/// With unique principals, a witness index is the index the lookup names.
pub proof fn lemma_oracle_lookup(s: Seq<OracleInfo>, p: u64, i: int)
    requires
        forall|i1: int, i2: int| 0 <= i1 < i2 < s.len() ==> s[i1].principal != s[i2].principal,
        0 <= i < s.len(),
        s[i].principal == p,
    ensures
        has_oracle(s, p),
        oracle_index(s, p) == i,
        oracle_of(s, p) == s[i],
{
    assert(has_oracle(s, p));
    let j = oracle_index(s, p);
    assert(0 <= j < s.len() && s[j].principal == p);
}

/// Whether a registered source with this id serves this data type.
pub open spec fn source_serves(s: Seq<DataSourceInfo>, id: Seq<u8>, dt: DataType) -> bool {
    exists|j: int| 0 <= j < s.len() && s[j].id@ == id && s[j].data_type == dt
}

/// Whether the oracle lists at least one source serving this data type: the
/// permission to publish it.
pub open spec fn oracle_has_permission(
    sources: Seq<DataSourceInfo>,
    info: OracleInfo,
    dt: DataType,
) -> bool {
    exists|i: int|
        0 <= i < info.source_ids@.len() && source_serves(sources, info.source_ids@[i]@, dt)
}

/// Whether a latest value for this data type exists.
pub open spec fn has_point(s: Seq<ExternalDataPoint>, dt: DataType) -> bool {
    exists|i: int| 0 <= i < s.len() && s[i].data_type == dt
}

/// The index of the latest value for this data type.
pub open spec fn point_index(s: Seq<ExternalDataPoint>, dt: DataType) -> int {
    choose|i: int| 0 <= i < s.len() && s[i].data_type == dt
}

/// The latest value for this data type.
pub open spec fn point_of(s: Seq<ExternalDataPoint>, dt: DataType) -> ExternalDataPoint {
    s[point_index(s, dt)]
}

/// With unique data types, a witness index is the index the lookup names.
pub proof fn lemma_point_lookup(s: Seq<ExternalDataPoint>, dt: DataType, i: int)
    requires
        forall|i1: int, i2: int| 0 <= i1 < i2 < s.len() ==> s[i1].data_type != s[i2].data_type,
        0 <= i < s.len(),
        s[i].data_type == dt,
    ensures
        has_point(s, dt),
        point_index(s, dt) == i,
        point_of(s, dt) == s[i],
{
    assert(has_point(s, dt));
    let j = point_index(s, dt);
    assert(0 <= j < s.len() && s[j].data_type == dt);
}

/// The canonical id bytes of a request key.
pub open spec fn request_id_bytes(tick: u64, seq: u32) -> Seq<u8> {
    u64_le_bytes(tick) + u32_le_bytes(seq)
}

/// Strict order on request keys: by tick, then by sequence within the tick.
pub open spec fn key_lt(t1: u64, s1: u32, t2: u64, s2: u32) -> bool {
    t1 < t2 || (t1 == t2 && s1 < s2)
}

/// Distinct keys give distinct id bytes: the encoding is injective.
pub proof fn lemma_request_id_injective(t1: u64, s1: u32, t2: u64, s2: u32)
    requires
        request_id_bytes(t1, s1) == request_id_bytes(t2, s2),
    ensures
        t1 == t2 && s1 == s2,
{
    let e1 = request_id_bytes(t1, s1);
    let e2 = request_id_bytes(t2, s2);
    assert(e1.subrange(0, 8) =~= u64_le_bytes(t1));
    assert(e2.subrange(0, 8) =~= u64_le_bytes(t2));
    lemma_u64_le_round_trip(t1);
    lemma_u64_le_round_trip(t2);
    assert(u64_from_le(e1.subrange(0, 8)) == t1);
    assert(u64_from_le(e2.subrange(0, 8)) == t2);
    assert(e1.subrange(8, 12) =~= u32_le_bytes(s1));
    assert(e2.subrange(8, 12) =~= u32_le_bytes(s2));
    lemma_u32_le_round_trip(s1);
    lemma_u32_le_round_trip(s2);
    assert(u32_from_le(e1.subrange(8, 12)[0], e1.subrange(8, 12)[1], e1.subrange(8, 12)[2],
        e1.subrange(8, 12)[3]) == s1);
    assert(u32_from_le(e2.subrange(8, 12)[0], e2.subrange(8, 12)[1], e2.subrange(8, 12)[2],
        e2.subrange(8, 12)[3]) == s2);
}

/// Whether a request with these id bytes exists.
pub open spec fn has_request(s: Seq<OracleRequest>, id: Seq<u8>) -> bool {
    exists|i: int| 0 <= i < s.len() && s[i].id@ == id
}

/// The index of the request with these id bytes.
pub open spec fn request_index(s: Seq<OracleRequest>, id: Seq<u8>) -> int {
    choose|i: int| 0 <= i < s.len() && s[i].id@ == id
}

/// The request with these id bytes.
pub open spec fn request_of(s: Seq<OracleRequest>, id: Seq<u8>) -> OracleRequest {
    s[request_index(s, id)]
}

/// The oracle aggregator.
pub struct OracleAggregator {
    /// Cap on data sources per oracle.
    pub max_data_sources: usize,
    pub sources: Vec<DataSourceInfo>,
    pub oracles: Vec<OracleInfo>,
    /// At most one point per data type: the latest value wins.
    pub latest: Vec<ExternalDataPoint>,
    pub requests: Vec<OracleRequest>,
    /// Tick of the most recent request.
    pub last_request_tick: u64,
    /// Sequence number the next request in that tick receives.
    pub next_seq_in_tick: u32,
}

impl OracleAggregator {
    /// Well-formed: sources, oracles and latest points are unique per key;
    /// request ids encode their strictly increasing `(tick, seq)` keys.
    pub open spec fn wf(self) -> bool {
        &&& forall|i1: int, i2: int|
            0 <= i1 < i2 < self.sources@.len() ==> self.sources@[i1].id@ != self.sources@[i2].id@
        &&& forall|i1: int, i2: int|
            0 <= i1 < i2 < self.oracles@.len() ==> self.oracles@[i1].principal
                != self.oracles@[i2].principal
        &&& forall|i1: int, i2: int|
            0 <= i1 < i2 < self.latest@.len() ==> self.latest@[i1].data_type
                != self.latest@[i2].data_type
        &&& forall|i: int|
            0 <= i < self.requests@.len() ==> (#[trigger] self.requests@[i]).id@
                == request_id_bytes(self.requests@[i].created_tick, self.requests@[i].seq_in_tick)
        &&& forall|i1: int, i2: int|
            0 <= i1 < i2 < self.requests@.len() ==> key_lt(
                self.requests@[i1].created_tick,
                self.requests@[i1].seq_in_tick,
                self.requests@[i2].created_tick,
                self.requests@[i2].seq_in_tick,
            )
        &&& forall|i: int|
            0 <= i < self.requests@.len() ==> key_lt(
                (#[trigger] self.requests@[i]).created_tick,
                self.requests@[i].seq_in_tick,
                self.last_request_tick,
                self.next_seq_in_tick,
            )
    }

    /// A fresh aggregator with the given per-oracle source cap.
    pub fn new(max_data_sources: usize) -> (r: OracleAggregator)
        ensures
            r.wf(),
            r.sources@.len() == 0,
            r.oracles@.len() == 0,
            r.latest@.len() == 0,
            r.requests@.len() == 0,
            r.max_data_sources == max_data_sources,
    {
        OracleAggregator {
            max_data_sources,
            sources: Vec::new(),
            oracles: Vec::new(),
            latest: Vec::new(),
            requests: Vec::new(),
            last_request_tick: 0,
            next_seq_in_tick: 0,
        }
    }

    /// Registers a data source. A duplicate id is rejected with
    /// `SourceExists`, then the url must start with `http://` or `https://`
    /// (`InvalidDataSourceUrl`).
    pub fn add_data_source(
        &mut self,
        source_id: Vec<u8>,
        name: Vec<u8>,
        url: Vec<u8>,
        data_type: DataType,
    ) -> (r: Result<(), CreditError>)
        requires
            old(self).wf(),
        ensures
            final(self).wf(),
            has_source(old(self).sources@, source_id@) ==> *final(self) == *old(self) && r
                == Err::<(), CreditError>(CreditError::SourceExists),
            !has_source(old(self).sources@, source_id@) && !url_valid(url@) ==> *final(self)
                == *old(self) && r == Err::<(), CreditError>(CreditError::InvalidDataSourceUrl),
            !has_source(old(self).sources@, source_id@) && url_valid(url@) ==> {
                &&& r == Ok::<(), CreditError>(())
                &&& final(self).sources@.len() == old(self).sources@.len() + 1
                &&& final(self).sources@.drop_last() == old(self).sources@
                &&& final(self).sources@.last().id@ == source_id@
                &&& final(self).sources@.last().name@ == name@
                &&& final(self).sources@.last().url@ == url@
                &&& final(self).sources@.last().data_type == data_type
                &&& final(self).sources@.last().is_active == true
                &&& final(self).oracles == old(self).oracles
                &&& final(self).latest == old(self).latest
                &&& final(self).requests == old(self).requests
                &&& final(self).max_data_sources == old(self).max_data_sources
                &&& final(self).last_request_tick == old(self).last_request_tick
                &&& final(self).next_seq_in_tick == old(self).next_seq_in_tick
            },
    {
        let mut i: usize = 0;
        while i < self.sources.len()
            invariant
                *self == *old(self),
                old(self).wf(),
                i <= self.sources@.len(),
                forall|j: int| 0 <= j < i ==> self.sources@[j].id@ != source_id@,
            decreases self.sources@.len() - i,
        {
            if bytes_eq(&self.sources[i].id, &source_id) {
                return Err(CreditError::SourceExists);
            }
            i = i + 1;
        }
        assert(!has_source(self.sources@, source_id@));
        if !is_valid_url(&url) {
            return Err(CreditError::InvalidDataSourceUrl);
        }
        let ghost old_sources = self.sources@;
        self.sources.push(
            DataSourceInfo { id: source_id, name, url, data_type, is_active: true },
        );
        proof {
            assert(self.sources@.drop_last() =~= old_sources);
            assert forall|i1: int, i2: int| 0 <= i1 < i2 < self.sources@.len() implies
                self.sources@[i1].id@ != self.sources@[i2].id@ by {
                if i2 < old_sources.len() {
                    assert(self.sources@[i1] == old_sources[i1]);
                    assert(self.sources@[i2] == old_sources[i2]);
                } else {
                    assert(self.sources@[i1] == old_sources[i1]);
                }
            }
        }
        Ok(())
    }

    /// Registers an oracle. An already registered principal is rejected with
    /// `OracleExists`, then the source list must fit the configured cap
    /// (`DataSourceLimitExceeded`) and name only registered sources
    /// (`DataSourceNotFound`). A fresh oracle starts active with reputation
    /// 100.
    pub fn register_oracle(&mut self, principal: u64, source_ids: Vec<Vec<u8>>) -> (r: Result<
        (),
        CreditError,
    >)
        requires
            old(self).wf(),
        ensures
            final(self).wf(),
            has_oracle(old(self).oracles@, principal) ==> *final(self) == *old(self) && r == Err::<
                (),
                CreditError,
            >(CreditError::OracleExists),
            !has_oracle(old(self).oracles@, principal) && source_ids@.len() > old(
                self,
            ).max_data_sources ==> *final(self) == *old(self) && r == Err::<(), CreditError>(
                CreditError::DataSourceLimitExceeded,
            ),
            !has_oracle(old(self).oracles@, principal) && source_ids@.len() <= old(
                self,
            ).max_data_sources && (exists|k: int|
                0 <= k < source_ids@.len() && !has_source(
                    old(self).sources@,
                    (#[trigger] source_ids@[k])@,
                )) ==> *final(self) == *old(self) && r == Err::<(), CreditError>(
                CreditError::DataSourceNotFound,
            ),
            !has_oracle(old(self).oracles@, principal) && source_ids@.len() <= old(
                self,
            ).max_data_sources && (forall|k: int|
                0 <= k < source_ids@.len() ==> has_source(
                    old(self).sources@,
                    (#[trigger] source_ids@[k])@,
                )) ==> {
                &&& r == Ok::<(), CreditError>(())
                &&& final(self).oracles@.len() == old(self).oracles@.len() + 1
                &&& final(self).oracles@.drop_last() == old(self).oracles@
                &&& final(self).oracles@.last() == (OracleInfo {
                    principal,
                    source_ids,
                    is_active: true,
                    reputation: 100u32,
                })
                &&& final(self).sources == old(self).sources
                &&& final(self).latest == old(self).latest
                &&& final(self).requests == old(self).requests
                &&& final(self).max_data_sources == old(self).max_data_sources
                &&& final(self).last_request_tick == old(self).last_request_tick
                &&& final(self).next_seq_in_tick == old(self).next_seq_in_tick
            },
    {
        let mut i: usize = 0;
        while i < self.oracles.len()
            invariant
                *self == *old(self),
                old(self).wf(),
                i <= self.oracles@.len(),
                forall|j: int| 0 <= j < i ==> self.oracles@[j].principal != principal,
            decreases self.oracles@.len() - i,
        {
            if self.oracles[i].principal == principal {
                return Err(CreditError::OracleExists);
            }
            i = i + 1;
        }
        assert(!has_oracle(self.oracles@, principal));
        if source_ids.len() > self.max_data_sources {
            return Err(CreditError::DataSourceLimitExceeded);
        }
        let mut k: usize = 0;
        while k < source_ids.len()
            invariant
                *self == *old(self),
                old(self).wf(),
                !has_oracle(self.oracles@, principal),
                source_ids@.len() <= self.max_data_sources,
                k <= source_ids@.len(),
                forall|j: int|
                    0 <= j < k ==> has_source(self.sources@, (#[trigger] source_ids@[j])@),
            decreases source_ids@.len() - k,
        {
            let mut found = false;
            let mut i2: usize = 0;
            while i2 < self.sources.len()
                invariant
                    *self == *old(self),
                    old(self).wf(),
                    !has_oracle(self.oracles@, principal),
                    source_ids@.len() <= self.max_data_sources,
                    k < source_ids@.len(),
                    forall|j: int|
                        0 <= j < k ==> has_source(self.sources@, (#[trigger] source_ids@[j])@),
                    i2 <= self.sources@.len(),
                    found ==> has_source(self.sources@, source_ids@[k as int]@),
                    !found ==> forall|j: int|
                        0 <= j < i2 ==> self.sources@[j].id@ != source_ids@[k as int]@,
                decreases self.sources@.len() - i2,
            {
                if bytes_eq(&self.sources[i2].id, &source_ids[k]) {
                    found = true;
                }
                i2 = i2 + 1;
            }
            if !found {
                assert(!has_source(self.sources@, source_ids@[k as int]@));
                return Err(CreditError::DataSourceNotFound);
            }
            k = k + 1;
        }
        let ghost old_oracles = self.oracles@;
        self.oracles.push(OracleInfo { principal, source_ids, is_active: true, reputation: 100 });
        proof {
            assert(self.oracles@.drop_last() =~= old_oracles);
            assert forall|i1: int, i2: int| 0 <= i1 < i2 < self.oracles@.len() implies
                self.oracles@[i1].principal != self.oracles@[i2].principal by {
                if i2 < old_oracles.len() {
                    assert(self.oracles@[i1] == old_oracles[i1]);
                    assert(self.oracles@[i2] == old_oracles[i2]);
                } else {
                    assert(self.oracles@[i1] == old_oracles[i1]);
                }
            }
        }
        Ok(())
    }

    /// Publishes an external value. The caller must be a registered oracle
    /// (`OracleNotFound`) listing a source for this data type
    /// (`InsufficientPermissions`), and the payload must satisfy the type's
    /// format rule (`InvalidDataFormat`); the value then replaces the latest
    /// point for the data type — last write wins, no history.
#[verifier::spinoff_prover]
    #[verifier::rlimit(100)]
    pub fn update_external_data(
        &mut self,
        oracle: u64,
        data_type: DataType,
        value: Vec<u8>,
        timestamp: u64,
        tick: u64,
    ) -> (r: Result<(), CreditError>)
        requires
            old(self).wf(),
        ensures
            final(self).wf(),
            !has_oracle(old(self).oracles@, oracle) ==> *final(self) == *old(self) && r == Err::<
                (),
                CreditError,
            >(CreditError::OracleNotFound),
            has_oracle(old(self).oracles@, oracle) && !oracle_has_permission(
                old(self).sources@,
                oracle_of(old(self).oracles@, oracle),
                data_type,
            ) ==> *final(self) == *old(self) && r == Err::<(), CreditError>(
                CreditError::InsufficientPermissions,
            ),
            has_oracle(old(self).oracles@, oracle) && oracle_has_permission(
                old(self).sources@,
                oracle_of(old(self).oracles@, oracle),
                data_type,
            ) && !payload_valid(data_type, value@) ==> *final(self) == *old(self) && r == Err::<
                (),
                CreditError,
            >(CreditError::InvalidDataFormat),
            has_oracle(old(self).oracles@, oracle) && oracle_has_permission(
                old(self).sources@,
                oracle_of(old(self).oracles@, oracle),
                data_type,
            ) && payload_valid(data_type, value@) ==> {
                &&& r == Ok::<(), CreditError>(())
                &&& has_point(final(self).latest@, data_type)
                &&& point_of(final(self).latest@, data_type).data_type == data_type
                &&& point_of(final(self).latest@, data_type).oracle == oracle
                &&& point_of(final(self).latest@, data_type).value@ == value@
                &&& point_of(final(self).latest@, data_type).timestamp == timestamp
                &&& point_of(final(self).latest@, data_type).tick == tick
                &&& final(self).latest@.len() == old(self).latest@.len() + (if has_point(
                    old(self).latest@,
                    data_type,
                ) {
                    0int
                } else {
                    1int
                })
                &&& forall|dt: DataType|
                    dt != data_type ==> has_point(final(self).latest@, dt) == has_point(
                        old(self).latest@,
                        dt,
                    )
                &&& forall|dt: DataType|
                    dt != data_type && has_point(old(self).latest@, dt) ==> point_of(
                        final(self).latest@,
                        dt,
                    ) == point_of(old(self).latest@, dt)
                &&& final(self).sources == old(self).sources
                &&& final(self).oracles == old(self).oracles
                &&& final(self).requests == old(self).requests
                &&& final(self).max_data_sources == old(self).max_data_sources
                &&& final(self).last_request_tick == old(self).last_request_tick
                &&& final(self).next_seq_in_tick == old(self).next_seq_in_tick
            },
    {
        let oracle_idx = {
            let mut i: usize = 0;
            let mut found: Option<usize> = None;
            while i < self.oracles.len()
                invariant
                    *self == *old(self),
                    old(self).wf(),
                    i <= self.oracles@.len(),
                    match found {
                        Some(fi) => 0 <= fi < i && self.oracles@[fi as int].principal == oracle,
                        None => forall|j: int| 0 <= j < i ==> self.oracles@[j].principal != oracle,
                    },
                decreases self.oracles@.len() - i,
            {
                if matches!(found, None) && self.oracles[i].principal == oracle {
                    found = Some(i);
                }
                i = i + 1;
            }
            found
        };
        let oi = match oracle_idx {
            Some(i) => i,
            None => {
                return Err(CreditError::OracleNotFound);
            },
        };
        proof {
            lemma_oracle_lookup(self.oracles@, oracle, oi as int);
        }
        let info = &self.oracles[oi];
        let mut has_permission = false;
        let mut k: usize = 0;
        while k < info.source_ids.len()
            invariant
                *self == *old(self),
                old(self).wf(),
                has_oracle(self.oracles@, oracle),
                oracle_index(self.oracles@, oracle) == oi,
                0 <= oi < self.oracles@.len(),
                info == &self.oracles[oi as int],
                info.source_ids@.len() == self.oracles@[oi as int].source_ids@.len(),
                k <= info.source_ids@.len(),
                has_permission ==> oracle_has_permission(
                    self.sources@,
                    self.oracles@[oi as int],
                    data_type,
                ),
                !has_permission ==> forall|j: int|
                    0 <= j < k ==> !source_serves(
                        self.sources@,
                        (#[trigger] info.source_ids@[j])@,
                        data_type,
                    ),
            decreases info.source_ids@.len() - k,
        {
            if !has_permission {
                let mut i2: usize = 0;
                while i2 < self.sources.len()
                    invariant
                        *self == *old(self),
                        old(self).wf(),
                        has_oracle(self.oracles@, oracle),
                        oracle_index(self.oracles@, oracle) == oi,
                        0 <= oi < self.oracles@.len(),
                        info == &self.oracles[oi as int],
                        k < info.source_ids@.len(),
                        i2 <= self.sources@.len(),
                        has_permission ==> oracle_has_permission(
                            self.sources@,
                            self.oracles@[oi as int],
                            data_type,
                        ),
                        !has_permission ==> forall|j: int|
                            0 <= j < i2 ==> !(self.sources@[j].id@ == info.source_ids@[k as int]@
                                && self.sources@[j].data_type == data_type),
                    decreases self.sources@.len() - i2,
                {
                    if bytes_eq(&self.sources[i2].id, &info.source_ids[k]) {
                        let same_type = match (self.sources[i2].data_type, data_type) {
                            (DataType::CreditScore, DataType::CreditScore) => true,
                            (DataType::PaymentHistory, DataType::PaymentHistory) => true,
                            (DataType::IdentityVerification, DataType::IdentityVerification) => true,
                            (DataType::ExternalData, DataType::ExternalData) => true,
                            _ => false,
                        };
                        if same_type {
                            assert(source_serves(
                                self.sources@,
                                info.source_ids@[k as int]@,
                                data_type,
                            ));
                            has_permission = true;
                        }
                    }
                    i2 = i2 + 1;
                }
            }
            k = k + 1;
        }
        if !has_permission {
            assert(!oracle_has_permission(
                self.sources@,
                oracle_of(self.oracles@, oracle),
                data_type,
            ));
            return Err(CreditError::InsufficientPermissions);
        }
        if !validate_data_format(data_type, &value) {
            return Err(CreditError::InvalidDataFormat);
        }
        let point = ExternalDataPoint { data_type, oracle, value, timestamp, tick };
        let ghost old_latest = self.latest@;
        let mut pidx: Option<usize> = None;
        let mut j: usize = 0;
        while j < self.latest.len()
            invariant
                *self == *old(self),
                old(self).wf(),
                old_latest == old(self).latest@,
                j <= self.latest@.len(),
                match pidx {
                    Some(fi) => 0 <= fi < j && old_latest[fi as int].data_type == data_type,
                    None => forall|jj: int| 0 <= jj < j ==> old_latest[jj].data_type != data_type,
                },
            decreases self.latest@.len() - j,
        {
            let same = match (self.latest[j].data_type, data_type) {
                (DataType::CreditScore, DataType::CreditScore) => true,
                (DataType::PaymentHistory, DataType::PaymentHistory) => true,
                (DataType::IdentityVerification, DataType::IdentityVerification) => true,
                (DataType::ExternalData, DataType::ExternalData) => true,
                _ => false,
            };
            if matches!(pidx, None) && same {
                pidx = Some(j);
            }
            j = j + 1;
        }
        match pidx {
            Some(i) => {
                proof {
                    lemma_point_lookup(old_latest, data_type, i as int);
                }
                crate::util::replace_at(&mut self.latest, i, point);
                proof {
                    lemma_point_lookup(self.latest@, data_type, i as int);
                    assert forall|dt: DataType| dt != data_type implies has_point(
                        self.latest@,
                        dt,
                    ) == has_point(old_latest, dt) by {
                        if has_point(old_latest, dt) {
                            let j2 = point_index(old_latest, dt);
                            assert(self.latest@[j2].data_type == dt);
                        }
                        if has_point(self.latest@, dt) {
                            let j2 = point_index(self.latest@, dt);
                            assert(old_latest[j2].data_type == dt);
                        }
                    }
                    assert forall|dt: DataType| dt != data_type && has_point(old_latest, dt)
                        implies point_of(self.latest@, dt) == point_of(old_latest, dt) by {
                        let j2 = point_index(old_latest, dt);
                        assert(old_latest[j2].data_type == dt);
                        lemma_point_lookup(self.latest@, dt, j2);
                    }
                }
            },
            None => {
                self.latest.push(point);
                proof {
                    assert forall|i1: int, i2: int| 0 <= i1 < i2 < self.latest@.len() implies
                        self.latest@[i1].data_type != self.latest@[i2].data_type by {
                        if i2 < old_latest.len() {
                            assert(self.latest@[i1] == old_latest[i1]);
                            assert(self.latest@[i2] == old_latest[i2]);
                        } else {
                            assert(self.latest@[i1] == old_latest[i1]);
                        }
                    }
                    lemma_point_lookup(self.latest@, data_type, old_latest.len() as int);
                    assert forall|dt: DataType| dt != data_type implies has_point(
                        self.latest@,
                        dt,
                    ) == has_point(old_latest, dt) by {
                        if has_point(old_latest, dt) {
                            let j2 = point_index(old_latest, dt);
                            assert(self.latest@[j2].data_type == dt);
                        }
                        if has_point(self.latest@, dt) {
                            let j2 = point_index(self.latest@, dt);
                            assert(0 <= j2 < old_latest.len());
                            assert(old_latest[j2].data_type == dt);
                        }
                    }
                    assert forall|dt: DataType| dt != data_type && has_point(old_latest, dt)
                        implies point_of(self.latest@, dt) == point_of(old_latest, dt) by {
                        let j2 = point_index(old_latest, dt);
                        assert(old_latest[j2].data_type == dt);
                        lemma_point_lookup(self.latest@, dt, j2);
                    }
                }
            },
        }
        Ok(())
    }

    /// Creates an oracle request. Its id is derived from the tick and the
    /// request's position within that tick, so ids are unique across the
    /// replica's whole history without randomness. The host's clock must not
    /// run backwards.
    pub fn create_oracle_request(
        &mut self,
        requester: u64,
        data_type: DataType,
        max_fee: u128,
        tick: u64,
    ) -> (r: Vec<u8>)
        requires
            old(self).wf(),
            tick >= old(self).last_request_tick,
            old(self).next_seq_in_tick < u32::MAX,
        ensures
            final(self).wf(),
            r@ == request_id_bytes(
                tick,
                (if tick == old(self).last_request_tick {
                    old(self).next_seq_in_tick
                } else {
                    0u32
                }),
            ),
            final(self).requests@.len() == old(self).requests@.len() + 1,
            final(self).requests@.drop_last() == old(self).requests@,
            final(self).requests@.last().id@ == r@,
            final(self).requests@.last().requester == requester,
            final(self).requests@.last().data_type == data_type,
            final(self).requests@.last().max_fee == max_fee,
            final(self).requests@.last().status == RequestStatus::Pending,
            final(self).requests@.last().created_tick == tick,
            final(self).requests@.last().resolved_tick is None,
            final(self).requests@.last().fulfiller is None,
            final(self).requests@.last().result is None,
            final(self).requests@.last().error is None,
            final(self).sources == old(self).sources,
            final(self).oracles == old(self).oracles,
            final(self).latest == old(self).latest,
            final(self).max_data_sources == old(self).max_data_sources,
    {
        let seq: u32 = if tick == self.last_request_tick {
            self.next_seq_in_tick
        } else {
            0
        };
        let mut id: Vec<u8> = Vec::new();
        encode_u64(&mut id, tick);
        encode_u32(&mut id, seq);
        assert(id@ =~= request_id_bytes(tick, seq));
        let id_copy = crate::util::copy_all(&id);
        let request = OracleRequest {
            id,
            requester,
            data_type,
            max_fee,
            status: RequestStatus::Pending,
            created_tick: tick,
            seq_in_tick: seq,
            resolved_tick: None,
            fulfiller: None,
            result: None,
            error: None,
        };
        let ghost old_requests = self.requests@;
        self.requests.push(request);
        self.last_request_tick = tick;
        self.next_seq_in_tick = seq + 1;
        proof {
            assert(self.requests@.drop_last() =~= old_requests);
            assert forall|i1: int, i2: int| 0 <= i1 < i2 < self.requests@.len() implies key_lt(
                self.requests@[i1].created_tick,
                self.requests@[i1].seq_in_tick,
                self.requests@[i2].created_tick,
                self.requests@[i2].seq_in_tick,
            ) by {
                if i2 < old_requests.len() {
                    assert(self.requests@[i1] == old_requests[i1]);
                    assert(self.requests@[i2] == old_requests[i2]);
                } else {
                    assert(self.requests@[i1] == old_requests[i1]);
                }
            }
        }
        id_copy
    }

    /// Resolves a pending request: `Fulfilled` with a result, or `Failed`
    /// with an error, recording the resolving oracle and the tick. An
    /// unknown id is rejected with `RequestNotFound`; a request that is no
    /// longer pending with `RequestAlreadyFulfilled`.
    #[verifier::rlimit(100)]
    fn settle_request(
        &mut self,
        oracle: u64,
        request_id: &Vec<u8>,
        outcome: Result<Vec<u8>, Vec<u8>>,
        tick: u64,
    ) -> (r: Result<(), CreditError>)
        requires
            old(self).wf(),
        ensures
            final(self).wf(),
            !has_request(old(self).requests@, request_id@) ==> *final(self) == *old(self) && r
                == Err::<(), CreditError>(CreditError::RequestNotFound),
            has_request(old(self).requests@, request_id@) && request_of(
                old(self).requests@,
                request_id@,
            ).status != RequestStatus::Pending ==> *final(self) == *old(self) && r == Err::<
                (),
                CreditError,
            >(CreditError::RequestAlreadyFulfilled),
            has_request(old(self).requests@, request_id@) && request_of(
                old(self).requests@,
                request_id@,
            ).status == RequestStatus::Pending ==> {
                &&& r == Ok::<(), CreditError>(())
                &&& final(self).requests@ == old(self).requests@.update(
                    request_index(old(self).requests@, request_id@),
                    (OracleRequest {
                        status: (match outcome {
                            Ok(_) => RequestStatus::Fulfilled,
                            Err(_) => RequestStatus::Failed,
                        }),
                        resolved_tick: Some(tick),
                        fulfiller: Some(oracle),
                        result: (match outcome {
                            Ok(data) => Some(data),
                            Err(_) => request_of(old(self).requests@, request_id@).result,
                        }),
                        error: (match outcome {
                            Ok(_) => request_of(old(self).requests@, request_id@).error,
                            Err(reason) => Some(reason),
                        }),
                        ..request_of(old(self).requests@, request_id@)
                    }),
                )
                &&& final(self).sources == old(self).sources
                &&& final(self).oracles == old(self).oracles
                &&& final(self).latest == old(self).latest
                &&& final(self).max_data_sources == old(self).max_data_sources
                &&& final(self).last_request_tick == old(self).last_request_tick
                &&& final(self).next_seq_in_tick == old(self).next_seq_in_tick
            },
    {
        let ghost old_requests = self.requests@;
        let mut found: Option<usize> = None;
        let mut i: usize = 0;
        while i < self.requests.len()
            invariant
                *self == *old(self),
                old(self).wf(),
                i <= self.requests@.len(),
                match found {
                    Some(fi) => 0 <= fi < i && self.requests@[fi as int].id@ == request_id@,
                    None => forall|j: int| 0 <= j < i ==> self.requests@[j].id@ != request_id@,
                },
            decreases self.requests@.len() - i,
        {
            if matches!(found, None) && bytes_eq(&self.requests[i].id, request_id) {
                found = Some(i);
            }
            i = i + 1;
        }
        let idx = match found {
            Some(fi) => fi,
            None => {
                assert(!has_request(self.requests@, request_id@));
                return Err(CreditError::RequestNotFound);
            },
        };
        proof {
            self.lemma_request_lookup(request_id@, idx as int);
        }
        if !matches!(self.requests[idx].status, RequestStatus::Pending) {
            return Err(CreditError::RequestAlreadyFulfilled);
        }
        let slot = &mut self.requests[idx];
        match outcome {
            Ok(data) => {
                slot.status = RequestStatus::Fulfilled;
                slot.result = Some(data);
            },
            Err(reason) => {
                slot.status = RequestStatus::Failed;
                slot.error = Some(reason);
            },
        }
        slot.resolved_tick = Some(tick);
        slot.fulfiller = Some(oracle);
        proof {
            assert forall|i2: int| 0 <= i2 < self.requests@.len() implies (
            #[trigger] self.requests@[i2]).id@ == request_id_bytes(
                self.requests@[i2].created_tick,
                self.requests@[i2].seq_in_tick,
            ) by {
                if i2 != idx {
                    assert(self.requests@[i2] == old_requests[i2]);
                }
            }
            assert forall|i1: int, i2: int| 0 <= i1 < i2 < self.requests@.len() implies key_lt(
                self.requests@[i1].created_tick,
                self.requests@[i1].seq_in_tick,
                self.requests@[i2].created_tick,
                self.requests@[i2].seq_in_tick,
            ) by {
                if i1 != idx {
                    assert(self.requests@[i1] == old_requests[i1]);
                }
                if i2 != idx {
                    assert(self.requests@[i2] == old_requests[i2]);
                }
            }
            assert forall|i2: int| 0 <= i2 < self.requests@.len() implies key_lt(
                (#[trigger] self.requests@[i2]).created_tick,
                self.requests@[i2].seq_in_tick,
                self.last_request_tick,
                self.next_seq_in_tick,
            ) by {
                if i2 != idx {
                    assert(self.requests@[i2] == old_requests[i2]);
                }
            }
            assert(self.requests@ =~= old_requests.update(
                idx as int,
                (OracleRequest {
                    status: self.requests@[idx as int].status,
                    resolved_tick: Some(tick),
                    fulfiller: Some(oracle),
                    result: self.requests@[idx as int].result,
                    error: self.requests@[idx as int].error,
                    ..old_requests[idx as int]
                }),
            ));
        }
        Ok(())
    }

    /// With unique ids (from the strictly increasing keys), a witness index
    /// is the index the lookup names.
    proof fn lemma_request_lookup(self, id: Seq<u8>, i: int)
        requires
            self.wf(),
            0 <= i < self.requests@.len(),
            self.requests@[i].id@ == id,
        ensures
            has_request(self.requests@, id),
            request_index(self.requests@, id) == i,
            request_of(self.requests@, id) == self.requests@[i],
    {
        assert(has_request(self.requests@, id));
        let j = request_index(self.requests@, id);
        assert(0 <= j < self.requests@.len() && self.requests@[j].id@ == id);
        if i != j {
            lemma_request_id_injective(
                self.requests@[i].created_tick,
                self.requests@[i].seq_in_tick,
                self.requests@[j].created_tick,
                self.requests@[j].seq_in_tick,
            );
            if i < j {
                assert(key_lt(
                    self.requests@[i].created_tick,
                    self.requests@[i].seq_in_tick,
                    self.requests@[j].created_tick,
                    self.requests@[j].seq_in_tick,
                ));
            } else {
                assert(key_lt(
                    self.requests@[j].created_tick,
                    self.requests@[j].seq_in_tick,
                    self.requests@[i].created_tick,
                    self.requests@[i].seq_in_tick,
                ));
            }
            assert(false);
        }
    }

    /// Fulfills a pending request with result data.
    pub fn fulfill_oracle_request(
        &mut self,
        oracle: u64,
        request_id: &Vec<u8>,
        data: Vec<u8>,
        tick: u64,
    ) -> (r: Result<(), CreditError>)
        requires
            old(self).wf(),
        ensures
            final(self).wf(),
            !has_request(old(self).requests@, request_id@) ==> *final(self) == *old(self) && r
                == Err::<(), CreditError>(CreditError::RequestNotFound),
            has_request(old(self).requests@, request_id@) && request_of(
                old(self).requests@,
                request_id@,
            ).status != RequestStatus::Pending ==> *final(self) == *old(self) && r == Err::<
                (),
                CreditError,
            >(CreditError::RequestAlreadyFulfilled),
            has_request(old(self).requests@, request_id@) && request_of(
                old(self).requests@,
                request_id@,
            ).status == RequestStatus::Pending ==> {
                &&& r == Ok::<(), CreditError>(())
                &&& final(self).requests@ == old(self).requests@.update(
                    request_index(old(self).requests@, request_id@),
                    (OracleRequest {
                        status: RequestStatus::Fulfilled,
                        resolved_tick: Some(tick),
                        fulfiller: Some(oracle),
                        result: Some(data),
                        ..request_of(old(self).requests@, request_id@)
                    }),
                )
                &&& final(self).sources == old(self).sources
                &&& final(self).oracles == old(self).oracles
                &&& final(self).latest == old(self).latest
            },
    {
        self.settle_request(oracle, request_id, Ok(data), tick)
    }

    /// Fails a pending request with a reason.
    pub fn fail_oracle_request(
        &mut self,
        oracle: u64,
        request_id: &Vec<u8>,
        reason: Vec<u8>,
        tick: u64,
    ) -> (r: Result<(), CreditError>)
        requires
            old(self).wf(),
        ensures
            final(self).wf(),
            !has_request(old(self).requests@, request_id@) ==> *final(self) == *old(self) && r
                == Err::<(), CreditError>(CreditError::RequestNotFound),
            has_request(old(self).requests@, request_id@) && request_of(
                old(self).requests@,
                request_id@,
            ).status != RequestStatus::Pending ==> *final(self) == *old(self) && r == Err::<
                (),
                CreditError,
            >(CreditError::RequestAlreadyFulfilled),
            has_request(old(self).requests@, request_id@) && request_of(
                old(self).requests@,
                request_id@,
            ).status == RequestStatus::Pending ==> {
                &&& r == Ok::<(), CreditError>(())
                &&& final(self).requests@ == old(self).requests@.update(
                    request_index(old(self).requests@, request_id@),
                    (OracleRequest {
                        status: RequestStatus::Failed,
                        resolved_tick: Some(tick),
                        fulfiller: Some(oracle),
                        error: Some(reason),
                        ..request_of(old(self).requests@, request_id@)
                    }),
                )
                &&& final(self).sources == old(self).sources
                &&& final(self).oracles == old(self).oracles
                &&& final(self).latest == old(self).latest
            },
    {
        self.settle_request(oracle, request_id, Err(reason), tick)
    }

    /// The oracle registered under this principal, if any.
    pub fn oracle_data(&self, principal: u64) -> (r: Option<&OracleInfo>)
        requires
            self.wf(),
        ensures
            match r {
                Some(info) => has_oracle(self.oracles@, principal) && *info == oracle_of(
                    self.oracles@,
                    principal,
                ),
                None => !has_oracle(self.oracles@, principal),
            },
    {
        let mut i: usize = 0;
        while i < self.oracles.len()
            invariant
                self.wf(),
                i <= self.oracles@.len(),
                forall|j: int| 0 <= j < i ==> self.oracles@[j].principal != principal,
            decreases self.oracles@.len() - i,
        {
            if self.oracles[i].principal == principal {
                proof {
                    lemma_oracle_lookup(self.oracles@, principal, i as int);
                }
                return Some(&self.oracles[i]);
            }
            i = i + 1;
        }
        None
    }

    /// The registered source with this id, if any.
    pub fn data_sources(&self, source_id: &Vec<u8>) -> (r: Option<&DataSourceInfo>)
        requires
            self.wf(),
        ensures
            match r {
                Some(s) => has_source(self.sources@, source_id@) && *s == source_of(
                    self.sources@,
                    source_id@,
                ),
                None => !has_source(self.sources@, source_id@),
            },
    {
        let mut i: usize = 0;
        while i < self.sources.len()
            invariant
                self.wf(),
                i <= self.sources@.len(),
                forall|j: int| 0 <= j < i ==> self.sources@[j].id@ != source_id@,
            decreases self.sources@.len() - i,
        {
            if bytes_eq(&self.sources[i].id, source_id) {
                proof {
                    lemma_source_lookup(self.sources@, source_id@, i as int);
                }
                return Some(&self.sources[i]);
            }
            i = i + 1;
        }
        None
    }

    /// The latest published value for this data type, if any.
    pub fn external_data(&self, data_type: DataType) -> (r: Option<&ExternalDataPoint>)
        requires
            self.wf(),
        ensures
            match r {
                Some(p) => has_point(self.latest@, data_type) && *p == point_of(
                    self.latest@,
                    data_type,
                ),
                None => !has_point(self.latest@, data_type),
            },
    {
        let mut i: usize = 0;
        while i < self.latest.len()
            invariant
                self.wf(),
                i <= self.latest@.len(),
                forall|j: int| 0 <= j < i ==> self.latest@[j].data_type != data_type,
            decreases self.latest@.len() - i,
        {
            let same = match (self.latest[i].data_type, data_type) {
                (DataType::CreditScore, DataType::CreditScore) => true,
                (DataType::PaymentHistory, DataType::PaymentHistory) => true,
                (DataType::IdentityVerification, DataType::IdentityVerification) => true,
                (DataType::ExternalData, DataType::ExternalData) => true,
                _ => false,
            };
            if same {
                proof {
                    lemma_point_lookup(self.latest@, data_type, i as int);
                }
                return Some(&self.latest[i]);
            }
            i = i + 1;
        }
        None
    }

    /// The request with these id bytes, if any.
    pub fn oracle_requests(&self, request_id: &Vec<u8>) -> (r: Option<&OracleRequest>)
        requires
            self.wf(),
        ensures
            match r {
                Some(q) => has_request(self.requests@, request_id@) && *q == request_of(
                    self.requests@,
                    request_id@,
                ),
                None => !has_request(self.requests@, request_id@),
            },
    {
        let mut i: usize = 0;
        while i < self.requests.len()
            invariant
                self.wf(),
                i <= self.requests@.len(),
                forall|j: int| 0 <= j < i ==> self.requests@[j].id@ != request_id@,
            decreases self.requests@.len() - i,
        {
            if bytes_eq(&self.requests[i].id, request_id) {
                proof {
                    self.lemma_request_lookup(request_id@, i as int);
                }
                return Some(&self.requests[i]);
            }
            i = i + 1;
        }
        None
    }
}

/// Request ids are unique: distinct requests always carry distinct id bytes,
/// because their `(tick, sequence)` keys strictly increase and the encoding
/// is injective.
pub proof fn lemma_request_ids_unique(aggr: OracleAggregator)
    requires
        aggr.wf(),
    ensures
        forall|i: int, j: int|
            0 <= i < j < aggr.requests@.len() ==> (#[trigger] aggr.requests@[i]).id@ != (
            #[trigger] aggr.requests@[j]).id@,
{
    assert forall|i: int, j: int| 0 <= i < j < aggr.requests@.len() implies (
    #[trigger] aggr.requests@[i]).id@ != (#[trigger] aggr.requests@[j]).id@ by {
        if aggr.requests@[i].id@ == aggr.requests@[j].id@ {
            lemma_request_id_injective(
                aggr.requests@[i].created_tick,
                aggr.requests@[i].seq_in_tick,
                aggr.requests@[j].created_tick,
                aggr.requests@[j].seq_in_tick,
            );
            assert(key_lt(
                aggr.requests@[i].created_tick,
                aggr.requests@[i].seq_in_tick,
                aggr.requests@[j].created_tick,
                aggr.requests@[j].seq_in_tick,
            ));
        }
    }
}

} // verus!
