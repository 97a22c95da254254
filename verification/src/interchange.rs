//! Cross-ledger interchange: canonical byte records per data kind, and their
//! validated ingestion under a configured allow-list of origins.
//!
//! `serialize` produces one fixed, canonical byte form; `validate_and_ingest`
//! accepts exactly the byte strings that some structurally valid record
//! serializes to, and only from a trusted origin — everything else is
//! rejected with a typed error and no other effect.

use vstd::prelude::*;
use crate::codec::{
    bytes_encoding, decode_u32, decode_u64, decode_u128, encode_bytes, encode_u32, encode_u64,
    encode_u128, lemma_u32_le_round_trip, lemma_u64_le_round_trip, lemma_u128_le_round_trip,
    u32_from_le, u32_le_bytes, u64_le_bytes, u128_from_le, u128_le_bytes,
};
use crate::errors::CreditError;

verus! {

/// The injected allow-list of trusted cross-ledger origins.
pub struct InterchangeConfig {
    pub trusted_origins: Vec<u32>,
}

/// Whether the configuration trusts this origin.
pub open spec fn origin_trusted(cfg: InterchangeConfig, origin: u32) -> bool {
    exists|i: int| 0 <= i < cfg.trusted_origins@.len() && cfg.trusted_origins@[i] == origin
}

impl InterchangeConfig {
    /// Checks the allow-list.
    pub fn is_trusted_origin(&self, origin: u32) -> (r: bool)
        ensures
            r == origin_trusted(*self, origin),
    {
        let mut i: usize = 0;
        while i < self.trusted_origins.len()
            invariant
                i <= self.trusted_origins@.len(),
                forall|j: int| 0 <= j < i ==> self.trusted_origins@[j] != origin,
            decreases self.trusted_origins@.len() - i,
        {
            if self.trusted_origins[i] == origin {
                return true;
            }
            i = i + 1;
        }
        false
    }
}

/// A credit score record in transit: whose score, and its value.
#[derive(Debug)]
pub struct CreditScoreRecord {
    pub subject: Vec<u8>,
    pub score: u32,
}

/// The canonical bytes of a credit score record: a tag byte, the
/// length-prefixed subject, and the score.
pub open spec fn credit_score_bytes(subject: Seq<u8>, score: u32) -> Seq<u8> {
    seq![1u8] + bytes_encoding(subject) + u32_le_bytes(score)
}

/// A structurally valid credit score record: the score within the score
/// range, the subject short enough for its length prefix.
pub open spec fn credit_score_record_valid(subject: Seq<u8>, score: u32) -> bool {
    score <= 1000 && subject.len() <= u32::MAX
}

/// Serializes a credit score record into its canonical bytes.
pub fn serialize_credit_score(record: &CreditScoreRecord) -> (r: Vec<u8>)
    requires
        record.subject@.len() <= u32::MAX,
    ensures
        r@ == credit_score_bytes(record.subject@, record.score),
{
    let mut out: Vec<u8> = Vec::new();
    out.push(1u8);
    encode_bytes(&mut out, &record.subject);
    encode_u32(&mut out, record.score);
    assert(out@ =~= credit_score_bytes(record.subject@, record.score));
    out
}

/// Validates and ingests a credit score record.
///
/// Rejects an untrusted origin with `UntrustedOrigin` before looking at the
/// bytes; then accepts exactly the canonical byte strings of records with a
/// score of at most 1000, rejecting everything else with `MalformedRecord`.
#[verifier::spinoff_prover]
#[verifier::rlimit(100)]
pub fn validate_and_ingest_credit_score(
    bytes: &Vec<u8>,
    origin: u32,
    cfg: &InterchangeConfig,
) -> (r: Result<CreditScoreRecord, CreditError>)
    ensures
        !origin_trusted(*cfg, origin) <==> r == Err::<CreditScoreRecord, CreditError>(
            CreditError::UntrustedOrigin,
        ),
        r matches Ok(rec) ==> origin_trusted(*cfg, origin) && bytes@ == credit_score_bytes(
            rec.subject@,
            rec.score,
        ) && credit_score_record_valid(rec.subject@, rec.score),
        origin_trusted(*cfg, origin) && (exists|subject: Seq<u8>, score: u32|
            bytes@ == credit_score_bytes(subject, score) && credit_score_record_valid(
                subject,
                score,
            )) ==> r is Ok,
{
    if !cfg.is_trusted_origin(origin) {
        return Err(CreditError::UntrustedOrigin);
    }
    let good = Ghost(
        exists|subject: Seq<u8>, score: u32|
            bytes@ == credit_score_bytes(subject, score) && credit_score_record_valid(
                subject,
                score,
            ),
    );
    proof {
        if good@ {
            let (subject, score) = choose|subject: Seq<u8>, score: u32|
                bytes@ == credit_score_bytes(subject, score) && credit_score_record_valid(
                    subject,
                    score,
                );
            lemma_u32_le_round_trip(subject.len() as u32);
            lemma_u32_le_round_trip(score);
            assert(bytes@.len() == 9 + subject.len());
            assert(bytes@[0] == 1u8);
            assert forall|j: int| 0 <= j < 4 implies bytes@[1 + j] == #[trigger] u32_le_bytes(
                subject.len() as u32,
            )[j] by {}
            assert forall|j: int| 0 <= j < subject.len() implies #[trigger] bytes@[5 + j]
                == subject[j] by {}
            assert forall|j: int| 0 <= j < 4 implies bytes@[5 + subject.len() + j]
                == #[trigger] u32_le_bytes(score)[j] by {}
        }
    }
    if bytes.len() < 9 {
        proof {
            if good@ {
                assert(false);
            }
        }
        return Err(CreditError::MalformedRecord);
    }
    if bytes[0] != 1 {
        proof {
            if good@ {
                assert(false);
            }
        }
        return Err(CreditError::MalformedRecord);
    }
    let n = decode_u32(bytes, 1);
    if !(n as u64 + 9 == bytes.len() as u64) {
        proof {
            if good@ {
                let (subject, score) = choose|subject: Seq<u8>, score: u32|
                    bytes@ == credit_score_bytes(subject, score) && credit_score_record_valid(
                        subject,
                        score,
                    );
                assert(n == subject.len());
                assert(false);
            }
        }
        return Err(CreditError::MalformedRecord);
    }
    let n_usize = n as usize;
    let m = bytes.len();
    let mut subject: Vec<u8> = Vec::new();
    let mut i: usize = 0;
    while i < n_usize
        invariant
            m == bytes@.len(),
            n_usize + 9 == m,
            i <= n_usize,
            subject@ == bytes@.subrange(5, 5 + i as int),
        decreases n_usize - i,
    {
        subject.push(bytes[5 + i]);
        assert(subject@ =~= bytes@.subrange(5, 5 + i + 1));
        i = i + 1;
    }
    let score = decode_u32(bytes, 5 + n_usize);
    proof {
        if good@ {
            let (s0, sc0) = choose|s0: Seq<u8>, sc0: u32|
                bytes@ == credit_score_bytes(s0, sc0) && credit_score_record_valid(s0, sc0);
            assert(n == s0.len());
            assert(subject@ =~= s0);
            assert(score == sc0);
        }
    }
    if score > 1000 {
        proof {
            if good@ {
                assert(false);
            }
        }
        return Err(CreditError::MalformedRecord);
    }
    let record = CreditScoreRecord { subject, score };
    proof {
        lemma_u32_le_round_trip(score);
        assert(record.subject@.len() == n);
        assert(u32_from_le(bytes@[1], bytes@[2], bytes@[3], bytes@[4]) == n);
        assert(bytes@ =~= credit_score_bytes(record.subject@, record.score)) by {
            lemma_u32_round_trip_bytes(n, bytes@.subrange(1, 5));
            lemma_u32_round_trip_bytes(score, bytes@.subrange(5 + n_usize as int, 9 + n_usize as int));
            assert(bytes@.subrange(5 + n_usize as int, 9 + n_usize as int) =~= u32_le_bytes(score));
            assert(bytes@.subrange(1, 5) =~= u32_le_bytes(n));
        }
    }
    Ok(record)
}

/// Four bytes whose read-back value is `x` are exactly the four little-endian
/// bytes of `x`.
pub proof fn lemma_u32_round_trip_bytes(x: u32, s: Seq<u8>)
    requires
        s.len() == 4,
        u32_from_le(s[0], s[1], s[2], s[3]) == x,
    ensures
        s == u32_le_bytes(x),
{
    let v = s[0] + s[1] * 256 + s[2] * 65536 + s[3] * 16777216;
    assert(0 <= v < 4294967296);
    assert(v == x);
    assert(s[0] == v % 256 && s[1] == v / 256 % 256 && s[2] == v / 65536 % 256 && s[3] == v
        / 16777216 % 256) by (nonlinear_arith)
        requires 0 <= s[0] < 256 && 0 <= s[1] < 256 && 0 <= s[2] < 256 && 0 <= s[3] < 256 && v == s[0] + s[1] * 256 + s[2] * 65536 + s[3] * 16777216;
    assert(s =~= u32_le_bytes(x));
}

/// Reads one length-prefixed chunk at `pos`: succeeds exactly when the four
/// prefix bytes fit and announce a length that fits, returning the chunk and
/// the position just past it.
pub fn read_chunk(bytes: &Vec<u8>, pos: usize) -> (r: Option<(Vec<u8>, usize)>)
    requires
        pos <= bytes@.len(),
    ensures
        match r {
            Some(p) => {
                &&& pos + 4 <= bytes@.len()
                &&& p.0@.len() == u32_from_le(
                    bytes@[pos as int],
                    bytes@[pos + 1],
                    bytes@[pos + 2],
                    bytes@[pos + 3],
                )
                &&& p.1 == pos + 4 + p.0@.len()
                &&& p.1 <= bytes@.len()
                &&& bytes@.subrange(pos as int, p.1 as int) == bytes_encoding(p.0@)
                &&& p.0@ == bytes@.subrange(pos + 4, p.1 as int)
            },
            None => pos + 4 > bytes@.len() || (pos + 4 <= bytes@.len() && pos + 4 + u32_from_le(
                bytes@[pos as int],
                bytes@[pos + 1],
                bytes@[pos + 2],
                bytes@[pos + 3],
            ) > bytes@.len()),
        },
{
    let m = bytes.len();
    if m < 4 || pos > m - 4 {
        return None;
    }
    let n = decode_u32(bytes, pos);
    if (n as u64) > (m - pos - 4) as u64 {
        return None;
    }
    let n_usize = n as usize;
    let mut chunk: Vec<u8> = Vec::new();
    let mut i: usize = 0;
    while i < n_usize
        invariant
            m == bytes@.len(),
            pos + 4 + n_usize <= m,
            i <= n_usize,
            chunk@ == bytes@.subrange(pos + 4, pos + 4 + i as int),
        decreases n_usize - i,
    {
        chunk.push(bytes[pos + 4 + i]);
        assert(chunk@ =~= bytes@.subrange(pos + 4, pos + 4 + i + 1));
        i = i + 1;
    }
    proof {
        lemma_u32_round_trip_bytes(n, bytes@.subrange(pos as int, pos + 4));
        assert(bytes@.subrange(pos as int, pos + 4 + n_usize as int) =~= bytes_encoding(chunk@));
    }
    Some((chunk, pos + 4 + n_usize))
}

/// A payment record in transit.
#[derive(Debug)]
pub struct PaymentDataRecord {
    pub payment_id: Vec<u8>,
    pub amount: u128,
    pub subject: Vec<u8>,
}

/// The canonical bytes of a payment record: a tag byte, the length-prefixed
/// payment id, the amount, and the length-prefixed subject.
pub open spec fn payment_data_bytes(payment_id: Seq<u8>, amount: u128, subject: Seq<u8>) -> Seq<
    u8,
> {
    seq![2u8] + bytes_encoding(payment_id) + u128_le_bytes(amount) + bytes_encoding(subject)
}

/// A structurally valid payment record: a positive amount, fields short
/// enough for their length prefixes.
pub open spec fn payment_data_record_valid(
    payment_id: Seq<u8>,
    amount: u128,
    subject: Seq<u8>,
) -> bool {
    amount > 0 && payment_id.len() <= u32::MAX && subject.len() <= u32::MAX
}

/// Serializes a payment record into its canonical bytes.
pub fn serialize_payment_data(record: &PaymentDataRecord) -> (r: Vec<u8>)
    requires
        record.payment_id@.len() <= u32::MAX,
        record.subject@.len() <= u32::MAX,
    ensures
        r@ == payment_data_bytes(record.payment_id@, record.amount, record.subject@),
{
    let mut out: Vec<u8> = Vec::new();
    out.push(2u8);
    encode_bytes(&mut out, &record.payment_id);
    encode_u128(&mut out, record.amount);
    encode_bytes(&mut out, &record.subject);
    assert(out@ =~= payment_data_bytes(record.payment_id@, record.amount, record.subject@));
    out
}

/// Validates and ingests a payment record: an untrusted origin is rejected
/// first; then exactly the canonical byte strings of records with a positive
/// amount are accepted, everything else is `MalformedRecord`.
/// The byte layout of a canonical payment record.
#[verifier::rlimit(100)]
#[verifier::spinoff_prover]
proof fn lemma_payment_layout(bytes: Seq<u8>, gpid: Seq<u8>, gam: u128, gsub: Seq<u8>)
    requires
        bytes == payment_data_bytes(gpid, gam, gsub),
        payment_data_record_valid(gpid, gam, gsub),
    ensures
        bytes.len() == 25 + gpid.len() + gsub.len(),
        bytes[0] == 2u8,
        bytes.subrange(1, 5 + gpid.len() as int) == bytes_encoding(gpid),
        bytes.subrange(5 + gpid.len() as int, 21 + gpid.len() as int) == u128_le_bytes(gam),
        bytes.subrange(21 + gpid.len() as int, bytes.len() as int) == bytes_encoding(gsub),
{
    assert(bytes.subrange(1, 5 + gpid.len() as int) =~= bytes_encoding(gpid));
    assert(bytes.subrange(5 + gpid.len() as int, 21 + gpid.len() as int) =~= u128_le_bytes(gam));
    assert(bytes.subrange(21 + gpid.len() as int, bytes.len() as int) =~= bytes_encoding(gsub));
}

#[verifier::rlimit(100)]
pub fn validate_and_ingest_payment_data(
    bytes: &Vec<u8>,
    origin: u32,
    cfg: &InterchangeConfig,
) -> (r: Result<PaymentDataRecord, CreditError>)
    ensures
        !origin_trusted(*cfg, origin) <==> r == Err::<PaymentDataRecord, CreditError>(
            CreditError::UntrustedOrigin,
        ),
        r matches Ok(rec) ==> origin_trusted(*cfg, origin) && bytes@ == payment_data_bytes(
            rec.payment_id@,
            rec.amount,
            rec.subject@,
        ) && payment_data_record_valid(rec.payment_id@, rec.amount, rec.subject@),
        origin_trusted(*cfg, origin) && (exists|pid: Seq<u8>, amount: u128, subject: Seq<u8>|
            bytes@ == payment_data_bytes(pid, amount, subject) && payment_data_record_valid(
                pid,
                amount,
                subject,
            )) ==> r is Ok,
{
    if !cfg.is_trusted_origin(origin) {
        return Err(CreditError::UntrustedOrigin);
    }
    let good = Ghost(
        exists|pid: Seq<u8>, amount: u128, subject: Seq<u8>|
            bytes@ == payment_data_bytes(pid, amount, subject) && payment_data_record_valid(
                pid,
                amount,
                subject,
            ),
    );
    let gw = Ghost(
        choose|pid: Seq<u8>, amount: u128, subject: Seq<u8>|
            bytes@ == payment_data_bytes(pid, amount, subject) && payment_data_record_valid(
                pid,
                amount,
                subject,
            ),
    );
    proof {
        if good@ {
            let (gpid, gam, gsub) = gw@;
            lemma_payment_layout(bytes@, gpid, gam, gsub);
            lemma_chunk_readable(bytes@, 1, gpid, 5 + gpid.len() as int);
            lemma_chunk_readable(bytes@, 21 + gpid.len() as int, gsub, bytes@.len() as int);
        }
    }
    if bytes.len() < 1 || bytes[0] != 2 {
        proof {
            if good@ {
                assert(false);
            }
        }
        return Err(CreditError::MalformedRecord);
    }
    let (payment_id, pos1) = match read_chunk(bytes, 1) {
        Some(p) => p,
        None => {
            proof {
                if good@ {
                    assert(false);
                }
            }
            return Err(CreditError::MalformedRecord);
        },
    };
    proof {
        if good@ {
            let (gpid, gam, gsub) = gw@;
            lemma_payment_layout(bytes@, gpid, gam, gsub);
            lemma_chunk_readable(bytes@, 1, gpid, 5 + gpid.len() as int);
            assert(payment_id@.len() == gpid.len());
            assert(pos1 == 5 + gpid.len());
            assert(payment_id@ == gpid);
        }
    }
    if bytes.len() < 16 || pos1 > bytes.len() - 16 {
        proof {
            if good@ {
                assert(false);
            }
        }
        return Err(CreditError::MalformedRecord);
    }
    let amount = decode_u128(bytes, pos1);
    proof {
        if good@ {
            let (gpid, gam, gsub) = gw@;
            lemma_payment_layout(bytes@, gpid, gam, gsub);
            lemma_chunk_readable(bytes@, 1, gpid, 5 + gpid.len() as int);
            assert(pos1 == 5 + gpid.len());
            assert(bytes@.subrange(pos1 as int, pos1 + 16) == u128_le_bytes(gam));
            lemma_u128_le_round_trip(gam);
            assert(amount == gam);
        }
    }
    let pos2 = pos1 + 16;
    let (subject, pos3) = match read_chunk(bytes, pos2) {
        Some(p) => p,
        None => {
            proof {
                if good@ {
                    let (gpid, gam, gsub) = gw@;
                    lemma_payment_layout(bytes@, gpid, gam, gsub);
                    lemma_chunk_readable(bytes@, 1, gpid, 5 + gpid.len() as int);
                    lemma_chunk_readable(bytes@, 21 + gpid.len() as int, gsub, bytes@.len() as int);
                    assert(pos2 == 21 + gpid.len());
                    assert(false);
                }
            }
            return Err(CreditError::MalformedRecord);
        },
    };
    proof {
        if good@ {
            let (gpid, gam, gsub) = gw@;
            lemma_payment_layout(bytes@, gpid, gam, gsub);
            lemma_chunk_readable(bytes@, 1, gpid, 5 + gpid.len() as int);
            lemma_chunk_readable(bytes@, 21 + gpid.len() as int, gsub, bytes@.len() as int);
            assert(pos2 == 21 + gpid.len());
            assert(subject@.len() == gsub.len());
            assert(subject@ == gsub);
            assert(pos3 == 25 + gpid.len() + gsub.len());
        }
    }
    if pos3 != bytes.len() {
        proof {
            if good@ {
                assert(false);
            }
        }
        return Err(CreditError::MalformedRecord);
    }
    if amount == 0 {
        proof {
            if good@ {
                let (gpid, gam, gsub) = gw@;
                lemma_payment_layout(bytes@, gpid, gam, gsub);
                assert(false);
            }
        }
        return Err(CreditError::MalformedRecord);
    }
    let record = PaymentDataRecord { payment_id, amount, subject };
    proof {
        assert(bytes@ =~= payment_data_bytes(record.payment_id@, record.amount, record.subject@))
            by {
            assert(bytes@.subrange(1, pos1 as int) == bytes_encoding(record.payment_id@));
            assert(bytes@.subrange(pos2 as int, pos3 as int) == bytes_encoding(record.subject@));
            lemma_u128_round_trip_bytes(amount, bytes@.subrange(pos1 as int, pos2 as int));
        }
    }
    Ok(record)
}

/// Sixteen bytes whose read-back value is `x` are exactly the sixteen
/// little-endian bytes of `x`.
#[verifier::rlimit(100)]
#[verifier::spinoff_prover]
pub proof fn lemma_u128_round_trip_bytes(x: u128, s: Seq<u8>)
    requires
        s.len() == 16,
        u128_from_le(s) == x,
    ensures
        s == u128_le_bytes(x),
{
    lemma_u128_le_round_trip(x);
    let t = u128_le_bytes(x);
    assert(t.len() == 16);
    lemma_u128_from_le_components(s, t);
}

/// If two 16-byte strings read back to the same value, they are equal.
proof fn lemma_u128_from_le_components(s: Seq<u8>, t: Seq<u8>)
    requires
        s.len() == 16,
        t.len() == 16,
        u128_from_le(s) == u128_from_le(t),
    ensures
        s =~= t,
{
    let slo = crate::codec::u64_from_le(s.subrange(0, 8)) as int;
    let shi = crate::codec::u64_from_le(s.subrange(8, 16)) as int;
    let tlo = crate::codec::u64_from_le(t.subrange(0, 8)) as int;
    let thi = crate::codec::u64_from_le(t.subrange(8, 16)) as int;
    assert(slo + shi * 18446744073709551616 <= u128::MAX) by (nonlinear_arith)
        requires 0 <= slo < 18446744073709551616 && 0 <= shi < 18446744073709551616;
    assert(tlo + thi * 18446744073709551616 <= u128::MAX) by (nonlinear_arith)
        requires 0 <= tlo < 18446744073709551616 && 0 <= thi < 18446744073709551616;
    assert(slo + shi * 18446744073709551616 == tlo + thi * 18446744073709551616);
    assert(slo == tlo && shi == thi) by (nonlinear_arith)
        requires 0 <= slo < 18446744073709551616 && 0 <= tlo < 18446744073709551616 && 0 <= shi && 0 <= thi && slo + shi * 18446744073709551616 == tlo + thi * 18446744073709551616;
    lemma_u64_from_le_injective(s.subrange(0, 8), t.subrange(0, 8));
    lemma_u64_from_le_injective(s.subrange(8, 16), t.subrange(8, 16));
    assert forall|j: int| 0 <= j < 16 implies s[j] == t[j] by {
        if j < 8 {
            assert(s.subrange(0, 8)[j] == t.subrange(0, 8)[j]);
        } else {
            assert(s.subrange(8, 16)[j - 8] == t.subrange(8, 16)[j - 8]);
        }
    }
}

/// If two 8-byte strings read back to the same value, they are equal.
proof fn lemma_u64_from_le_injective(s: Seq<u8>, t: Seq<u8>)
    requires
        s.len() == 8,
        t.len() == 8,
        crate::codec::u64_from_le(s) == crate::codec::u64_from_le(t),
    ensures
        s =~= t,
{
    let sa = u32_from_le(s[0], s[1], s[2], s[3]) as int;
    let sb = u32_from_le(s[4], s[5], s[6], s[7]) as int;
    let ta = u32_from_le(t[0], t[1], t[2], t[3]) as int;
    let tb = u32_from_le(t[4], t[5], t[6], t[7]) as int;
    assert(sa + sb * 4294967296 <= u64::MAX) by (nonlinear_arith)
        requires 0 <= sa < 4294967296 && 0 <= sb < 4294967296;
    assert(ta + tb * 4294967296 <= u64::MAX) by (nonlinear_arith)
        requires 0 <= ta < 4294967296 && 0 <= tb < 4294967296;
    assert(sa + sb * 4294967296 == ta + tb * 4294967296);
    assert(sa == ta && sb == tb) by (nonlinear_arith)
        requires 0 <= sa < 4294967296 && 0 <= ta < 4294967296 && 0 <= sb && 0 <= tb && sa + sb * 4294967296 == ta + tb * 4294967296;
    lemma_u32_from_le_injective(s[0], s[1], s[2], s[3], t[0], t[1], t[2], t[3]);
    lemma_u32_from_le_injective(s[4], s[5], s[6], s[7], t[4], t[5], t[6], t[7]);
}

/// If two byte quadruples read back to the same value, they are equal.
proof fn lemma_u32_from_le_injective(
    a0: u8,
    a1: u8,
    a2: u8,
    a3: u8,
    b0: u8,
    b1: u8,
    b2: u8,
    b3: u8,
)
    requires
        u32_from_le(a0, a1, a2, a3) == u32_from_le(b0, b1, b2, b3),
    ensures
        a0 == b0 && a1 == b1 && a2 == b2 && a3 == b3,
{
    let va = a0 + a1 * 256 + a2 * 65536 + a3 * 16777216;
    let vb = b0 + b1 * 256 + b2 * 65536 + b3 * 16777216;
    assert(va <= u32::MAX) by (nonlinear_arith)
        requires 0 <= a0 < 256 && 0 <= a1 < 256 && 0 <= a2 < 256 && 0 <= a3 < 256 && va == a0 + a1 * 256 + a2 * 65536 + a3 * 16777216;
    assert(vb <= u32::MAX) by (nonlinear_arith)
        requires 0 <= b0 < 256 && 0 <= b1 < 256 && 0 <= b2 < 256 && 0 <= b3 < 256 && vb == b0 + b1 * 256 + b2 * 65536 + b3 * 16777216;
    assert(va == vb);
    assert(a0 == b0 && a1 == b1 && a2 == b2 && a3 == b3) by (nonlinear_arith)
        requires 0 <= a0 < 256 && 0 <= a1 < 256 && 0 <= a2 < 256 && 0 <= a3 < 256 && 0 <= b0 < 256 && 0 <= b1 < 256 && 0 <= b2 < 256 && 0 <= b3 < 256 && a0 + a1 * 256 + a2 * 65536 + a3 * 16777216 == b0 + b1 * 256 + b2 * 65536 + b3 * 16777216;
}

} // verus!

verus! {

/// An identity record in transit.
#[derive(Debug)]
pub struct IdentityDataRecord {
    pub cpf: Vec<u8>,
    pub name: Vec<u8>,
    pub birth_date: Vec<u8>,
    pub document_number: Vec<u8>,
    pub subject: Vec<u8>,
}

/// The canonical bytes of an identity record: a tag byte and the five
/// length-prefixed fields in order.
pub open spec fn identity_data_bytes(
    cpf: Seq<u8>,
    name: Seq<u8>,
    birth_date: Seq<u8>,
    document_number: Seq<u8>,
    subject: Seq<u8>,
) -> Seq<u8> {
    seq![3u8] + bytes_encoding(cpf) + bytes_encoding(name) + bytes_encoding(birth_date)
        + bytes_encoding(document_number) + bytes_encoding(subject)
}

/// A structurally valid identity record: a non-empty document number, fields
/// short enough for their length prefixes.
pub open spec fn identity_data_record_valid(
    cpf: Seq<u8>,
    name: Seq<u8>,
    birth_date: Seq<u8>,
    document_number: Seq<u8>,
    subject: Seq<u8>,
) -> bool {
    &&& document_number.len() > 0
    &&& cpf.len() <= u32::MAX
    &&& name.len() <= u32::MAX
    &&& birth_date.len() <= u32::MAX
    &&& document_number.len() <= u32::MAX
    &&& subject.len() <= u32::MAX
}

/// Serializes an identity record into its canonical bytes.
pub fn serialize_identity_data(record: &IdentityDataRecord) -> (r: Vec<u8>)
    requires
        record.cpf@.len() <= u32::MAX,
        record.name@.len() <= u32::MAX,
        record.birth_date@.len() <= u32::MAX,
        record.document_number@.len() <= u32::MAX,
        record.subject@.len() <= u32::MAX,
    ensures
        r@ == identity_data_bytes(
            record.cpf@,
            record.name@,
            record.birth_date@,
            record.document_number@,
            record.subject@,
        ),
{
    let mut out: Vec<u8> = Vec::new();
    out.push(3u8);
    encode_bytes(&mut out, &record.cpf);
    encode_bytes(&mut out, &record.name);
    encode_bytes(&mut out, &record.birth_date);
    encode_bytes(&mut out, &record.document_number);
    encode_bytes(&mut out, &record.subject);
    assert(out@ =~= identity_data_bytes(
        record.cpf@,
        record.name@,
        record.birth_date@,
        record.document_number@,
        record.subject@,
    ));
    out
}

/// The byte layout of a canonical identity record: where each field's
/// length-prefixed encoding stands.
#[verifier::rlimit(100)]
proof fn lemma_identity_layout(
    bytes: Seq<u8>,
    cpf: Seq<u8>,
    name: Seq<u8>,
    birth_date: Seq<u8>,
    document_number: Seq<u8>,
    subject: Seq<u8>,
)
    requires
        bytes == identity_data_bytes(cpf, name, birth_date, document_number, subject),
        identity_data_record_valid(cpf, name, birth_date, document_number, subject),
    ensures
        bytes.len() == 21 + cpf.len() + name.len() + birth_date.len() + document_number.len()
            + subject.len(),
        bytes[0] == 3u8,
        bytes.subrange(1, 5 + cpf.len() as int) == bytes_encoding(cpf),
        bytes.subrange(5 + cpf.len() as int, 9 + cpf.len() + name.len() as int) == bytes_encoding(
            name,
        ),
        bytes.subrange(
            9 + cpf.len() + name.len() as int,
            13 + cpf.len() + name.len() + birth_date.len() as int,
        ) == bytes_encoding(birth_date),
        bytes.subrange(
            13 + cpf.len() + name.len() + birth_date.len() as int,
            17 + cpf.len() + name.len() + birth_date.len() + document_number.len() as int,
        ) == bytes_encoding(document_number),
        bytes.subrange(
            17 + cpf.len() + name.len() + birth_date.len() + document_number.len() as int,
            bytes.len() as int,
        ) == bytes_encoding(subject),
{
    assert(bytes.subrange(1, 5 + cpf.len() as int) =~= bytes_encoding(cpf));
    assert(bytes.subrange(5 + cpf.len() as int, 9 + cpf.len() + name.len() as int)
        =~= bytes_encoding(name));
    assert(bytes.subrange(
        9 + cpf.len() + name.len() as int,
        13 + cpf.len() + name.len() + birth_date.len() as int,
    ) =~= bytes_encoding(birth_date));
    assert(bytes.subrange(
        13 + cpf.len() + name.len() + birth_date.len() as int,
        17 + cpf.len() + name.len() + birth_date.len() + document_number.len() as int,
    ) =~= bytes_encoding(document_number));
    assert(bytes.subrange(
        17 + cpf.len() + name.len() + birth_date.len() + document_number.len() as int,
        bytes.len() as int,
    ) =~= bytes_encoding(subject));
}

/// A length-prefixed chunk can be read at the start of its encoding.
proof fn lemma_chunk_readable(bytes: Seq<u8>, pos: int, field: Seq<u8>, end: int)
    requires
        field.len() <= u32::MAX,
        0 <= pos,
        end <= bytes.len(),
        end == pos + 4 + field.len(),
        bytes.subrange(pos, end) == bytes_encoding(field),
    ensures
        u32_from_le(bytes[pos], bytes[pos + 1], bytes[pos + 2], bytes[pos + 3]) == field.len(),
        bytes.subrange(pos + 4, end) == field,
{
    lemma_u32_le_round_trip(field.len() as u32);
    assert forall|j: int| 0 <= j < 4 implies bytes[pos + j] == #[trigger] u32_le_bytes(
        field.len() as u32,
    )[j] by {
        assert(bytes[pos + j] == bytes.subrange(pos, end)[j]);
    }
    assert(bytes.subrange(pos + 4, end) =~= field) by {
        assert forall|j: int| 0 <= j < field.len() implies bytes[pos + 4 + j] == field[j] by {
            assert(bytes[pos + 4 + j] == bytes.subrange(pos, end)[4 + j]);
        }
    }
}

/// Validates and ingests an identity record: an untrusted origin is rejected
/// first; then exactly the canonical byte strings of records with a
/// non-empty document number are accepted, everything else is
/// `MalformedRecord`.
#[verifier::spinoff_prover]
#[verifier::rlimit(100)]
pub fn validate_and_ingest_identity_data(
    bytes: &Vec<u8>,
    origin: u32,
    cfg: &InterchangeConfig,
) -> (r: Result<IdentityDataRecord, CreditError>)
    ensures
        !origin_trusted(*cfg, origin) <==> r == Err::<IdentityDataRecord, CreditError>(
            CreditError::UntrustedOrigin,
        ),
        r matches Ok(rec) ==> origin_trusted(*cfg, origin) && bytes@ == identity_data_bytes(
            rec.cpf@,
            rec.name@,
            rec.birth_date@,
            rec.document_number@,
            rec.subject@,
        ) && identity_data_record_valid(
            rec.cpf@,
            rec.name@,
            rec.birth_date@,
            rec.document_number@,
            rec.subject@,
        ),
        origin_trusted(*cfg, origin) && (exists|
            cpf: Seq<u8>,
            name: Seq<u8>,
            birth_date: Seq<u8>,
            document_number: Seq<u8>,
            subject: Seq<u8>,
        |
            bytes@ == identity_data_bytes(cpf, name, birth_date, document_number, subject)
                && identity_data_record_valid(
                cpf,
                name,
                birth_date,
                document_number,
                subject,
            )) ==> r is Ok,
{
    if !cfg.is_trusted_origin(origin) {
        return Err(CreditError::UntrustedOrigin);
    }
    let good = Ghost(
        exists|
            cpf: Seq<u8>,
            name: Seq<u8>,
            birth_date: Seq<u8>,
            document_number: Seq<u8>,
            subject: Seq<u8>,
        |
            bytes@ == identity_data_bytes(cpf, name, birth_date, document_number, subject)
                && identity_data_record_valid(cpf, name, birth_date, document_number, subject),
    );
    let gw = Ghost(
        choose|
            cpf: Seq<u8>,
            name: Seq<u8>,
            birth_date: Seq<u8>,
            document_number: Seq<u8>,
            subject: Seq<u8>,
        |
            bytes@ == identity_data_bytes(cpf, name, birth_date, document_number, subject)
                && identity_data_record_valid(cpf, name, birth_date, document_number, subject),
    );
    proof {
        if good@ {
            let (c, nm, bd, dn, su) = gw@;
            lemma_identity_layout(bytes@, c, nm, bd, dn, su);
            lemma_chunk_readable(bytes@, 1, c, 5 + c.len() as int);
            lemma_chunk_readable(bytes@, 5 + c.len() as int, nm, 9 + c.len() + nm.len() as int);
            lemma_chunk_readable(
                bytes@,
                9 + c.len() + nm.len() as int,
                bd,
                13 + c.len() + nm.len() + bd.len() as int,
            );
            lemma_chunk_readable(
                bytes@,
                13 + c.len() + nm.len() + bd.len() as int,
                dn,
                17 + c.len() + nm.len() + bd.len() + dn.len() as int,
            );
            lemma_chunk_readable(
                bytes@,
                17 + c.len() + nm.len() + bd.len() + dn.len() as int,
                su,
                bytes@.len() as int,
            );
        }
    }
    if bytes.len() < 1 || bytes[0] != 3 {
        proof {
            if good@ {
                assert(false);
            }
        }
        return Err(CreditError::MalformedRecord);
    }
    let (cpf, p1) = match read_chunk(bytes, 1) {
        Some(p) => p,
        None => {
            proof {
                if good@ {
                    assert(false);
                }
            }
            return Err(CreditError::MalformedRecord);
        },
    };
    proof {
        if good@ {
            let (c, nm, bd, dn, su) = gw@;
            assert(cpf@.len() == c.len());
            assert(cpf@ == c && p1 == 5 + c.len());
        }
    }
    let (name, p2) = match read_chunk(bytes, p1) {
        Some(p) => p,
        None => {
            proof {
                if good@ {
                    assert(false);
                }
            }
            return Err(CreditError::MalformedRecord);
        },
    };
    proof {
        if good@ {
            let (c, nm, bd, dn, su) = gw@;
            assert(name@ == nm && p2 == 9 + c.len() + nm.len());
        }
    }
    let (birth_date, p3) = match read_chunk(bytes, p2) {
        Some(p) => p,
        None => {
            proof {
                if good@ {
                    assert(false);
                }
            }
            return Err(CreditError::MalformedRecord);
        },
    };
    proof {
        if good@ {
            let (c, nm, bd, dn, su) = gw@;
            assert(birth_date@ == bd && p3 == 13 + c.len() + nm.len() + bd.len());
        }
    }
    let (document_number, p4) = match read_chunk(bytes, p3) {
        Some(p) => p,
        None => {
            proof {
                if good@ {
                    assert(false);
                }
            }
            return Err(CreditError::MalformedRecord);
        },
    };
    proof {
        if good@ {
            let (c, nm, bd, dn, su) = gw@;
            assert(document_number@ == dn && p4 == 17 + c.len() + nm.len() + bd.len() + dn.len());
        }
    }
    let (subject, p5) = match read_chunk(bytes, p4) {
        Some(p) => p,
        None => {
            proof {
                if good@ {
                    assert(false);
                }
            }
            return Err(CreditError::MalformedRecord);
        },
    };
    proof {
        if good@ {
            let (c, nm, bd, dn, su) = gw@;
            assert(subject@ == su && p5 == bytes@.len());
        }
    }
    if p5 != bytes.len() {
        proof {
            if good@ {
                assert(false);
            }
        }
        return Err(CreditError::MalformedRecord);
    }
    if document_number.len() == 0 {
        proof {
            if good@ {
                let (c, nm, bd, dn, su) = gw@;
                assert(false);
            }
        }
        return Err(CreditError::MalformedRecord);
    }
    let record = IdentityDataRecord { cpf, name, birth_date, document_number, subject };
    proof {
        assert(bytes@ =~= identity_data_bytes(
            record.cpf@,
            record.name@,
            record.birth_date@,
            record.document_number@,
            record.subject@,
        )) by {
            assert(bytes@.subrange(1, p1 as int) == bytes_encoding(record.cpf@));
            assert(bytes@.subrange(p1 as int, p2 as int) == bytes_encoding(record.name@));
            assert(bytes@.subrange(p2 as int, p3 as int) == bytes_encoding(record.birth_date@));
            assert(bytes@.subrange(p3 as int, p4 as int) == bytes_encoding(
                record.document_number@,
            ));
            assert(bytes@.subrange(p4 as int, p5 as int) == bytes_encoding(record.subject@));
        }
    }
    Ok(record)
}

/// A compliance report in transit, as the rules read it.
#[derive(Debug)]
pub struct ComplianceDataRecord {
    pub is_compliant: bool,
    pub regulations: Vec<Vec<u8>>,
    pub compliance_score: u32,
    pub last_check: u64,
}

/// A fraud report in transit, as the rules read it (the outside report's
/// floating-point confidence is not part of the validated core).
#[derive(Debug)]
pub struct FraudDataRecord {
    pub risk_level: u32,
    pub fraud_indicators: Vec<Vec<u8>>,
    pub detection_method: Vec<u8>,
}

/// An analytics report in transit, as the rules read it: the metric names
/// (the outside report's floating-point values are not part of the validated
/// core).
#[derive(Debug)]
pub struct AnalyticsDataRecord {
    pub metrics: Vec<Vec<u8>>,
}

} // verus!

verus! {

/// The concatenated length-prefixed encodings of a list of fields.
pub open spec fn chunks_bytes(fields: Seq<Seq<u8>>) -> Seq<u8>
    decreases fields.len(),
{
    if fields.len() == 0 {
        Seq::<u8>::empty()
    } else {
        bytes_encoding(fields.first()) + chunks_bytes(fields.drop_first())
    }
}

/// Every field is short enough for its length prefix.
pub open spec fn chunks_wf(fields: Seq<Seq<u8>>) -> bool {
    forall|i: int| 0 <= i < fields.len() ==> (#[trigger] fields[i]).len() <= u32::MAX
}

/// Appending a field appends its encoding.
pub proof fn lemma_chunks_push(fields: Seq<Seq<u8>>, c: Seq<u8>)
    ensures
        chunks_bytes(fields.push(c)) == chunks_bytes(fields) + bytes_encoding(c),
    decreases fields.len(),
{
    if fields.len() == 0 {
        assert(fields.push(c).first() == c);
        assert(fields.push(c).drop_first().len() == 0);
        assert(chunks_bytes(fields.push(c)) == bytes_encoding(c) + chunks_bytes(
            fields.push(c).drop_first(),
        ));
        assert(chunks_bytes(fields.push(c).drop_first()) =~= Seq::<u8>::empty());
        assert(chunks_bytes(fields) =~= Seq::<u8>::empty());
        assert(chunks_bytes(fields.push(c)) =~= chunks_bytes(fields) + bytes_encoding(c));
    } else {
        lemma_chunks_push(fields.drop_first(), c);
        assert(fields.push(c).drop_first() =~= fields.drop_first().push(c));
        assert(fields.push(c).first() == fields.first());
        assert(chunks_bytes(fields.push(c)) == bytes_encoding(fields.first()) + chunks_bytes(
            fields.drop_first().push(c),
        ));
        assert(chunks_bytes(fields.drop_first().push(c)) == chunks_bytes(fields.drop_first())
            + bytes_encoding(c));
        assert(bytes_encoding(fields.first()) + (chunks_bytes(fields.drop_first())
            + bytes_encoding(c)) =~= (bytes_encoding(fields.first()) + chunks_bytes(
            fields.drop_first(),
        )) + bytes_encoding(c));
    }
}

/// A chunk list splits at any prefix length.
pub proof fn lemma_chunks_split(fields: Seq<Seq<u8>>, j: int)
    requires
        0 <= j <= fields.len(),
    ensures
        chunks_bytes(fields) == chunks_bytes(fields.take(j)) + chunks_bytes(fields.skip(j)),
    decreases j,
{
    if j == 0 {
        assert(fields.take(0) =~= Seq::<Seq<u8>>::empty());
        assert(fields.skip(0) =~= fields);
        assert(chunks_bytes(fields) =~= chunks_bytes(fields.take(0)) + chunks_bytes(
            fields.skip(0),
        ));
    } else {
        lemma_chunks_split(fields.drop_first(), j - 1);
        assert(fields.take(j).first() == fields.first());
        assert(fields.take(j).drop_first() =~= fields.drop_first().take(j - 1));
        assert(fields.skip(j) =~= fields.drop_first().skip(j - 1));
        assert(chunks_bytes(fields) =~= chunks_bytes(fields.take(j)) + chunks_bytes(
            fields.skip(j),
        ));
    }
}

/// Appends the count and each field, length-prefixed.
pub fn encode_chunk_list(out: &mut Vec<u8>, fields: &Vec<Vec<u8>>)
    requires
        fields@.len() <= u32::MAX,
        chunks_wf(fields.deep_view()),
    ensures
        final(out)@ == old(out)@ + u32_le_bytes(fields@.len() as u32) + chunks_bytes(
            fields.deep_view(),
        ),
{
    encode_u32(out, fields.len() as u32);
    let ghost base = out@;
    let mut i: usize = 0;
    while i < fields.len()
        invariant
            i <= fields@.len(),
            chunks_wf(fields.deep_view()),
            out@ == base + chunks_bytes(fields.deep_view().take(i as int)),
        decreases fields@.len() - i,
    {
        proof {
            assert(fields.deep_view()[i as int] == fields@[i as int]@);
            assert(fields.deep_view().take(i as int).push(fields@[i as int]@)
                =~= fields.deep_view().take(i + 1));
            lemma_chunks_push(fields.deep_view().take(i as int), fields@[i as int]@);
        }
        encode_bytes(out, &fields[i]);
        i = i + 1;
    }
    proof {
        assert(fields.deep_view().take(fields@.len() as int) =~= fields.deep_view());
        assert(out@ =~= old(out)@ + u32_le_bytes(fields@.len() as u32) + chunks_bytes(
            fields.deep_view(),
        ));
    }
}

/// Where chunk `j` of a well-formed chunk run stands in the surrounding
/// bytes.
#[verifier::rlimit(100)]
#[verifier::spinoff_prover]
proof fn lemma_chunk_step(bytes: Seq<u8>, pos: int, gw: Seq<Seq<u8>>, j: int, offset: int)
    requires
        chunks_wf(gw),
        0 <= pos,
        pos + chunks_bytes(gw).len() <= bytes.len(),
        bytes.subrange(pos, pos + chunks_bytes(gw).len()) == chunks_bytes(gw),
        0 <= j < gw.len(),
        offset == pos + chunks_bytes(gw.take(j)).len(),
    ensures
        offset + 4 + gw[j].len() <= bytes.len(),
        offset >= pos,
        u32_from_le(bytes[offset], bytes[offset + 1], bytes[offset + 2], bytes[offset + 3])
            == gw[j].len(),
        bytes.subrange(offset + 4, offset + 4 + gw[j].len() as int) == gw[j],
        bytes.subrange(offset, offset + 4 + gw[j].len() as int) == bytes_encoding(gw[j]),
        pos + chunks_bytes(gw.take(j + 1)).len() == offset + 4 + gw[j].len(),
{
    lemma_chunks_split(gw, j);
    lemma_chunks_push(gw.take(j), gw[j]);
    assert(gw.take(j).push(gw[j]) =~= gw.take(j + 1));
    lemma_chunks_split(gw, j + 1);
    let head = chunks_bytes(gw.take(j));
    let mid = bytes_encoding(gw[j]);
    assert(chunks_bytes(gw.take(j + 1)) == head + mid);
    assert(chunks_bytes(gw) == chunks_bytes(gw.take(j + 1)) + chunks_bytes(gw.skip(j + 1)));
    assert(bytes.subrange(offset, offset + 4 + gw[j].len() as int) =~= mid) by {
        assert forall|k: int| 0 <= k < mid.len() implies bytes[offset + k] == mid[k] by {
            assert(bytes[pos + (head.len() + k)] == chunks_bytes(gw)[head.len() + k]) by {
                assert(bytes.subrange(pos, pos + chunks_bytes(gw).len())[head.len() + k]
                    == bytes[pos + (head.len() + k)]);
            }
            assert(chunks_bytes(gw)[head.len() + k] == mid[k]) by {
                assert(chunks_bytes(gw.take(j + 1))[head.len() + k] == mid[k]);
            }
        }
    }
    lemma_chunk_readable(bytes, offset, gw[j], offset + 4 + gw[j].len() as int);
}

/// Reads `count` length-prefixed chunks starting at `pos`: succeeds exactly
/// when the bytes from `pos` carry `count` well-formed chunks, returning the
/// fields and the position just past them.
#[verifier::rlimit(100)]
#[verifier::spinoff_prover]
pub fn read_chunk_list(bytes: &Vec<u8>, pos: usize, count: u32) -> (r: Option<(Vec<Vec<u8>>, usize)>)
    requires
        pos <= bytes@.len(),
    ensures
        match r {
            Some(p) => {
                &&& p.0@.len() == count
                &&& chunks_wf(p.0.deep_view())
                &&& pos <= p.1 <= bytes@.len()
                &&& bytes@.subrange(pos as int, p.1 as int) == chunks_bytes(p.0.deep_view())
            },
            None => forall|fields: Seq<Seq<u8>>|
                fields.len() == count && chunks_wf(fields) && pos + chunks_bytes(fields).len()
                    <= bytes@.len() ==> bytes@.subrange(
                    pos as int,
                    pos + chunks_bytes(fields).len(),
                ) != chunks_bytes(fields),
        },
{
    let ghost good = exists|fields: Seq<Seq<u8>>|
        fields.len() == count && chunks_wf(fields) && pos + chunks_bytes(fields).len()
            <= bytes@.len() && bytes@.subrange(pos as int, pos + chunks_bytes(fields).len())
            == chunks_bytes(fields);
    let gw = Ghost(
        choose|fields: Seq<Seq<u8>>|
            fields.len() == count && chunks_wf(fields) && pos + chunks_bytes(fields).len()
                <= bytes@.len() && bytes@.subrange(pos as int, pos + chunks_bytes(fields).len())
                == chunks_bytes(fields),
    );
    let mut fields: Vec<Vec<u8>> = Vec::new();
    let mut offset: usize = pos;
    let mut j: u32 = 0;
    proof {
        assert(fields.deep_view() =~= Seq::<Seq<u8>>::empty());
        if good {
            assert(gw@.take(0) =~= Seq::<Seq<u8>>::empty());
            assert(chunks_bytes(gw@.take(0)).len() == 0);
        }
    }
    while j < count
        invariant
            pos <= bytes@.len(),
            j <= count,
            fields@.len() == j,
            chunks_wf(fields.deep_view()),
            pos <= offset <= bytes@.len(),
            bytes@.subrange(pos as int, offset as int) == chunks_bytes(fields.deep_view()),
            good == exists|gfs: Seq<Seq<u8>>|
                gfs.len() == count && chunks_wf(gfs) && pos + chunks_bytes(gfs).len()
                    <= bytes@.len() && bytes@.subrange(pos as int, pos + chunks_bytes(gfs).len())
                    == chunks_bytes(gfs),
            good ==> gw@.len() == count && chunks_wf(gw@) && pos + chunks_bytes(gw@).len()
                <= bytes@.len() && bytes@.subrange(pos as int, pos + chunks_bytes(gw@).len())
                == chunks_bytes(gw@),
            good ==> fields.deep_view() == gw@.take(j as int) && offset == pos + chunks_bytes(
                gw@.take(j as int),
            ).len(),
        decreases count - j,
    {
        proof {
            if good {
                lemma_chunk_step(bytes@, pos as int, gw@, j as int, offset as int);
            }
        }
        let (chunk, next) = match read_chunk(bytes, offset) {
            Some(p) => p,
            None => {
                proof {
                    if good {
                        assert(false);
                    }
                }
                return None;
            },
        };
        let ghost pre_fields = fields.deep_view();
        proof {
            assert(chunk.deep_view() =~= chunk@);
            lemma_chunks_push(pre_fields, chunk@);
        }
        fields.push(chunk);
        proof {
            assert(fields.deep_view() =~= pre_fields.push(bytes@.subrange(
                offset + 4,
                next as int,
            )));
            assert(bytes@.subrange(pos as int, next as int) =~= bytes@.subrange(
                pos as int,
                offset as int,
            ) + bytes@.subrange(offset as int, next as int));
            if good {
                assert(fields.deep_view() =~= gw@.take(j + 1));
            }
        }
        offset = next;
        j = j + 1;
    }
    proof {
        if good {
            assert(gw@.take(count as int) =~= gw@);
        }
    }
    Some((fields, offset))
}

} // verus!

verus! {

/// The canonical bytes of an analytics report: a tag byte, the metric
/// count, and the length-prefixed metric names.
pub open spec fn analytics_data_bytes(metrics: Seq<Seq<u8>>) -> Seq<u8> {
    seq![6u8] + u32_le_bytes(metrics.len() as u32) + chunks_bytes(metrics)
}

/// A structurally valid analytics report: at least one metric, every field
/// short enough for its prefix.
pub open spec fn analytics_data_record_valid(metrics: Seq<Seq<u8>>) -> bool {
    metrics.len() > 0 && metrics.len() <= u32::MAX && chunks_wf(metrics)
}

/// Serializes an analytics report into its canonical bytes.
pub fn serialize_analytics_data(record: &AnalyticsDataRecord) -> (r: Vec<u8>)
    requires
        record.metrics@.len() <= u32::MAX,
        chunks_wf(record.metrics.deep_view()),
    ensures
        r@ == analytics_data_bytes(record.metrics.deep_view()),
{
    let mut out: Vec<u8> = Vec::new();
    out.push(6u8);
    encode_chunk_list(&mut out, &record.metrics);
    assert(out@ =~= analytics_data_bytes(record.metrics.deep_view()));
    out
}

/// Validates and ingests an analytics report: an untrusted origin is
/// rejected first; then exactly the canonical byte strings of reports with
/// at least one metric are accepted, everything else is `MalformedRecord`.
#[verifier::rlimit(100)]
#[verifier::spinoff_prover]
pub fn validate_and_ingest_analytics_data(
    bytes: &Vec<u8>,
    origin: u32,
    cfg: &InterchangeConfig,
) -> (r: Result<AnalyticsDataRecord, CreditError>)
    ensures
        !origin_trusted(*cfg, origin) <==> r == Err::<AnalyticsDataRecord, CreditError>(
            CreditError::UntrustedOrigin,
        ),
        r matches Ok(rec) ==> origin_trusted(*cfg, origin) && bytes@ == analytics_data_bytes(
            rec.metrics.deep_view(),
        ) && analytics_data_record_valid(rec.metrics.deep_view()),
        origin_trusted(*cfg, origin) && (exists|metrics: Seq<Seq<u8>>|
            bytes@ == analytics_data_bytes(metrics) && analytics_data_record_valid(metrics))
            ==> r is Ok,
{
    if !cfg.is_trusted_origin(origin) {
        return Err(CreditError::UntrustedOrigin);
    }
    let good = Ghost(
        exists|metrics: Seq<Seq<u8>>|
            bytes@ == analytics_data_bytes(metrics) && analytics_data_record_valid(metrics),
    );
    let gw = Ghost(
        choose|metrics: Seq<Seq<u8>>|
            bytes@ == analytics_data_bytes(metrics) && analytics_data_record_valid(metrics),
    );
    proof {
        if good@ {
            lemma_u32_le_round_trip(gw@.len() as u32);
            assert(bytes@.len() == 5 + chunks_bytes(gw@).len());
            assert(bytes@[0] == 6u8);
            assert forall|k: int| 0 <= k < 4 implies bytes@[1 + k] == #[trigger] u32_le_bytes(
                gw@.len() as u32,
            )[k] by {}
            assert(u32_from_le(bytes@[1], bytes@[2], bytes@[3], bytes@[4]) == gw@.len());
            assert(bytes@.subrange(5, 5 + chunks_bytes(gw@).len() as int) =~= chunks_bytes(gw@));
        }
    }
    if bytes.len() < 5 || bytes[0] != 6 {
        proof {
            if good@ {
                assert(false);
            }
        }
        return Err(CreditError::MalformedRecord);
    }
    let count = decode_u32(bytes, 1);
    let (metrics, end) = match read_chunk_list(bytes, 5, count) {
        Some(p) => p,
        None => {
            proof {
                if good@ {
                    assert(false);
                }
            }
            return Err(CreditError::MalformedRecord);
        },
    };
    if end != bytes.len() {
        proof {
            if good@ {
                assert(metrics.deep_view().len() == gw@.len());
                assert(bytes@.subrange(5, end as int) == chunks_bytes(metrics.deep_view()));
                assert(end - 5 == chunks_bytes(metrics.deep_view()).len());
                lemma_chunks_prefix_unique(bytes@, 5, metrics.deep_view(), gw@);
                assert(false);
            }
        }
        return Err(CreditError::MalformedRecord);
    }
    if count == 0 {
        proof {
            if good@ {
                assert(false);
            }
        }
        return Err(CreditError::MalformedRecord);
    }
    let record = AnalyticsDataRecord { metrics };
    proof {
        lemma_u32_round_trip_bytes(count, bytes@.subrange(1, 5));
        assert(bytes@ =~= analytics_data_bytes(record.metrics.deep_view()));
    }
    Ok(record)
}

/// Two chunk runs of equal field count laid at the same position have equal
/// lengths and equal fields.
pub proof fn lemma_chunks_prefix_unique(bytes: Seq<u8>, pos: int, a: Seq<Seq<u8>>, b: Seq<Seq<u8>>)
    requires
        a.len() == b.len(),
        chunks_wf(a),
        chunks_wf(b),
        0 <= pos,
        pos + chunks_bytes(a).len() <= bytes.len(),
        pos + chunks_bytes(b).len() <= bytes.len(),
        bytes.subrange(pos, pos + chunks_bytes(a).len()) == chunks_bytes(a),
        bytes.subrange(pos, pos + chunks_bytes(b).len()) == chunks_bytes(b),
    ensures
        a == b,
        chunks_bytes(a).len() == chunks_bytes(b).len(),
    decreases a.len(),
{
    if a.len() == 0 {
        assert(a =~= b);
    } else {
        assert(a.take(0) =~= Seq::<Seq<u8>>::empty());
        assert(b.take(0) =~= Seq::<Seq<u8>>::empty());
        lemma_chunk_step(bytes, pos, a, 0, pos);
        lemma_chunk_step(bytes, pos, b, 0, pos);
        assert(a[0].len() == b[0].len());
        assert(a[0] == b[0]);
        let next = pos + 4 + a[0].len() as int;
        lemma_chunks_split(a, 1);
        lemma_chunks_split(b, 1);
        assert(a.take(1) =~= seq![a[0]]);
        assert(b.take(1) =~= seq![b[0]]);
        assert(chunks_bytes(seq![a[0]]) =~= bytes_encoding(a[0]));
        assert(chunks_bytes(seq![b[0]]) =~= bytes_encoding(b[0]));
        assert(bytes.subrange(next, next + chunks_bytes(a.skip(1)).len()) =~= chunks_bytes(
            a.skip(1),
        )) by {
            assert forall|k: int| 0 <= k < chunks_bytes(a.skip(1)).len() implies bytes[next + k]
                == chunks_bytes(a.skip(1))[k] by {
                assert(bytes.subrange(pos, pos + chunks_bytes(a).len())[(4 + a[0].len()) + k]
                    == bytes[next + k]);
                assert(chunks_bytes(a)[(4 + a[0].len()) + k] == chunks_bytes(a.skip(1))[k]);
            }
        }
        assert(bytes.subrange(next, next + chunks_bytes(b.skip(1)).len()) =~= chunks_bytes(
            b.skip(1),
        )) by {
            assert forall|k: int| 0 <= k < chunks_bytes(b.skip(1)).len() implies bytes[next + k]
                == chunks_bytes(b.skip(1))[k] by {
                assert(bytes.subrange(pos, pos + chunks_bytes(b).len())[(4 + b[0].len()) + k]
                    == bytes[next + k]);
                assert(chunks_bytes(b)[(4 + b[0].len()) + k] == chunks_bytes(b.skip(1))[k]);
            }
        }
        assert(chunks_wf(a.skip(1)));
        assert(chunks_wf(b.skip(1)));
        lemma_chunks_prefix_unique(bytes, next, a.skip(1), b.skip(1));
        assert(a =~= b) by {
            assert forall|k: int| 0 <= k < a.len() implies a[k] == b[k] by {
                if k > 0 {
                    assert(a.skip(1)[k - 1] == b.skip(1)[k - 1]);
                }
            }
        }
    }
}

} // verus!

verus! {

/// The byte a flag serializes to.
pub open spec fn bool_byte(b: bool) -> u8 {
    if b {
        1u8
    } else {
        0u8
    }
}

/// The canonical bytes of a compliance report: a tag byte, the compliance
/// flag, the score, the time of the last check, and the regulation names.
pub open spec fn compliance_data_bytes(
    is_compliant: bool,
    regulations: Seq<Seq<u8>>,
    compliance_score: u32,
    last_check: u64,
) -> Seq<u8> {
    seq![4u8, bool_byte(is_compliant)] + u32_le_bytes(compliance_score) + u64_le_bytes(last_check)
        + u32_le_bytes(regulations.len() as u32) + chunks_bytes(regulations)
}

/// A structurally valid compliance report in transit: it attests compliance,
/// and every field is short enough for its prefix.
pub open spec fn compliance_data_record_valid(
    is_compliant: bool,
    regulations: Seq<Seq<u8>>,
    compliance_score: u32,
    last_check: u64,
) -> bool {
    is_compliant && regulations.len() <= u32::MAX && chunks_wf(regulations)
}

/// Serializes a compliance report into its canonical bytes.
pub fn serialize_compliance_data(record: &ComplianceDataRecord) -> (r: Vec<u8>)
    requires
        record.regulations@.len() <= u32::MAX,
        chunks_wf(record.regulations.deep_view()),
    ensures
        r@ == compliance_data_bytes(
            record.is_compliant,
            record.regulations.deep_view(),
            record.compliance_score,
            record.last_check,
        ),
{
    let mut out: Vec<u8> = Vec::new();
    out.push(4u8);
    out.push(if record.is_compliant { 1 } else { 0 });
    encode_u32(&mut out, record.compliance_score);
    encode_u64(&mut out, record.last_check);
    encode_chunk_list(&mut out, &record.regulations);
    assert(out@ =~= compliance_data_bytes(
        record.is_compliant,
        record.regulations.deep_view(),
        record.compliance_score,
        record.last_check,
    ));
    out
}

/// Validates and ingests a compliance report: an untrusted origin is
/// rejected first; then exactly the canonical byte strings of reports that
/// attest compliance are accepted, everything else is `MalformedRecord`.
#[verifier::rlimit(100)]
#[verifier::spinoff_prover]
pub fn validate_and_ingest_compliance_data(
    bytes: &Vec<u8>,
    origin: u32,
    cfg: &InterchangeConfig,
) -> (r: Result<ComplianceDataRecord, CreditError>)
    ensures
        !origin_trusted(*cfg, origin) <==> r == Err::<ComplianceDataRecord, CreditError>(
            CreditError::UntrustedOrigin,
        ),
        r matches Ok(rec) ==> origin_trusted(*cfg, origin) && bytes@ == compliance_data_bytes(
            rec.is_compliant,
            rec.regulations.deep_view(),
            rec.compliance_score,
            rec.last_check,
        ) && compliance_data_record_valid(
            rec.is_compliant,
            rec.regulations.deep_view(),
            rec.compliance_score,
            rec.last_check,
        ),
        origin_trusted(*cfg, origin) && (exists|
            is_compliant: bool,
            regulations: Seq<Seq<u8>>,
            compliance_score: u32,
            last_check: u64,
        |
            bytes@ == compliance_data_bytes(
                is_compliant,
                regulations,
                compliance_score,
                last_check,
            ) && compliance_data_record_valid(
                is_compliant,
                regulations,
                compliance_score,
                last_check,
            )) ==> r is Ok,
{
    if !cfg.is_trusted_origin(origin) {
        return Err(CreditError::UntrustedOrigin);
    }
    let good = Ghost(
        exists|
            is_compliant: bool,
            regulations: Seq<Seq<u8>>,
            compliance_score: u32,
            last_check: u64,
        |
            bytes@ == compliance_data_bytes(
                is_compliant,
                regulations,
                compliance_score,
                last_check,
            ) && compliance_data_record_valid(
                is_compliant,
                regulations,
                compliance_score,
                last_check,
            ),
    );
    let gw = Ghost(
        choose|
            is_compliant: bool,
            regulations: Seq<Seq<u8>>,
            compliance_score: u32,
            last_check: u64,
        |
            bytes@ == compliance_data_bytes(
                is_compliant,
                regulations,
                compliance_score,
                last_check,
            ) && compliance_data_record_valid(
                is_compliant,
                regulations,
                compliance_score,
                last_check,
            ),
    );
    proof {
        if good@ {
            let (gc, gregs, gscore, gcheck) = gw@;
            lemma_u32_le_round_trip(gscore);
            lemma_u64_le_round_trip(gcheck);
            lemma_u32_le_round_trip(gregs.len() as u32);
            assert(bytes@.len() == 18 + chunks_bytes(gregs).len());
            assert(bytes@[0] == 4u8);
            assert(bytes@[1] == bool_byte(gc) && gc);
            assert forall|k: int| 0 <= k < 4 implies bytes@[2 + k] == #[trigger] u32_le_bytes(
                gscore,
            )[k] by {}
            assert(u32_from_le(bytes@[2], bytes@[3], bytes@[4], bytes@[5]) == gscore);
            assert(bytes@.subrange(6, 14) =~= u64_le_bytes(gcheck));
            assert forall|k: int| 0 <= k < 4 implies bytes@[14 + k] == #[trigger] u32_le_bytes(
                gregs.len() as u32,
            )[k] by {}
            assert(u32_from_le(bytes@[14], bytes@[15], bytes@[16], bytes@[17]) == gregs.len());
            assert(bytes@.subrange(18, 18 + chunks_bytes(gregs).len() as int) =~= chunks_bytes(
                gregs,
            ));
        }
    }
    if bytes.len() < 18 || bytes[0] != 4 {
        proof {
            if good@ {
                assert(false);
            }
        }
        return Err(CreditError::MalformedRecord);
    }
    let flag = bytes[1];
    if flag != 0 && flag != 1 {
        proof {
            if good@ {
                assert(false);
            }
        }
        return Err(CreditError::MalformedRecord);
    }
    let compliance_score = decode_u32(bytes, 2);
    let last_check = decode_u64(bytes, 6);
    let count = decode_u32(bytes, 14);
    let (regulations, end) = match read_chunk_list(bytes, 18, count) {
        Some(p) => p,
        None => {
            proof {
                if good@ {
                    assert(false);
                }
            }
            return Err(CreditError::MalformedRecord);
        },
    };
    if end != bytes.len() {
        proof {
            if good@ {
                let (gc, gregs, gscore, gcheck) = gw@;
                lemma_chunks_prefix_unique(bytes@, 18, regulations.deep_view(), gregs);
                assert(false);
            }
        }
        return Err(CreditError::MalformedRecord);
    }
    if flag != 1 {
        proof {
            if good@ {
                assert(false);
            }
        }
        return Err(CreditError::MalformedRecord);
    }
    let record = ComplianceDataRecord {
        is_compliant: true,
        regulations,
        compliance_score,
        last_check,
    };
    proof {
        lemma_u32_round_trip_bytes(compliance_score, bytes@.subrange(2, 6));
        lemma_u64_round_trip_bytes(last_check, bytes@.subrange(6, 14));
        lemma_u32_round_trip_bytes(count, bytes@.subrange(14, 18));
        assert(bytes@ =~= compliance_data_bytes(
            record.is_compliant,
            record.regulations.deep_view(),
            record.compliance_score,
            record.last_check,
        ));
    }
    Ok(record)
}

/// Eight bytes whose read-back value is `x` are exactly the eight
/// little-endian bytes of `x`.
pub proof fn lemma_u64_round_trip_bytes(x: u64, s: Seq<u8>)
    requires
        s.len() == 8,
        crate::codec::u64_from_le(s) == x,
    ensures
        s == u64_le_bytes(x),
{
    lemma_u64_le_round_trip(x);
    let t = u64_le_bytes(x);
    assert(t.len() == 8);
    lemma_u64_from_le_injective(s, t);
}

/// The canonical bytes of a fraud report: a tag byte, the risk level, the
/// length-prefixed detection method, and the indicator names.
pub open spec fn fraud_data_bytes(
    risk_level: u32,
    fraud_indicators: Seq<Seq<u8>>,
    detection_method: Seq<u8>,
) -> Seq<u8> {
    seq![5u8] + u32_le_bytes(risk_level) + bytes_encoding(detection_method) + u32_le_bytes(
        fraud_indicators.len() as u32,
    ) + chunks_bytes(fraud_indicators)
}

/// A structurally valid fraud report: a percentage risk level, fields short
/// enough for their prefixes.
pub open spec fn fraud_data_record_valid(
    risk_level: u32,
    fraud_indicators: Seq<Seq<u8>>,
    detection_method: Seq<u8>,
) -> bool {
    &&& risk_level <= 100
    &&& detection_method.len() <= u32::MAX
    &&& fraud_indicators.len() <= u32::MAX
    &&& chunks_wf(fraud_indicators)
}

/// Serializes a fraud report into its canonical bytes.
pub fn serialize_fraud_data(record: &FraudDataRecord) -> (r: Vec<u8>)
    requires
        record.detection_method@.len() <= u32::MAX,
        record.fraud_indicators@.len() <= u32::MAX,
        chunks_wf(record.fraud_indicators.deep_view()),
    ensures
        r@ == fraud_data_bytes(
            record.risk_level,
            record.fraud_indicators.deep_view(),
            record.detection_method@,
        ),
{
    let mut out: Vec<u8> = Vec::new();
    out.push(5u8);
    encode_u32(&mut out, record.risk_level);
    encode_bytes(&mut out, &record.detection_method);
    encode_chunk_list(&mut out, &record.fraud_indicators);
    assert(out@ =~= fraud_data_bytes(
        record.risk_level,
        record.fraud_indicators.deep_view(),
        record.detection_method@,
    ));
    out
}

/// Validates and ingests a fraud report: an untrusted origin is rejected
/// first; then exactly the canonical byte strings of reports with a risk
/// level of at most 100 are accepted, everything else is `MalformedRecord`.
#[verifier::rlimit(100)]
#[verifier::spinoff_prover]
pub fn validate_and_ingest_fraud_data(
    bytes: &Vec<u8>,
    origin: u32,
    cfg: &InterchangeConfig,
) -> (r: Result<FraudDataRecord, CreditError>)
    ensures
        !origin_trusted(*cfg, origin) <==> r == Err::<FraudDataRecord, CreditError>(
            CreditError::UntrustedOrigin,
        ),
        r matches Ok(rec) ==> origin_trusted(*cfg, origin) && bytes@ == fraud_data_bytes(
            rec.risk_level,
            rec.fraud_indicators.deep_view(),
            rec.detection_method@,
        ) && fraud_data_record_valid(
            rec.risk_level,
            rec.fraud_indicators.deep_view(),
            rec.detection_method@,
        ),
        origin_trusted(*cfg, origin) && (exists|
            risk_level: u32,
            fraud_indicators: Seq<Seq<u8>>,
            detection_method: Seq<u8>,
        |
            bytes@ == fraud_data_bytes(risk_level, fraud_indicators, detection_method)
                && fraud_data_record_valid(risk_level, fraud_indicators, detection_method))
            ==> r is Ok,
{
    if !cfg.is_trusted_origin(origin) {
        return Err(CreditError::UntrustedOrigin);
    }
    let good = Ghost(
        exists|risk_level: u32, fraud_indicators: Seq<Seq<u8>>, detection_method: Seq<u8>|
            bytes@ == fraud_data_bytes(risk_level, fraud_indicators, detection_method)
                && fraud_data_record_valid(risk_level, fraud_indicators, detection_method),
    );
    let gw = Ghost(
        choose|risk_level: u32, fraud_indicators: Seq<Seq<u8>>, detection_method: Seq<u8>|
            bytes@ == fraud_data_bytes(risk_level, fraud_indicators, detection_method)
                && fraud_data_record_valid(risk_level, fraud_indicators, detection_method),
    );
    proof {
        if good@ {
            let (grisk, ginds, gmethod) = gw@;
            lemma_u32_le_round_trip(grisk);
            lemma_u32_le_round_trip(gmethod.len() as u32);
            lemma_u32_le_round_trip(ginds.len() as u32);
            assert(bytes@.len() == 13 + gmethod.len() + chunks_bytes(ginds).len());
            assert(bytes@[0] == 5u8);
            assert forall|k: int| 0 <= k < 4 implies bytes@[1 + k] == #[trigger] u32_le_bytes(
                grisk,
            )[k] by {}
            assert(u32_from_le(bytes@[1], bytes@[2], bytes@[3], bytes@[4]) == grisk);
            assert(bytes@.subrange(5, 9 + gmethod.len() as int) =~= bytes_encoding(gmethod));
            lemma_chunk_readable(bytes@, 5, gmethod, 9 + gmethod.len() as int);
            assert forall|k: int| 0 <= k < 4 implies bytes@[9 + gmethod.len() + k]
                == #[trigger] u32_le_bytes(ginds.len() as u32)[k] by {}
            assert(u32_from_le(
                bytes@[9 + gmethod.len() as int],
                bytes@[10 + gmethod.len() as int],
                bytes@[11 + gmethod.len() as int],
                bytes@[12 + gmethod.len() as int],
            ) == ginds.len());
            assert(bytes@.subrange(13 + gmethod.len() as int, bytes@.len() as int)
                =~= chunks_bytes(ginds));
        }
    }
    if bytes.len() < 13 || bytes[0] != 5 {
        proof {
            if good@ {
                assert(false);
            }
        }
        return Err(CreditError::MalformedRecord);
    }
    let risk_level = decode_u32(bytes, 1);
    let (detection_method, pos1) = match read_chunk(bytes, 5) {
        Some(p) => p,
        None => {
            proof {
                if good@ {
                    assert(false);
                }
            }
            return Err(CreditError::MalformedRecord);
        },
    };
    proof {
        if good@ {
            let (grisk, ginds, gmethod) = gw@;
            assert(detection_method@.len() == gmethod.len());
            assert(detection_method@ == gmethod);
            assert(pos1 == 9 + gmethod.len());
        }
    }
    if pos1 > bytes.len() - 4 {
        proof {
            if good@ {
                assert(false);
            }
        }
        return Err(CreditError::MalformedRecord);
    }
    let count = decode_u32(bytes, pos1);
    let (fraud_indicators, end) = match read_chunk_list(bytes, pos1 + 4, count) {
        Some(p) => p,
        None => {
            proof {
                if good@ {
                    let (grisk, ginds, gmethod) = gw@;
                    assert(count == ginds.len());
                    assert(false);
                }
            }
            return Err(CreditError::MalformedRecord);
        },
    };
    if end != bytes.len() {
        proof {
            if good@ {
                let (grisk, ginds, gmethod) = gw@;
                assert(count == ginds.len());
                lemma_chunks_prefix_unique(
                    bytes@,
                    pos1 + 4,
                    fraud_indicators.deep_view(),
                    ginds,
                );
                assert(false);
            }
        }
        return Err(CreditError::MalformedRecord);
    }
    if risk_level > 100 {
        proof {
            if good@ {
                assert(false);
            }
        }
        return Err(CreditError::MalformedRecord);
    }
    let record = FraudDataRecord { risk_level, fraud_indicators, detection_method };
    proof {
        lemma_u32_round_trip_bytes(risk_level, bytes@.subrange(1, 5));
        lemma_u32_round_trip_bytes(count, bytes@.subrange(pos1 as int, pos1 + 4));
        assert(bytes@ =~= fraud_data_bytes(
            record.risk_level,
            record.fraud_indicators.deep_view(),
            record.detection_method@,
        ));
    }
    Ok(record)
}

} // verus!
