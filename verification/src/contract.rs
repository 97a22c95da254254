//! The standalone scoring ledger: string-keyed credit scores and payment
//! history, administered by a single principal, with a score derived from
//! the recorded payments.
//!
//! All scoring arithmetic is integer-only and takes the clock as an
//! argument, so recomputation is bit-identical everywhere.

use vstd::prelude::*;
use vstd::string::StringExecFns;

verus! {

/// Why a ledger command was rejected.
#[derive(Clone, Copy, PartialEq, Eq, Structural, Debug)]
pub enum ContractError {
    Unauthorized,
    InvalidScore,
    InvalidPayment,
    PaymentNotFound,
    InsufficientFunds,
    InvalidUser,
    ScoreNotFound,
    InvalidFactor,
    CalculationError,
}

/// Lifecycle state of a recorded payment.
#[derive(Clone, Copy, PartialEq, Eq, Structural, Debug)]
pub enum PaymentStatus {
    Pending,
    Paid,
    Late,
    Defaulted,
    Cancelled,
}

/// One named, weighted observation behind a stored score.
pub struct ScoreFactor {
    pub name: String,
    pub value: u32,
    pub weight: u32,
    pub impact: String,
}

/// A stored credit score.
pub struct CreditScore {
    pub user_id: String,
    pub score: u32,
    pub factors: Vec<ScoreFactor>,
    pub calculated_at: u64,
    /// Principal that submitted this score.
    pub submitted_by: u64,
    pub metadata: String,
}

/// One recorded payment.
pub struct PaymentHistory {
    pub payment_id: String,
    pub user_id: String,
    pub amount: u64,
    pub currency: String,
    pub due_date: u64,
    pub paid_date: Option<u64>,
    pub status: PaymentStatus,
    pub proof_hash: String,
}

/// Whether a score for this user is stored.
pub open spec fn has_score(s: Seq<CreditScore>, user: Seq<char>) -> bool {
    exists|i: int| 0 <= i < s.len() && s[i].user_id@ == user
}

/// The index of the score for this user.
pub open spec fn score_index(s: Seq<CreditScore>, user: Seq<char>) -> int {
    choose|i: int| 0 <= i < s.len() && s[i].user_id@ == user
}

/// The stored score for this user.
pub open spec fn score_of_user(s: Seq<CreditScore>, user: Seq<char>) -> CreditScore {
    s[score_index(s, user)]
}

/// With unique user ids, a witness index is the index the lookup names.
pub proof fn lemma_score_lookup(s: Seq<CreditScore>, user: Seq<char>, i: int)
    requires
        forall|i1: int, i2: int| 0 <= i1 < i2 < s.len() ==> s[i1].user_id@ != s[i2].user_id@,
        0 <= i < s.len(),
        s[i].user_id@ == user,
    ensures
        has_score(s, user),
        score_index(s, user) == i,
        score_of_user(s, user) == s[i],
{
    assert(has_score(s, user));
    let j = score_index(s, user);
    assert(0 <= j < s.len() && s[j].user_id@ == user);
}

/// Whether a payment with this id is recorded.
pub open spec fn has_payment(s: Seq<PaymentHistory>, pid: Seq<char>) -> bool {
    exists|i: int| 0 <= i < s.len() && s[i].payment_id@ == pid
}

/// The index of the payment with this id.
pub open spec fn payment_index(s: Seq<PaymentHistory>, pid: Seq<char>) -> int {
    choose|i: int| 0 <= i < s.len() && s[i].payment_id@ == pid
}

/// The payment with this id.
pub open spec fn payment_of(s: Seq<PaymentHistory>, pid: Seq<char>) -> PaymentHistory {
    s[payment_index(s, pid)]
}

/// With unique payment ids, a witness index is the index the lookup names.
pub proof fn lemma_payment_lookup(s: Seq<PaymentHistory>, pid: Seq<char>, i: int)
    requires
        forall|i1: int, i2: int| 0 <= i1 < i2 < s.len() ==> s[i1].payment_id@ != s[i2].payment_id@,
        0 <= i < s.len(),
        s[i].payment_id@ == pid,
    ensures
        has_payment(s, pid),
        payment_index(s, pid) == i,
        payment_of(s, pid) == s[i],
{
    assert(has_payment(s, pid));
    let j = payment_index(s, pid);
    assert(0 <= j < s.len() && s[j].payment_id@ == pid);
}

/// The payments of one user, in recording order.
pub open spec fn user_payments(s: Seq<PaymentHistory>, user: Seq<char>) -> Seq<PaymentHistory>
    decreases s.len(),
{
    if s.len() == 0 {
        Seq::<PaymentHistory>::empty()
    } else if s.last().user_id@ == user {
        user_payments(s.drop_last(), user).push(s.last())
    } else {
        user_payments(s.drop_last(), user)
    }
}

/// Whether a payment was settled on time: paid, with a payment date no later
/// than its due date.
pub open spec fn paid_on_time(p: PaymentHistory) -> bool {
    p.status == PaymentStatus::Paid && match p.paid_date {
        Some(d) => d <= p.due_date,
        None => false,
    }
}

/// How many payments were settled on time.
pub open spec fn count_on_time(s: Seq<PaymentHistory>) -> int
    decreases s.len(),
{
    if s.len() == 0 {
        0
    } else {
        count_on_time(s.drop_last()) + if paid_on_time(s.last()) {
            1int
        } else {
            0int
        }
    }
}

/// How many payments are marked paid.
pub open spec fn count_paid(s: Seq<PaymentHistory>) -> int
    decreases s.len(),
{
    if s.len() == 0 {
        0
    } else {
        count_paid(s.drop_last()) + if s.last().status == PaymentStatus::Paid {
            1int
        } else {
            0int
        }
    }
}

/// How many distinct currencies the payments use.
pub open spec fn distinct_currencies(s: Seq<PaymentHistory>) -> int
    decreases s.len(),
{
    if s.len() == 0 {
        0
    } else {
        distinct_currencies(s.drop_last()) + if exists|j: int|
            0 <= j < s.len() - 1 && s[j].currency@ == s.last().currency@ {
            0int
        } else {
            1int
        }
    }
}

/// The total amount across the payments.
pub open spec fn total_amount(s: Seq<PaymentHistory>) -> int
    decreases s.len(),
{
    if s.len() == 0 {
        0
    } else {
        total_amount(s.drop_last()) + s.last().amount
    }
}

/// The earliest due date among the payments.
pub open spec fn oldest_due(s: Seq<PaymentHistory>) -> int
    decreases s.len(),
{
    if s.len() == 0 {
        0
    } else if s.len() == 1 {
        s.last().due_date as int
    } else if s.last().due_date < oldest_due(s.drop_last()) {
        s.last().due_date as int
    } else {
        oldest_due(s.drop_last())
    }
}

/// Milliseconds in thirty days: the unit of the time-in-system factor.
pub const MONTH_MILLIS: u64 = 2592000000;

/// The smaller of two values.
pub open spec fn min_int(a: int, b: int) -> int {
    if a < b {
        a
    } else {
        b
    }
}

/// The punctuality percentage of a payment list.
pub open spec fn punctuality_percent(s: Seq<PaymentHistory>) -> int
    recommends
        s.len() > 0,
{
    count_on_time(s) * 100 / s.len() as int
}

/// The paid percentage of a payment list.
pub open spec fn paid_percent(s: Seq<PaymentHistory>) -> int
    recommends
        s.len() > 0,
{
    count_paid(s) * 100 / s.len() as int
}

/// The currency-diversity contribution, normalized against at most ten
/// kinds.
pub open spec fn diversity_score(s: Seq<PaymentHistory>) -> int
    recommends
        s.len() > 0,
{
    distinct_currencies(s) * 100 / min_int(10, s.len() as int)
}

/// The volume contribution: the total in thousandths, capped at 100.
pub open spec fn volume_score(s: Seq<PaymentHistory>) -> int {
    min_int(total_amount(s) / 1000, 100)
}

/// The time-in-system contribution: ten points per thirty-day month since
/// the earliest due date, capped at 100; zero before anything falls due.
pub open spec fn time_score(s: Seq<PaymentHistory>, now: u64) -> int {
    if now >= oldest_due(s) {
        min_int((now - oldest_due(s)) / (MONTH_MILLIS as int) * 10, 100)
    } else {
        0
    }
}

/// The payment-derived credit score: a base of 500 plus the five weighted
/// factor contributions, capped at 1000. Integer (floor) division
/// throughout.
pub open spec fn payments_score(s: Seq<PaymentHistory>, now: u64) -> int
    recommends
        s.len() > 0,
{
    let raw = 500 + punctuality_percent(s) * 35 / 100 + paid_percent(s) * 30 / 100
        + diversity_score(s) * 15 / 100 + volume_score(s) * 10 / 100 + time_score(s, now) * 10
        / 100;
    if raw > 1000 {
        1000
    } else {
        raw
    }
}

/// Counts are bounded by the list length; amounts are non-negative.
pub proof fn lemma_payment_counts(s: Seq<PaymentHistory>)
    ensures
        0 <= count_on_time(s) <= s.len(),
        0 <= count_paid(s) <= s.len(),
        0 <= distinct_currencies(s) <= s.len(),
        0 <= total_amount(s) <= s.len() * 0xffff_ffff_ffff_ffff,
    decreases s.len(),
{
    if s.len() > 0 {
        lemma_payment_counts(s.drop_last());
        assert(s.last().amount <= 0xffff_ffff_ffff_ffff);
        assert((s.len() - 1) * 0xffff_ffff_ffff_ffff + 0xffff_ffff_ffff_ffff == s.len()
            * 0xffff_ffff_ffff_ffff) by (nonlinear_arith);
    }
}

/// The payment-derived score lies in `[500, 1000]`.
pub proof fn lemma_payments_score_range(s: Seq<PaymentHistory>, now: u64)
    requires
        s.len() > 0,
    ensures
        500 <= payments_score(s, now) <= 1000,
{
    lemma_payment_counts(s);
    vstd::arithmetic::div_mod::lemma_div_pos_is_pos(count_on_time(s) * 100, s.len() as int);
    vstd::arithmetic::div_mod::lemma_div_pos_is_pos(count_paid(s) * 100, s.len() as int);
    vstd::arithmetic::div_mod::lemma_div_pos_is_pos(
        distinct_currencies(s) * 100,
        min_int(10, s.len() as int),
    );
    vstd::arithmetic::div_mod::lemma_div_pos_is_pos(total_amount(s) / 1000, 1);
    vstd::arithmetic::div_mod::lemma_div_pos_is_pos(total_amount(s), 1000);
    assert(punctuality_percent(s) * 35 / 100 >= 0) by {
        vstd::arithmetic::div_mod::lemma_div_pos_is_pos(punctuality_percent(s) * 35, 100);
        assert(punctuality_percent(s) * 35 >= 0) by (nonlinear_arith)
            requires punctuality_percent(s) >= 0;
    }
    assert(paid_percent(s) * 30 / 100 >= 0) by {
        vstd::arithmetic::div_mod::lemma_div_pos_is_pos(paid_percent(s) * 30, 100);
        assert(paid_percent(s) * 30 >= 0) by (nonlinear_arith)
            requires paid_percent(s) >= 0;
    }
    assert(diversity_score(s) * 15 / 100 >= 0) by {
        vstd::arithmetic::div_mod::lemma_div_pos_is_pos(diversity_score(s) * 15, 100);
        assert(diversity_score(s) >= 0) by {
            vstd::arithmetic::div_mod::lemma_div_pos_is_pos(
                distinct_currencies(s) * 100,
                min_int(10, s.len() as int),
            );
            assert(distinct_currencies(s) * 100 >= 0) by (nonlinear_arith)
                requires distinct_currencies(s) >= 0;
        }
        assert(diversity_score(s) * 15 >= 0) by (nonlinear_arith)
            requires diversity_score(s) >= 0;
    }
    assert(volume_score(s) * 10 / 100 >= 0) by {
        vstd::arithmetic::div_mod::lemma_div_pos_is_pos(volume_score(s) * 10, 100);
        assert(volume_score(s) >= 0);
        assert(volume_score(s) * 10 >= 0) by (nonlinear_arith)
            requires volume_score(s) >= 0;
    }
    assert(time_score(s, now) * 10 / 100 >= 0) by {
        vstd::arithmetic::div_mod::lemma_div_pos_is_pos(time_score(s, now) * 10, 100);
        assert(time_score(s, now) >= 0) by {
            if now >= oldest_due(s) {
                vstd::arithmetic::div_mod::lemma_div_pos_is_pos(
                    (now - oldest_due(s)),
                    MONTH_MILLIS as int,
                );
                assert((now - oldest_due(s)) / (MONTH_MILLIS as int) * 10 >= 0) by (nonlinear_arith)
                    requires (now - oldest_due(s)) / (MONTH_MILLIS as int) >= 0;
            }
        }
        assert(time_score(s, now) * 10 >= 0) by (nonlinear_arith)
            requires time_score(s, now) >= 0;
    }
}

} // verus!

verus! {

/// The running tallies the scoring factors are computed from.
struct PaymentTallies {
    on_time: u64,
    paid: u64,
    distinct: u64,
    total: u128,
    count: u64,
    oldest: u64,
}

/// Tallies one user's payments: on-time and paid counts, distinct
/// currencies, total amount, count, and earliest due date.
fn tally_user_payments(payments: &Vec<PaymentHistory>, user: &String) -> (r: PaymentTallies)
    requires
        payments@.len() < u64::MAX,
    ensures
        r.count == user_payments(payments@, user@).len(),
        r.on_time == count_on_time(user_payments(payments@, user@)),
        r.paid == count_paid(user_payments(payments@, user@)),
        r.distinct == distinct_currencies(user_payments(payments@, user@)),
        r.total == total_amount(user_payments(payments@, user@)),
        user_payments(payments@, user@).len() > 0 ==> r.oldest == oldest_due(
            user_payments(payments@, user@),
        ),
{
    let n = payments.len();
    let mut on_time: u64 = 0;
    let mut paid: u64 = 0;
    let mut distinct: u64 = 0;
    let mut total: u128 = 0;
    let mut count: u64 = 0;
    let mut oldest: u64 = 0;
    let mut i: usize = 0;
    proof {
        lemma_payment_counts(user_payments(payments@, user@));
    }
    while i < n
        invariant
            n == payments@.len(),
            n < u64::MAX,
            i <= n,
            count == user_payments(payments@.subrange(0, i as int), user@).len(),
            count <= i,
            on_time == count_on_time(user_payments(payments@.subrange(0, i as int), user@)),
            on_time <= count,
            paid == count_paid(user_payments(payments@.subrange(0, i as int), user@)),
            paid <= count,
            distinct == distinct_currencies(
                user_payments(payments@.subrange(0, i as int), user@),
            ),
            distinct <= count,
            total == total_amount(user_payments(payments@.subrange(0, i as int), user@)),
            count > 0 ==> oldest == oldest_due(user_payments(payments@.subrange(0, i as int), user@)),
        decreases n - i,
    {
        let ghost pre = user_payments(payments@.subrange(0, i as int), user@);
        proof {
            assert(payments@.subrange(0, i + 1).drop_last() =~= payments@.subrange(0, i as int));
            assert(payments@.subrange(0, i + 1).last() == payments@[i as int]);
            lemma_payment_counts(pre);
        }
        if payments[i].user_id == *user {
            let ghost cur = user_payments(payments@.subrange(0, i + 1), user@);
            proof {
                assert(cur == pre.push(payments@[i as int]));
                assert(cur.drop_last() =~= pre);
                assert(cur.last() == payments@[i as int]);
            }
            let p_status_paid = matches!(payments[i].status, PaymentStatus::Paid);
            let p_on_time = p_status_paid && match payments[i].paid_date {
                Some(d) => d <= payments[i].due_date,
                None => false,
            };
            if p_on_time {
                on_time = on_time + 1;
            }
            if p_status_paid {
                paid = paid + 1;
            }
            let mut dup = false;
            let mut j: usize = 0;
            while j < i
                invariant
                    n == payments@.len(),
                    i < n,
                    j <= i,
                    payments@[i as int].user_id@ == user@,
                    dup ==> exists|k: int|
                        0 <= k < pre.len() && pre[k].currency@ == payments@[i as int].currency@,
                    !dup ==> forall|k: int|
                        0 <= k < j && (#[trigger] payments@[k]).user_id@ == user@ ==> payments@[
                            k].currency@ != payments@[i as int].currency@,
                    pre == user_payments(payments@.subrange(0, i as int), user@),
                decreases i - j,
            {
                if payments[j].user_id == *user && payments[j].currency == payments[i].currency {
                    proof {
                        lemma_user_payment_member(payments@.subrange(0, i as int), user@, j as int);
                    }
                    dup = true;
                }
                j = j + 1;
            }
            proof {
                if !dup {
                    assert forall|k: int| 0 <= k < pre.len() implies pre[k].currency@ != payments@[
                        i as int].currency@ by {
                        lemma_user_payment_source(payments@.subrange(0, i as int), user@, k);
                    }
                }
                assert(dup == exists|k: int|
                    0 <= k < cur.len() - 1 && cur[k].currency@ == cur.last().currency@);
            }
            if !dup {
                distinct = distinct + 1;
            }
            total = total + payments[i].amount as u128;
            if count == 0 || payments[i].due_date < oldest {
                oldest = payments[i].due_date;
            }
            count = count + 1;
        } else {
            proof {
                assert(user_payments(payments@.subrange(0, i + 1), user@) == pre);
            }
        }
        i = i + 1;
    }
    proof {
        assert(payments@.subrange(0, n as int) =~= payments@);
    }
    PaymentTallies { on_time, paid, distinct, total, count, oldest }
}

/// Every payment in a user's history appears in the underlying list.
proof fn lemma_user_payment_source(s: Seq<PaymentHistory>, user: Seq<char>, k: int)
    requires
        0 <= k < user_payments(s, user).len(),
    ensures
        exists|j: int| 0 <= j < s.len() && s[j] == user_payments(s, user)[k],
        user_payments(s, user)[k].user_id@ == user,
    decreases s.len(),
{
    if s.len() > 0 {
        let pre = user_payments(s.drop_last(), user);
        if s.last().user_id@ == user && k == user_payments(s, user).len() - 1 {
            assert(s[s.len() - 1] == user_payments(s, user)[k]);
        } else {
            lemma_user_payment_source(s.drop_last(), user, k);
            let j = choose|j: int|
                0 <= j < s.drop_last().len() && s.drop_last()[j] == user_payments(
                    s.drop_last(),
                    user,
                )[k];
            assert(s[j] == user_payments(s, user)[k]);
        }
    }
}

/// A list element with the user's id appears in the user's history.
proof fn lemma_user_payment_member(s: Seq<PaymentHistory>, user: Seq<char>, j: int)
    requires
        0 <= j < s.len(),
        s[j].user_id@ == user,
    ensures
        exists|k: int|
            0 <= k < user_payments(s, user).len() && user_payments(s, user)[k] == s[j],
    decreases s.len(),
{
    if s.len() > 0 {
        if j == s.len() - 1 {
            assert(user_payments(s, user).last() == s[j]);
        } else {
            lemma_user_payment_member(s.drop_last(), user, j);
            let k = choose|k: int|
                0 <= k < user_payments(s.drop_last(), user).len() && user_payments(
                    s.drop_last(),
                    user,
                )[k] == s.drop_last()[j];
            if s.last().user_id@ == user {
                assert(user_payments(s, user)[k] == s[j]);
            } else {
                assert(user_payments(s, user)[k] == s[j]);
            }
        }
    }
}

/// Computes the payment-derived credit score of one user's history: base 500
/// plus punctuality, payment, diversity, volume and longevity contributions,
/// capped at 1000.
pub fn calculate_credit_score(payments: &Vec<PaymentHistory>, user: &String, now: u64) -> (r: u32)
    requires
        payments@.len() < u64::MAX,
        user_payments(payments@, user@).len() > 0,
    ensures
        r == payments_score(user_payments(payments@, user@), now),
        500 <= r <= 1000,
{
    let ghost hist = user_payments(payments@, user@);
    let t = tally_user_payments(payments, user);
    proof {
        lemma_payment_counts(hist);
        lemma_payments_score_range(hist, now);
    }
    let len = t.count as u128;
    let punctuality = (t.on_time as u128) * 100 / len;
    let paid_pct = (t.paid as u128) * 100 / len;
    let dmin: u128 = if len < 10 {
        len
    } else {
        10
    };
    let diversity = (t.distinct as u128) * 100 / dmin;
    let volume_raw = t.total / 1000;
    let volume: u128 = if volume_raw > 100 {
        100
    } else {
        volume_raw
    };
    let time_raw: u128 = if now >= t.oldest {
        ((now - t.oldest) as u128) / (MONTH_MILLIS as u128) * 10
    } else {
        0
    };
    let time_pts: u128 = if time_raw > 100 {
        100
    } else {
        time_raw
    };
    let raw = 500 + punctuality * 35 / 100 + paid_pct * 30 / 100 + diversity * 15 / 100 + volume
        * 10 / 100 + time_pts * 10 / 100;
    let capped: u128 = if raw > 1000 {
        1000
    } else {
        raw
    };
    proof {
        assert(punctuality == punctuality_percent(hist));
        assert(paid_pct == paid_percent(hist));
        assert(diversity == diversity_score(hist));
        assert(volume == volume_score(hist));
        assert(time_pts == time_score(hist, now));
    }
    capped as u32
}

/// Builds the three named factors behind a payment-derived score:
/// punctuality (weight 35), transaction volume in thousandths (weight 10),
/// and currency diversity (weight 15).
pub fn generate_score_factors(payments: &Vec<PaymentHistory>, user: &String) -> (r: Vec<
    ScoreFactor,
>)
    requires
        payments@.len() < u64::MAX,
        user_payments(payments@, user@).len() > 0,
    ensures
        r@.len() == 3,
        r@[0].value == punctuality_percent(user_payments(payments@, user@)),
        r@[0].weight == 35,
        r@[1].value == min_int(total_amount(user_payments(payments@, user@)) / 1000, 0xffff_ffff),
        r@[1].weight == 10,
        r@[2].value == min_int(distinct_currencies(user_payments(payments@, user@)), 0xffff_ffff),
        r@[2].weight == 15,
{
    let ghost hist = user_payments(payments@, user@);
    let t = tally_user_payments(payments, user);
    proof {
        lemma_payment_counts(hist);
        vstd::arithmetic::div_mod::lemma_div_pos_is_pos(count_on_time(hist) * 100, hist.len() as int);
        vstd::arithmetic::div_mod::lemma_div_pos_is_pos(total_amount(hist), 1000);
        vstd::arithmetic::div_mod::lemma_div_is_ordered(
            count_on_time(hist) * 100,
            hist.len() as int * 100,
            hist.len() as int,
        );
        vstd::arithmetic::div_mod::lemma_div_multiples_vanish(100, hist.len() as int);
        assert(hist.len() as int * 100 == hist.len() as int * 100);
        assert(count_on_time(hist) * 100 <= hist.len() as int * 100) by (nonlinear_arith)
            requires count_on_time(hist) <= hist.len();
        assert(hist.len() as int * 100 / (hist.len() as int) == 100) by {
            assert(hist.len() as int * 100 == (hist.len() as int) * 100);
            assert(((hist.len() as int) * 100) / (hist.len() as int) == 100) by (nonlinear_arith)
                requires hist.len() > 0;
        }
        assert(punctuality_percent(hist) <= 100);
    }
    let punctuality = ((t.on_time as u128) * 100 / (t.count as u128)) as u32;
    let volume_raw = t.total / 1000;
    let volume_value: u32 = if volume_raw > 0xffff_ffff {
        0xffff_ffff
    } else {
        volume_raw as u32
    };
    let distinct_value: u32 = if t.distinct > 0xffff_ffff {
        0xffff_ffff
    } else {
        t.distinct as u32
    };
    let mut factors: Vec<ScoreFactor> = Vec::new();
    factors.push(
        ScoreFactor {
            name: String::from_str("Pontualidade"),
            value: punctuality,
            weight: 35,
            impact: String::from_str("Historico de pagamentos em dia"),
        },
    );
    factors.push(
        ScoreFactor {
            name: String::from_str("Volume de Transacoes"),
            value: volume_value,
            weight: 10,
            impact: String::from_str("Valor total movimentado"),
        },
    );
    factors.push(
        ScoreFactor {
            name: String::from_str("Diversidade"),
            value: distinct_value,
            weight: 15,
            impact: String::from_str("Variedade de tipos de transacao"),
        },
    );
    factors
}

} // verus!

verus! {

/// The scoring ledger: scores and payments keyed by string ids, guarded by a
/// single admin principal.
pub struct CreditScoreContract {
    /// The only principal allowed to mutate the ledger.
    pub admin: u64,
    pub credit_scores: Vec<CreditScore>,
    pub payments: Vec<PaymentHistory>,
    pub version: String,
}

impl CreditScoreContract {
    /// Well-formed: one score per user, one payment per payment id.
    pub open spec fn wf(self) -> bool {
        &&& forall|i: int, j: int|
            0 <= i < j < self.credit_scores@.len() ==> self.credit_scores@[i].user_id@
                != self.credit_scores@[j].user_id@
        &&& forall|i: int, j: int|
            0 <= i < j < self.payments@.len() ==> self.payments@[i].payment_id@
                != self.payments@[j].payment_id@
    }

    /// A fresh, empty ledger administered by `admin`.
    pub fn new(admin: u64) -> (r: CreditScoreContract)
        ensures
            r.wf(),
            r.admin == admin,
            r.credit_scores@.len() == 0,
            r.payments@.len() == 0,
            r.version@ == "1.0.0"@,
    {
        CreditScoreContract {
            admin,
            credit_scores: Vec::new(),
            payments: Vec::new(),
            version: String::from_str("1.0.0"),
        }
    }

    /// The ledger's version string.
    pub fn get_version(&self) -> (r: String)
        ensures
            r@ == self.version@,
    {
        self.version.clone()
    }

    /// Stores a score for a user, replacing any previous one. Only the admin
    /// may write (`Unauthorized`); a score above 1000 is rejected
    /// (`InvalidScore`).
    pub fn update_credit_score(
        &mut self,
        caller: u64,
        user_id: String,
        score: u32,
        factors: Vec<ScoreFactor>,
        metadata: String,
        now: u64,
    ) -> (r: Result<(), ContractError>)
        requires
            old(self).wf(),
        ensures
            final(self).wf(),
            caller != old(self).admin ==> *final(self) == *old(self) && r == Err::<
                (),
                ContractError,
            >(ContractError::Unauthorized),
            caller == old(self).admin && score > 1000 ==> *final(self) == *old(self) && r == Err::<
                (),
                ContractError,
            >(ContractError::InvalidScore),
            caller == old(self).admin && score <= 1000 ==> {
                &&& r == Ok::<(), ContractError>(())
                &&& has_score(final(self).credit_scores@, user_id@)
                &&& score_of_user(final(self).credit_scores@, user_id@).user_id@ == user_id@
                &&& score_of_user(final(self).credit_scores@, user_id@).score == score
                &&& score_of_user(final(self).credit_scores@, user_id@).factors == factors
                &&& score_of_user(final(self).credit_scores@, user_id@).calculated_at == now
                &&& score_of_user(final(self).credit_scores@, user_id@).submitted_by == caller
                &&& score_of_user(final(self).credit_scores@, user_id@).metadata@ == metadata@
                &&& final(self).credit_scores@.len() == old(self).credit_scores@.len() + (
                if has_score(old(self).credit_scores@, user_id@) {
                    0int
                } else {
                    1int
                })
                &&& forall|q: Seq<char>|
                    q != user_id@ ==> has_score(final(self).credit_scores@, q) == has_score(
                        old(self).credit_scores@,
                        q,
                    )
                &&& forall|q: Seq<char>|
                    q != user_id@ && has_score(old(self).credit_scores@, q) ==> score_of_user(
                        final(self).credit_scores@,
                        q,
                    ) == score_of_user(old(self).credit_scores@, q)
                &&& final(self).payments == old(self).payments
                &&& final(self).admin == old(self).admin
                &&& final(self).version == old(self).version
            },
    {
        if caller != self.admin {
            return Err(ContractError::Unauthorized);
        }
        if score > 1000 {
            return Err(ContractError::InvalidScore);
        }
        let record = CreditScore {
            user_id,
            score,
            factors,
            calculated_at: now,
            submitted_by: caller,
            metadata,
        };
        let ghost old_scores = self.credit_scores@;
        let ghost user = record.user_id@;
        let mut found: Option<usize> = None;
        let mut i: usize = 0;
        while i < self.credit_scores.len()
            invariant
                *self == *old(self),
                old(self).wf(),
                user == record.user_id@,
                i <= self.credit_scores@.len(),
                match found {
                    Some(fi) => 0 <= fi < i && self.credit_scores@[fi as int].user_id@ == user,
                    None => forall|j: int| 0 <= j < i ==> self.credit_scores@[j].user_id@ != user,
                },
            decreases self.credit_scores@.len() - i,
        {
            if matches!(found, None) && self.credit_scores[i].user_id == record.user_id {
                found = Some(i);
            }
            i = i + 1;
        }
        match found {
            Some(fi) => {
                proof {
                    lemma_score_lookup(old_scores, user, fi as int);
                }
                crate::util::replace_at(&mut self.credit_scores, fi, record);
                proof {
                    lemma_score_lookup(self.credit_scores@, user, fi as int);
                    assert forall|q: Seq<char>| q != user implies has_score(
                        self.credit_scores@,
                        q,
                    ) == has_score(old_scores, q) by {
                        if has_score(old_scores, q) {
                            let j2 = score_index(old_scores, q);
                            assert(self.credit_scores@[j2].user_id@ == q);
                        }
                        if has_score(self.credit_scores@, q) {
                            let j2 = score_index(self.credit_scores@, q);
                            assert(old_scores[j2].user_id@ == q);
                        }
                    }
                    assert forall|q: Seq<char>| q != user && has_score(old_scores, q) implies
                        score_of_user(self.credit_scores@, q) == score_of_user(old_scores, q) by {
                        let j2 = score_index(old_scores, q);
                        assert(old_scores[j2].user_id@ == q);
                        lemma_score_lookup(self.credit_scores@, q, j2);
                    }
                }
            },
            None => {
                self.credit_scores.push(record);
                proof {
                    assert forall|i1: int, i2: int|
                        0 <= i1 < i2 < self.credit_scores@.len() implies self.credit_scores@[
                        i1].user_id@ != self.credit_scores@[i2].user_id@ by {
                        if i2 < old_scores.len() {
                            assert(self.credit_scores@[i1] == old_scores[i1]);
                            assert(self.credit_scores@[i2] == old_scores[i2]);
                        } else {
                            assert(self.credit_scores@[i1] == old_scores[i1]);
                        }
                    }
                    lemma_score_lookup(self.credit_scores@, user, old_scores.len() as int);
                    assert forall|q: Seq<char>| q != user implies has_score(
                        self.credit_scores@,
                        q,
                    ) == has_score(old_scores, q) by {
                        if has_score(old_scores, q) {
                            let j2 = score_index(old_scores, q);
                            assert(self.credit_scores@[j2].user_id@ == q);
                        }
                        if has_score(self.credit_scores@, q) {
                            let j2 = score_index(self.credit_scores@, q);
                            assert(0 <= j2 < old_scores.len());
                            assert(old_scores[j2].user_id@ == q);
                        }
                    }
                    assert forall|q: Seq<char>| q != user && has_score(old_scores, q) implies
                        score_of_user(self.credit_scores@, q) == score_of_user(old_scores, q) by {
                        let j2 = score_index(old_scores, q);
                        assert(old_scores[j2].user_id@ == q);
                        lemma_score_lookup(self.credit_scores@, q, j2);
                    }
                }
            },
        }
        Ok(())
    }

    /// The stored score of a user, if any.
    pub fn get_credit_score(&self, user_id: &String) -> (r: Result<&CreditScore, ContractError>)
        requires
            self.wf(),
        ensures
            match r {
                Ok(rec) => has_score(self.credit_scores@, user_id@) && *rec == score_of_user(
                    self.credit_scores@,
                    user_id@,
                ),
                Err(e) => e == ContractError::ScoreNotFound && !has_score(
                    self.credit_scores@,
                    user_id@,
                ),
            },
    {
        let mut i: usize = 0;
        while i < self.credit_scores.len()
            invariant
                self.wf(),
                i <= self.credit_scores@.len(),
                forall|j: int| 0 <= j < i ==> self.credit_scores@[j].user_id@ != user_id@,
            decreases self.credit_scores@.len() - i,
        {
            if self.credit_scores[i].user_id == *user_id {
                proof {
                    lemma_score_lookup(self.credit_scores@, user_id@, i as int);
                }
                return Ok(&self.credit_scores[i]);
            }
            i = i + 1;
        }
        Err(ContractError::ScoreNotFound)
    }

    /// Whether a user holds a stored score.
    pub fn has_valid_score(&self, user_id: &String) -> (r: bool)
        requires
            self.wf(),
        ensures
            r == has_score(self.credit_scores@, user_id@),
    {
        match self.get_credit_score(user_id) {
            Ok(_) => true,
            Err(_) => false,
        }
    }

    /// Records a payment for a user, pending and without a settlement date,
    /// replacing any record under the same payment id. Only the admin may
    /// write (`Unauthorized`).
    pub fn register_payment(
        &mut self,
        caller: u64,
        user_id: String,
        payment_id: String,
        amount: u64,
        currency: String,
        due_date: u64,
    ) -> (r: Result<(), ContractError>)
        requires
            old(self).wf(),
        ensures
            final(self).wf(),
            caller != old(self).admin ==> *final(self) == *old(self) && r == Err::<
                (),
                ContractError,
            >(ContractError::Unauthorized),
            caller == old(self).admin ==> {
                &&& r == Ok::<(), ContractError>(())
                &&& has_payment(final(self).payments@, payment_id@)
                &&& payment_of(final(self).payments@, payment_id@).payment_id@ == payment_id@
                &&& payment_of(final(self).payments@, payment_id@).user_id@ == user_id@
                &&& payment_of(final(self).payments@, payment_id@).amount == amount
                &&& payment_of(final(self).payments@, payment_id@).currency@ == currency@
                &&& payment_of(final(self).payments@, payment_id@).due_date == due_date
                &&& payment_of(final(self).payments@, payment_id@).paid_date is None
                &&& payment_of(final(self).payments@, payment_id@).status == PaymentStatus::Pending
                &&& payment_of(final(self).payments@, payment_id@).proof_hash@ == Seq::<
                    char,
                >::empty()
                &&& final(self).payments@.len() == old(self).payments@.len() + (if has_payment(
                    old(self).payments@,
                    payment_id@,
                ) {
                    0int
                } else {
                    1int
                })
                &&& forall|q: Seq<char>|
                    q != payment_id@ ==> has_payment(final(self).payments@, q) == has_payment(
                        old(self).payments@,
                        q,
                    )
                &&& forall|q: Seq<char>|
                    q != payment_id@ && has_payment(old(self).payments@, q) ==> payment_of(
                        final(self).payments@,
                        q,
                    ) == payment_of(old(self).payments@, q)
                &&& final(self).credit_scores == old(self).credit_scores
                &&& final(self).admin == old(self).admin
                &&& final(self).version == old(self).version
            },
    {
        if caller != self.admin {
            return Err(ContractError::Unauthorized);
        }
        let record = PaymentHistory {
            payment_id,
            user_id,
            amount,
            currency,
            due_date,
            paid_date: None,
            status: PaymentStatus::Pending,
            proof_hash: String::new(),
        };
        let ghost old_payments = self.payments@;
        let ghost pid = record.payment_id@;
        let mut found: Option<usize> = None;
        let mut i: usize = 0;
        while i < self.payments.len()
            invariant
                *self == *old(self),
                old(self).wf(),
                pid == record.payment_id@,
                i <= self.payments@.len(),
                match found {
                    Some(fi) => 0 <= fi < i && self.payments@[fi as int].payment_id@ == pid,
                    None => forall|j: int| 0 <= j < i ==> self.payments@[j].payment_id@ != pid,
                },
            decreases self.payments@.len() - i,
        {
            if matches!(found, None) && self.payments[i].payment_id == record.payment_id {
                found = Some(i);
            }
            i = i + 1;
        }
        match found {
            Some(fi) => {
                proof {
                    lemma_payment_lookup(old_payments, pid, fi as int);
                }
                crate::util::replace_at(&mut self.payments, fi, record);
                proof {
                    lemma_payment_lookup(self.payments@, pid, fi as int);
                    assert forall|q: Seq<char>| q != pid implies has_payment(self.payments@, q)
                        == has_payment(old_payments, q) by {
                        if has_payment(old_payments, q) {
                            let j2 = payment_index(old_payments, q);
                            assert(self.payments@[j2].payment_id@ == q);
                        }
                        if has_payment(self.payments@, q) {
                            let j2 = payment_index(self.payments@, q);
                            assert(old_payments[j2].payment_id@ == q);
                        }
                    }
                    assert forall|q: Seq<char>| q != pid && has_payment(old_payments, q) implies
                        payment_of(self.payments@, q) == payment_of(old_payments, q) by {
                        let j2 = payment_index(old_payments, q);
                        assert(old_payments[j2].payment_id@ == q);
                        lemma_payment_lookup(self.payments@, q, j2);
                    }
                }
            },
            None => {
                self.payments.push(record);
                proof {
                    assert forall|i1: int, i2: int|
                        0 <= i1 < i2 < self.payments@.len() implies self.payments@[i1].payment_id@
                        != self.payments@[i2].payment_id@ by {
                        if i2 < old_payments.len() {
                            assert(self.payments@[i1] == old_payments[i1]);
                            assert(self.payments@[i2] == old_payments[i2]);
                        } else {
                            assert(self.payments@[i1] == old_payments[i1]);
                        }
                    }
                    lemma_payment_lookup(self.payments@, pid, old_payments.len() as int);
                    assert forall|q: Seq<char>| q != pid implies has_payment(self.payments@, q)
                        == has_payment(old_payments, q) by {
                        if has_payment(old_payments, q) {
                            let j2 = payment_index(old_payments, q);
                            assert(self.payments@[j2].payment_id@ == q);
                        }
                        if has_payment(self.payments@, q) {
                            let j2 = payment_index(self.payments@, q);
                            assert(0 <= j2 < old_payments.len());
                            assert(old_payments[j2].payment_id@ == q);
                        }
                    }
                    assert forall|q: Seq<char>| q != pid && has_payment(old_payments, q) implies
                        payment_of(self.payments@, q) == payment_of(old_payments, q) by {
                        let j2 = payment_index(old_payments, q);
                        assert(old_payments[j2].payment_id@ == q);
                        lemma_payment_lookup(self.payments@, q, j2);
                    }
                }
            },
        }
        Ok(())
    }

    /// Updates a recorded payment's status, settlement date and proof hash.
    /// Only the admin may write (`Unauthorized`); an unknown id is rejected
    /// with `PaymentNotFound`.
    pub fn update_payment_status(
        &mut self,
        caller: u64,
        payment_id: &String,
        new_status: PaymentStatus,
        paid_date: Option<u64>,
        proof_hash: String,
    ) -> (r: Result<(), ContractError>)
        requires
            old(self).wf(),
        ensures
            final(self).wf(),
            caller != old(self).admin ==> *final(self) == *old(self) && r == Err::<
                (),
                ContractError,
            >(ContractError::Unauthorized),
            caller == old(self).admin && !has_payment(old(self).payments@, payment_id@) ==> *final(self)
                == *old(self) && r == Err::<(), ContractError>(ContractError::PaymentNotFound),
            caller == old(self).admin && has_payment(old(self).payments@, payment_id@) ==> {
                &&& r == Ok::<(), ContractError>(())
                &&& final(self).payments@ == old(self).payments@.update(
                    payment_index(old(self).payments@, payment_id@),
                    (PaymentHistory {
                        status: new_status,
                        paid_date: paid_date,
                        proof_hash: proof_hash,
                        ..payment_of(old(self).payments@, payment_id@)
                    }),
                )
                &&& final(self).credit_scores == old(self).credit_scores
                &&& final(self).admin == old(self).admin
                &&& final(self).version == old(self).version
            },
    {
        if caller != self.admin {
            return Err(ContractError::Unauthorized);
        }
        let ghost old_payments = self.payments@;
        let mut found: Option<usize> = None;
        let mut i: usize = 0;
        while i < self.payments.len()
            invariant
                *self == *old(self),
                old(self).wf(),
                i <= self.payments@.len(),
                match found {
                    Some(fi) => 0 <= fi < i && self.payments@[fi as int].payment_id@
                        == payment_id@,
                    None => forall|j: int|
                        0 <= j < i ==> self.payments@[j].payment_id@ != payment_id@,
                },
            decreases self.payments@.len() - i,
        {
            if matches!(found, None) && self.payments[i].payment_id == *payment_id {
                found = Some(i);
            }
            i = i + 1;
        }
        let fi = match found {
            Some(fi) => fi,
            None => {
                assert(!has_payment(self.payments@, payment_id@));
                return Err(ContractError::PaymentNotFound);
            },
        };
        proof {
            lemma_payment_lookup(old_payments, payment_id@, fi as int);
        }
        let slot = &mut self.payments[fi];
        slot.status = new_status;
        slot.paid_date = paid_date;
        slot.proof_hash = proof_hash;
        proof {
            assert(self.payments@ =~= old_payments.update(
                fi as int,
                (PaymentHistory {
                    status: new_status,
                    paid_date: paid_date,
                    proof_hash: self.payments@[fi as int].proof_hash,
                    ..old_payments[fi as int]
                }),
            ));
            assert forall|i1: int, i2: int| 0 <= i1 < i2 < self.payments@.len() implies
                self.payments@[i1].payment_id@ != self.payments@[i2].payment_id@ by {
                if i1 != fi {
                    assert(self.payments@[i1] == old_payments[i1]);
                }
                if i2 != fi {
                    assert(self.payments@[i2] == old_payments[i2]);
                }
            }
        }
        Ok(())
    }

    /// The recorded payment with this id, if any.
    pub fn get_payment(&self, payment_id: &String) -> (r: Result<&PaymentHistory, ContractError>)
        requires
            self.wf(),
        ensures
            match r {
                Ok(p) => has_payment(self.payments@, payment_id@) && *p == payment_of(
                    self.payments@,
                    payment_id@,
                ),
                Err(e) => e == ContractError::PaymentNotFound && !has_payment(
                    self.payments@,
                    payment_id@,
                ),
            },
    {
        let mut i: usize = 0;
        while i < self.payments.len()
            invariant
                self.wf(),
                i <= self.payments@.len(),
                forall|j: int| 0 <= j < i ==> self.payments@[j].payment_id@ != payment_id@,
            decreases self.payments@.len() - i,
        {
            if self.payments[i].payment_id == *payment_id {
                proof {
                    lemma_payment_lookup(self.payments@, payment_id@, i as int);
                }
                return Ok(&self.payments[i]);
            }
            i = i + 1;
        }
        Err(ContractError::PaymentNotFound)
    }

    /// A user's payments, in recording order.
    pub fn get_payment_history(&self, user_id: &String) -> (r: Vec<&PaymentHistory>)
        ensures
            r@.len() == user_payments(self.payments@, user_id@).len(),
            forall|k: int|
                0 <= k < r@.len() ==> *r@[k] == user_payments(self.payments@, user_id@)[k],
    {
        let mut r: Vec<&PaymentHistory> = Vec::new();
        let mut i: usize = 0;
        while i < self.payments.len()
            invariant
                i <= self.payments@.len(),
                r@.len() == user_payments(self.payments@.subrange(0, i as int), user_id@).len(),
                forall|k: int|
                    0 <= k < r@.len() ==> *r@[k] == user_payments(
                        self.payments@.subrange(0, i as int),
                        user_id@,
                    )[k],
            decreases self.payments@.len() - i,
        {
            proof {
                assert(self.payments@.subrange(0, i + 1).drop_last() =~= self.payments@.subrange(
                    0,
                    i as int,
                ));
                assert(self.payments@.subrange(0, i + 1).last() == self.payments@[i as int]);
            }
            if self.payments[i].user_id == *user_id {
                r.push(&self.payments[i]);
            }
            i = i + 1;
        }
        proof {
            assert(self.payments@.subrange(0, self.payments@.len() as int) =~= self.payments@);
        }
        r
    }

    /// Totals over the ledger: users with a score, recorded payments, and
    /// the summed volume — each truncated to the reporting width.
    pub fn get_contract_stats(&self) -> (r: (u32, u32, u32))
        requires
            self.credit_scores@.len() <= u32::MAX,
            self.payments@.len() <= u32::MAX,
        ensures
            r.0 == self.credit_scores@.len(),
            r.1 == self.payments@.len(),
            r.2 == min_int(total_amount(self.payments@), 0xffff_ffff),
    {
        let total_users = self.credit_scores.len() as u32;
        let total_payments = self.payments.len() as u32;
        let mut volume: u128 = 0;
        let mut i: usize = 0;
        proof {
            lemma_payment_counts(self.payments@);
        }
        while i < self.payments.len()
            invariant
                i <= self.payments@.len(),
                volume == total_amount(self.payments@.subrange(0, i as int)),
                0 <= volume <= i * 0xffff_ffff_ffff_ffff,
            decreases self.payments@.len() - i,
        {
            proof {
                assert(self.payments@.subrange(0, i + 1).drop_last() =~= self.payments@.subrange(
                    0,
                    i as int,
                ));
                assert(self.payments@.subrange(0, i + 1).last() == self.payments@[i as int]);
                assert(i * 0xffff_ffff_ffff_ffff + 0xffff_ffff_ffff_ffff == (i + 1)
                    * 0xffff_ffff_ffff_ffff) by (nonlinear_arith);
            }
            volume = volume + self.payments[i].amount as u128;
            i = i + 1;
        }
        proof {
            assert(self.payments@.subrange(0, self.payments@.len() as int) =~= self.payments@);
        }
        let volume_u32: u32 = if volume > 0xffff_ffff {
            0xffff_ffff
        } else {
            volume as u32
        };
        (total_users, total_payments, volume_u32)
    }

    /// Computes a user's score from their payment history, stores it with
    /// the three derived factors, and returns it. Only the admin may run it
    /// (`Unauthorized`); a user without payments is rejected (`InvalidUser`).
    pub fn calculate_score_from_payments(&mut self, caller: u64, user_id: String, now: u64) -> (r:
        Result<u32, ContractError>)
        requires
            old(self).wf(),
            old(self).payments@.len() < u64::MAX,
        ensures
            final(self).wf(),
            caller != old(self).admin ==> *final(self) == *old(self) && r == Err::<
                u32,
                ContractError,
            >(ContractError::Unauthorized),
            caller == old(self).admin && user_payments(old(self).payments@, user_id@).len() == 0
                ==> *final(self) == *old(self) && r == Err::<u32, ContractError>(
                ContractError::InvalidUser,
            ),
            caller == old(self).admin && user_payments(old(self).payments@, user_id@).len() > 0
                ==> {
                let score = payments_score(user_payments(old(self).payments@, user_id@), now);
                &&& r == Ok::<u32, ContractError>(score as u32)
                &&& has_score(final(self).credit_scores@, user_id@)
                &&& score_of_user(final(self).credit_scores@, user_id@).score == score
                &&& score_of_user(final(self).credit_scores@, user_id@).calculated_at == now
                &&& score_of_user(final(self).credit_scores@, user_id@).factors@.len() == 3
                &&& score_of_user(final(self).credit_scores@, user_id@).factors@[0].value
                    == punctuality_percent(user_payments(old(self).payments@, user_id@))
                &&& score_of_user(final(self).credit_scores@, user_id@).factors@[0].weight == 35
                &&& score_of_user(final(self).credit_scores@, user_id@).factors@[1].value
                    == min_int(
                    total_amount(user_payments(old(self).payments@, user_id@)) / 1000,
                    0xffff_ffff,
                )
                &&& score_of_user(final(self).credit_scores@, user_id@).factors@[1].weight == 10
                &&& score_of_user(final(self).credit_scores@, user_id@).factors@[2].value
                    == min_int(
                    distinct_currencies(user_payments(old(self).payments@, user_id@)),
                    0xffff_ffff,
                )
                &&& score_of_user(final(self).credit_scores@, user_id@).factors@[2].weight == 15
                &&& final(self).payments == old(self).payments
            },
    {
        if caller != self.admin {
            return Err(ContractError::Unauthorized);
        }
        let history = self.get_payment_history(&user_id);
        if history.len() == 0 {
            return Err(ContractError::InvalidUser);
        }
        let score = calculate_credit_score(&self.payments, &user_id, now);
        let factors = generate_score_factors(&self.payments, &user_id);
        let metadata = String::from_str("Calculated from payment history");
        let result = self.update_credit_score(caller, user_id, score, factors, metadata, now);
        proof {
            assert(result is Ok);
        }
        Ok(score)
    }
}

} // verus!
