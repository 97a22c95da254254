//! Small verified helpers shared across the components.

use vstd::prelude::*;

verus! {

/// Replaces the element at `i`, leaving the rest of the vector untouched.
pub fn replace_at<T>(v: &mut Vec<T>, i: usize, x: T)
    requires
        i < old(v)@.len(),
    ensures
        final(v)@ == old(v)@.update(i as int, x),
{
    let slot = &mut v[i];
    *slot = x;
    assert(v@ =~= old(v)@.update(i as int, x));
}

/// Copies a vector of `Copy` elements.
pub fn copy_all<T: Copy>(v: &Vec<T>) -> (r: Vec<T>)
    ensures
        r@ == v@,
{
    let mut r: Vec<T> = Vec::new();
    let mut i: usize = 0;
    while i < v.len()
        invariant
            i <= v@.len(),
            r@ == v@.subrange(0, i as int),
        decreases v@.len() - i,
    {
        r.push(v[i]);
        assert(r@ =~= v@.subrange(0, i + 1));
        i = i + 1;
    }
    assert(v@.subrange(0, v@.len() as int) =~= v@);
    r
}

/// One more, saturating at the maximum.
pub open spec fn inc_sat(x: u64) -> u64 {
    if x < u64::MAX {
        (x + 1) as u64
    } else {
        u64::MAX
    }
}

/// One less, stopping at zero.
pub open spec fn dec_floor(x: u64) -> u64 {
    if x > 0 {
        (x - 1) as u64
    } else {
        0
    }
}

/// `n` saturating increments in a row.
pub open spec fn inc_sat_n(x: u64, n: int) -> u64
    decreases n,
{
    if n <= 0 {
        x
    } else {
        inc_sat(inc_sat_n(x, n - 1))
    }
}

/// `n` floored decrements in a row.
pub open spec fn dec_floor_n(x: u64, n: int) -> u64
    decreases n,
{
    if n <= 0 {
        x
    } else {
        dec_floor(dec_floor_n(x, n - 1))
    }
}

/// Increments a counter, saturating at the maximum.
pub fn bump(c: &mut u64)
    ensures
        *final(c) == inc_sat(*old(c)),
{
    if *c < u64::MAX {
        *c = *c + 1;
    }
}

/// Decrements a counter, stopping at zero.
pub fn lower(c: &mut u64)
    ensures
        *final(c) == dec_floor(*old(c)),
{
    if *c > 0 {
        *c = *c - 1;
    }
}

/// Saturating addition on `u128` totals.
pub open spec fn add_sat_u128(x: u128, y: u128) -> u128 {
    if x + y <= u128::MAX {
        (x + y) as u128
    } else {
        u128::MAX
    }
}

/// Adds to a running total, saturating at the maximum.
pub fn accumulate(c: &mut u128, amount: u128)
    ensures
        *final(c) == add_sat_u128(*old(c), amount),
{
    if amount <= u128::MAX - *c {
        *c = *c + amount;
    } else {
        *c = u128::MAX;
    }
}

/// Whether two byte vectors hold the same bytes.
pub fn bytes_eq(a: &Vec<u8>, b: &Vec<u8>) -> (r: bool)
    ensures
        r == (a@ == b@),
{
    if a.len() != b.len() {
        return false;
    }
    let mut i: usize = 0;
    while i < a.len()
        invariant
            a@.len() == b@.len(),
            i <= a@.len(),
            forall|j: int| 0 <= j < i ==> a@[j] == b@[j],
        decreases a@.len() - i,
    {
        if a[i] != b[i] {
            return false;
        }
        i = i + 1;
    }
    proof {
        assert(a@ =~= b@);
    }
    true
}

} // verus!
