//! Overflow-checked binomial coefficients and the cumulative estimate used by
//! the chunk scheduler.

use vstd::prelude::*;

verus! {

/// Error returned when a binomial computation exceeds the range of `u128`.
#[derive(Clone, Copy, PartialEq, Eq, Structural, Debug)]
pub struct IntegerOverflowError;

/// The binomial coefficient C(n, r), defined by Pascal's rule.
///
/// `spec_ncr(n, 0) == 1` for every `n`, and `spec_ncr(n, r) == 0` when `r > n`.
pub open spec fn spec_ncr(n: int, r: int) -> int
    decreases r, n,
{
    if r <= 0 {
        1
    } else if r > n {
        0
    } else {
        spec_ncr(n - 1, r - 1) + spec_ncr(n - 1, r)
    }
}

/// C(n, r) is at least 1 whenever `0 <= r <= n`.
pub proof fn lemma_ncr_pos(n: int, r: int)
    requires
        0 <= r <= n,
    ensures
        spec_ncr(n, r) >= 1,
    decreases r, n,
{
    if r > 0 {
        lemma_ncr_pos(n - 1, r - 1);
        lemma_ncr_nonneg(n - 1, r);
    }
}

/// C(n, r) is never negative.
pub proof fn lemma_ncr_nonneg(n: int, r: int)
    ensures
        spec_ncr(n, r) >= 0,
    decreases r, n,
{
    if 0 < r <= n {
        lemma_ncr_nonneg(n - 1, r - 1);
        lemma_ncr_nonneg(n - 1, r);
    }
}

/// C(n, 1) == n for n >= 0.
proof fn lemma_ncr_one(n: int)
    requires
        n >= 0,
    ensures
        spec_ncr(n, 1) == n,
    decreases n,
{
    if n > 0 {
        lemma_ncr_one(n - 1);
        assert(spec_ncr(n - 1, 0) == 1);
        assert(spec_ncr(n, 1) == spec_ncr(n - 1, 0) + spec_ncr(n - 1, 1));
    }
}

/// C(n, n) == 1 for n >= 0.
pub proof fn lemma_ncr_diag(n: int)
    requires
        n >= 0,
    ensures
        spec_ncr(n, n) == 1,
    decreases n,
{
    if n > 0 {
        lemma_ncr_diag(n - 1);
        assert(spec_ncr(n - 1, n) == 0);
        assert(spec_ncr(n, n) == spec_ncr(n - 1, n - 1) + spec_ncr(n - 1, n));
    }
}

/// C(n, n - 1) == n for n >= 1.
proof fn lemma_ncr_penult(n: int)
    requires
        n >= 1,
    ensures
        spec_ncr(n, n - 1) == n,
    decreases n,
{
    if n == 1 {
        assert(spec_ncr(1, 0) == 1);
    } else {
        lemma_ncr_penult(n - 1);
        lemma_ncr_diag(n - 1);
        assert(spec_ncr(n, n - 1) == spec_ncr(n - 1, n - 2) + spec_ncr(n - 1, n - 1));
    }
}

/// The multiplicative step of the iterative computation:
/// C(n, k) * (n - k) == C(n, k + 1) * (k + 1).
pub proof fn lemma_ncr_step(n: int, k: int)
    requires
        0 <= k < n,
    ensures
        spec_ncr(n, k) * (n - k) == spec_ncr(n, k + 1) * (k + 1),
    decreases n,
{
    if k == 0 {
        lemma_ncr_one(n);
        assert(spec_ncr(n, 0) == 1);
        assert(spec_ncr(n, 0) * (n - 0) == n) by (nonlinear_arith)
            requires
                spec_ncr(n, 0) == 1,
        {
        }
        assert(spec_ncr(n, 1) * (0 + 1) == n) by (nonlinear_arith)
            requires
                spec_ncr(n, 1) == n,
        {
        }
    } else if k == n - 1 {
        lemma_ncr_diag(n);
        lemma_ncr_penult(n);
        assert(spec_ncr(n, n - 1) * (n - (n - 1)) == n) by (nonlinear_arith)
            requires
                spec_ncr(n, n - 1) == n,
        {
        }
        assert(spec_ncr(n, n) * n == n) by (nonlinear_arith)
            requires
                spec_ncr(n, n) == 1,
        {
        }
    } else {
        // 1 <= k <= n - 2, so both induction hypotheses are available.
        lemma_ncr_step(n - 1, k - 1);
        lemma_ncr_step(n - 1, k);
        let a = spec_ncr(n - 1, k - 1);
        let b = spec_ncr(n - 1, k);
        let c = spec_ncr(n - 1, k + 1);
        assert(spec_ncr(n, k) == a + b);
        assert(spec_ncr(n, k + 1) == b + c);
        assert((a + b) * (n - k) == (b + c) * (k + 1)) by (nonlinear_arith)
            requires
                a * (n - k) == b * k,
                b * ((n - 1) - k) == c * (k + 1),
        {
        }
    }
}

/// True if the iterative evaluation of C(n, r) hits an intermediate product
/// that does not fit in a `u128`.  The predicate is monotone in `r`.
pub open spec fn ncr_overflows(n: int, r: int) -> bool {
    exists|k: int| 0 <= k < r && #[trigger] spec_ncr(n, k) * (n - k) > u128::MAX
}

/// Computes C(n, r), reporting an error if any intermediate product
/// overflows.  Returns `Ok(0)` whenever `r > n`.
pub fn ncr(n: u128, r: u128) -> (res: Result<u128, IntegerOverflowError>)
    ensures
        r > n ==> res == Ok::<u128, IntegerOverflowError>(0u128),
        r <= n ==> match res {
            Ok(v) => v == spec_ncr(n as int, r as int) && !ncr_overflows(n as int, r as int),
            Err(_) => ncr_overflows(n as int, r as int),
        },
{
    if r > n {
        return Ok(0);
    }

    let mut acc: u128 = 1;
    let mut i: u128 = 0;
    while i < r
        invariant
            r <= n,
            0 <= i <= r,
            acc == spec_ncr(n as int, i as int),
            forall|k: int| 0 <= k < i ==> #[trigger] spec_ncr(n as int, k) * (n - k)
                <= u128::MAX,
        decreases r - i,
    {
        // Equivalent of `acc * (n - i) / (i + 1)`, with the product checked.
        let term = n - i;
        match acc.checked_mul(term) {
            None => {
                assert(spec_ncr(n as int, i as int) * (n - i) > u128::MAX);
                assert(ncr_overflows(n as int, r as int));
                return Err(IntegerOverflowError);
            },
            Some(prod) => {
                let val = i + 1;
                proof {
                    lemma_ncr_step(n as int, i as int);
                    lemma_ncr_nonneg(n as int, val as int);
                    assert(prod == spec_ncr(n as int, val as int) * (val as int));
                    assert(prod as int / val as int == spec_ncr(n as int, val as int))
                        by (nonlinear_arith)
                        requires
                            val >= 1,
                            prod == spec_ncr(n as int, val as int) * (val as int),
                            spec_ncr(n as int, val as int) >= 0,
                    {
                    }
                }
                acc = prod / val;
                i = val;
            },
        }
    }

    Ok(acc)
}

/// Saturating addition on mathematical integers, clamped to `u128::MAX`.
pub open spec fn sat_add_u128(a: int, b: int) -> int {
    if a + b > u128::MAX {
        u128::MAX as int
    } else {
        a + b
    }
}

/// The saturating cumulative sum `C(n, 0) +| C(n, 1) +| ... +| C(n, j)`.
pub open spec fn spec_estimate(n: int, j: int) -> int
    decreases j,
{
    if j < 0 {
        0
    } else if j == 0 {
        spec_ncr(n, 0)
    } else {
        sat_add_u128(spec_estimate(n, j - 1), spec_ncr(n, j))
    }
}

/// The exact (non-saturating) cumulative sum of binomials.
pub open spec fn spec_sum_ncr(n: int, j: int) -> int
    decreases j,
{
    if j < 0 {
        0
    } else if j == 0 {
        spec_ncr(n, 0)
    } else {
        spec_sum_ncr(n, j - 1) + spec_ncr(n, j)
    }
}

/// The effective maximum combination size for a pool of `n` features:
/// the configured bound where one is set, capped at `n`.
pub open spec fn spec_effective_k(n: int, max_k: Option<u128>) -> int {
    match max_k {
        Some(k) => if k <= n { k as int } else { n },
        None => n,
    }
}

/// Estimates the number of feature combinations for a pool of size `n` with
/// combination sizes up to `max_k` (up to `n` when absent): the sum of
/// C(n, k) for k in 0..=min(max_k, n).  Addition across the sum saturates,
/// but overflow inside any single binomial is reported as an error.
pub fn estimate_combos(n: u128, max_k: Option<u128>) -> (res: Result<
    u128,
    IntegerOverflowError,
>)
    ensures
        match res {
            Ok(v) => v == spec_estimate(n as int, spec_effective_k(n as int, max_k))
                && !ncr_overflows(n as int, spec_effective_k(n as int, max_k)),
            Err(_) => ncr_overflows(n as int, spec_effective_k(n as int, max_k)),
        },
{
    let cap = match max_k {
        Some(k) => if k <= n {
            k
        } else {
            n
        },
        None => n,
    };

    let mut sum: u128 = 0;
    let mut k: u128 = 0;
    loop
        invariant
            cap <= n,
            cap == spec_effective_k(n as int, max_k),
            0 <= k <= cap,
            sum == spec_estimate(n as int, k - 1),
        decreases cap - k,
    {
        match ncr(n, k) {
            Ok(c) => {
                sum = c.saturating_add(sum);
            },
            Err(e) => {
                proof {
                    let j = choose|j: int| 0 <= j < k
                        && #[trigger] spec_ncr(n as int, j) * (n - j) > u128::MAX;
                    assert(spec_ncr(n as int, j) * (n - j) > u128::MAX);
                }
                return Err(e);
            },
        }
        if k == cap {
            return Ok(sum);
        }
        k = k + 1;
    }
}

} // verus!
