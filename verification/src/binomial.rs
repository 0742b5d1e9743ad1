//! Binomial coefficients in exact integer arithmetic.

use vstd::prelude::*;
use vstd::arithmetic::div_mod::lemma_div_multiples_vanish;
use vstd::arithmetic::power2::{
    lemma2_to64_rest, lemma_pow2_adds, lemma_pow2_pos, lemma_pow2_strictly_increases,
    lemma_pow2_unfold, pow2,
};

verus! {

/// The number of ways to pick `k` things out of `n`, by Pascal's rule.
/// It is zero where `k` is negative or exceeds `n`.
pub open spec fn binomial(n: nat, k: int) -> nat
    decreases n,
{
    if k < 0 {
        0
    } else if k == 0 {
        1
    } else if n == 0 {
        0
    } else {
        binomial((n - 1) as nat, k - 1) + binomial((n - 1) as nat, k)
    }
}

/// Nothing can be picked in more ways than there are subsets.
pub proof fn lemma_binomial_bound(n: nat, k: int)
    ensures
        binomial(n, k) <= pow2(n),
    decreases n,
{
    if k > 0 && n > 0 {
        lemma_pow2_unfold(n);
        lemma_binomial_bound((n - 1) as nat, k - 1);
        lemma_binomial_bound((n - 1) as nat, k);
    } else {
        lemma_pow2_pos(n);
    }
}

/// Whatever is there can be picked in at least one way.
pub proof fn lemma_binomial_positive(n: nat, k: int)
    requires
        0 <= k <= n,
    ensures
        binomial(n, k) > 0,
    decreases n,
{
    if k > 0 {
        lemma_binomial_positive((n - 1) as nat, k - 1);
    }
}

/// More cannot be picked than there is.
pub proof fn lemma_binomial_beyond(n: nat, k: int)
    requires
        k > n,
    ensures
        binomial(n, k) == 0,
    decreases n,
{
    if n > 0 {
        lemma_binomial_beyond((n - 1) as nat, k - 1);
        lemma_binomial_beyond((n - 1) as nat, k);
    }
}

/// Picking a leader among the `k + 1` chosen is the same as picking the
/// leader first and then `k` others; likewise for one among those left out.
pub proof fn lemma_binomial_absorb(n: nat, k: int)
    requires
        n > 0,
        k >= 0,
    ensures
        (k + 1) * binomial(n, k + 1) == n * binomial((n - 1) as nat, k),
        (n - k) * binomial(n, k) == n * binomial((n - 1) as nat, k),
    decreases n,
{
    let m = (n - 1) as nat;
    if m == 0 {
        assert(binomial(0, k) == if k == 0 { 1nat } else { 0nat });
        assert(binomial(0, k + 1) == 0);
        assert(binomial(n, k + 1) == binomial(m, k) + binomial(m, k + 1));
        if k == 0 {
            assert(binomial(n, k) == 1);
        } else {
            assert(binomial(0, k - 1) == if k == 1 { 1nat } else { 0nat });
            assert(binomial(n, k) == binomial(m, k - 1) + binomial(m, k));
        }
    } else {
        let a = binomial((m - 1) as nat, k - 1);
        let b = binomial((m - 1) as nat, k);
        let c = binomial((m - 1) as nat, k + 1);
        lemma_binomial_absorb(m, k);
        assert(binomial(m, k + 1) == b + c);
        assert(binomial(n, k + 1) == binomial(m, k) + binomial(m, k + 1));
        // (k + 1) * C(m, k + 1) == m * C(m - 1, k) and (m - k) * C(m, k) == m * C(m - 1, k)
        assert((k + 1) * binomial(n, k + 1) == n * binomial(m, k)) by (nonlinear_arith)
            requires
                binomial(n, k + 1) == binomial(m, k) + binomial(m, k + 1),
                (k + 1) * binomial(m, k + 1) == (m - k) * binomial(m, k),
                n == m + 1,
        ;
        if k == 0 {
            assert(binomial(n, k) == 1);
            assert(binomial(m, k) == 1);
        } else {
            lemma_binomial_absorb(m, k - 1);
            assert(binomial(n, k) == binomial(m, k - 1) + binomial(m, k));
            // k * C(m, k) == (m - k + 1) * C(m, k - 1)
            assert((n - k) * binomial(n, k) == n * binomial(m, k)) by (nonlinear_arith)
                requires
                    binomial(n, k) == binomial(m, k - 1) + binomial(m, k),
                    k * binomial(m, k) == (m - (k - 1)) * binomial(m, k - 1),
                    n == m + 1,
            ;
        }
    }
}

/// The largest `n` for which [`binom`] computes within 128 bits.
pub const BINOM_MAX_N: usize = 120;

/// Every binomial coefficient over at most [`BINOM_MAX_N`] things is below
/// `2^120`.
pub proof fn lemma_binomial_fits(n: nat, k: int)
    requires
        n <= BINOM_MAX_N,
    ensures
        binomial(n, k) <= 0x1_0000_0000_0000_0000_0000_0000_0000_00,
{
    lemma_binomial_bound(n, k);
    if n < 120 {
        lemma_pow2_strictly_increases(n, 120);
    }
    lemma_pow2_adds(60, 60);
    lemma2_to64_rest();
}

/// The binomial coefficient `n` over `k`, computed by the multiplicative
/// formula: every intermediate value is itself a binomial coefficient, so
/// each division is exact.
pub fn binom(n: usize, k: usize) -> (r: u128)
    requires
        n <= BINOM_MAX_N,
    ensures
        r == binomial(n as nat, k as int),
{
    if n < k {
        proof {
            lemma_binomial_beyond(n as nat, k as int);
        }
        return 0;
    }
    let mut res: u128 = 1;
    let mut i: usize = 0;
    while i < k
        invariant
            i <= k <= n <= BINOM_MAX_N,
            res == binomial(n as nat, i as int),
        decreases k - i,
    {
        proof {
            lemma_binomial_absorb(n as nat, i as int);
            lemma_binomial_fits(n as nat, i as int);
            let next = binomial(n as nat, i + 1) as int;
            lemma_div_multiples_vanish(next, i + 1);
            assert(res * (n - i) == (i + 1) * next) by (nonlinear_arith)
                requires
                    (n - i) * res == (i + 1) * next,
            ;
            assert(res * (n - i) <= 0x1_0000_0000_0000_0000_0000_0000_0000_00 * 120)
                by (nonlinear_arith)
                requires
                    res <= 0x1_0000_0000_0000_0000_0000_0000_0000_00,
                    0 <= n - i <= 120,
            ;
        }
        res = (res * ((n - i) as u128)) / ((i + 1) as u128);
        i += 1;
    }
    res
}

} // verus!
