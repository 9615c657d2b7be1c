//! Counting the cells of a coverage map: binomial coefficients and powers,
//! each computed with a check that the result fits the machine word.

use vstd::prelude::*;

verus! {

/// The number of `k`-element subsets of an `n`-element set, by Pascal's rule.
pub open spec fn binomial(n: nat, k: nat) -> nat
    decreases n,
{
    if k == 0 {
        1
    } else if n == 0 {
        0
    } else {
        binomial((n - 1) as nat, (k - 1) as nat) + binomial((n - 1) as nat, k)
    }
}

/// `base` raised to `exp`.
pub open spec fn power(base: nat, exp: nat) -> nat
    decreases exp,
{
    if exp == 0 {
        1
    } else {
        base * power(base, (exp - 1) as nat)
    }
}

/// Choosing more elements than there are is impossible.
pub proof fn lemma_binomial_beyond(n: nat, k: nat)
    requires
        k > n,
    ensures
        binomial(n, k) == 0,
    decreases n,
{
    if n > 0 {
        lemma_binomial_beyond((n - 1) as nat, (k - 1) as nat);
        lemma_binomial_beyond((n - 1) as nat, k);
    }
}

/// The absorption identity: `(k + 1) * C(n + 1, k + 1) == (n + 1) * C(n, k)`.
pub proof fn lemma_binomial_absorb(n: nat, k: nat)
    ensures
        (k + 1) * binomial(n + 1, k + 1) == (n + 1) * binomial(n, k),
    decreases n,
{
    if n == 0 {
        assert(binomial(1, k + 1) == binomial(0, k) + binomial(0, k + 1));
        assert(binomial(0, k + 1) == 0);
        let x = binomial(0, k);
        assert(x == if k == 0 { 1nat } else { 0nat });
        assert((k + 1) * x == 1 * x) by (nonlinear_arith)
            requires
                x == if k == 0 { 1nat } else { 0nat },
        ;
    } else if k == 0 {
        lemma_binomial_absorb((n - 1) as nat, 0);
        let x = binomial(n, 1);
        let y = binomial((n - 1) as nat, 0);
        assert(binomial(n + 1, 1) == binomial(n, 0) + x);
        assert(binomial(n, 0) == 1);
        assert(y == 1);
        assert(1 * x == n * y);
        assert(x == n) by (nonlinear_arith)
            requires
                1 * x == n * y,
                y == 1,
        ;
        assert(1 * (1 + x) == (n + 1) * 1) by (nonlinear_arith)
            requires
                x == n,
        ;
    } else {
        let a = binomial((n - 1) as nat, (k - 1) as nat);
        let b = binomial((n - 1) as nat, k);
        let c = binomial(n, k);
        let d = binomial(n, k + 1);
        lemma_binomial_absorb((n - 1) as nat, k);
        lemma_binomial_absorb((n - 1) as nat, (k - 1) as nat);
        assert(c == a + b);
        assert(binomial(n + 1, k + 1) == c + d);
        assert((k + 1) * d == n * b);
        assert(k * c == n * a);
        assert((k + 1) * (c + d) == (n + 1) * c) by (nonlinear_arith)
            requires
                c == a + b,
                (k + 1) * d == n * b,
                k * c == n * a,
        ;
    }
}

/// Along a diagonal the coefficients never shrink: `C(n, k) <= C(n + 1, k + 1)`.
pub proof fn lemma_binomial_diagonal(n: nat, k: nat, steps: nat)
    ensures
        binomial(n, k) <= binomial(n + steps, k + steps),
    decreases steps,
{
    if steps > 0 {
        lemma_binomial_diagonal(n, k, (steps - 1) as nat);
        let m = (n + steps - 1) as nat;
        let j = (k + steps - 1) as nat;
        assert(binomial(m + 1, j + 1) == binomial(m, j) + binomial(m, j + 1));
    }
}

/// A power of a positive base is positive and never shrinks as the exponent grows.
pub proof fn lemma_power_grows(base: nat, low: nat, high: nat)
    requires
        base >= 1,
        low <= high,
    ensures
        1 <= power(base, low) <= power(base, high),
    decreases high,
{
    if low == 0 {
        if high > 0 {
            lemma_power_grows(base, 0, (high - 1) as nat);
            assert(power(base, (high - 1) as nat) <= base * power(base, (high - 1) as nat))
                by (nonlinear_arith)
                requires
                    base >= 1,
            ;
        }
    } else {
        lemma_power_grows(base, (low - 1) as nat, (high - 1) as nat);
        assert(base * power(base, (low - 1) as nat) <= base * power(base, (high - 1) as nat))
            by (nonlinear_arith)
            requires
                power(base, (low - 1) as nat) <= power(base, (high - 1) as nat),
        ;
        assert(1 <= base * power(base, (low - 1) as nat)) by (nonlinear_arith)
            requires
                base >= 1,
                1 <= power(base, (low - 1) as nat),
        ;
    }
}

/// The binomial coefficient `C(n, k)`, or `None` when it does not fit in a `usize`.
pub fn combination(n: usize, k: usize) -> (count: Option<usize>)
    ensures
        match count {
            Some(c) => c == binomial(n as nat, k as nat),
            None => binomial(n as nat, k as nat) > usize::MAX,
        },
{
    if k > n {
        proof {
            lemma_binomial_beyond(n as nat, k as nat);
        }
        return Some(0);
    }
    let rest: usize = n - k;
    let mut c: usize = 1;
    let mut i: usize = 0;
    while i < k
        invariant
            i <= k <= n,
            rest == n - k,
            c == binomial((rest + i) as nat, i as nat),
        decreases k - i,
    {
        let factor: usize = rest + i + 1;
        assert(c * factor <= u128::MAX) by (nonlinear_arith)
            requires
                c <= 0xffff_ffff_ffff_ffff,
                factor <= 0xffff_ffff_ffff_ffff,
        ;
        let wide: u128 = (c as u128) * (factor as u128);
        proof {
            lemma_binomial_absorb((rest + i) as nat, i as nat);
            assert(wide == (i + 1) * binomial((rest + i + 1) as nat, (i + 1) as nat));
        }
        let next: u128 = wide / ((i + 1) as u128);
        proof {
            let b = binomial((rest + i + 1) as nat, (i + 1) as nat);
            assert(((i + 1) * b) / (i + 1) == b) by (nonlinear_arith)
                requires
                    i + 1 > 0,
            ;
            assert(next == b);
        }
        if next > usize::MAX as u128 {
            proof {
                lemma_binomial_diagonal((rest + i + 1) as nat, (i + 1) as nat, (k - i - 1) as nat);
            }
            return None;
        }
        c = next as usize;
        i = i + 1;
    }
    Some(c)
}

/// `base` raised to `exp`, or `None` when it does not fit in a `usize`.
pub fn checked_power(base: usize, exp: usize) -> (value: Option<usize>)
    ensures
        match value {
            Some(v) => v == power(base as nat, exp as nat),
            None => power(base as nat, exp as nat) > usize::MAX,
        },
{
    if exp == 0 {
        return Some(1);
    }
    if base == 0 {
        assert(power(0, exp as nat) == 0 * power(0, (exp - 1) as nat));
        return Some(0);
    }
    if base == 1 {
        proof {
            lemma_power_of_one(exp as nat);
        }
        return Some(1);
    }
    let mut v: usize = 1;
    let mut i: usize = 0;
    while i < exp
        invariant
            i <= exp,
            base >= 2,
            v == power(base as nat, i as nat),
        decreases exp - i,
    {
        match v.checked_mul(base) {
            Some(next) => {
                assert(power(base as nat, (i + 1) as nat) == base * power(base as nat, i as nat));
                assert(v * base == base * v) by (nonlinear_arith);
                v = next;
            },
            None => {
                proof {
                    assert(power(base as nat, (i + 1) as nat) == base * power(base as nat, i as nat));
                    assert(v * base == base * v) by (nonlinear_arith);
                    lemma_power_grows(base as nat, (i + 1) as nat, exp as nat);
                }
                return None;
            },
        }
        i = i + 1;
    }
    Some(v)
}

/// Every power of one is one.
pub proof fn lemma_power_of_one(exp: nat)
    ensures
        power(1, exp) == 1,
    decreases exp,
{
    if exp > 0 {
        lemma_power_of_one((exp - 1) as nat);
    }
}

} // verus!
