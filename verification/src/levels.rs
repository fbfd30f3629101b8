//! Powers of two and the levels that sizes belong to.

use vstd::prelude::*;

verus! {

/// Two to the power `k`.
pub open spec fn pow2(k: nat) -> nat
    decreases k,
{
    if k == 0 {
        1
    } else {
        2 * pow2((k - 1) as nat)
    }
}

/// A power of two is positive.
pub proof fn lemma_pow2_positive(k: nat)
    ensures
        pow2(k) >= 1,
    decreases k,
{
    if k > 0 {
        lemma_pow2_positive((k - 1) as nat);
    }
}

/// Powers of two grow with the exponent.
pub proof fn lemma_pow2_monotone(a: nat, b: nat)
    requires
        a <= b,
    ensures
        pow2(a) <= pow2(b),
    decreases b,
{
    if a < b {
        lemma_pow2_monotone(a, (b - 1) as nat);
        lemma_pow2_positive((b - 1) as nat);
    }
}

/// A power of two is greater than its exponent.
pub proof fn lemma_pow2_above(k: nat)
    ensures
        k < pow2(k),
    decreases k,
{
    if k > 0 {
        lemma_pow2_above((k - 1) as nat);
    }
}

/// The least `k` with `n <= 2^k`.
pub open spec fn ceil_log2_spec(n: nat) -> nat
    decreases n,
{
    if n <= 1 {
        0
    } else {
        1 + ceil_log2_spec(((n + 1) / 2) as nat)
    }
}

/// The greatest `k` with `2^k <= n`, and zero for zero.
pub open spec fn floor_log2_spec(n: nat) -> nat
    decreases n,
{
    if n <= 1 {
        0
    } else {
        1 + floor_log2_spec((n / 2) as nat)
    }
}

/// `ceil_log2_spec(n)` is the least exponent whose power reaches `n`.
pub proof fn lemma_ceil_log2(n: nat)
    ensures
        n <= pow2(ceil_log2_spec(n)),
        ceil_log2_spec(n) > 0 ==> pow2((ceil_log2_spec(n) - 1) as nat) < n,
    decreases n,
{
    if n > 1 {
        lemma_ceil_log2(((n + 1) / 2) as nat);
    }
}

/// `floor_log2_spec(n)` is the greatest exponent whose power is at most
/// `n`.
pub proof fn lemma_floor_log2(n: nat)
    requires
        n >= 1,
    ensures
        pow2(floor_log2_spec(n)) <= n < pow2(floor_log2_spec(n) + 1),
    decreases n,
{
    if n > 1 {
        lemma_floor_log2((n / 2) as nat);
    }
}

/// The level of a batch of `n` updates: the least `k` with `n <= 2^k`.
pub fn ceil_log2(n: usize) -> (k: usize)
    ensures
        k == ceil_log2_spec(n as nat),
        n <= pow2(k as nat),
        k > 0 ==> pow2((k - 1) as nat) < n,
{
    let mut k: usize = 0;
    let mut m: usize = n;
    while m > 1
        invariant
            ceil_log2_spec(n as nat) == k + ceil_log2_spec(m as nat),
            k + m <= n,
        decreases m,
    {
        m = m / 2 + m % 2;
        k = k + 1;
    }
    proof {
        lemma_ceil_log2(n as nat);
    }
    k
}

/// The level that an amount of effort pays for: the greatest `k` with
/// `2^k <= n`, and zero for zero.
pub fn floor_log2(n: usize) -> (k: usize)
    ensures
        k == floor_log2_spec(n as nat),
        n >= 1 ==> pow2(k as nat) <= n,
{
    let mut k: usize = 0;
    let mut m: usize = n;
    while m > 1
        invariant
            floor_log2_spec(n as nat) == k + floor_log2_spec(m as nat),
            k + m <= n,
        decreases m,
    {
        m = m / 2;
        k = k + 1;
    }
    proof {
        if n >= 1 {
            lemma_floor_log2(n as nat);
        }
    }
    k
}

/// Two to the power `k`, where that fits.
pub fn pow2_exec(k: usize) -> (p: usize)
    requires
        pow2(k as nat) <= usize::MAX,
    ensures
        p == pow2(k as nat),
{
    let mut p: usize = 1;
    let mut i: usize = 0;
    while i < k
        invariant
            i <= k,
            p == pow2(i as nat),
            pow2(k as nat) <= usize::MAX,
        decreases k - i,
    {
        proof {
            lemma_pow2_monotone((i + 1) as nat, k as nat);
        }
        p = p * 2;
        i = i + 1;
    }
    p
}

} // verus!
