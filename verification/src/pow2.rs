//! Powers of two and the rounding of a length up to the next power of two.

use vstd::prelude::*;

verus! {

/// Whether `n` is a power of two.
pub open spec fn spec_pow2(n: nat) -> bool
    decreases n,
{
    n == 1 || (n > 1 && n % 2 == 0 && spec_pow2(n / 2))
}

/// The smallest power of two that is at least `k`, and at least 1.
pub open spec fn spec_next_pow2(k: nat) -> nat
    decreases k,
{
    if k <= 1 {
        1
    } else {
        2 * spec_next_pow2((k + 1) / 2)
    }
}

/// A power of two is positive.
pub proof fn lemma_pow2_pos(n: nat)
    requires
        spec_pow2(n),
    ensures
        n >= 1,
{
}

/// Rounding up yields a power of two no smaller than the length.
pub proof fn lemma_next_pow2_is_pow2(k: nat)
    ensures
        spec_pow2(spec_next_pow2(k)),
        spec_next_pow2(k) >= k,
        spec_next_pow2(k) >= 1,
    decreases k,
{
    if k > 1 {
        lemma_next_pow2_is_pow2((k + 1) / 2);
    }
}

/// A length that is already a power of two is left unchanged.
pub proof fn lemma_next_pow2_of_pow2(k: nat)
    requires
        spec_pow2(k),
    ensures
        spec_next_pow2(k) == k,
    decreases k,
{
    if k > 1 {
        lemma_next_pow2_of_pow2(k / 2);
    }
}

/// No smaller power of two bounds `k`: the rounding is minimal.
pub proof fn lemma_next_pow2_minimal(k: nat, p: nat)
    requires
        spec_pow2(p),
        p >= k,
    ensures
        p >= spec_next_pow2(k),
    decreases k,
{
    if k <= 1 {
        lemma_pow2_pos(p);
    } else {
        lemma_next_pow2_minimal((k + 1) / 2, p / 2);
    }
}

/// A length that is not a power of two is rounded strictly up.
pub proof fn lemma_next_pow2_above(k: nat)
    requires
        !spec_pow2(k),
    ensures
        spec_next_pow2(k) > k,
{
    lemma_next_pow2_is_pow2(k);
}

/// Between two powers of two, the smaller fits into half the larger.
pub proof fn lemma_pow2_double_le(s: nat, n: nat)
    requires
        spec_pow2(s),
        spec_pow2(n),
        s < n,
    ensures
        2 * s <= n,
    decreases n,
{
    if s > 1 {
        lemma_pow2_double_le(s / 2, n / 2);
    }
}

/// The working length: the smallest power of two at least `len` (at least 1).
pub fn next_pow2(len: usize) -> (n: usize)
    requires
        len <= usize::MAX / 2 + 1,
    ensures
        n as nat == spec_next_pow2(len as nat),
        spec_pow2(n as nat),
        n >= len,
        n >= 1,
{
    proof {
        lemma_next_pow2_is_pow2(len as nat);
    }
    let mut p: usize = 1;
    while p < len
        invariant
            1 <= p,
            spec_pow2(p as nat),
            p as nat <= spec_next_pow2(len as nat),
            len <= usize::MAX / 2 + 1,
            spec_next_pow2(len as nat) >= len,
            spec_pow2(spec_next_pow2(len as nat)),
        decreases 2 * (len as int) - p as int,
    {
        proof {
            lemma_pow2_double_le(p as nat, spec_next_pow2(len as nat));
        }
        p = 2 * p;
    }
    proof {
        lemma_next_pow2_minimal(len as nat, p as nat);
    }
    p
}

/// The smaller of two powers of two divides the larger.
pub proof fn lemma_pow2_divides(s: nat, n: nat)
    requires
        spec_pow2(s),
        spec_pow2(n),
        s <= n,
    ensures
        n % s == 0,
    decreases n,
{
    lemma_pow2_pos(s);
    if s == n {
        vstd::arithmetic::div_mod::lemma_mod_self_0(n as int);
    } else {
        lemma_pow2_double_le(s, n);
        lemma_pow2_divides(s, n / 2);
        assert(n == n / 2 + n / 2);
        vstd::arithmetic::div_mod::lemma_add_mod_noop(
            (n / 2) as int,
            (n / 2) as int,
            s as int,
        );
        assert(((n / 2) as int % (s as int) + (n / 2) as int % (s as int)) % (s as int) == 0) by {
            vstd::arithmetic::div_mod::lemma_small_mod(0, s);
        }
    }
}

} // verus!
