//! Binomial and multiset coefficients.
use vstd::prelude::*;

verus! {

/// The number of ways to choose `k` of `n` things, by Pascal's rule. Of
/// nothing, nothing can be chosen: `binomial(0, k)` is 0 for every `k`.
pub open spec fn binomial(n: nat, k: nat) -> nat
    decreases n,
{
    if n == 0 {
        0
    } else if k == 0 {
        1
    } else if n == k {
        1
    } else if n < k {
        0
    } else {
        binomial((n - 1) as nat, (k - 1) as nat) + binomial((n - 1) as nat, k)
    }
}

/// The number of multisets of `k` things of `n` kinds.
pub open spec fn multiset_coefficient(n: nat, k: nat) -> nat {
    binomial((n + k - 1) as nat, k)
}

/// The number of ways to choose `k` of `n` things.
pub fn comb(n: usize, k: usize) -> (r: usize)
    requires
        binomial(n as nat, k as nat) <= usize::MAX,
    ensures
        r == binomial(n as nat, k as nat),
    decreases n,
{
    if n == 0 {
        0
    } else if k == 0 {
        1
    } else if n == k {
        1
    } else if n < k {
        0
    } else {
        comb(n - 1, k - 1) + comb(n - 1, k)
    }
}

/// The number of multisets of `k` things of `n` kinds.
pub fn mcomb(n: usize, k: usize) -> (r: usize)
    requires
        1 <= n + k <= usize::MAX,
        multiset_coefficient(n as nat, k as nat) <= usize::MAX,
    ensures
        r == multiset_coefficient(n as nat, k as nat),
{
    comb(n + k - 1, k)
}

} // verus!
