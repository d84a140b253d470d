//! The arithmetic of the two-thread demonstration.
use vstd::prelude::*;

verus! {

/// `0 + 1 + ... + (n - 1)`.
pub open spec fn sum_below_spec(n: nat) -> nat
    decreases n,
{
    if n == 0 {
        0
    } else {
        ((n - 1) + sum_below_spec((n - 1) as nat)) as nat
    }
}

proof fn lemma_sum_below_monotone(i: nat, n: nat)
    requires
        i <= n,
    ensures
        sum_below_spec(i) <= sum_below_spec(n),
    decreases n - i,
{
    if i < n {
        lemma_sum_below_monotone(i, (n - 1) as nat);
    }
}

/// The sum of the integers from 1 up to `n - 1`.
pub fn sum_below(n: u64) -> (r: u64)
    requires
        sum_below_spec(n as nat) <= u64::MAX,
    ensures
        r == sum_below_spec(n as nat),
{
    let mut sum: u64 = 0;
    let mut i: u64 = 1;
    if n == 0 {
        return 0;
    }
    proof {
        assert(sum_below_spec(0) == 0);
        assert(sum_below_spec(1) == 0);
    }
    while i < n
        invariant
            1 <= i <= n,
            sum == sum_below_spec(i as nat),
            sum_below_spec(n as nat) <= u64::MAX,
        decreases n - i,
    {
        proof {
            lemma_sum_below_monotone((i + 1) as nat, n as nat);
        }
        sum = sum + i;
        i = i + 1;
    }
    sum
}

} // verus!
