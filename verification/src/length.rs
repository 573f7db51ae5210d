//! The lengths a bitonic network accepts: zero and the powers of two.
use vstd::arithmetic::power::{lemma_pow_positive, pow};
use vstd::arithmetic::power2::{is_pow2, is_pow2_equiv, pow2};
use vstd::prelude::*;

verus! {

/// A length the network can sort: empty, or a power of two.
pub open spec fn valid_length(n: nat) -> bool {
    n == 0 || is_pow2(n as int)
}

/// A valid length above one is even, and its half is valid again.
pub proof fn lemma_valid_length_halves(n: nat)
    requires
        valid_length(n),
        n > 1,
    ensures
        n % 2 == 0,
        valid_length(n / 2),
        n / 2 < n,
{
    reveal(is_pow2);
}

/// Zero and one are valid lengths.
pub proof fn lemma_short_lengths_are_valid()
    ensures
        valid_length(0),
        valid_length(1),
{
    reveal(is_pow2);
    assert(is_pow2(1));
}

/// The valid lengths are zero and the powers of two, and no others.
pub proof fn lemma_valid_length_is_zero_or_power_of_two(n: nat)
    ensures
        valid_length(n) <==> n == 0 || exists|k: nat| n == pow2(k),
{
    is_pow2_equiv(n as int);
    if is_pow2(n as int) {
        let k = choose|k: nat| pow(2, k) == n as int;
        assert(n == pow2(k));
    }
    if exists|k: nat| n == pow2(k) {
        let k = choose|k: nat| n == pow2(k);
        lemma_pow_positive(2, k);
        assert(pow(2, k) == n as int);
    }
}

/// Decides whether `n` is a valid length by halving it while it is even.
pub fn is_valid_length(n: usize) -> (valid: bool)
    ensures
        valid == valid_length(n as nat),
{
    if n == 0 {
        return true;
    }
    let mut rest: usize = n;
    while rest % 2 == 0
        invariant
            0 < rest <= n,
            is_pow2(rest as int) == is_pow2(n as int),
        decreases rest,
    {
        proof {
            reveal(is_pow2);
        }
        rest = rest / 2;
    }
    proof {
        reveal(is_pow2);
    }
    rest == 1
}

} // verus!
