//! Deciding whether a word is a prime number.
use crate::arith::is_prime;
use vstd::prelude::*;

verus! {

/// `num_bigint_dig::prime::probably_prime`, which its documentation states to be
/// exact for every input below `2^64`: whether `p` is prime.
#[verifier::external_body]
pub(crate) fn prime_word(p: u64) -> (r: bool)
    ensures
        r == is_prime(p as int),
{
    num_bigint_dig::prime::probably_prime(&num_bigint_dig::BigUint::from(p), 0)
}

} // verus!
