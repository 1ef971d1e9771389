//! Arbitrary-precision naturals, from `num_bigint`.
use num_bigint::BigUint;
use vstd::prelude::*;

verus! {

/// `num_bigint::BigUint`: a natural number of any size, held as a sequence of
/// digits. The verifier carries such a value through and knows of it what
/// `big_digits` says.
#[verifier::external_type_specification]
#[verifier::external_body]
pub struct ExBigUint(BigUint);

/// The digits that a `BigUint` holds, in base `2^64`, the lowest first.
pub uninterp spec fn big_digits(b: BigUint) -> Seq<u64>;

/// The number that a sequence of digits in base `2^64` stands for.
pub open spec fn digits_value(digits: Seq<u64>) -> nat
    decreases digits.len(),
{
    if digits.len() == 0 {
        0
    } else {
        digits[0] as nat + 0x1_0000_0000_0000_0000 * digits_value(digits.drop_first())
    }
}

/// The natural number that a `BigUint` holds.
pub open spec fn big_value(b: BigUint) -> nat {
    digits_value(big_digits(b))
}

/// `BigUint::from(u64)`: the same number.
#[verifier::external_body]
pub(crate) fn big_from_u64(x: u64) -> (r: BigUint)
    ensures
        digits_value(big_digits(r)) == x,
{
    BigUint::from(x)
}

/// `&BigUint * u64`: the product.
#[verifier::external_body]
pub(crate) fn big_mul_word(a: &BigUint, x: u64) -> (r: BigUint)
    ensures
        digits_value(big_digits(r)) == digits_value(big_digits(*a)) * x,
{
    a * x
}

/// `&BigUint + &BigUint`: the sum.
#[verifier::external_body]
pub(crate) fn big_add(a: &BigUint, b: &BigUint) -> (r: BigUint)
    ensures
        digits_value(big_digits(r)) == digits_value(big_digits(*a)) + digits_value(big_digits(*b)),
{
    a + b
}

/// `&BigUint % u64`: the remainder, which is below the divisor and so fits a
/// word. The outside operator panics on a zero divisor, which the precondition
/// leaves out.
#[verifier::external_body]
pub(crate) fn big_rem_word(a: &BigUint, m: u64) -> (r: u64)
    requires
        m > 0,
    ensures
        r == digits_value(big_digits(*a)) % (m as nat),
{
    u64::try_from(a % m).unwrap()
}

} // verus!
