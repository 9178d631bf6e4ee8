//! Arbitrary-precision unsigned integers, as `num_bigint::BigUint` provides
//! them. Verus does not look inside a `BigUint`; what the library knows of one
//! is its sequence of base 2^32 digits, and everything below is stated over
//! the number that those digits spell.

use num_bigint::BigUint;
use vstd::arithmetic::power2::pow2;
use vstd::prelude::*;

verus! {

#[verifier::external_type_specification]
#[verifier::external_body]
pub struct ExBigUint(num_bigint::BigUint);

/// The base 2^32 digits that a `BigUint` holds, least significant first, as
/// `BigUint::to_u32_digits` hands them out.
pub uninterp spec fn biguint_digits(b: BigUint) -> Seq<u32>;

/// The number spelled by base 2^32 digits, least significant first.
pub open spec fn digits_value(digits: Seq<u32>) -> nat
    decreases digits.len(),
{
    if digits.len() == 0 {
        0
    } else {
        digits[0] as nat + 0x1_0000_0000 * digits_value(digits.drop_first())
    }
}

/// The number that a `BigUint` stands for.
pub open spec fn big_value(b: BigUint) -> nat {
    digits_value(biguint_digits(b))
}

/// `BigUint::to_u32_digits`: the digits of the number in base 2^32, least
/// significant first.
#[verifier::external_body]
pub(crate) fn big_digits(b: &BigUint) -> (r: Vec<u32>)
    ensures
        r@ == biguint_digits(*b),
{
    b.to_u32_digits()
}

/// `&BigUint << usize` (`Shl::shl` of num-bigint): the number times
/// 2^bits. Only shifts by up to a limb are asked for: a shift by more bits
/// than memory can hold does not return.
#[verifier::external_body]
pub(crate) fn big_shl(a: &BigUint, bits: usize) -> (r: BigUint)
    requires
        bits <= 64,
    ensures
        big_value(r) == big_value(*a) * pow2(bits as nat),
{
    a << bits
}

/// `BigUint::from(u128)`: the big integer with the value of `x`.
#[verifier::external_body]
pub(crate) fn big_from_u128(x: u128) -> (r: BigUint)
    ensures
        big_value(r) == x,
{
    BigUint::from(x)
}

/// `&BigUint + &BigUint` (`Add::add` of num-bigint): the sum of the two
/// numbers, which cannot overflow.
#[verifier::external_body]
pub(crate) fn big_sum(a: &BigUint, b: &BigUint) -> (r: BigUint)
    ensures
        big_value(r) == big_value(*a) + big_value(*b),
{
    a + b
}

} // verus!
