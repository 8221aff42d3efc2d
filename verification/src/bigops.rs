//! Arbitrary-precision arithmetic on big-endian byte strings.
//!
//! Each operation goes through `num_bigint::BigUint`; the contracts
//! state the arithmetic over `be_nat` and the shape of the result
//! (`to_bytes_be` returns the minimal big-endian form, a single zero
//! byte for the value zero).

use vstd::prelude::*;
use num_bigint::BigUint;
use crate::bytes::be_nat;
use crate::bytes::is_minimal;

verus! {

/// Relies on num_bigint::BigUint: `from_bytes_be`, `Add`, `to_bytes_be`.
#[verifier::external_body]
pub fn big_add(a: &Vec<u8>, b: &Vec<u8>) -> (r: Vec<u8>)
    ensures
        be_nat(r@) == be_nat(a@) + be_nat(b@),
        is_minimal(r@),
        r@.len() >= 1,
{
    let x = BigUint::from_bytes_be(a);
    let y = BigUint::from_bytes_be(b);
    (x + y).to_bytes_be()
}

/// Relies on num_bigint::BigUint: `from_bytes_be`, `Sub` (which panics
/// when the subtrahend is larger), `to_bytes_be`.
#[verifier::external_body]
pub fn big_sub(a: &Vec<u8>, b: &Vec<u8>) -> (r: Vec<u8>)
    requires
        be_nat(b@) <= be_nat(a@),
    ensures
        be_nat(r@) == be_nat(a@) - be_nat(b@),
        is_minimal(r@),
        r@.len() >= 1,
{
    let x = BigUint::from_bytes_be(a);
    let y = BigUint::from_bytes_be(b);
    (x - y).to_bytes_be()
}

/// Relies on num_bigint::BigUint: `from_bytes_be`, `Mul`, `to_bytes_be`.
#[verifier::external_body]
pub fn big_mul(a: &Vec<u8>, b: &Vec<u8>) -> (r: Vec<u8>)
    ensures
        be_nat(r@) == be_nat(a@) * be_nat(b@),
        is_minimal(r@),
        r@.len() >= 1,
{
    let x = BigUint::from_bytes_be(a);
    let y = BigUint::from_bytes_be(b);
    (x * y).to_bytes_be()
}

/// Relies on num_bigint::BigUint: `from_bytes_be`, `Rem` (which panics
/// on a zero divisor), `to_bytes_be`.
#[verifier::external_body]
pub fn big_rem(a: &Vec<u8>, m: &Vec<u8>) -> (r: Vec<u8>)
    requires
        be_nat(m@) > 0,
    ensures
        be_nat(r@) == be_nat(a@) % be_nat(m@),
        is_minimal(r@),
        r@.len() >= 1,
{
    let x = BigUint::from_bytes_be(a);
    let y = BigUint::from_bytes_be(m);
    (x % y).to_bytes_be()
}

/// Relies on num_bigint::BigUint: `from_bytes_be` and `Ord`, which
/// compares by numeric value.
#[verifier::external_body]
pub fn big_lt(a: &Vec<u8>, b: &Vec<u8>) -> (r: bool)
    ensures
        r == (be_nat(a@) < be_nat(b@)),
{
    let x = BigUint::from_bytes_be(a);
    let y = BigUint::from_bytes_be(b);
    x < y
}

} // verus!
