//! The Cairo field: a fixed 252-bit prime, with the Montgomery inverse
//! constant used to bring freshly hashed values into canonical form.

use vstd::prelude::*;
use crate::bytes::be_nat;
use crate::bytes::pow256;
use crate::bytes::is_minimal;
use crate::bytes::pad_to_32;
use crate::bytes::word_from_u64s;
use crate::bytes::lemma_minimal_len_bound;
use crate::bigops::big_add;
use crate::bigops::big_sub;
use crate::bigops::big_mul;
use crate::bigops::big_rem;

verus! {

/// The field modulus: 2^251 + 17 * 2^192 + 1.
pub open spec fn prime() -> nat {
    0x800000000000011000000000000000000000000000000000000000000000001nat
}

/// The inverse, modulo the prime, of the Montgomery factor 2^256:
/// multiplying by it takes a hashed value out of Montgomery form.
pub open spec fn mont_r_inv() -> nat {
    0x40000000000001100000000000012100000000000000000000000000000000nat
}

/// The transcript accepts a digest as a challenge only below 31 times
/// the modulus.
pub open spec fn challenge_bound() -> nat {
    31 * prime()
}

pub proof fn lemma_prime_fits()
    ensures
        0 < prime() < pow256(32),
        challenge_bound() < pow256(32),
{
    assert(pow256(32) == 0x10000000000000000000000000000000000000000000000000000000000000000nat)
        by {
        reveal_with_fuel(pow256, 33);
    }
}

/// The modulus as a 32-byte word.
pub fn prime_word() -> (r: Vec<u8>)
    ensures
        r@.len() == 32,
        be_nat(r@) == prime(),
{
    let r = word_from_u64s(0x800000000000011, 0, 0, 1);
    proof {
        assert(pow256(24) == 0x1000000000000000000000000000000000000000000000000nat) by {
            reveal_with_fuel(pow256, 25);
        }
    }
    r
}

/// The Montgomery inverse constant as a 32-byte word.
pub fn mont_r_inv_word() -> (r: Vec<u8>)
    ensures
        r@.len() == 32,
        be_nat(r@) == mont_r_inv(),
{
    let r = word_from_u64s(0x40000000000001, 0x1000000000000121, 0, 0);
    proof {
        assert(pow256(24) == 0x1000000000000000000000000000000000000000000000000nat) by {
            reveal_with_fuel(pow256, 25);
        }
        assert(pow256(16) == 0x100000000000000000000000000000000nat) by {
            reveal_with_fuel(pow256, 17);
        }
    }
    r
}

/// 31 times the modulus as a 32-byte word.
pub fn challenge_bound_word() -> (r: Vec<u8>)
    ensures
        r@.len() == 32,
        be_nat(r@) == challenge_bound(),
{
    let r = word_from_u64s(0xf80000000000020f, 0, 0, 0x1f);
    proof {
        assert(pow256(24) == 0x1000000000000000000000000000000000000000000000000nat) by {
            reveal_with_fuel(pow256, 25);
        }
    }
    r
}

/// Reduce a byte string modulo the prime, into a 32-byte word.
pub fn mod_p(a: &Vec<u8>) -> (r: Vec<u8>)
    ensures
        r@.len() == 32,
        be_nat(r@) == be_nat(a@) % prime(),
        be_nat(r@) < prime(),
{
    let p = prime_word();
    let t = big_rem(a, &p);
    proof {
        lemma_prime_fits();
        lemma_minimal_len_bound(t@, 32);
    }
    pad_to_32(&t)
}

/// Addition modulo the prime.
pub fn add_mod_p(a: &Vec<u8>, b: &Vec<u8>) -> (r: Vec<u8>)
    ensures
        r@.len() == 32,
        be_nat(r@) == (be_nat(a@) + be_nat(b@)) % prime(),
        be_nat(r@) < prime(),
{
    let t = big_add(a, b);
    mod_p(&t)
}

/// Multiplication modulo the prime.
pub fn mul_mod_p(a: &Vec<u8>, b: &Vec<u8>) -> (r: Vec<u8>)
    ensures
        r@.len() == 32,
        be_nat(r@) == (be_nat(a@) * be_nat(b@)) % prime(),
        be_nat(r@) < prime(),
{
    let t = big_mul(a, b);
    mod_p(&t)
}

/// Subtraction modulo the prime: `a - b` lifted by one modulus so the
/// difference never goes negative.
pub fn sub_mod_p(a: &Vec<u8>, b: &Vec<u8>) -> (r: Vec<u8>)
    requires
        be_nat(b@) <= prime(),
    ensures
        r@.len() == 32,
        be_nat(r@) == ((be_nat(a@) + prime() - be_nat(b@)) as nat) % prime(),
        be_nat(r@) < prime(),
{
    let p = prime_word();
    let t = big_add(a, &p);
    let s = big_sub(&t, b);
    mod_p(&s)
}

} // verus!
