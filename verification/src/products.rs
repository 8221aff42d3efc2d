//! Permutation products: the running product of
//! `(z - (address + alpha * value))` over a page's cells, in the
//! field.

use vstd::prelude::*;
use vstd::arithmetic::div_mod::lemma_mul_mod_noop_general;
use vstd::seq_lib::commutative_foldl;
use vstd::seq_lib::lemma_fold_left_permutation;
use crate::bytes::be_nat;
use crate::bytes::u64_word;
use crate::field::prime;
use crate::field::add_mod_p;
use crate::field::mul_mod_p;
use crate::field::sub_mod_p;

verus! {

/// The view of one (address, value) pair.
pub open spec fn pair_view(p: (u64, Vec<u8>)) -> (u64, Seq<u8>) {
    (p.0, p.1@)
}

/// The view of a pair list.
pub open spec fn pairs_view(ps: Seq<(u64, Vec<u8>)>) -> Seq<(u64, Seq<u8>)> {
    ps.map_values(|p: (u64, Vec<u8>)| pair_view(p))
}

/// One factor of the permutation product:
/// `(z - (address + alpha * value)) mod prime`, kept non-negative by
/// adding one modulus before subtracting.
pub open spec fn product_term(z: nat, alpha: nat, p: (u64, Seq<u8>)) -> nat {
    ((z + prime() - ((p.0 + alpha * be_nat(p.1)) as nat % prime())) as nat) % prime()
}

/// One fold step of the product.
pub open spec fn product_step(z: nat, alpha: nat) -> spec_fn(nat, (u64, Seq<u8>)) -> nat {
    |acc: nat, p: (u64, Seq<u8>)| (acc * product_term(z, alpha, p)) % prime()
}

/// The permutation product of a page's pairs, folded in order.
pub open spec fn page_product(ps: Seq<(u64, Seq<u8>)>, z: nat, alpha: nat) -> nat {
    ps.fold_left(1nat, product_step(z, alpha))
}

/// Folding the product is commutative in the field.
pub proof fn lemma_product_step_commutes(z: nat, alpha: nat)
    ensures
        commutative_foldl(product_step(z, alpha)),
{
    let f = product_step(z, alpha);
    assert forall|x: (u64, Seq<u8>), y: (u64, Seq<u8>), v: nat| #[trigger]
        f(f(v, x), y) == f(f(v, y), x) by {
        let tx = product_term(z, alpha, x);
        let ty = product_term(z, alpha, y);
        let p = prime() as int;
        lemma_mul_mod_noop_general(v as int, tx as int, p);
        lemma_mul_mod_noop_general((v * tx) as int, ty as int, p);
        lemma_mul_mod_noop_general(v as int, ty as int, p);
        lemma_mul_mod_noop_general((v * ty) as int, tx as int, p);
        assert((v * tx) * ty == (v * ty) * tx) by (nonlinear_arith);
        assert(f(f(v, x), y) == ((v * tx) * ty) % prime());
        assert(f(f(v, y), x) == ((v * ty) * tx) % prime());
    }
}

/// The product does not depend on the order the cells are folded in:
/// any permutation of a page's pairs gives the same field element.
pub proof fn lemma_product_permutation(
    ps1: Seq<(u64, Seq<u8>)>,
    ps2: Seq<(u64, Seq<u8>)>,
    z: nat,
    alpha: nat,
)
    requires
        ps1.to_multiset() == ps2.to_multiset(),
    ensures
        page_product(ps1, z, alpha) == page_product(ps2, z, alpha),
{
    lemma_product_step_commutes(z, alpha);
    lemma_fold_left_permutation(ps1, ps2, product_step(z, alpha), 1nat);
}

/// Compute a page's permutation product.
pub fn compute_product(pairs: &Vec<(u64, Vec<u8>)>, z: &Vec<u8>, alpha: &Vec<u8>) -> (r: Vec<u8>)
    requires
        be_nat(z@) < prime(),
        be_nat(alpha@) < prime(),
    ensures
        r@.len() == 32,
        be_nat(r@) < prime(),
        be_nat(r@) == page_product(pairs_view(pairs@), be_nat(z@), be_nat(alpha@)),
{
    let ghost gz = be_nat(z@);
    let ghost ga = be_nat(alpha@);
    let one = u64_word(1);
    let mut acc = crate::field::mod_p(&one);
    proof {
        crate::field::lemma_prime_fits();
        assert(1nat % prime() == 1) by {
            assert(prime() > 1);
        }
        assert(pairs_view(pairs@.take(0)) =~= Seq::<(u64, Seq<u8>)>::empty());
    }
    let mut i: usize = 0;
    while i < pairs.len()
        invariant
            i <= pairs@.len(),
            gz == be_nat(z@),
            ga == be_nat(alpha@),
            gz < prime(),
            ga < prime(),
            acc@.len() == 32,
            be_nat(acc@) < prime(),
            be_nat(acc@) == page_product(pairs_view(pairs@.take(i as int)), gz, ga),
        decreases pairs@.len() - i,
    {
        let addr_word = u64_word(pairs[i].0);
        let av = mul_mod_p(alpha, &pairs[i].1);
        let inner = add_mod_p(&addr_word, &av);
        let term = sub_mod_p(z, &inner);
        proof {
            let p = prime() as int;
            let a = pairs@[i as int].0 as int;
            let m = (ga * be_nat(pairs@[i as int].1@)) as int;
            vstd::arithmetic::div_mod::lemma_add_mod_noop_right(a, m, p);
            assert(be_nat(inner@) == (a + m) % p);
            assert(product_term(gz, ga, pair_view(pairs@[i as int])) == be_nat(term@));
        }
        acc = mul_mod_p(&acc, &term);
        proof {
            let pv = pairs_view(pairs@.take(i as int));
            assert(pairs_view(pairs@.take(i + 1)) =~= pv.push(pair_view(pairs@[i as int])));
            assert(pv.push(pair_view(pairs@[i as int])).drop_last() =~= pv);
            assert(page_product(pairs_view(pairs@.take(i + 1)), gz, ga) == product_step(gz, ga)(
                page_product(pv, gz, ga),
                pair_view(pairs@[i as int]),
            ));
        }
        i = i + 1;
    }
    proof {
        assert(pairs@.take(pairs@.len() as int) =~= pairs@);
    }
    acc
}

} // verus!
