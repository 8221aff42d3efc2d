//! The Fiat-Shamir transcript replayer: reproduce the verifier's
//! derivation of the two memory-permutation challenges.

use vstd::prelude::*;
use crate::bytes::be_nat;
use crate::bytes::be_bytes;
use crate::bytes::pow256;
use crate::bytes::copy_bytes;
use crate::bytes::u64_word;
use crate::bytes::pad_to_32;
use crate::bytes::lemma_be_nat_append;
use crate::bytes::lemma_be_nat_all_zero;
use crate::bytes::lemma_be_nat_canonical;
use crate::bytes::lemma_minimal_len_bound;
use crate::bigops::big_add;
use crate::bigops::big_mul;
use crate::bigops::big_rem;
use crate::bigops::big_lt;
use crate::field::prime;
use crate::field::mont_r_inv;
use crate::field::challenge_bound;
use crate::field::mont_r_inv_word;
use crate::field::challenge_bound_word;
use crate::field::mod_p;
use crate::hash::keccak_of;
use crate::hash::keccak256;
use crate::model::CodecError;
use crate::pagehash::concat_words;

verus! {

/// The transcript state: a running 32-byte digest and the counter fed
/// to each counter-hash step.
pub struct Transcript {
    pub digest: Vec<u8>,
    pub counter: u64,
}

impl Transcript {
    pub open spec fn wf(&self) -> bool {
        self.digest@.len() == 32
    }
}

/// How many counter-hash steps one challenge may take before the
/// derivation counts as inconsistent.
pub const MAX_DRAW_STEPS: u64 = 1000;

/// One counter-hash step on the digest.
pub open spec fn advanced_digest(digest: Seq<u8>, counter: nat) -> Seq<u8> {
    keccak_of(digest + be_bytes(counter, 32))
}

/// The challenge a digest under the bound yields: its integer taken
/// out of Montgomery form.
pub open spec fn challenge_of(digest: Seq<u8>) -> nat {
    (be_nat(digest) * mont_r_inv()) % prime()
}

/// Drawing one challenge: counter-hash until the digest's integer
/// comes under 31 times the modulus, take that digest's challenge,
/// then advance once more. `None` when the fuel runs out first.
pub open spec fn draw_spec(digest: Seq<u8>, counter: nat, fuel: nat) -> Option<
    (nat, Seq<u8>, nat),
>
    decreases fuel,
{
    if be_nat(digest) < challenge_bound() {
        Some((challenge_of(digest), advanced_digest(digest, counter), (counter + 1) as nat))
    } else if fuel == 0 {
        None
    } else {
        draw_spec(advanced_digest(digest, counter), (counter + 1) as nat, (fuel - 1) as nat)
    }
}

/// A successful draw advances the counter by at most the fuel plus
/// one.
pub proof fn lemma_draw_counter_bound(digest: Seq<u8>, counter: nat, fuel: nat)
    requires
        draw_spec(digest, counter, fuel) is Some,
    ensures
        ({
            let t = draw_spec(digest, counter, fuel)->0;
            t.2 <= counter + fuel + 1
        }),
    decreases fuel,
{
    if be_nat(digest) < challenge_bound() {
    } else if fuel > 0 {
        lemma_draw_counter_bound(
            advanced_digest(digest, counter),
            (counter + 1) as nat,
            (fuel - 1) as nat,
        );
    }
}

/// The bytes of the words laid end to end.
pub fn words_buffer(ws: &Vec<Vec<u8>>) -> (r: Vec<u8>)
    ensures
        r@ == concat_words(ws@.map_values(|v: Vec<u8>| v@)),
{
    let mut buf: Vec<u8> = Vec::new();
    let mut i: usize = 0;
    while i < ws.len()
        invariant
            i <= ws@.len(),
            buf@ == concat_words(ws@.take(i as int).map_values(|v: Vec<u8>| v@)),
        decreases ws@.len() - i,
    {
        let ghost pre = ws@.take(i as int).map_values(|v: Vec<u8>| v@);
        let mut w = copy_bytes(&ws[i]);
        buf.append(&mut w);
        proof {
            assert(ws@.take(i + 1).map_values(|v: Vec<u8>| v@) =~= pre.push(ws@[i as int]@));
            assert(pre.push(ws@[i as int]@).drop_last() =~= pre);
        }
        i = i + 1;
    }
    proof {
        assert(ws@.take(ws@.len() as int) =~= ws@);
    }
    buf
}

/// Start the transcript: digest the product-free public-input words,
/// counter at zero.
pub fn init_transcript(prefix: &Vec<Vec<u8>>) -> (r: Transcript)
    ensures
        r.wf(),
        r.digest@ == keccak_of(concat_words(prefix@.map_values(|v: Vec<u8>| v@))),
        r.counter == 0,
{
    let buf = words_buffer(prefix);
    let digest = keccak256(&buf);
    Transcript { digest, counter: 0 }
}

/// 2^256 as a 33-byte word.
fn two_pow_256_word() -> (r: Vec<u8>)
    ensures
        r@.len() == 33,
        be_nat(r@) == pow256(32),
{
    let mut r: Vec<u8> = Vec::new();
    r.push(1);
    let mut i: usize = 0;
    while i < 32
        invariant
            i <= 32,
            r@.len() == 1 + i,
            r@[0] == 1,
            forall|j: int| 1 <= j < r@.len() ==> r@[j] == 0,
        decreases 32 - i,
    {
        r.push(0);
        i = i + 1;
    }
    proof {
        assert(r@ =~= seq![1u8] + r@.skip(1));
        lemma_be_nat_append(seq![1u8], r@.skip(1));
        lemma_be_nat_all_zero(r@.skip(1));
        assert(be_nat(seq![1u8]) == 1) by {
            assert(seq![1u8].drop_last() =~= Seq::<u8>::empty());
            reveal_with_fuel(be_nat, 2);
        }
    }
    r
}

/// Mix the trace commitment (the first proof word) into the state:
/// increment the digest's integer by one modulo 2^256, hash it with
/// the commitment appended, and reset the counter.
pub fn mix_commitment(t: &mut Transcript, word: &Vec<u8>)
    requires
        old(t).wf(),
    ensures
        final(t).wf(),
        final(t).counter == 0,
        final(t).digest@ == keccak_of(
            be_bytes(((be_nat(old(t).digest@) + 1) % pow256(32)) as nat, 32) + word@,
        ),
{
    let one = u64_word(1);
    let sum = big_add(&t.digest, &one);
    let m = two_pow_256_word();
    proof {
        crate::bytes::lemma_pow256_pos(32);
    }
    let red = big_rem(&sum, &m);
    proof {
        lemma_minimal_len_bound(red@, 32);
    }
    let padded = pad_to_32(&red);
    proof {
        lemma_be_nat_canonical(padded@);
    }
    let mut buf = padded;
    let mut w = copy_bytes(word);
    buf.append(&mut w);
    t.digest = keccak256(&buf);
    t.counter = 0;
}

/// One counter-hash step: digest becomes the hash of itself with the
/// counter's 32-byte word appended, and the counter moves on.
fn advance_transcript(t: &mut Transcript)
    requires
        old(t).wf(),
        old(t).counter < u64::MAX,
    ensures
        final(t).wf(),
        final(t).digest@ == advanced_digest(old(t).digest@, old(t).counter as nat),
        final(t).counter == old(t).counter + 1,
{
    let cw = u64_word(t.counter);
    proof {
        lemma_be_nat_canonical(cw@);
    }
    let mut buf = copy_bytes(&t.digest);
    let mut c2 = cw;
    buf.append(&mut c2);
    t.digest = keccak256(&buf);
    t.counter = t.counter + 1;
}

/// Draw the next challenge, or report that the bound was never met
/// within the allowed number of retries.
pub fn draw_challenge(t: &mut Transcript) -> (r: Result<Vec<u8>, CodecError>)
    requires
        old(t).wf(),
        old(t).counter + MAX_DRAW_STEPS < u64::MAX,
    ensures
        final(t).wf(),
        r is Ok ==> draw_spec(old(t).digest@, old(t).counter as nat, MAX_DRAW_STEPS as nat)
            == Some((be_nat(r->Ok_0@), final(t).digest@, final(t).counter as nat)),
        r is Ok ==> r->Ok_0@.len() == 32 && be_nat(r->Ok_0@) < prime(),
        r is Err ==> r->Err_0 == CodecError::ArithmeticInconsistency && draw_spec(
            old(t).digest@,
            old(t).counter as nat,
            MAX_DRAW_STEPS as nat,
        ) is None,
{
    let bound = challenge_bound_word();
    let mut steps: u64 = 0;
    let mut accepted = big_lt(&t.digest, &bound);
    while !accepted && steps < MAX_DRAW_STEPS
        invariant
            t.wf(),
            steps <= MAX_DRAW_STEPS,
            bound@.len() == 32,
            be_nat(bound@) == challenge_bound(),
            t.counter == old(t).counter + steps,
            old(t).counter + MAX_DRAW_STEPS < u64::MAX,
            accepted == (be_nat(t.digest@) < challenge_bound()),
            draw_spec(old(t).digest@, old(t).counter as nat, MAX_DRAW_STEPS as nat)
                == draw_spec(
                t.digest@,
                t.counter as nat,
                (MAX_DRAW_STEPS - steps) as nat,
            ),
        decreases MAX_DRAW_STEPS - steps,
    {
        advance_transcript(t);
        steps = steps + 1;
        accepted = big_lt(&t.digest, &bound);
    }
    if accepted {
        let rinv = mont_r_inv_word();
        let raw = big_mul(&t.digest, &rinv);
        let value = mod_p(&raw);
        proof {
            assert(draw_spec(
                t.digest@,
                t.counter as nat,
                (MAX_DRAW_STEPS - steps) as nat,
            ) == Some((
                challenge_of(t.digest@),
                advanced_digest(t.digest@, t.counter as nat),
                (t.counter + 1) as nat,
            )));
        }
        advance_transcript(t);
        Ok(value)
    } else {
        proof {
            assert(steps == MAX_DRAW_STEPS);
            assert(draw_spec(t.digest@, t.counter as nat, 0) is None);
        }
        Err(CodecError::ArithmeticInconsistency)
    }
}

} // verus!
