//! The terminal artifact and its hex-number document form: every
//! integer becomes a `0x`-prefixed lowercase hex string with no
//! leading zero digits.

use vstd::prelude::*;
use crate::bytes::be_bytes;
use crate::bytes::copy_bytes;
use crate::bytes::u64_word;
use crate::bytes::lemma_be_nat_canonical;
use crate::hexfmt::hex_ascii;
use crate::hexfmt::to_hex;
use crate::model::CodecError;
use crate::model::FieldName;
use crate::model::ProofParameters;
use crate::pages::PageFacts;
use crate::assemble::words_view;
use crate::assemble::pow2;
use crate::assemble::log2_of;
use crate::assemble::log2_exact;

verus! {

/// The terminal artifact: everything the contract-call layer needs,
/// as numeric words and the partitioned page facts.
#[derive(Debug)]
pub struct VerifierInput {
    pub proof_params: Vec<Vec<u8>>,
    pub proof: Vec<Vec<u8>>,
    pub public_input: Vec<Vec<u8>>,
    pub z: Vec<u8>,
    pub alpha: Vec<u8>,
    pub memory_page_facts: PageFacts,
    pub task_metadata: Vec<Vec<u8>>,
}

/// The verifier's parameter vector: query count, log blow-up factor,
/// proof-of-work bits, log of the last-layer degree bound, the step
/// count, then the steps.
pub open spec fn params_words(p: ProofParameters) -> Seq<Seq<u8>> {
    seq![
        be_bytes(p.fri.n_queries as nat, 32),
        be_bytes(p.coset_log_count as nat, 32),
        be_bytes(p.fri.proof_of_work_bits as nat, 32),
        be_bytes(log2_of(p.fri.last_layer_degree_bound as nat), 32),
        be_bytes(p.fri.fri_step_list@.len(), 32),
    ] + Seq::new(p.fri.fri_step_list@.len(), |i: int| be_bytes(p.fri.fri_step_list@[i] as nat, 32))
}

/// Assemble the parameter vector; the last-layer degree bound must be
/// a power of two for its logarithm to be exact.
pub fn proof_params_words(p: &ProofParameters) -> (r: Result<Vec<Vec<u8>>, CodecError>)
    ensures
        r is Ok ==> words_view(r->Ok_0@) == params_words(*p),
        r is Ok <==> (exists|k: nat| p.fri.last_layer_degree_bound == pow2(k)),
        r is Err ==> r->Err_0 == CodecError::MalformedInput(FieldName::LastLayerDegreeBound),
{
    let log_llb = match log2_exact(p.fri.last_layer_degree_bound) {
        Some(k) => k,
        None => {
            return Err(CodecError::MalformedInput(FieldName::LastLayerDegreeBound));
        },
    };
    proof {
        assert(p.fri.last_layer_degree_bound == pow2(log_llb as nat));
    }
    let mut out: Vec<Vec<u8>> = Vec::new();
    out.push(word(p.fri.n_queries));
    out.push(word(p.coset_log_count));
    out.push(word(p.fri.proof_of_work_bits));
    out.push(word(log_llb));
    out.push(word(p.fri.fri_step_list.len() as u64));
    let ghost head = words_view(out@);
    proof {
        assert(head =~= seq![
            be_bytes(p.fri.n_queries as nat, 32),
            be_bytes(p.coset_log_count as nat, 32),
            be_bytes(p.fri.proof_of_work_bits as nat, 32),
            be_bytes(log2_of(p.fri.last_layer_degree_bound as nat), 32),
            be_bytes(p.fri.fri_step_list@.len(), 32),
        ]);
    }
    let mut i: usize = 0;
    while i < p.fri.fri_step_list.len()
        invariant
            i <= p.fri.fri_step_list@.len(),
            words_view(out@) =~= head + Seq::new(
                i as nat,
                |j: int| be_bytes(p.fri.fri_step_list@[j] as nat, 32),
            ),
        decreases p.fri.fri_step_list@.len() - i,
    {
        let ghost pre = words_view(out@);
        out.push(word(p.fri.fri_step_list[i]));
        proof {
            assert(words_view(out@) =~= pre.push(be_bytes(p.fri.fri_step_list@[i as int] as nat, 32)));
            assert(head + Seq::new(
                (i + 1) as nat,
                |j: int| be_bytes(p.fri.fri_step_list@[j] as nat, 32),
            ) =~= pre.push(be_bytes(p.fri.fri_step_list@[i as int] as nat, 32)));
        }
        i = i + 1;
    }
    proof {
        assert(words_view(out@) =~= params_words(*p));
    }
    Ok(out)
}

/// The 32-byte word of a 64-bit integer.
fn word(n: u64) -> (r: Vec<u8>)
    ensures
        r@ == be_bytes(n as nat, 32),
{
    let w = u64_word(n);
    proof {
        lemma_be_nat_canonical(w@);
    }
    w
}

/// One continuous page, every number rendered as hex.
#[derive(Debug)]
pub struct EncodedContinuousPage {
    pub start_address: Vec<u8>,
    pub values: Vec<Vec<u8>>,
}

/// The output document: the artifact with every integer rendered as
/// a `0x`-prefixed lowercase hex string.
#[derive(Debug)]
pub struct EncodedVerifierInput {
    pub proof_params: Vec<Vec<u8>>,
    pub proof: Vec<Vec<u8>>,
    pub public_input: Vec<Vec<u8>>,
    pub z: Vec<u8>,
    pub alpha: Vec<u8>,
    /// Page 0's (address, value) pairs, present with the page.
    pub regular_page: Option<Vec<(Vec<u8>, Vec<u8>)>>,
    pub continuous_pages: Vec<EncodedContinuousPage>,
    pub task_metadata: Vec<Vec<u8>>,
}

/// Words rendered as hex strings, one for one.
pub fn encode_words(ws: &Vec<Vec<u8>>) -> (r: Vec<Vec<u8>>)
    ensures
        r@.len() == ws@.len(),
        forall|i: int| 0 <= i < r@.len() ==> (#[trigger] r@[i])@ == hex_ascii(ws@[i]@),
{
    let mut out: Vec<Vec<u8>> = Vec::new();
    let mut i: usize = 0;
    while i < ws.len()
        invariant
            i <= ws@.len(),
            out@.len() == i,
            forall|j: int| 0 <= j < i ==> (#[trigger] out@[j])@ == hex_ascii(ws@[j]@),
        decreases ws@.len() - i,
    {
        out.push(to_hex(&ws[i]));
        i = i + 1;
    }
    out
}

/// Render the whole artifact as its hex document.
pub fn encode_verifier_input(vi: &VerifierInput) -> (r: EncodedVerifierInput)
    ensures
        r.proof_params@.len() == vi.proof_params@.len(),
        forall|i: int|
            0 <= i < r.proof_params@.len() ==> (#[trigger] r.proof_params@[i])@ == hex_ascii(
                vi.proof_params@[i]@,
            ),
        r.proof@.len() == vi.proof@.len(),
        forall|i: int|
            0 <= i < r.proof@.len() ==> (#[trigger] r.proof@[i])@ == hex_ascii(vi.proof@[i]@),
        r.public_input@.len() == vi.public_input@.len(),
        forall|i: int|
            0 <= i < r.public_input@.len() ==> (#[trigger] r.public_input@[i])@ == hex_ascii(
                vi.public_input@[i]@,
            ),
        r.z@ == hex_ascii(vi.z@),
        r.alpha@ == hex_ascii(vi.alpha@),
        r.regular_page is Some <==> vi.memory_page_facts.regular is Some,
        r.regular_page is Some ==> ({
            let rp = vi.memory_page_facts.regular->0;
            let enc = r.regular_page->0;
            &&& enc@.len() == rp.pairs@.len()
            &&& forall|i: int|
                0 <= i < enc@.len() ==> (#[trigger] enc@[i]).0@ == hex_ascii(
                    be_bytes(rp.pairs@[i].0 as nat, 32),
                ) && enc@[i].1@ == hex_ascii(rp.pairs@[i].1@)
        }),
        r.continuous_pages@.len() == vi.memory_page_facts.continuous@.len(),
        forall|q: int|
            0 <= q < r.continuous_pages@.len() ==> ({
                let cp = vi.memory_page_facts.continuous@[q];
                let enc = #[trigger] r.continuous_pages@[q];
                &&& enc.start_address@ == hex_ascii(be_bytes(cp.start_address as nat, 32))
                &&& enc.values@.len() == cp.values@.len()
                &&& forall|i: int|
                    0 <= i < enc.values@.len() ==> (#[trigger] enc.values@[i])@ == hex_ascii(
                        cp.values@[i]@,
                    )
            }),
        r.task_metadata@.len() == vi.task_metadata@.len(),
        forall|i: int|
            0 <= i < r.task_metadata@.len() ==> (#[trigger] r.task_metadata@[i])@ == hex_ascii(
                vi.task_metadata@[i]@,
            ),
{
    let proof_params = encode_words(&vi.proof_params);
    let proof = encode_words(&vi.proof);
    let public_input = encode_words(&vi.public_input);
    let z = to_hex(&vi.z);
    let alpha = to_hex(&vi.alpha);
    let regular_page: Option<Vec<(Vec<u8>, Vec<u8>)>> = match &vi.memory_page_facts.regular {
        Some(rp) => {
            let mut pairs: Vec<(Vec<u8>, Vec<u8>)> = Vec::new();
            let mut i: usize = 0;
            while i < rp.pairs.len()
                invariant
                    i <= rp.pairs@.len(),
                    pairs@.len() == i,
                    forall|j: int|
                        0 <= j < i ==> (#[trigger] pairs@[j]).0@ == hex_ascii(
                            be_bytes(rp.pairs@[j].0 as nat, 32),
                        ) && pairs@[j].1@ == hex_ascii(rp.pairs@[j].1@),
                decreases rp.pairs@.len() - i,
            {
                let aw = word(rp.pairs[i].0);
                let ah = to_hex(&aw);
                let vh = to_hex(&rp.pairs[i].1);
                pairs.push((ah, vh));
                i = i + 1;
            }
            Some(pairs)
        },
        None => None,
    };
    let mut continuous_pages: Vec<EncodedContinuousPage> = Vec::new();
    let mut q: usize = 0;
    while q < vi.memory_page_facts.continuous.len()
        invariant
            q <= vi.memory_page_facts.continuous@.len(),
            continuous_pages@.len() == q,
            forall|t: int|
                0 <= t < q ==> ({
                    let cp = vi.memory_page_facts.continuous@[t];
                    let enc = #[trigger] continuous_pages@[t];
                    &&& enc.start_address@ == hex_ascii(be_bytes(cp.start_address as nat, 32))
                    &&& enc.values@.len() == cp.values@.len()
                    &&& forall|i: int|
                        0 <= i < enc.values@.len() ==> (#[trigger] enc.values@[i])@
                            == hex_ascii(cp.values@[i]@)
                }),
        decreases vi.memory_page_facts.continuous@.len() - q,
    {
        let cp = &vi.memory_page_facts.continuous[q];
        let sw = word(cp.start_address);
        let start_address = to_hex(&sw);
        let values = encode_words(&cp.values);
        continuous_pages.push(EncodedContinuousPage { start_address, values });
        q = q + 1;
    }
    let task_metadata = encode_words(&vi.task_metadata);
    EncodedVerifierInput {
        proof_params,
        proof,
        public_input,
        z,
        alpha,
        regular_page,
        continuous_pages,
        task_metadata,
    }
}

} // verus!
