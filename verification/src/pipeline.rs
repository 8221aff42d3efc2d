//! The whole codec, leaves to root: partition the memory pages,
//! assemble the product-free public input, replay the Fiat-Shamir
//! transcript for `z` and `alpha`, cross-check them against the
//! proof's own annotations, append the permutation products, and
//! attach the parameter vector and task metadata.

use vstd::prelude::*;
use crate::bytes::be_nat;
use crate::bytes::be_bytes;
use crate::bytes::bytes_eq;
use crate::bytes::copy_bytes;
use crate::bytes::pow256;
use crate::bytes::lemma_be_nat_canonical;
use crate::model::AnnotatedProof;
use crate::model::CodecError;
use crate::model::FactTopology;
use crate::model::FieldName;
use crate::field::prime;
use crate::pages::build_page_facts;
use crate::pages::page_facts_match;
use crate::pages::all_page_ranges_fit;
use crate::pages::PageFacts;
use crate::pagehash::concat_words;
use crate::assemble::words_view;
use crate::assemble::pow2;
use crate::assemble::prefix_words;
use crate::assemble::products_words;
use crate::assemble::assemble_prefix;
use crate::assemble::page_products;
use crate::assemble::append_words;
use crate::annotations::lines_view;
use crate::annotations::recorded_challenges;
use crate::annotations::extract_challenges;
use crate::transcript::MAX_DRAW_STEPS;
use crate::transcript::draw_spec;
use crate::transcript::init_transcript;
use crate::transcript::mix_commitment;
use crate::transcript::draw_challenge;
use crate::transcript::lemma_draw_counter_bound;
use crate::tasks::task_metadata;
use crate::tasks::task_meta_words;
use crate::tasks::count_mismatch;
use crate::tasks::output_words;
use crate::tasks::output_name;
use crate::tasks::all_present;
use crate::assemble::seg_lookup;
use crate::encode::VerifierInput;
use crate::encode::params_words;
use crate::encode::proof_params_words;
use crate::hash::keccak_of;

verus! {

/// The challenge pair the transcript replay yields for a given
/// product-free public input and trace commitment: seed the digest,
/// mix the commitment, draw `z`, then draw `alpha`.
pub open spec fn replayed_pair(prefix: Seq<Seq<u8>>, first_word: Seq<u8>) -> Option<(nat, nat)> {
    let d0 = keccak_of(concat_words(prefix));
    let mixed = keccak_of(be_bytes(((be_nat(d0) + 1) % pow256(32)) as nat, 32) + first_word);
    match draw_spec(mixed, 0, MAX_DRAW_STEPS as nat) {
        None => None,
        Some(t1) => match draw_spec(t1.1, t1.2, MAX_DRAW_STEPS as nat) {
            None => None,
            Some(t2) => Some((t1.0, t2.0)),
        },
    }
}

/// Whether the replay succeeds against one partition, and the
/// recorded challenges (when the annotations carry them) agree with
/// it. Matching partitions assemble the same vector, so this does not
/// depend on which one is chosen.
pub open spec fn replay_agrees(proof: AnnotatedProof, pf: PageFacts) -> bool {
    match replayed_pair(
        prefix_words(proof.public_input, proof.proof_parameters, pf),
        proof.proof@[0]@,
    ) {
        None => false,
        Some(pair) => match recorded_challenges(lines_view(proof.annotations@)) {
            None => true,
            Some(rec) => rec == pair,
        },
    }
}

/// Whether the task-metadata stage succeeds: no side channel, or a
/// present, dense, readable output segment whose task walk stays in
/// bounds.
pub open spec fn tasks_ok(proof: AnnotatedProof, topologies: Option<Vec<FactTopology>>) -> bool {
    match topologies {
        None => true,
        Some(tops) => {
            let cells = proof.public_input.public_memory@;
            let found = seg_lookup(proof.public_input.segments@, output_name());
            &&& found is Some
            &&& ({
                let pair = found->0;
                &&& pair.0 <= pair.1
                &&& pair.1 - pair.0 <= usize::MAX
                &&& all_present(cells, pair.0, pair.1)
                &&& task_meta_words(output_words(cells, pair.0, pair.1), tops@) is Some
            })
        },
    }
}

/// Exactly when the codec accepts: the step count and last-layer
/// degree bound are powers of two, the proof is non-empty, every
/// page's address range fits memory, the transcript replay meets its
/// bound and agrees with any recorded challenges, and the task walk
/// succeeds.
pub open spec fn pipeline_accepts(
    proof: AnnotatedProof,
    topologies: Option<Vec<FactTopology>>,
) -> bool {
    let cells = proof.public_input.public_memory@;
    &&& cells.len() < usize::MAX
    &&& all_page_ranges_fit(cells)
    &&& (exists|k: nat| proof.public_input.n_steps == pow2(k))
    &&& proof.proof@.len() >= 1
    &&& (exists|k: nat| proof.proof_parameters.fri.last_layer_degree_bound == pow2(k))
    &&& (exists|pf: PageFacts| #[trigger] page_facts_match(cells, pf) && replay_agrees(proof, pf))
    &&& tasks_ok(proof, topologies)
}

/// Run the codec over a decoded proof and the optional fact-topology
/// side channel. The returned flag warns that the output's own task
/// count disagreed with the topology list.
#[verifier::rlimit(100)]
pub fn prepare_verifier_input(
    proof: &AnnotatedProof,
    topologies: &Option<Vec<FactTopology>>,
) -> (r: Result<(VerifierInput, bool), CodecError>)
    requires
        proof.wf(),
    ensures
        r is Ok ==> ({
            let vi = r->Ok_0.0;
            let warn = r->Ok_0.1;
            let cells = proof.public_input.public_memory@;
            let pf = vi.memory_page_facts;
            let z = be_nat(vi.z@);
            let alpha = be_nat(vi.alpha@);
            &&& page_facts_match(cells, pf)
            &&& words_view(vi.proof_params@) == params_words(proof.proof_parameters)
            &&& vi.proof@.len() == proof.proof@.len()
            &&& (forall|i: int|
                0 <= i < vi.proof@.len() ==> (#[trigger] vi.proof@[i])@ == proof.proof@[i]@)
            &&& proof.proof@.len() >= 1
            &&& vi.z@.len() == 32 && z < prime()
            &&& vi.alpha@.len() == 32 && alpha < prime()
            &&& replayed_pair(
                prefix_words(proof.public_input, proof.proof_parameters, pf),
                proof.proof@[0]@,
            ) == Some((z, alpha))
            &&& (recorded_challenges(lines_view(proof.annotations@)) is Some
                ==> recorded_challenges(lines_view(proof.annotations@)) == Some((z, alpha)))
            &&& words_view(vi.public_input@) == prefix_words(
                proof.public_input,
                proof.proof_parameters,
                pf,
            ) + products_words(pf, z, alpha)
            &&& (topologies is None ==> words_view(vi.task_metadata@) == seq![be_bytes(0, 32)]
                && warn == false)
            &&& (topologies is Some ==> ({
                let pair = seg_lookup(proof.public_input.segments@, output_name())->0;
                let out = output_words(cells, pair.0, pair.1);
                &&& Some(words_view(vi.task_metadata@)) == task_meta_words(
                    out,
                    topologies->0@,
                )
                &&& warn == count_mismatch(out, topologies->0@)
            }))
        }),
        r is Ok <==> pipeline_accepts(*proof, *topologies),
{
    let cells = &proof.public_input.public_memory;
    if cells.len() == usize::MAX {
        // One more page entry than addressable memory could count.
        return Err(CodecError::ArithmeticInconsistency);
    }
    let pf = match build_page_facts(cells) {
        Ok(pf) => pf,
        Err(e) => {
            return Err(e);
        },
    };
    let prefix = match assemble_prefix(&proof.public_input, &proof.proof_parameters, &pf) {
        Ok(p) => p,
        Err(e) => {
            return Err(e);
        },
    };
    if proof.proof.len() == 0 {
        return Err(CodecError::MalformedInput(FieldName::ProofHex));
    }
    let ghost gprefix = words_view(prefix@);
    let ghost gpair = replayed_pair(
        prefix_words(proof.public_input, proof.proof_parameters, pf),
        proof.proof@[0]@,
    );
    let mut tr = init_transcript(&prefix);
    mix_commitment(&mut tr, &proof.proof[0]);
    let ghost mixed = tr.digest@;
    let z = match draw_challenge(&mut tr) {
        Ok(z) => z,
        Err(e) => {
            proof {
                assert(gpair is None);
                lemma_no_replay_no_acceptance(*proof, *topologies, pf);
            }
            return Err(e);
        },
    };
    proof {
        lemma_draw_counter_bound(mixed, 0, MAX_DRAW_STEPS as nat);
    }
    let alpha = match draw_challenge(&mut tr) {
        Ok(a) => a,
        Err(e) => {
            proof {
                assert(gpair is None);
                lemma_no_replay_no_acceptance(*proof, *topologies, pf);
            }
            return Err(e);
        },
    };
    proof {
        assert(gpair == Some((be_nat(z@), be_nat(alpha@))));
    }
    // The proof's own transcript log is the source of truth where it
    // records the challenges: a divergence from the replay is a bug
    // and fails loudly.
    match extract_challenges(&proof.annotations) {
        Some((za, aa)) => {
            let z_match = bytes_eq(&za, &z);
            let a_match = bytes_eq(&aa, &alpha);
            if !z_match || !a_match {
                proof {
                    lemma_be_nat_canonical(za@);
                    lemma_be_nat_canonical(z@);
                    lemma_be_nat_canonical(aa@);
                    lemma_be_nat_canonical(alpha@);
                    assert(!replay_agrees(*proof, pf));
                    lemma_no_replay_no_acceptance(*proof, *topologies, pf);
                }
                return Err(CodecError::ArithmeticInconsistency);
            }
            proof {
                lemma_be_nat_canonical(za@);
                lemma_be_nat_canonical(z@);
                lemma_be_nat_canonical(aa@);
                lemma_be_nat_canonical(alpha@);
            }
        },
        None => {},
    }
    proof {
        assert(replay_agrees(*proof, pf));
        assert forall|q: int|
            0 <= q < pf.continuous@.len() implies (#[trigger] pf.continuous@[q]).start_address
            as nat + pf.continuous@[q].values@.len() <= u64::MAX as nat + 1 by {
            let pc = crate::pages::page_cells(
                proof.public_input.public_memory@,
                pf.continuous@[q].page_id,
            );
            assert(pf.continuous@[q].start_address == crate::pages::min_addr(pc));
            assert(pf.continuous@[q].values@.len() == crate::pages::max_addr(pc)
                - crate::pages::min_addr(pc) + 1);
        }
    }
    let products = page_products(&pf, &z, &alpha);
    let mut public_input = prefix;
    append_words(&mut public_input, &products);
    let proof_params = match proof_params_words(&proof.proof_parameters) {
        Ok(p) => p,
        Err(e) => {
            return Err(e);
        },
    };
    let (task_meta, warn) = match task_metadata(cells, &proof.public_input.segments, topologies) {
        Ok(t) => t,
        Err(e) => {
            proof {
                assert(!tasks_ok(*proof, *topologies));
            }
            return Err(e);
        },
    };
    let mut proof_words: Vec<Vec<u8>> = Vec::new();
    let mut i: usize = 0;
    while i < proof.proof.len()
        invariant
            i <= proof.proof@.len(),
            proof_words@.len() == i,
            forall|j: int|
                0 <= j < i ==> (#[trigger] proof_words@[j])@ == proof.proof@[j]@,
        decreases proof.proof@.len() - i,
    {
        proof_words.push(copy_bytes(&proof.proof[i]));
        i = i + 1;
    }
    let vi = VerifierInput {
        proof_params,
        proof: proof_words,
        public_input,
        z,
        alpha,
        memory_page_facts: pf,
        task_metadata: task_meta,
    };
    proof {
        assert(pipeline_accepts(*proof, *topologies)) by {
            assert(page_facts_match(proof.public_input.public_memory@, pf) && replay_agrees(
                *proof,
                pf,
            ));
        }
    }
    Ok((vi, warn))
}

/// A partition whose replay fails (or disagrees with the recorded
/// challenges) rules acceptance out: every matching partition
/// assembles the same vector and so replays the same way.
proof fn lemma_no_replay_no_acceptance(
    proof: AnnotatedProof,
    topologies: Option<Vec<FactTopology>>,
    pf: PageFacts,
)
    requires
        page_facts_match(proof.public_input.public_memory@, pf),
        !replay_agrees(proof, pf),
    ensures
        !pipeline_accepts(proof, topologies),
{
    let cells = proof.public_input.public_memory@;
    assert forall|pf2: PageFacts| #[trigger]
        page_facts_match(cells, pf2) implies !replay_agrees(proof, pf2) by {
        crate::assemble::lemma_assembled_words_congruent(
            cells,
            proof.public_input,
            proof.proof_parameters,
            pf2,
            pf,
            0,
            0,
        );
    }
}

} // verus!
