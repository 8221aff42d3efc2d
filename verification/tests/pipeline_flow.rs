//! End-to-end runs of the codec: layout, transcript replay, the
//! annotation cross-check, task metadata, and the hex document.

use prepare_input::model::AnnotatedProof;
use prepare_input::model::CodecError;
use prepare_input::model::FactTopology;
use prepare_input::model::FieldName;
use prepare_input::model::FriParameters;
use prepare_input::model::MemoryCell;
use prepare_input::model::ProofParameters;
use prepare_input::model::PublicInput;
use prepare_input::model::Segment;
use prepare_input::hexfmt::to_hex;
use prepare_input::products::compute_product;
use prepare_input::pipeline::prepare_verifier_input;
use prepare_input::encode::encode_verifier_input;
use prepare_input::annotations::extract_challenges;
use num_bigint::BigUint;
use sha3::Digest;

fn w(n: u64) -> Vec<u8> {
    let mut v = vec![0u8; 24];
    v.extend_from_slice(&n.to_be_bytes());
    v
}

fn cell(page: u64, address: u64, value: u64) -> MemoryCell {
    MemoryCell { page, address, value: w(value) }
}

fn seg(name: &str, begin: u64, end: u64) -> Segment {
    Segment { name: name.as_bytes().to_vec(), begin, end }
}

/// A small but complete proof document: two plain page-0 cells, a
/// dense output run, one continuous page, one proof word.
fn sample_proof() -> AnnotatedProof {
    AnnotatedProof {
        annotations: Vec::new(),
        proof: vec![vec![0x11u8; 32]],
        public_input: PublicInput {
            n_steps: 4,
            rc_min: 1,
            rc_max: 65535,
            layout: b"small".to_vec(),
            segments: vec![seg("program", 1, 5), seg("execution", 5, 9), seg("output", 100, 103)],
            public_memory: vec![
                cell(0, 1, 5),
                cell(0, 2, 7),
                cell(0, 100, 1),
                cell(0, 101, 2),
                cell(0, 102, 0xabc),
                cell(1, 50, 99),
            ],
        },
        proof_parameters: ProofParameters {
            coset_log_count: 2,
            fri: FriParameters {
                n_queries: 10,
                proof_of_work_bits: 20,
                last_layer_degree_bound: 64,
                fri_step_list: vec![0, 4, 4],
            },
            verifier_friendly_commitment_layers: None,
        },
    }
}

#[test]
fn absent_topology_single_zero() {
    let (vi, warn) = prepare_verifier_input(&sample_proof(), &None).unwrap();
    assert_eq!(vi.task_metadata, vec![w(0)]);
    assert!(!warn);
}

#[test]
fn public_input_layout_exact() {
    let (vi, _) = prepare_verifier_input(&sample_proof(), &None).unwrap();
    let v = &vi.public_input;
    assert_eq!(v.len(), 21);
    assert_eq!(v[0], w(0)); // no verifier-friendly layers
    assert_eq!(v[1], w(2)); // log2(4)
    assert_eq!(v[2], w(1)); // range-check min
    assert_eq!(v[3], w(65535)); // range-check max
    assert_eq!(v[4], w(0x736d616c6c)); // "small" as a number
    assert_eq!(v[5], w(1)); // program begin
    assert_eq!(v[6], w(5)); // program end
    assert_eq!(v[7], w(5)); // execution begin
    assert_eq!(v[8], w(9)); // execution end
    assert_eq!(v[9], w(100)); // output begin
    assert_eq!(v[10], w(103)); // output end
    assert_eq!(v[11], w(1)); // padding pair: first cell's address
    assert_eq!(v[12], w(5)); // padding pair: first cell's value
    assert_eq!(v[13], w(2)); // page count
    assert_eq!(v[14], w(5)); // regular page size in cells
    assert_eq!(v[15].len(), 32); // regular page hash
    assert_eq!(v[16], w(1)); // continuous page size
    assert_eq!(v[17].len(), 32); // continuous page hash
    assert_eq!(v[18], w(50)); // continuous page start address
    // The products come last, one per page, recomputable from the
    // returned challenges.
    let regular_pairs = vec![
        (1u64, w(5)),
        (2u64, w(7)),
        (100u64, w(1)),
        (101u64, w(2)),
        (102u64, w(0xabc)),
    ];
    assert_eq!(v[19], compute_product(&regular_pairs, &vi.z, &vi.alpha));
    let cont_pairs = vec![(50u64, w(99))];
    assert_eq!(v[20], compute_product(&cont_pairs, &vi.z, &vi.alpha));
}

#[test]
fn proof_params_layout() {
    let (vi, _) = prepare_verifier_input(&sample_proof(), &None).unwrap();
    assert_eq!(
        vi.proof_params,
        vec![w(10), w(2), w(20), w(6), w(3), w(0), w(4), w(4)],
    );
}

#[test]
fn replay_matches_independent_transcript() {
    let (vi, _) = prepare_verifier_input(&sample_proof(), &None).unwrap();
    // Recompute the two challenges from scratch: hash the product-free
    // prefix, mix the first proof word, then draw twice.
    let prefix: Vec<u8> = vi.public_input[..19].iter().flatten().copied().collect();
    let mut digest = sha3::Keccak256::digest(&prefix).to_vec();
    let one = BigUint::from(1u8);
    let two256 = BigUint::from(1u8) << 256u32;
    let plus_one = (BigUint::from_bytes_be(&digest) + &one) % &two256;
    let mut padded = vec![0u8; 32];
    let raw = plus_one.to_bytes_be();
    padded[32 - raw.len()..].copy_from_slice(&raw);
    padded.extend_from_slice(&vec![0x11u8; 32]);
    digest = sha3::Keccak256::digest(&padded).to_vec();
    let p = BigUint::parse_bytes(
        b"800000000000011000000000000000000000000000000000000000000000001",
        16,
    )
    .unwrap();
    let bound = BigUint::from(31u8) * &p;
    let rinv = BigUint::parse_bytes(
        b"40000000000001100000000000012100000000000000000000000000000000",
        16,
    )
    .unwrap();
    let mut counter: u64 = 0;
    let mut challenges = Vec::new();
    while challenges.len() < 2 {
        let value = BigUint::from_bytes_be(&digest);
        if value < bound {
            let c = (value * &rinv) % &p;
            let mut cw = vec![0u8; 32];
            let raw = c.to_bytes_be();
            cw[32 - raw.len()..].copy_from_slice(&raw);
            challenges.push(cw);
        }
        let mut buf = digest.clone();
        buf.extend_from_slice(&w(counter));
        digest = sha3::Keccak256::digest(&buf).to_vec();
        counter += 1;
    }
    assert_eq!(vi.z, challenges[0]);
    assert_eq!(vi.alpha, challenges[1]);
}

#[test]
fn recorded_challenges_round_trip() {
    // Replay once, write the challenges into transcript lines, and
    // run again: the recorded and replayed paths must agree.
    let (vi, _) = prepare_verifier_input(&sample_proof(), &None).unwrap();
    let zhex = String::from_utf8(to_hex(&vi.z)).unwrap();
    let ahex = String::from_utf8(to_hex(&vi.alpha)).unwrap();
    let mut proof = sample_proof();
    proof.annotations = vec![
        b"P->V[0:32]: /cpu air/STARK/Original: Commitment: Hash(0x11)".to_vec(),
        format!("V->P: /cpu air/STARK/Interaction: Interaction element #1: Field Element({zhex})")
            .into_bytes(),
        format!("V->P: /cpu air/STARK/Interaction: Interaction element #2: Field Element({ahex})")
            .into_bytes(),
    ];
    let (vi2, _) = prepare_verifier_input(&proof, &None).unwrap();
    assert_eq!(vi2.z, vi.z);
    assert_eq!(vi2.alpha, vi.alpha);
}

#[test]
fn recorded_challenge_divergence_fails() {
    let mut proof = sample_proof();
    proof.annotations = vec![
        b"V->P: /cpu air/STARK/Interaction: Interaction element #1: Field Element(0x1)".to_vec(),
        b"V->P: /cpu air/STARK/Interaction: Interaction element #2: Field Element(0x2)".to_vec(),
    ];
    assert_eq!(
        prepare_verifier_input(&proof, &None).unwrap_err(),
        CodecError::ArithmeticInconsistency,
    );
}

#[test]
fn extract_challenges_grammar() {
    let lines = vec![
        b"noise".to_vec(),
        b"V->P: /cpu air/STARK/Interaction: Interaction element #1: Field Element(0xab)".to_vec(),
        b"V->P: /cpu air/STARK/Interaction: Interaction element #2: Field Element(0xcd)".to_vec(),
    ];
    let (z, a) = extract_challenges(&lines).unwrap();
    assert_eq!(z, w(0xab));
    assert_eq!(a, w(0xcd));
    // A missing closing parenthesis disqualifies the line.
    let broken = vec![
        b"Interaction element #1: Field Element(0xab".to_vec(),
        b"Interaction element #2: Field Element(0xcd)".to_vec(),
    ];
    assert!(extract_challenges(&broken).is_none());
}

#[test]
fn single_element_not_enough() {
    let lines =
        vec![b"V->P: /cpu air/STARK/Interaction: Interaction element #1: Field Element(0xab)"
            .to_vec()];
    assert!(extract_challenges(&lines).is_none());
    // A missing index digit run disqualifies the line.
    let no_index = vec![
        b"Interaction element #: Field Element(0xab)".to_vec(),
        b"Interaction element #1: Field Element(0xcd)".to_vec(),
        b"Interaction element #2: Field Element(0xef)".to_vec(),
    ];
    let (z, a) = extract_challenges(&no_index).unwrap();
    assert_eq!(z, w(0xcd));
    assert_eq!(a, w(0xef));
}

#[test]
fn task_metadata_from_output_segment() {
    let proof = sample_proof();
    let tops = Some(vec![FactTopology { tree_structure: vec![1, 2], page_sizes: vec![3] }]);
    let (vi, warn) = prepare_verifier_input(&proof, &tops).unwrap();
    // Output words are [1, 2, 0xabc]: one task (count matches), of
    // output size 2 and program hash 0xabc, with one tree pair (1, 2).
    assert_eq!(vi.task_metadata, vec![w(1), w(2), w(0xabc), w(1), w(1), w(2)]);
    assert!(!warn);
}

#[test]
fn task_count_disagreement_only_warns() {
    let mut proof = sample_proof();
    // Claim three tasks in the output; the single supplied topology
    // stays ground truth.
    proof.public_input.public_memory[2] = cell(0, 100, 3);
    let tops = Some(vec![FactTopology { tree_structure: vec![1, 2], page_sizes: vec![] }]);
    let (vi, warn) = prepare_verifier_input(&proof, &tops).unwrap();
    assert!(warn);
    assert_eq!(vi.task_metadata[0], w(1));
}

#[test]
fn task_bootloader_prefix_detected() {
    let mut proof = sample_proof();
    // A first output word above 2^32 shifts the count to offset 2 and
    // the tasks to offset 3.
    proof.public_input.segments[2] = seg("output", 100, 105);
    proof.public_input.public_memory[2] = cell(0, 100, 1 << 33);
    proof.public_input.public_memory[3] = cell(0, 101, 777);
    proof.public_input.public_memory[4] = cell(0, 102, 1);
    proof.public_input.public_memory.push(cell(0, 103, 2));
    proof.public_input.public_memory.push(cell(0, 104, 0xabc));
    let tops = Some(vec![FactTopology { tree_structure: vec![1, 2], page_sizes: vec![] }]);
    let (vi, warn) = prepare_verifier_input(&proof, &tops).unwrap();
    assert_eq!(vi.task_metadata, vec![w(1), w(2), w(0xabc), w(1), w(1), w(2)]);
    assert!(!warn);
}

#[test]
fn missing_output_segment_rejected() {
    let mut proof = sample_proof();
    proof.public_input.segments.remove(2);
    let tops = Some(vec![FactTopology { tree_structure: vec![], page_sizes: vec![] }]);
    assert_eq!(
        prepare_verifier_input(&proof, &tops).unwrap_err(),
        CodecError::MalformedInput(FieldName::Output),
    );
}

#[test]
fn sparse_output_rejected() {
    let mut proof = sample_proof();
    // Remove the cell at address 101: the output run has a hole.
    proof.public_input.public_memory.remove(3);
    let tops = Some(vec![FactTopology { tree_structure: vec![], page_sizes: vec![] }]);
    assert_eq!(
        prepare_verifier_input(&proof, &tops).unwrap_err(),
        CodecError::MalformedInput(FieldName::Output),
    );
}

#[test]
fn step_count_must_be_power_of_two() {
    let mut proof = sample_proof();
    proof.public_input.n_steps = 3;
    assert_eq!(
        prepare_verifier_input(&proof, &None).unwrap_err(),
        CodecError::MalformedInput(FieldName::NSteps),
    );
}

#[test]
fn degree_bound_must_be_power_of_two() {
    let mut proof = sample_proof();
    proof.proof_parameters.fri.last_layer_degree_bound = 63;
    assert_eq!(
        prepare_verifier_input(&proof, &None).unwrap_err(),
        CodecError::MalformedInput(FieldName::LastLayerDegreeBound),
    );
}

#[test]
fn empty_proof_rejected() {
    let mut proof = sample_proof();
    proof.proof = Vec::new();
    assert_eq!(
        prepare_verifier_input(&proof, &None).unwrap_err(),
        CodecError::MalformedInput(FieldName::ProofHex),
    );
}

#[test]
fn deterministic_output() {
    let a = prepare_verifier_input(&sample_proof(), &None).unwrap();
    let b = prepare_verifier_input(&sample_proof(), &None).unwrap();
    assert_eq!(a.0.z, b.0.z);
    assert_eq!(a.0.alpha, b.0.alpha);
    assert_eq!(a.0.public_input, b.0.public_input);
}

#[test]
fn encoded_document_hex_form() {
    let (vi, _) = prepare_verifier_input(&sample_proof(), &None).unwrap();
    let enc = encode_verifier_input(&vi);
    assert_eq!(enc.task_metadata, vec![b"0x0".to_vec()]);
    assert!(enc.z.starts_with(b"0x"));
    assert!(enc.alpha.starts_with(b"0x"));
    assert_eq!(enc.public_input[0], b"0x0".to_vec());
    assert_eq!(enc.public_input[1], b"0x2".to_vec());
    assert_eq!(enc.public_input[4], b"0x736d616c6c".to_vec());
    let rp = enc.regular_page.as_ref().unwrap();
    assert_eq!(rp.len(), 5);
    assert_eq!(rp[0].0, b"0x1".to_vec());
    assert_eq!(rp[0].1, b"0x5".to_vec());
    assert_eq!(enc.continuous_pages.len(), 1);
    assert_eq!(enc.continuous_pages[0].start_address, b"0x32".to_vec());
    assert_eq!(enc.continuous_pages[0].values, vec![b"0x63".to_vec()]);
    assert_eq!(enc.proof_params[0], b"0xa".to_vec());
}
