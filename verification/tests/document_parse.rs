//! Decoding the raw proof document: required keys, tolerant number
//! decoding, and the proof payload's byte alignment.

use prepare_input::model::CodecError;
use prepare_input::model::FieldName;
use prepare_input::parse::RawAnnotatedProof;
use prepare_input::parse::RawFriParameters;
use prepare_input::parse::RawMemoryCell;
use prepare_input::parse::RawNum;
use prepare_input::parse::RawProofParameters;
use prepare_input::parse::RawPublicInput;
use prepare_input::parse::RawSegment;
use prepare_input::parse::parse_annotated_proof;
use prepare_input::parse::parse_cell;
use prepare_input::parse::parse_dec_u64;

fn w(n: u64) -> Vec<u8> {
    let mut v = vec![0u8; 24];
    v.extend_from_slice(&n.to_be_bytes());
    v
}

fn raw_cell(page: u64, address: RawNum, value: &str) -> RawMemoryCell {
    RawMemoryCell { page: Some(page), address: Some(address), value: Some(value.as_bytes().to_vec()) }
}

fn sample_raw() -> RawAnnotatedProof {
    RawAnnotatedProof {
        annotations: Some(Vec::new()),
        proof_hex: Some(b"0xdeadbeef".to_vec()),
        public_input: Some(RawPublicInput {
            n_steps: Some(4),
            rc_min: Some(1),
            rc_max: Some(65535),
            layout: Some(b"small".to_vec()),
            segments: Some(vec![RawSegment {
                name: b"program".to_vec(),
                begin: Some(1),
                end: Some(5),
            }]),
            public_memory: Some(vec![
                raw_cell(0, RawNum::Num(1), "0x5"),
                raw_cell(0, RawNum::Text(b"2".to_vec()), "0x7"),
            ]),
        }),
        proof_parameters: Some(RawProofParameters {
            coset_log_count: Some(2),
            fri: Some(RawFriParameters {
                n_queries: Some(10),
                proof_of_work_bits: Some(20),
                last_layer_degree_bound: Some(64),
                fri_step_list: Some(vec![0, 4, 4]),
            }),
            verifier_friendly_commitment_layers: None,
        }),
    }
}

#[test]
fn document_decodes() {
    let proof = parse_annotated_proof(sample_raw()).unwrap();
    assert_eq!(proof.proof.len(), 1);
    assert_eq!(&proof.proof[0][..4], &[0xde, 0xad, 0xbe, 0xef]);
    assert_eq!(proof.public_input.n_steps, 4);
    assert_eq!(proof.public_input.public_memory.len(), 2);
    // The address that arrived as text decodes to its number.
    assert_eq!(proof.public_input.public_memory[1].address, 2);
    assert_eq!(proof.public_input.public_memory[1].value, w(7));
    assert_eq!(proof.proof_parameters.fri.fri_step_list, vec![0, 4, 4]);
}

#[test]
fn odd_proof_hex_rejected_before_padding() {
    let mut raw = sample_raw();
    raw.proof_hex = Some(b"0xabc".to_vec());
    assert_eq!(
        parse_annotated_proof(raw).unwrap_err(),
        CodecError::MalformedInput(FieldName::ProofHex),
    );
}

#[test]
fn missing_keys_named() {
    let mut raw = sample_raw();
    raw.annotations = None;
    assert_eq!(
        parse_annotated_proof(raw).unwrap_err(),
        CodecError::MalformedInput(FieldName::Annotations),
    );
    let mut raw = sample_raw();
    raw.public_input.as_mut().unwrap().n_steps = None;
    assert_eq!(
        parse_annotated_proof(raw).unwrap_err(),
        CodecError::MalformedInput(FieldName::NSteps),
    );
    let mut raw = sample_raw();
    raw.public_input.as_mut().unwrap().public_memory = Some(Vec::new());
    assert_eq!(
        parse_annotated_proof(raw).unwrap_err(),
        CodecError::MalformedInput(FieldName::PublicMemory),
    );
    let mut raw = sample_raw();
    raw.proof_parameters.as_mut().unwrap().fri = None;
    assert_eq!(
        parse_annotated_proof(raw).unwrap_err(),
        CodecError::MalformedInput(FieldName::Fri),
    );
}

#[test]
fn bad_cell_fields_named() {
    let c = RawMemoryCell { page: None, address: Some(RawNum::Num(1)), value: Some(b"0x5".to_vec()) };
    assert_eq!(parse_cell(&c).unwrap_err(), CodecError::MalformedInput(FieldName::Page));
    let c = raw_cell(0, RawNum::Text(b"12x".to_vec()), "0x5");
    assert_eq!(parse_cell(&c).unwrap_err(), CodecError::MalformedInput(FieldName::Address));
    let c = raw_cell(0, RawNum::Num(1), "0xzz");
    assert_eq!(parse_cell(&c).unwrap_err(), CodecError::MalformedInput(FieldName::Value));
}

#[test]
fn cell_value_reduced() {
    // A value at the modulus plus five is stored reduced.
    let c = raw_cell(
        0,
        RawNum::Num(9),
        "0x800000000000011000000000000000000000000000000000000000000000006",
    );
    let cell = parse_cell(&c).unwrap();
    assert_eq!(cell.value, w(5));
}

#[test]
fn layout_tag_length_capped() {
    let mut raw = sample_raw();
    raw.public_input.as_mut().unwrap().layout = Some(vec![b'a'; 33]);
    assert_eq!(
        parse_annotated_proof(raw).unwrap_err(),
        CodecError::MalformedInput(FieldName::Layout),
    );
}

#[test]
fn decimal_text_bounds() {
    assert_eq!(parse_dec_u64(&b"0".to_vec()), Some(0));
    assert_eq!(parse_dec_u64(&b"18446744073709551615".to_vec()), Some(u64::MAX));
    assert_eq!(parse_dec_u64(&b"18446744073709551616".to_vec()), None);
    assert_eq!(parse_dec_u64(&b"".to_vec()), None);
    assert_eq!(parse_dec_u64(&b"12 3".to_vec()), None);
}
