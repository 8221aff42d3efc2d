//! Unit-level checks: hex text, FRI planning, permutation products,
//! and the page modeler.

use prepare_input::bytes::u64_word;
use prepare_input::bytes::strip_leading_zeros;
use prepare_input::hexfmt::parse_hex_value;
use prepare_input::hexfmt::parse_proof_words;
use prepare_input::hexfmt::to_hex;
use prepare_input::fri::calculate_fri_step_list;
use prepare_input::fri::n_steps_from_fields;
use prepare_input::model::MemoryCell;
use prepare_input::pages::build_page_facts;
use prepare_input::pages::sorted_page_ids;
use prepare_input::pagehash::hash_regular_page;
use prepare_input::pagehash::hash_continuous_page;
use prepare_input::products::compute_product;
use sha3::Digest;

fn w(n: u64) -> Vec<u8> {
    let mut v = vec![0u8; 24];
    v.extend_from_slice(&n.to_be_bytes());
    v
}

fn cell(page: u64, address: u64, value: u64) -> MemoryCell {
    MemoryCell { page, address, value: w(value) }
}

#[test]
fn hex_value_small() {
    let word = parse_hex_value(&b"0x5".to_vec()).unwrap();
    assert_eq!(word, w(5));
    let word = parse_hex_value(&b"1f".to_vec()).unwrap();
    assert_eq!(word, w(0x1f));
    let word = parse_hex_value(&b"0xDEADbeef".to_vec()).unwrap();
    assert_eq!(word, w(0xdeadbeef));
    let word = parse_hex_value(&b"0X1f".to_vec()).unwrap();
    assert_eq!(word, w(0x1f));
}

#[test]
fn hex_value_rejects() {
    assert!(parse_hex_value(&b"".to_vec()).is_none());
    assert!(parse_hex_value(&b"0x".to_vec()).is_none());
    assert!(parse_hex_value(&b"0xzz".to_vec()).is_none());
    // 65 significant digits: one word cannot hold it.
    let mut too_big = b"0x1".to_vec();
    too_big.extend(std::iter::repeat(b'0').take(64));
    assert!(parse_hex_value(&too_big).is_none());
    // Leading zero digits are fine as long as the value fits.
    let mut padded = b"0x000".to_vec();
    padded.extend(b"5");
    assert_eq!(parse_hex_value(&padded).unwrap(), w(5));
}

#[test]
fn hex_render_minimal() {
    assert_eq!(to_hex(&w(0)), b"0x0".to_vec());
    assert_eq!(to_hex(&w(5)), b"0x5".to_vec());
    assert_eq!(to_hex(&w(0xdeadbeef)), b"0xdeadbeef".to_vec());
    assert_eq!(to_hex(&w(16)), b"0x10".to_vec());
}

#[test]
fn hex_round_trip() {
    for n in [0u64, 1, 15, 16, 255, 256, 0xffffffff, u64::MAX] {
        let rendered = to_hex(&w(n));
        let back = parse_hex_value(&rendered).unwrap();
        assert_eq!(back, w(n));
    }
}

#[test]
fn proof_words_pad_and_split() {
    // Four bytes pad up to one 32-byte word.
    let ws = parse_proof_words(&b"0xdeadbeef".to_vec()).unwrap();
    assert_eq!(ws.len(), 1);
    let mut expected = vec![0xde, 0xad, 0xbe, 0xef];
    expected.extend(std::iter::repeat(0u8).take(28));
    assert_eq!(ws[0], expected);
    // 33 bytes become two words.
    let mut hex = b"0x".to_vec();
    hex.extend(std::iter::repeat(b'a').take(66));
    let ws = parse_proof_words(&hex).unwrap();
    assert_eq!(ws.len(), 2);
    assert_eq!(ws[0], vec![0xaa; 32]);
    assert_eq!(ws[1][0], 0xaa);
    assert_eq!(&ws[1][1..], &[0u8; 31]);
}

#[test]
fn proof_words_reject_odd_digits() {
    // An odd digit count cannot form whole bytes and is rejected
    // before any padding happens.
    assert!(parse_proof_words(&b"0xabc".to_vec()).is_none());
    assert!(parse_proof_words(&b"0xg0".to_vec()).is_none());
    assert!(parse_proof_words(&b"0x".to_vec()).is_some());
}

#[test]
fn fri_steps_exact_ratio() {
    // 32768 / 64 = 512 = 2^9, so the depth is 13: a zero, three
    // fours, and a one.
    assert_eq!(calculate_fri_step_list(32768, 64), vec![0, 4, 4, 4, 1]);
    // 1000 / 64 rounds to 2^4, so the depth is 8.
    assert_eq!(calculate_fri_step_list(1000, 64), vec![0, 4, 4]);
    // A ratio below one clamps to zero: depth 4.
    assert_eq!(calculate_fri_step_list(32, 64), vec![0, 4]);
    assert_eq!(calculate_fri_step_list(1024, 64), vec![0, 4, 4]);
}

#[test]
fn n_steps_precedence() {
    assert_eq!(n_steps_from_fields(Some(16), Some(32), Some(64)), Some(16));
    assert_eq!(n_steps_from_fields(None, Some(32), Some(64)), Some(32));
    assert_eq!(n_steps_from_fields(None, None, Some(64)), Some(64));
    assert_eq!(n_steps_from_fields(None, None, None), None);
}

#[test]
fn product_hand_computed() {
    // public_memory = [(1, 0x5), (2, 0x7)], z = 3, alpha = 2:
    // (3 - (1 + 2*5)) * (3 - (2 + 2*7)) = (-8) * (-13) = 104 mod p.
    let pairs = vec![(1u64, w(5)), (2u64, w(7))];
    let p = compute_product(&pairs, &w(3), &w(2));
    assert_eq!(p, w(104));
}

#[test]
fn product_order_independent() {
    let pairs = vec![(1u64, w(5)), (2u64, w(7)), (9u64, w(11))];
    let swapped = vec![(9u64, w(11)), (1u64, w(5)), (2u64, w(7))];
    let z = w(1234567);
    let alpha = w(7654321);
    assert_eq!(compute_product(&pairs, &z, &alpha), compute_product(&swapped, &z, &alpha));
}

#[test]
fn product_empty_is_one() {
    let pairs: Vec<(u64, Vec<u8>)> = Vec::new();
    assert_eq!(compute_product(&pairs, &w(3), &w(2)), w(1));
}

#[test]
fn pages_partition_and_fill() {
    let cells = vec![cell(0, 1, 5), cell(0, 2, 7), cell(5, 12, 30), cell(5, 10, 20)];
    let ids = sorted_page_ids(&cells);
    assert_eq!(ids, vec![0, 5]);
    let pf = build_page_facts(&cells).unwrap();
    let rp = pf.regular.as_ref().unwrap();
    assert_eq!(rp.pairs.len(), 2);
    assert_eq!(rp.pairs[0].0, 1);
    assert_eq!(rp.pairs[0].1, w(5));
    assert_eq!(rp.pairs[1].0, 2);
    assert_eq!(rp.pairs[1].1, w(7));
    assert_eq!(pf.continuous.len(), 1);
    let cp = &pf.continuous[0];
    assert_eq!(cp.page_id, 5);
    assert_eq!(cp.start_address, 10);
    // Address 11 was never written: its slot holds the field's zero.
    assert_eq!(cp.values.len(), 3);
    assert_eq!(cp.values[0], w(20));
    assert_eq!(cp.values[1], w(0));
    assert_eq!(cp.values[2], w(30));
}

#[test]
fn pages_without_cells_never_listed() {
    // Only pages that own at least one cell appear anywhere.
    let cells = vec![cell(3, 9, 1)];
    let ids = sorted_page_ids(&cells);
    assert_eq!(ids, vec![3]);
    let pf = build_page_facts(&cells).unwrap();
    assert!(pf.regular.is_none());
    assert_eq!(pf.continuous.len(), 1);
    assert_eq!(pf.continuous[0].page_id, 3);
}

#[test]
fn page_duplicate_address_last_wins() {
    let cells = vec![cell(2, 7, 1), cell(2, 7, 9)];
    let pf = build_page_facts(&cells).unwrap();
    let cp = &pf.continuous[0];
    assert_eq!(cp.values.len(), 1);
    assert_eq!(cp.values[0], w(9));
}

#[test]
fn regular_hash_matches_keccak() {
    let cells = vec![cell(0, 1, 5), cell(0, 2, 7)];
    let pf = build_page_facts(&cells).unwrap();
    let rp = pf.regular.as_ref().unwrap();
    let got = hash_regular_page(rp);
    let mut buf = Vec::new();
    buf.extend_from_slice(&w(1));
    buf.extend_from_slice(&w(5));
    buf.extend_from_slice(&w(2));
    buf.extend_from_slice(&w(7));
    let want = sha3::Keccak256::digest(&buf).to_vec();
    assert_eq!(got, want);
}

#[test]
fn regular_hash_tracks_pairs() {
    let base = build_page_facts(&vec![cell(0, 1, 5)]).unwrap();
    let value_changed = build_page_facts(&vec![cell(0, 1, 6)]).unwrap();
    let addr_changed = build_page_facts(&vec![cell(0, 2, 5)]).unwrap();
    let h0 = hash_regular_page(base.regular.as_ref().unwrap());
    let h1 = hash_regular_page(value_changed.regular.as_ref().unwrap());
    let h2 = hash_regular_page(addr_changed.regular.as_ref().unwrap());
    assert_ne!(h0, h1);
    assert_ne!(h0, h2);
}

#[test]
fn continuous_hash_ignores_address_shift() {
    // Same values, shifted start: identical commitment.
    let a = build_page_facts(&vec![cell(1, 10, 20), cell(1, 11, 30)]).unwrap();
    let b = build_page_facts(&vec![cell(1, 500, 20), cell(1, 501, 30)]).unwrap();
    let ha = hash_continuous_page(&a.continuous[0]);
    let hb = hash_continuous_page(&b.continuous[0]);
    assert_eq!(ha, hb);
    // A changed value changes it; and only values are hashed.
    let c = build_page_facts(&vec![cell(1, 10, 21), cell(1, 11, 30)]).unwrap();
    assert_ne!(ha, hash_continuous_page(&c.continuous[0]));
    let mut buf = Vec::new();
    buf.extend_from_slice(&w(20));
    buf.extend_from_slice(&w(30));
    assert_eq!(ha, sha3::Keccak256::digest(&buf).to_vec());
}

#[test]
fn value_reduced_into_field() {
    // A cell value at the modulus reduces to zero; modulus plus one
    // reduces to one.
    let p_hex = b"0x800000000000011000000000000000000000000000000000000000000000001".to_vec();
    let word = parse_hex_value(&p_hex).unwrap();
    let reduced = prepare_input::field::mod_p(&word);
    assert_eq!(reduced, w(0));
    let p1_hex = b"0x800000000000011000000000000000000000000000000000000000000000002".to_vec();
    let reduced = prepare_input::field::mod_p(&parse_hex_value(&p1_hex).unwrap());
    assert_eq!(reduced, w(1));
}

#[test]
fn strip_zeros_minimal() {
    let v = vec![0u8, 0, 3, 7];
    assert_eq!(strip_leading_zeros(&v), vec![3, 7]);
    assert_eq!(strip_leading_zeros(&vec![0u8, 0]), Vec::<u8>::new());
    assert_eq!(u64_word(5), w(5));
}
