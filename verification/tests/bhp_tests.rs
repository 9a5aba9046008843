use snarkvm_core::bhp::{BHPCRH, CRHError};
use snarkvm_core::field::Fp;

const NUM_WINDOWS: usize = 8;
const WINDOW_SIZE: usize = 8;

#[test]
fn test_setup_is_deterministic() {
    let crh1 = BHPCRH::setup("test_bowe_pedersen", NUM_WINDOWS, WINDOW_SIZE);
    let crh2 = BHPCRH::setup("test_bowe_pedersen", NUM_WINDOWS, WINDOW_SIZE);
    assert_eq!(crh1.parameters(), crh2.parameters());
    let input = vec![true, false, true, true, false];
    assert_eq!(crh1.hash_bits(&input).unwrap(), crh2.hash_bits(&input).unwrap());
}

#[test]
fn test_setup_domain_separation() {
    let crh_a = BHPCRH::setup("A", NUM_WINDOWS, WINDOW_SIZE);
    let crh_b = BHPCRH::setup("B", NUM_WINDOWS, WINDOW_SIZE);
    assert_ne!(crh_a.parameters(), crh_b.parameters());
}

#[test]
fn test_hash_is_deterministic_and_input_sensitive() {
    let crh = BHPCRH::setup("test", NUM_WINDOWS, WINDOW_SIZE);
    let a = vec![true, true, false, true];
    let b = vec![true, true, false, false];
    assert_eq!(crh.hash_bits(&a).unwrap(), crh.hash_bits(&a).unwrap());
    assert_ne!(crh.hash_bits(&a).unwrap(), crh.hash_bits(&b).unwrap());
}

#[test]
fn test_hash_rejects_overlong_input() {
    let crh = BHPCRH::setup("test", NUM_WINDOWS, WINDOW_SIZE);
    let capacity = NUM_WINDOWS * WINDOW_SIZE;
    let ok_input = vec![true; capacity];
    assert!(crh.hash_bits(&ok_input).is_ok());
    let long_input = vec![true; capacity + 1];
    match crh.hash_bits(&long_input) {
        Err(CRHError::IncorrectInputLength(bits, w, n)) => {
            assert_eq!(bits, capacity + 1);
            assert_eq!(w, WINDOW_SIZE);
            assert_eq!(n, NUM_WINDOWS);
        }
        _ => panic!("an overlong input must be rejected"),
    }
    // far beyond the chunk capacity it is still an error, never truncated
    let very_long = vec![true; capacity * 3 + 1];
    assert!(crh.hash_bits(&very_long).is_err());
}

#[test]
fn test_hash_empty_and_zero_padding() {
    let crh = BHPCRH::setup("test", NUM_WINDOWS, WINDOW_SIZE);
    // trailing zero bits are padding: they cannot change the digest
    let empty: Vec<bool> = Vec::new();
    let zeros = vec![false; 10];
    assert_eq!(crh.hash_bits(&empty).unwrap(), crh.hash_bits(&zeros).unwrap());
}

#[test]
fn test_serialization_round_trip() {
    let crh = BHPCRH::setup("test_bowe_pedersen", NUM_WINDOWS, WINDOW_SIZE);
    let bytes = crh.to_bytes_le();
    let recovered = BHPCRH::from_bytes_le(&bytes).unwrap();
    assert_eq!(crh.parameters(), recovered.parameters());
    // the lookup cache is rebuilt lazily: hashing still agrees
    let input = vec![true, false, true];
    assert_eq!(crh.hash_bits(&input).unwrap(), recovered.hash_bits(&input).unwrap());
}

#[test]
fn test_from_bases_rejects_bad_shapes() {
    let crh = BHPCRH::setup("test", NUM_WINDOWS, WINDOW_SIZE);
    let good = crh.parameters().clone();
    assert!(BHPCRH::from_bases(good.clone()).is_some());

    // ragged key material is rejected
    let mut ragged = good.clone();
    ragged[1].pop();
    assert!(BHPCRH::from_bases(ragged).is_none());

    // empty key material is rejected
    assert!(BHPCRH::from_bases(Vec::new()).is_none());

    // a point off the curve is rejected
    let mut off_curve = good.clone();
    let mut bad_point = off_curve[0][0];
    bad_point.x = bad_point.x.add(Fp::one());
    off_curve[0][0] = bad_point;
    assert!(BHPCRH::from_bases(off_curve).is_none());
}

#[test]
fn test_from_bytes_rejects_garbage() {
    assert!(BHPCRH::from_bytes_le(&vec![]).is_none());
    assert!(BHPCRH::from_bytes_le(&vec![1, 0, 0]).is_none());
    // a count with no point data behind it
    assert!(BHPCRH::from_bytes_le(&vec![1, 0, 0, 0, 1, 0, 0, 0]).is_none());
}

#[test]
fn test_hash_bytes_matches_bits() {
    let crh = BHPCRH::setup("test", NUM_WINDOWS, WINDOW_SIZE);
    let bytes = vec![0b1010_0001u8];
    let bits = vec![true, false, false, false, false, true, false, true];
    assert_eq!(crh.hash(&bytes).unwrap(), crh.hash_bits(&bits).unwrap());
}

#[test]
fn test_maximum_window_size() {
    // the soundness bound for this scalar field: segments of up to
    // eight 3-bit chunks keep the combination below (P-1)/2
    assert_eq!(snarkvm_core::bhp::calculate_num_chunks_in_segment(), 8);
}

#[test]
fn test_generator_derivation_vector() {
    // pins the whole key-derivation pipeline: the blake2s digest of
    // "test_bowe_pedersen at 0", its first eight bytes as a scalar, the
    // scalar multiple of the base point, and the quadrupling chain
    let crh = BHPCRH::setup("test_bowe_pedersen", NUM_WINDOWS, WINDOW_SIZE);
    let bases = crh.parameters();
    assert_eq!(bases[0][0].x, Fp::from_u64(554606816));
    assert_eq!(bases[0][0].y, Fp::from_u64(289450331));
    assert_eq!(bases[0][1].x, Fp::from_u64(269791213));
    assert_eq!(bases[0][1].y, Fp::from_u64(1683021235));
    assert_eq!(bases[1][0].x, Fp::from_u64(1175167760));
    assert_eq!(bases[1][0].y, Fp::from_u64(288124759));
}
