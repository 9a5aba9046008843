use snarkvm_core::bhp::BHPCRH;
use snarkvm_core::field::Fp;
use snarkvm_core::transition::{AleoAmount, Event, RecordCiphertext, Transition};

fn test_crh() -> BHPCRH {
    // 8 windows of 8 chunks absorb 64 bits, one Merkle node's worth
    BHPCRH::setup("transition_id", 8, 8)
}

fn sample_transition(crh: &BHPCRH) -> Transition {
    let serial_numbers = vec![Fp::from_u64(11), Fp::from_u64(22)];
    let ciphertexts = vec![
        RecordCiphertext::new(vec![1, 2, 3], Fp::from_u64(33)),
        RecordCiphertext::new(vec![4, 5, 6], Fp::from_u64(44)),
    ];
    let commitments = vec![Fp::from_u64(33), Fp::from_u64(44)];
    let id = Transition::compute_transition_id(crh, &serial_numbers, &commitments);
    let events = vec![
        Event::Custom(vec![9, 9]),
        Event::RecordViewKey(0, vec![7, 7, 7]),
    ];
    Transition::from(
        crh,
        id,
        serial_numbers,
        ciphertexts,
        AleoAmount(-150),
        events,
        vec![0xAB; 16],
    )
    .unwrap()
}

#[test]
fn test_from_accepts_only_matching_id() {
    let crh = test_crh();
    let transition = sample_transition(&crh);
    let wrong_id = transition.transition_id().add(Fp::one());
    let rejected = Transition::from(
        &crh,
        wrong_id,
        transition.serial_numbers().clone(),
        transition.ciphertexts().clone(),
        *transition.value_balance(),
        transition.events().clone(),
        transition.proof_bytes().clone(),
    );
    assert!(rejected.is_none());
}

#[test]
fn test_transition_id_depends_on_leaves() {
    let crh = test_crh();
    let sn_a = vec![Fp::from_u64(1), Fp::from_u64(2)];
    let sn_b = vec![Fp::from_u64(1), Fp::from_u64(3)];
    let cm = vec![Fp::from_u64(4), Fp::from_u64(5)];
    let id_a = Transition::compute_transition_id(&crh, &sn_a, &cm);
    let id_a2 = Transition::compute_transition_id(&crh, &sn_a, &cm);
    let id_b = Transition::compute_transition_id(&crh, &sn_b, &cm);
    assert_eq!(id_a, id_a2);
    assert_ne!(id_a, id_b);
}

#[test]
fn test_contains_serial_number() {
    let crh = test_crh();
    let transition = sample_transition(&crh);
    assert!(transition.contains_serial_number(&Fp::from_u64(11)));
    assert!(transition.contains_serial_number(&Fp::from_u64(22)));
    assert!(!transition.contains_serial_number(&Fp::from_u64(33)));
}

#[test]
fn test_contains_commitment() {
    let crh = test_crh();
    let transition = sample_transition(&crh);
    assert!(transition.contains_commitment(&Fp::from_u64(33)));
    assert!(transition.contains_commitment(&Fp::from_u64(44)));
    assert!(!transition.contains_commitment(&Fp::from_u64(11)));
}

#[test]
fn test_getters() {
    let crh = test_crh();
    let transition = sample_transition(&crh);
    assert_eq!(transition.serial_numbers().len(), 2);
    assert_eq!(transition.commitments().len(), 2);
    assert_eq!(transition.ciphertexts().len(), 2);
    assert_eq!(*transition.value_balance(), AleoAmount(-150));
    assert_eq!(transition.events().len(), 2);
    assert_eq!(transition.proof_bytes().len(), 16);
    assert_eq!(
        transition.commitments()[0],
        transition.ciphertexts()[0].commitment()
    );
    let expected_id = Transition::compute_transition_id(
        &crh,
        transition.serial_numbers(),
        transition.commitments(),
    );
    assert_eq!(transition.transition_id(), expected_id);
}
