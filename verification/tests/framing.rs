use frost_ecgfp5::ciphersuite::{FieldError, GroupError};
use frost_ecgfp5::ecgfp5::{
    EcGFp5Group, EcGFp5Poseidon256, EcGFp5ScalarField, CONTEXT_STRING, GOLDILOCKS_ORDER,
};
use frost_ecgfp5::session::{CoordinatorEvent, CoordinatorState};

fn context() -> Vec<u8> {
    b"FROST-ECGFP5-POSEIDON256-v1".to_vec()
}

#[test]
fn context_string_is_fixed() {
    assert_eq!(CONTEXT_STRING, "FROST-ECGFP5-POSEIDON256-v1");
    assert_eq!(CONTEXT_STRING.len(), 27);
}

#[test]
fn preimage_is_context_tag_message() {
    let mut expected = context();
    expected.extend_from_slice(b"rho");
    expected.extend_from_slice(&[1, 2, 3]);
    assert_eq!(EcGFp5Poseidon256::preimage("rho", &[1, 2, 3]), expected);
    assert_eq!(EcGFp5Poseidon256::preimage("", &[]), context());
}

#[test]
fn packing_is_one_element_per_byte() {
    assert_eq!(EcGFp5Poseidon256::pack(&[0, 1, 255]), vec![0u64, 1, 255]);
    assert_eq!(EcGFp5Poseidon256::pack(&[]), Vec::<u64>::new());
}

#[test]
fn padding_fills_to_the_permutation_width() {
    // ten elements and two ones make twelve: no zero is needed
    let ten: Vec<u64> = (10..20).collect();
    let mut expected = ten.clone();
    expected.extend_from_slice(&[1, 1]);
    assert_eq!(EcGFp5Poseidon256::pad(ten), expected);
    // eleven elements need eleven zeros to reach twenty-four
    let eleven: Vec<u64> = (10..21).collect();
    let mut expected = eleven.clone();
    expected.push(1);
    expected.extend_from_slice(&[0; 11]);
    expected.push(1);
    assert_eq!(EcGFp5Poseidon256::pad(eleven), expected);
    assert_eq!(EcGFp5Poseidon256::pad(Vec::new()), vec![1, 0, 0, 0, 0, 0, 0, 0, 0, 0, 0, 1]);
    for len in 0..40usize {
        let padded = EcGFp5Poseidon256::pad(vec![7; len]);
        assert_eq!(padded.len() % 12, 0);
        assert!(padded.len() >= len + 2);
        assert!(padded.len() < len + 14);
        assert_eq!(padded[len], 1);
        assert_eq!(padded[padded.len() - 1], 1);
    }
}

fn padded_input(tag: &[u8], m: &[u8]) -> Vec<u64> {
    let mut bytes = context();
    bytes.extend_from_slice(tag);
    bytes.extend_from_slice(m);
    let mut elements: Vec<u64> = bytes.iter().map(|b| *b as u64).collect();
    elements.push(1);
    while (elements.len() + 1) % 12 != 0 {
        elements.push(0);
    }
    elements.push(1);
    elements
}

fn plain_input(tag: &[u8], m: &[u8]) -> Vec<u64> {
    let mut bytes = context();
    bytes.extend_from_slice(tag);
    bytes.extend_from_slice(m);
    bytes.iter().map(|b| *b as u64).collect()
}

#[test]
fn every_hash_has_its_tag() {
    let m = b"message";
    assert_eq!(EcGFp5Poseidon256::h1_input(m), Some(padded_input(b"rho", m)));
    assert_eq!(EcGFp5Poseidon256::h2_input(m), Some(padded_input(b"chal", m)));
    assert_eq!(EcGFp5Poseidon256::h3_input(m), Some(padded_input(b"nonce", m)));
    assert_eq!(EcGFp5Poseidon256::h4_input(m), plain_input(b"msg", m));
    assert_eq!(EcGFp5Poseidon256::h5_input(m), plain_input(b"com", m));
    assert_eq!(EcGFp5Poseidon256::hdkg_input(m), Some(padded_input(b"dkg", m)));
    assert_eq!(EcGFp5Poseidon256::hid_input(m), Some(padded_input(b"id", m)));
    assert_eq!(
        EcGFp5Poseidon256::hash_randomizer_input(m),
        Some(padded_input(b"randomizer", m))
    );
    assert_eq!(EcGFp5Poseidon256::scalar_elements("x", m), Some(padded_input(b"x", m)));
    assert_eq!(EcGFp5Poseidon256::digest_elements("x", m), plain_input(b"x", m));
}

#[test]
fn element_bytes_are_little_endian_limbs() {
    let limbs = [1u64, 0x0102, 0, GOLDILOCKS_ORDER - 1, 5];
    let bytes = EcGFp5Group::element_bytes(&limbs);
    assert_eq!(bytes.len(), 40);
    assert_eq!(&bytes[0..8], &[1, 0, 0, 0, 0, 0, 0, 0]);
    assert_eq!(&bytes[8..16], &[2, 1, 0, 0, 0, 0, 0, 0]);
    assert_eq!(&bytes[24..32], &[0, 0, 0, 0, 255, 255, 255, 255]);
    assert!(matches!(EcGFp5Group::element_limbs(&bytes), Ok(l) if l == limbs));
}

#[test]
fn element_round_trip() {
    for limbs in [[4u64, 0, 0, 0, 0], [0, 0, 0, 0, 1], [7, 8, 9, 10, GOLDILOCKS_ORDER - 1]] {
        let bytes = EcGFp5Group::element_bytes(&limbs);
        assert!(matches!(EcGFp5Group::element_limbs(&bytes), Ok(l) if l == limbs));
    }
}

#[test]
fn identity_encoding_is_refused() {
    let bytes = EcGFp5Group::element_bytes(&[0; 5]);
    assert_eq!(bytes, vec![0u8; 40]);
    assert!(matches!(
        EcGFp5Group::element_limbs(&bytes),
        Err(GroupError::InvalidIdentityElement)
    ));
}

#[test]
fn malformed_elements_are_refused() {
    assert!(matches!(EcGFp5Group::element_limbs(&[0; 39]), Err(GroupError::MalformedElement)));
    assert!(matches!(EcGFp5Group::element_limbs(&[0; 41]), Err(GroupError::MalformedElement)));
    // a limb equal to the order of the base field is not canonical
    let bytes = EcGFp5Group::element_bytes(&[1, GOLDILOCKS_ORDER, 0, 0, 0]);
    assert!(matches!(EcGFp5Group::element_limbs(&bytes), Err(GroupError::MalformedElement)));
    assert!(matches!(EcGFp5Group::element_limbs(&[255; 40]), Err(GroupError::MalformedElement)));
    // a zero element with one limb out of range is malformed, not the identity
    let bytes = EcGFp5Group::element_bytes(&[0, 0, 0, 0, u64::MAX]);
    assert!(matches!(EcGFp5Group::element_limbs(&bytes), Err(GroupError::MalformedElement)));
}

#[test]
fn scalar_framing() {
    let bytes: Vec<u8> = (0..40).collect();
    assert!(matches!(EcGFp5ScalarField::frame(&bytes), Ok(b) if b.to_vec() == bytes));
    assert!(matches!(EcGFp5ScalarField::frame(&bytes[1..]), Err(FieldError::MalformedScalar)));
    assert!(matches!(EcGFp5ScalarField::frame(&[]), Err(FieldError::MalformedScalar)));
    assert!(matches!(EcGFp5ScalarField::accept([1, 2, 3, 4, 5], u64::MAX), Ok([1, 2, 3, 4, 5])));
    assert!(matches!(
        EcGFp5ScalarField::accept([0; 5], 0),
        Err(FieldError::MalformedScalar)
    ));
}

#[test]
fn coordinator_goes_forward() {
    let mut state = CoordinatorState::Open;
    assert!(!state.finished());
    state = state.next(CoordinatorEvent::CommitmentsReceived);
    assert_eq!(state, CoordinatorState::CommitmentsCollected);
    state = state.next(CoordinatorEvent::PackageBuilt);
    assert_eq!(state, CoordinatorState::PackageSealed);
    state = state.next(CoordinatorEvent::SharesReceived);
    assert_eq!(state, CoordinatorState::SharesCollected);
    assert!(!state.finished());
    state = state.next(CoordinatorEvent::SignatureAggregated);
    assert_eq!(state, CoordinatorState::Aggregated);
    assert!(state.finished());
    assert_eq!(state.next(CoordinatorEvent::Failed), CoordinatorState::Aggregated);
    assert_eq!(state.next(CoordinatorEvent::PackageBuilt), CoordinatorState::Aggregated);
}

#[test]
fn coordinator_aborts_on_failure_and_out_of_turn() {
    let states = [
        CoordinatorState::Open,
        CoordinatorState::CommitmentsCollected,
        CoordinatorState::PackageSealed,
        CoordinatorState::SharesCollected,
    ];
    for state in states {
        assert_eq!(state.next(CoordinatorEvent::Failed), CoordinatorState::Aborted);
    }
    assert_eq!(
        CoordinatorState::Open.next(CoordinatorEvent::SharesReceived),
        CoordinatorState::Aborted
    );
    assert_eq!(
        CoordinatorState::PackageSealed.next(CoordinatorEvent::CommitmentsReceived),
        CoordinatorState::Aborted
    );
    let aborted = CoordinatorState::Aborted;
    assert!(aborted.finished());
    assert_eq!(aborted.next(CoordinatorEvent::CommitmentsReceived), CoordinatorState::Aborted);
    assert_eq!(aborted.next(CoordinatorEvent::SignatureAggregated), CoordinatorState::Aborted);
}
