use frost_ecgfp5::ciphersuite::{
    ByteString, Ciphersuite, Field, FieldError, Group, GroupError, Natural,
};
use frost_ecgfp5::error::Error;
use frost_ecgfp5::frost::identifier::Identifier;
use frost_ecgfp5::frost::keys::{
    contains_duplicate, default_identifiers, evaluate_polynomial, evaluate_vss,
    generate_secret_shares, generate_with_dealer, reconstruct, split, validate_num_of_signers,
    IdentifierList, KeyPackage, PublicKeyPackage, SecretShare, SigningKey, SigningShare,
    VerifiableSecretSharingCommitment, VerifyingShare,
};
use frost_ecgfp5::frost::round1::{
    commit, encode_group_commitments, Nonce, NonceCommitment, SigningCommitments, SigningNonces,
};
use frost_ecgfp5::frost::round2::{sign, SignatureShare};
use frost_ecgfp5::frost::{
    aggregate, compute_lagrange_coefficient, derive_lagrange_coeff, GroupCommitment, Rho,
    SigningPackage,
};
use frost_ecgfp5::session::Participant;
use frost_ecgfp5::signature::{challenge, Signature};
use rand::rngs::StdRng;
use rand::RngCore;
use rand::SeedableRng;

/// A prime above every participant number, small enough for 64-bit products.
const Q: u64 = 2147483647;

#[derive(Clone, Copy)]
struct ToyField;

#[derive(Clone, Copy)]
struct ToyGroup;

/// The integers modulo `Q` under addition, with generator one, and a hash
/// built on FNV-1a. It meets the demands on a ciphersuite and is of no use
/// for security.
#[derive(Clone, Copy)]
struct Toy;

fn power_mod(base: u64, mut e: u64) -> u64 {
    let mut acc = 1u64;
    let mut b = base % Q;
    while e > 0 {
        if e & 1 == 1 {
            acc = acc * b % Q;
        }
        b = b * b % Q;
        e >>= 1;
    }
    acc
}

impl Field for ToyField {
    type Scalar = u64;

    fn order() -> Natural {
        unreachable!()
    }

    fn value(_s: u64) -> Natural {
        unreachable!()
    }

    fn encode(_v: Natural) -> ByteString {
        unreachable!()
    }

    fn width() -> Natural {
        unreachable!()
    }

    fn lemma_value_below_order(_s: u64) {}

    fn lemma_order_above_u16() {}

    fn lemma_order_is_prime() {}

    fn lemma_encode_injective(_a: Natural, _b: Natural) {}

    fn zero() -> u64 {
        0
    }

    fn one() -> u64 {
        1
    }

    fn add(a: u64, b: u64) -> u64 {
        (a + b) % Q
    }

    fn sub(a: u64, b: u64) -> u64 {
        (a + Q - b) % Q
    }

    fn mul(a: u64, b: u64) -> u64 {
        a * b % Q
    }

    fn equals(a: u64, b: u64) -> bool {
        a == b
    }

    fn invert(s: u64) -> Result<u64, FieldError> {
        if s == 0 {
            Err(FieldError::InvalidZeroScalar)
        } else {
            Ok(power_mod(s, Q - 2))
        }
    }

    fn serialize(s: u64) -> Vec<u8> {
        s.to_le_bytes().to_vec()
    }

    fn deserialize(buf: &[u8]) -> Result<u64, FieldError> {
        if buf.len() != 8 {
            return Err(FieldError::MalformedScalar);
        }
        let mut b = [0u8; 8];
        b.copy_from_slice(buf);
        let v = u64::from_le_bytes(b);
        if v < Q {
            Ok(v)
        } else {
            Err(FieldError::MalformedScalar)
        }
    }

    fn little_endian_serialize(s: u64) -> Vec<u8> {
        s.to_le_bytes().to_vec()
    }
}

impl Group for ToyGroup {
    type Field = ToyField;
    type Element = u64;

    fn index(_e: u64) -> Natural {
        unreachable!()
    }

    fn encode(_k: Natural) -> ByteString {
        unreachable!()
    }

    fn lemma_index_below_order(_e: u64) {}

    fn lemma_encode_injective(_a: Natural, _b: Natural) {}

    fn cofactor() -> u64 {
        1
    }

    fn identity() -> u64 {
        0
    }

    fn generator() -> u64 {
        1
    }

    fn add(a: u64, b: u64) -> u64 {
        (a + b) % Q
    }

    fn mul(e: u64, s: u64) -> u64 {
        e * s % Q
    }

    fn equals(a: u64, b: u64) -> bool {
        a == b
    }

    fn serialize(e: u64) -> Vec<u8> {
        e.to_le_bytes().to_vec()
    }

    fn deserialize(buf: &[u8]) -> Result<u64, GroupError> {
        match ToyField::deserialize(buf) {
            Ok(0) => Err(GroupError::InvalidIdentityElement),
            Ok(v) => Ok(v),
            Err(_) => Err(GroupError::MalformedElement),
        }
    }
}

fn fnv(tag: &[u8], m: &[u8]) -> u64 {
    let mut h: u64 = 14695981039346656037;
    for b in tag.iter().chain(m.iter()) {
        h ^= *b as u64;
        h = h.wrapping_mul(1099511628211);
    }
    h
}

fn digest(tag: &[u8], m: &[u8]) -> Vec<u8> {
    let mut out = Vec::new();
    for round in 0u8..4 {
        out.extend_from_slice(&fnv(&[tag, &[round]].concat(), m).to_le_bytes());
    }
    out
}

impl Ciphersuite for Toy {
    type Group = ToyGroup;

    fn h1(_m: ByteString) -> Natural {
        unreachable!()
    }

    fn h2(_m: ByteString) -> Natural {
        unreachable!()
    }

    fn h3(_m: ByteString) -> Natural {
        unreachable!()
    }

    fn h4(_m: ByteString) -> ByteString {
        unreachable!()
    }

    fn h5(_m: ByteString) -> ByteString {
        unreachable!()
    }

    fn hdkg(_m: ByteString) -> Option<Natural> {
        unreachable!()
    }

    fn hid(_m: ByteString) -> Option<Natural> {
        unreachable!()
    }

    fn id() -> Vec<u8> {
        b"TOY-v1".to_vec()
    }

    fn H1(m: &[u8]) -> u64 {
        fnv(b"TOY-v1rho", m) % Q
    }

    fn H2(m: &[u8]) -> u64 {
        fnv(b"TOY-v1chal", m) % Q
    }

    fn H3(m: &[u8]) -> u64 {
        fnv(b"TOY-v1nonce", m) % Q
    }

    fn H4(m: &[u8]) -> Vec<u8> {
        digest(b"TOY-v1msg", m)
    }

    fn H5(m: &[u8]) -> Vec<u8> {
        digest(b"TOY-v1com", m)
    }

    fn HDKG(m: &[u8]) -> Option<u64> {
        Some(fnv(b"TOY-v1dkg", m) % Q)
    }

    fn HID(m: &[u8]) -> Option<u64> {
        Some(fnv(b"TOY-v1id", m) % Q)
    }
}

fn id(n: u16) -> Identifier<Toy> {
    match Identifier::<Toy>::try_from(n) {
        Ok(i) => i,
        Err(_) => panic!("identifier {} refused", n),
    }
}

fn ok<T>(r: Result<T, Error<Toy>>) -> T {
    match r {
        Ok(v) => v,
        Err(_) => panic!("unexpected error"),
    }
}

fn key_package(share: SecretShare<Toy>) -> KeyPackage<Toy> {
    ok(KeyPackage::try_from(share))
}

fn random_scalar(rng: &mut StdRng) -> u64 {
    rng.next_u64() % Q
}

fn random_scalars(count: usize, rng: &mut StdRng) -> Vec<u64> {
    (0..count).map(|_| random_scalar(rng)).collect()
}

fn random_bytes(rng: &mut StdRng) -> [u8; 32] {
    let mut bytes = [0u8; 32];
    rng.fill_bytes(&mut bytes);
    bytes
}

/// Round one with randomness from `rng`.
fn commit_with(
    identifier: Identifier<Toy>,
    secret: &SigningShare<Toy>,
    rng: &mut StdRng,
) -> (SigningNonces<Toy>, SigningCommitments<Toy>) {
    let hiding = random_bytes(rng);
    let binding = random_bytes(rng);
    commit(identifier, secret, &hiding, &binding)
}

struct Dealt {
    packages: Vec<KeyPackage<Toy>>,
    pubkeys: PublicKeyPackage<Toy>,
}

fn deal(secret: u64, max: u16, min: u16, seed: u64) -> Dealt {
    let mut rng = StdRng::seed_from_u64(seed);
    let key = SigningKey::<Toy> { scalar: secret };
    let coefficients = random_scalars(min as usize - 1, &mut rng);
    let (shares, pubkeys) = ok(split(&key, max, min, IdentifierList::Default, coefficients));
    Dealt { packages: shares.into_iter().map(key_package).collect(), pubkeys }
}

struct Session {
    package: SigningPackage<Toy>,
    nonces: Vec<SigningNonces<Toy>>,
    shares: Vec<SignatureShare<Toy>>,
}

fn run_session(dealt: &Dealt, signers: &[u16], message: &[u8], seed: u64) -> Session {
    let mut rng = StdRng::seed_from_u64(seed);
    let mut nonces = Vec::new();
    let mut commitments = Vec::new();
    for s in signers {
        let kp = &dealt.packages[(*s - 1) as usize];
        let (n, c) = commit_with(kp.identifier, &kp.secret_share, &mut rng);
        nonces.push(n);
        commitments.push(c);
    }
    let package = SigningPackage::new(commitments, message.to_vec());
    let mut shares = Vec::new();
    for (k, s) in signers.iter().enumerate() {
        let kp = &dealt.packages[(*s - 1) as usize];
        shares.push(ok(sign(&package, &nonces[k], kp)));
    }
    Session { package, nonces, shares }
}

fn verifies(dealt: &Dealt, message: &[u8], signature: &Signature<Toy>) -> bool {
    dealt.pubkeys.group_public.verify(message, signature).is_ok()
}

#[test]
fn identifier_from_number() {
    assert_eq!(id(1).to_scalar(), 1);
    assert_eq!(id(3).to_scalar(), 3);
    assert_eq!(id(258).to_scalar(), 258);
    assert_eq!(id(65535).to_scalar(), 65535);
    assert_eq!(id(258).serialize(), vec![2, 1, 0, 0, 0, 0, 0, 0]);
}

#[test]
fn identifier_zero_is_refused() {
    assert!(matches!(Identifier::<Toy>::try_from(0), Err(Error::InvalidIdentifier)));
    assert!(matches!(Identifier::<Toy>::new(0), Err(Error::InvalidIdentifier)));
    assert!(matches!(
        Identifier::<Toy>::deserialize(&[0, 0, 0, 0, 0, 0, 0, 0]),
        Err(Error::InvalidIdentifier)
    ));
}

#[test]
fn identifier_serialization_round_trip() {
    let a = id(4097);
    let b = ok(Identifier::<Toy>::deserialize(&a.serialize()));
    assert!(a.equals(&b));
    assert!(matches!(
        Identifier::<Toy>::deserialize(&[255; 8]),
        Err(Error::FieldError(FieldError::MalformedScalar))
    ));
    assert!(matches!(
        Identifier::<Toy>::deserialize(&[1, 2, 3]),
        Err(Error::FieldError(FieldError::MalformedScalar))
    ));
}

#[test]
fn identifier_order_is_numeric() {
    assert!(id(1).less_than(&id(2)));
    assert!(!id(2).less_than(&id(1)));
    assert!(!id(7).less_than(&id(7)));
    // 256 has a smaller low byte than 255 and is still the larger number
    assert!(id(255).less_than(&id(256)));
    assert!(!id(256).less_than(&id(255)));
    assert!(id(7).equals(&id(7)));
    assert!(!id(7).equals(&id(8)));
}

#[test]
fn rho_bytes_round_trip() {
    let bytes = 123456789u64.to_le_bytes().to_vec();
    let rho = ok(Rho::<Toy>::from_bytes(&bytes));
    assert_eq!(rho.scalar, 123456789);
    assert_eq!(rho.to_bytes(), bytes);
}

#[test]
fn rho_rejects_non_canonical_bytes() {
    assert!(matches!(
        Rho::<Toy>::from_bytes(&Q.to_le_bytes()),
        Err(Error::FieldError(FieldError::MalformedScalar))
    ));
    assert!(Rho::<Toy>::from_bytes(&(Q - 1).to_le_bytes()).is_ok());
}

#[test]
fn rho_hex() {
    let rho = match Rho::<Toy>::from_hex("0A01000000000000") {
        Ok(r) => r,
        Err(e) => panic!("{}", e),
    };
    assert_eq!(rho.scalar, 266);
    assert_eq!(rho.to_hex(), "0a01000000000000");
    let again = match Rho::<Toy>::from_hex(&rho.to_hex()) {
        Ok(r) => r,
        Err(e) => panic!("{}", e),
    };
    assert_eq!(again.scalar, 266);
}

#[test]
fn rho_hex_errors() {
    assert!(matches!(Rho::<Toy>::from_hex("0a0"), Err("invalid hex")));
    assert!(matches!(Rho::<Toy>::from_hex("zz01000000000000"), Err("invalid hex")));
    assert!(matches!(
        Rho::<Toy>::from_hex("ffffffffffffffff"),
        Err("malformed scalar encoding")
    ));
    assert!(matches!(Rho::<Toy>::from_hex("0a01"), Err("malformed scalar encoding")));
}

fn commitments(n: u16, hiding: u64, binding: u64) -> SigningCommitments<Toy> {
    SigningCommitments {
        identifier: id(n),
        hiding: NonceCommitment { element: hiding },
        binding: NonceCommitment { element: binding },
    }
}

#[test]
fn signing_package_is_sorted() {
    let p = SigningPackage::new(
        vec![commitments(3, 30, 31), commitments(1, 10, 11), commitments(2, 20, 21)],
        b"m".to_vec(),
    );
    let list = p.signing_commitments();
    assert_eq!(list.len(), 3);
    assert_eq!(list[0].identifier.to_scalar(), 1);
    assert_eq!(list[1].identifier.to_scalar(), 2);
    assert_eq!(list[2].identifier.to_scalar(), 3);
    assert_eq!(list[0].hiding.element, 10);
    assert_eq!(list[2].binding.element, 31);
    assert_eq!(p.message(), &b"m".to_vec());
    let ids: Vec<u64> = p.identifiers().iter().map(|i| i.to_scalar()).collect();
    assert_eq!(ids, vec![1, 2, 3]);
}

#[test]
fn signing_package_keeps_last_of_equal_identifiers() {
    let p = SigningPackage::new(
        vec![commitments(2, 20, 21), commitments(1, 10, 11), commitments(2, 22, 23)],
        Vec::new(),
    );
    let list = p.signing_commitments();
    assert_eq!(list.len(), 2);
    assert_eq!(list[0].identifier.to_scalar(), 1);
    assert_eq!(list[1].identifier.to_scalar(), 2);
    assert_eq!(list[1].hiding.element, 22);
    assert_eq!(list[1].binding.element, 23);
}

#[test]
fn signing_package_lookup() {
    let p = SigningPackage::new(vec![commitments(5, 50, 51), commitments(4, 40, 41)], Vec::new());
    assert_eq!(p.signing_commitment(&id(5)).hiding.element, 50);
    assert_eq!(p.signing_commitment(&id(4)).binding.element, 41);
    assert!(p.find_signing_commitment(&id(6)).is_none());
    assert!(p.find_signing_commitment(&id(4)).is_some());
}

#[test]
fn signing_package_may_be_empty() {
    let p = SigningPackage::<Toy>::new(Vec::new(), b"x".to_vec());
    assert_eq!(p.signing_commitments().len(), 0);
    assert_eq!(p.rho_preimage(), Toy::H5(b"x"));
}

#[test]
fn rho_preimage_layout() {
    let p = SigningPackage::new(
        vec![commitments(2, 20, 21), commitments(1, 10, 11)],
        b"hello".to_vec(),
    );
    let mut expected = Vec::new();
    for v in [1u64, 10, 11, 2, 20, 21] {
        expected.extend_from_slice(&v.to_le_bytes());
    }
    assert_eq!(encode_group_commitments(&p.signing_commitments()), expected);
    expected.extend_from_slice(&Toy::H5(b"hello"));
    assert_eq!(p.rho_preimage(), expected);
    assert_eq!(Rho::from(&p).scalar, Toy::H1(&expected));
}

#[test]
fn binding_factor_is_the_same_for_everyone() {
    let a = SigningPackage::new(
        vec![commitments(2, 20, 21), commitments(1, 10, 11)],
        b"hello".to_vec(),
    );
    let b = SigningPackage::new(
        vec![commitments(1, 10, 11), commitments(2, 20, 21)],
        b"hello".to_vec(),
    );
    assert_eq!(Rho::from(&a).scalar, Rho::from(&b).scalar);
    let c = SigningPackage::new(
        vec![commitments(1, 10, 11), commitments(2, 20, 21)],
        b"hellp".to_vec(),
    );
    assert_ne!(Rho::from(&a).scalar, Rho::from(&c).scalar);
}

#[test]
fn group_commitment_value() {
    let p = SigningPackage::new(
        vec![commitments(2, 20, 21), commitments(1, 10, 11)],
        b"hello".to_vec(),
    );
    let rho = Rho::from(&p).scalar;
    let expected = (10 + rho * 11 % Q + 20 + rho * 21 % Q) % Q;
    assert_eq!(ok(GroupCommitment::try_from(&p)).element, expected);
    assert_eq!(
        commitments(1, 10, 11).to_group_commitment_share(rho),
        (10 + rho * 11 % Q) % Q
    );
}

#[test]
fn group_commitment_rejects_identity() {
    let hiding = SigningPackage::new(
        vec![commitments(1, 0, 11), commitments(2, 20, 21)],
        b"hello".to_vec(),
    );
    assert!(matches!(GroupCommitment::try_from(&hiding), Err(Error::IdentityCommitment)));
    let binding = SigningPackage::new(
        vec![commitments(1, 10, 11), commitments(2, 20, 0)],
        b"hello".to_vec(),
    );
    assert!(matches!(GroupCommitment::try_from(&binding), Err(Error::IdentityCommitment)));
}

#[test]
fn lagrange_coefficients_of_one_and_three() {
    let p = SigningPackage::new(vec![commitments(1, 10, 11), commitments(3, 30, 31)], Vec::new());
    // lambda_1 = 3 / (3 - 1), lambda_3 = 1 / (1 - 3)
    let l1 = ok(derive_lagrange_coeff(&id(1), &p));
    let l3 = ok(derive_lagrange_coeff(&id(3), &p));
    assert_eq!(l1 * 2 % Q, 3);
    assert_eq!(l3 * (Q - 2) % Q, 1);
    assert_eq!(l1, 1073741825);
    assert_eq!(l3, 1073741823);
    assert_eq!((l1 + l3) % Q, 1);
}

#[test]
fn lagrange_coefficients_depend_on_the_signers() {
    let a = SigningPackage::new(vec![commitments(1, 10, 11), commitments(2, 20, 21)], Vec::new());
    let b = SigningPackage::new(vec![commitments(1, 10, 11), commitments(3, 30, 31)], Vec::new());
    assert_eq!(ok(derive_lagrange_coeff(&id(1), &a)), 2);
    assert_eq!(ok(derive_lagrange_coeff(&id(2), &a)), Q - 1);
    assert_ne!(ok(derive_lagrange_coeff(&id(1), &a)), ok(derive_lagrange_coeff(&id(1), &b)));
}

#[test]
fn lagrange_coefficient_over_a_list() {
    let ids = vec![id(1), id(2), id(3)];
    // lambda_2 = (1 * 3) / ((1 - 2) * (3 - 2)) = -3
    assert_eq!(ok(compute_lagrange_coefficient(&ids, &id(2))), Q - 3);
    let alone = vec![id(9)];
    assert_eq!(ok(compute_lagrange_coefficient(&alone, &id(9))), 1);
}

#[test]
fn polynomial_evaluation() {
    // 7 + 5x + 2x^2 at 3
    assert_eq!(evaluate_polynomial::<Toy>(&id(3), &vec![7, 5, 2]), 40);
    assert_eq!(evaluate_polynomial::<Toy>(&id(3), &vec![]), 0);
    assert_eq!(evaluate_polynomial::<Toy>(&id(3), &vec![Q - 1]), Q - 1);
    assert_eq!(evaluate_polynomial::<Toy>(&id(2), &vec![Q - 1, Q - 1]), Q - 3);
}

#[test]
fn commitment_evaluation_matches_polynomial() {
    let coefficients = vec![7u64, 5, 2];
    let commitment = VerifiableSecretSharingCommitment::<Toy>::from_coefficients(&coefficients);
    assert_eq!(commitment.coefficients, vec![7, 5, 2]);
    assert_eq!(evaluate_vss(&commitment, &id(3)), 40);
    for n in 1..20u16 {
        let share = evaluate_polynomial::<Toy>(&id(n), &coefficients);
        assert_eq!(evaluate_vss(&commitment, &id(n)), ToyGroup::mul(1, share));
    }
}

#[test]
fn dealt_shares_lie_on_the_polynomial() {
    let key = SigningKey::<Toy> { scalar: 1000 };
    let ids = vec![id(1), id(2), id(3)];
    let shares = ok(generate_secret_shares(&key, 3, 2, vec![7], &ids));
    assert_eq!(shares.len(), 3);
    for (k, share) in shares.iter().enumerate() {
        assert_eq!(share.identifier.to_scalar(), k as u64 + 1);
        assert_eq!(share.value.scalar, 1000 + 7 * (k as u64 + 1));
        assert_eq!(share.commitment.coefficients, vec![1000, 7]);
        assert!(share.verify().is_ok());
    }
}

#[test]
fn dealing_rejects_bad_parameters() {
    let key = SigningKey::<Toy> { scalar: 1000 };
    assert!(matches!(
        split(&key, 3, 1, IdentifierList::Default, vec![]),
        Err(Error::InvalidMinSigners)
    ));
    assert!(matches!(
        split(&key, 3, 0, IdentifierList::Default, vec![]),
        Err(Error::InvalidMinSigners)
    ));
    assert!(matches!(
        split(&key, 3, 4, IdentifierList::Default, vec![7, 8, 9]),
        Err(Error::InvalidMinSigners)
    ));
    assert!(matches!(
        split(&key, 0, 2, IdentifierList::Default, vec![7]),
        Err(Error::InvalidMaxSigners)
    ));
    assert!(matches!(
        split(&key, 1, 2, IdentifierList::Default, vec![7]),
        Err(Error::InvalidMaxSigners)
    ));
    assert!(matches!(
        generate_with_dealer::<Toy>(0, 0, IdentifierList::Default, 1000, vec![]),
        Err(Error::InvalidMinSigners)
    ));
    assert!(matches!(
        split(&key, 3, 2, IdentifierList::Custom(vec![id(1), id(2)]), vec![7]),
        Err(Error::IncorrectNumberOfIdentifiers)
    ));
    assert!(matches!(
        split(&key, 3, 2, IdentifierList::Custom(vec![id(1), id(2), id(1)]), vec![7]),
        Err(Error::DuplicateIdentifier)
    ));
    assert!(matches!(
        split(&key, 3, 2, IdentifierList::Default, vec![]),
        Err(Error::InvalidCoefficients)
    ));
    assert!(matches!(
        split(&key, 3, 2, IdentifierList::Default, vec![7, 8]),
        Err(Error::InvalidCoefficients)
    ));
    assert!(matches!(
        generate_secret_shares(&key, 3, 2, vec![7, 8], &vec![id(1), id(2), id(3)]),
        Err(Error::InvalidCoefficients)
    ));
    assert!(matches!(validate_num_of_signers::<Toy>(2, 2), Ok(())));
    assert!(matches!(validate_num_of_signers::<Toy>(3, 2), Err(Error::InvalidMinSigners)));
}

#[test]
fn duplicates_are_found() {
    assert!(!contains_duplicate::<Toy>(&vec![]));
    assert!(!contains_duplicate(&vec![id(1), id(2), id(3)]));
    assert!(contains_duplicate(&vec![id(1), id(2), id(1)]));
    assert!(contains_duplicate(&vec![id(2), id(2)]));
}

#[test]
fn default_identifiers_count_from_one() {
    let ids = default_identifiers::<Toy>(4);
    let values: Vec<u64> = ids.iter().map(|i| i.to_scalar()).collect();
    assert_eq!(values, vec![1, 2, 3, 4]);
    assert_eq!(default_identifiers::<Toy>(0).len(), 0);
    let all = default_identifiers::<Toy>(65535);
    assert_eq!(all.len(), 65535);
    assert_eq!(all[65534].to_scalar(), 65535);
}

#[test]
fn dealer_gives_consistent_key_material() {
    let mut rng = StdRng::seed_from_u64(7);
    let secret = random_scalar(&mut rng);
    let (shares, pubkeys) = ok(generate_with_dealer::<Toy>(
        5,
        3,
        IdentifierList::Default,
        secret,
        random_scalars(2, &mut rng),
    ));
    assert_eq!(pubkeys.group_public.element, secret);
    assert_eq!(shares.len(), 5);
    assert_eq!(pubkeys.signer_pubkeys.len(), 5);
    for (k, share) in shares.iter().enumerate() {
        assert_eq!(share.commitment.coefficients.len(), 3);
        assert_eq!(share.commitment.coefficients[0], pubkeys.group_public.element);
        assert_eq!(pubkeys.signer_pubkeys[k].0.to_scalar(), k as u64 + 1);
        assert_eq!(pubkeys.signer_pubkeys[k].1.element, share.value.scalar);
        let found = pubkeys.signer_pubkey(&share.identifier);
        assert_eq!(found.map(|v| v.element), Some(share.value.scalar));
        // the generator times the share is what the commitment assigns
        assert_eq!(
            VerifyingShare::from(&share.value).element,
            evaluate_vss(&share.commitment, &share.identifier)
        );
    }
    assert!(pubkeys.signer_pubkey(&id(6)).is_none());
}

#[test]
fn dealer_takes_custom_identifiers() {
    let mut rng = StdRng::seed_from_u64(8);
    let key = SigningKey::<Toy> { scalar: 4242 };
    let custom = vec![id(30), id(10), id(20)];
    let (shares, pubkeys) = ok(split(
        &key,
        3,
        2,
        IdentifierList::Custom(custom),
        random_scalars(1, &mut rng),
    ));
    let values: Vec<u64> = shares.iter().map(|s| s.identifier.to_scalar()).collect();
    assert_eq!(values, vec![30, 10, 20]);
    assert_eq!(pubkeys.group_public.element, 4242);
    let packages: Vec<KeyPackage<Toy>> = shares.into_iter().map(key_package).collect();
    assert_eq!(ok(reconstruct(&packages[0..2])).scalar, 4242);
    assert_eq!(ok(reconstruct(&packages[1..3])).scalar, 4242);
}

#[test]
fn tampered_commitment_is_detected() {
    let mut rng = StdRng::seed_from_u64(9);
    let (mut shares, _) = ok(generate_with_dealer::<Toy>(
        3,
        2,
        IdentifierList::Default,
        random_scalar(&mut rng),
        random_scalars(1, &mut rng),
    ));
    let mut share = shares.remove(1);
    share.commitment.coefficients[1] ^= 1;
    match KeyPackage::try_from(share) {
        Err(Error::InvalidSecretShare(who)) => assert_eq!(who.to_scalar(), 2),
        _ => panic!("tampering went unnoticed"),
    }
}

#[test]
fn share_without_commitment_is_refused() {
    let share = SecretShare::<Toy> {
        identifier: id(1),
        value: SigningShare::new(5),
        commitment: VerifiableSecretSharingCommitment { coefficients: Vec::new() },
    };
    assert!(matches!(share.verify(), Err(Error::MissingCommitment)));
    assert!(matches!(KeyPackage::try_from(share), Err(Error::MissingCommitment)));
}

#[test]
fn reconstruction_recovers_the_secret() {
    let dealt = deal(987654321, 5, 3, 11);
    for subset in [[0usize, 1, 2], [0, 2, 4], [4, 3, 1], [2, 3, 4]] {
        let chosen: Vec<KeyPackage<Toy>> = subset.iter().map(|k| dealt.packages[*k]).collect();
        assert_eq!(ok(reconstruct(&chosen)).scalar, 987654321);
    }
    assert_eq!(ok(reconstruct(&dealt.packages)).scalar, 987654321);
    // fewer shares than the threshold give another key
    assert_ne!(ok(reconstruct(&dealt.packages[0..2])).scalar, 987654321);
}

#[test]
fn reconstruction_rejects_bad_input() {
    let dealt = deal(5, 3, 2, 12);
    assert!(matches!(reconstruct::<Toy>(&[]), Err(Error::IncorrectNumberOfShares)));
    let twice = vec![dealt.packages[0], dealt.packages[1], dealt.packages[0]];
    assert!(matches!(reconstruct(&twice), Err(Error::DuplicateIdentifier)));
}

#[test]
fn nonces_are_hedged_with_the_share() {
    let share = SigningShare::<Toy>::new(77);
    let nonce = Nonce::from_random_bytes(&share, &[1, 2, 3]);
    let mut input = vec![1u8, 2, 3];
    input.extend_from_slice(&77u64.to_le_bytes());
    assert_eq!(nonce.scalar, Toy::H3(&input));
    let other = Nonce::from_random_bytes(&SigningShare::<Toy>::new(78), &[1, 2, 3]);
    assert_ne!(nonce.scalar, other.scalar);
    assert_eq!(NonceCommitment::from(&nonce).element, nonce.scalar);
}

#[test]
fn commit_publishes_commitments_to_the_nonces() {
    let share = SigningShare::<Toy>::new(77);
    let (nonces, published) = commit(id(4), &share, &[1; 32], &[2; 32]);
    assert_eq!(published.identifier.to_scalar(), 4);
    assert_eq!(nonces.hiding.scalar, Nonce::from_random_bytes(&share, &[1; 32]).scalar);
    assert_eq!(nonces.binding.scalar, Nonce::from_random_bytes(&share, &[2; 32]).scalar);
    assert_eq!(published.hiding.element, ToyGroup::mul(1, nonces.hiding.scalar));
    assert_eq!(published.binding.element, ToyGroup::mul(1, nonces.binding.scalar));
    assert_ne!(nonces.hiding.scalar, nonces.binding.scalar);
    let both = SigningNonces::from_random_bytes(&share, &[1; 32], &[2; 32]);
    assert_eq!(both.hiding.scalar, nonces.hiding.scalar);
    assert_eq!(both.binding.scalar, nonces.binding.scalar);
    // the same randomness gives the same nonces, other randomness others
    let (again, _) = commit(id(4), &share, &[1; 32], &[2; 32]);
    assert_eq!(again.hiding.scalar, nonces.hiding.scalar);
    let (other, _) = commit(id(4), &share, &[3; 32], &[2; 32]);
    assert_ne!(other.hiding.scalar, nonces.hiding.scalar);
    assert_eq!(other.binding.scalar, nonces.binding.scalar);
}

#[test]
fn signature_share_formula() {
    let dealt = deal(31337, 3, 2, 14);
    let session = run_session(&dealt, &[1, 3], b"hello", 15);
    let rho = Rho::from(&session.package).scalar;
    let r = ok(GroupCommitment::try_from(&session.package)).element;
    let c = challenge::<Toy>(&r, &dealt.pubkeys.group_public.element, b"hello");
    for (k, signer) in [1u16, 3].iter().enumerate() {
        let kp = &dealt.packages[(*signer - 1) as usize];
        let lambda = ok(derive_lagrange_coeff(&kp.identifier, &session.package));
        let nonces = &session.nonces[k];
        let expected = (nonces.hiding.scalar
            + rho * nonces.binding.scalar % Q
            + lambda * kp.secret_share.scalar % Q * c % Q)
            % Q;
        assert_eq!(session.shares[k].share, expected);
        assert_eq!(session.shares[k].identifier.to_scalar(), *signer as u64);
    }
}

#[test]
fn challenge_hashes_commitment_key_and_message() {
    let mut input = Vec::new();
    input.extend_from_slice(&5u64.to_le_bytes());
    input.extend_from_slice(&9u64.to_le_bytes());
    input.extend_from_slice(b"msg");
    assert_eq!(challenge::<Toy>(&5, &9, b"msg"), Toy::H2(&input));
}

#[test]
fn two_of_three_signature_verifies() {
    let dealt = deal(31337, 3, 2, 16);
    let session = run_session(&dealt, &[1, 3], b"hello", 17);
    let signature = ok(aggregate(&session.package, &session.shares, &dealt.pubkeys));
    assert!(verifies(&dealt, b"hello", &signature));
    assert!(!verifies(&dealt, b"hellp", &signature));
    assert_eq!(signature.R, ok(GroupCommitment::try_from(&session.package)).element);
    assert_eq!(signature.z, (session.shares[0].share + session.shares[1].share) % Q);

    let other = run_session(&dealt, &[1, 3], b"hellp", 18);
    let second = ok(aggregate(&other.package, &other.shares, &dealt.pubkeys));
    assert_ne!(second.R, signature.R);
    assert!(verifies(&dealt, b"hellp", &second));
}

#[test]
fn every_signer_subset_gives_a_valid_signature() {
    let dealt = deal(31337, 4, 3, 19);
    let mut seed = 100;
    for a in 1..=4u16 {
        for b in (a + 1)..=4 {
            for c in (b + 1)..=4 {
                seed += 1;
                let session = run_session(&dealt, &[c, a, b], b"subset", seed);
                let signature = ok(aggregate(&session.package, &session.shares, &dealt.pubkeys));
                assert!(verifies(&dealt, b"subset", &signature));
            }
        }
    }
}

#[test]
fn smallest_and_full_thresholds() {
    let two = deal(5, 2, 2, 20);
    let session = run_session(&two, &[1, 2], b"m", 21);
    let signature = ok(aggregate(&session.package, &session.shares, &two.pubkeys));
    assert!(verifies(&two, b"m", &signature));

    let full = deal(6, 5, 5, 22);
    let session = run_session(&full, &[5, 4, 3, 2, 1], b"m", 23);
    let signature = ok(aggregate(&session.package, &session.shares, &full.pubkeys));
    assert!(verifies(&full, b"m", &signature));
    assert_eq!(ok(reconstruct(&full.packages)).scalar, 6);
}

#[test]
fn many_signers() {
    let dealt = deal(99, 400, 2, 24);
    assert_eq!(dealt.packages.len(), 400);
    let session = run_session(&dealt, &[400, 1], b"m", 25);
    let signature = ok(aggregate(&session.package, &session.shares, &dealt.pubkeys));
    assert!(verifies(&dealt, b"m", &signature));
}

#[test]
fn signer_subset_changes_the_shares() {
    let dealt = deal(31337, 3, 2, 26);
    let a = run_session(&dealt, &[1, 2], b"hello", 27);
    let b = run_session(&dealt, &[1, 3], b"hello", 27);
    let sa = ok(aggregate(&a.package, &a.shares, &dealt.pubkeys));
    let sb = ok(aggregate(&b.package, &b.shares, &dealt.pubkeys));
    assert!(verifies(&dealt, b"hello", &sa));
    assert!(verifies(&dealt, b"hello", &sb));
    assert_ne!(
        ok(derive_lagrange_coeff(&id(1), &a.package)),
        ok(derive_lagrange_coeff(&id(1), &b.package))
    );
    assert_ne!(sa.z, sb.z);
    // the same run gives the same result
    let again = run_session(&dealt, &[1, 2], b"hello", 27);
    let sc = ok(aggregate(&again.package, &again.shares, &dealt.pubkeys));
    assert_eq!(sa.z, sc.z);
    assert_eq!(sa.R, sc.R);
    assert_eq!(sa.serialize(), sc.serialize());
}

#[test]
fn signature_serialization() {
    let signature = Signature::<Toy> { R: 258, z: 3 };
    assert_eq!(signature.serialize(), vec![2, 1, 0, 0, 0, 0, 0, 0, 3, 0, 0, 0, 0, 0, 0, 0]);
}

#[test]
fn tampered_share_is_reported() {
    let dealt = deal(31337, 3, 2, 28);
    for bit in [0u32, 7, 30] {
        for victim in 0..2usize {
            let mut session = run_session(&dealt, &[1, 3], b"hello", 29);
            session.shares[victim].share = (session.shares[victim].share ^ (1 << bit)) % Q;
            match aggregate(&session.package, &session.shares, &dealt.pubkeys) {
                Err(Error::InvalidSignatureShare(who)) => {
                    assert_eq!(who.to_scalar(), [1, 3][victim])
                }
                _ => panic!("tampering went unnoticed"),
            }
        }
    }
}

#[test]
fn first_invalid_share_is_reported() {
    let dealt = deal(31337, 3, 3, 30);
    let mut session = run_session(&dealt, &[1, 2, 3], b"hello", 31);
    session.shares[1].share = (session.shares[1].share + 1) % Q;
    session.shares[2].share = (session.shares[2].share + 1) % Q;
    match aggregate(&session.package, &session.shares, &dealt.pubkeys) {
        Err(Error::InvalidSignatureShare(who)) => assert_eq!(who.to_scalar(), 2),
        _ => panic!("tampering went unnoticed"),
    }
}

#[test]
fn share_verification_equation() {
    let dealt = deal(31337, 3, 2, 32);
    let session = run_session(&dealt, &[2, 3], b"hello", 33);
    let rho = Rho::from(&session.package).scalar;
    let r = ok(GroupCommitment::try_from(&session.package)).element;
    let c = challenge::<Toy>(&r, &dealt.pubkeys.group_public.element, b"hello");
    let share = session.shares[0];
    let lambda = ok(derive_lagrange_coeff(&share.identifier, &session.package));
    let part = session.package.signing_commitment(&share.identifier).to_group_commitment_share(rho);
    let public = dealt.packages[1].public;
    assert!(share.verify(&part, &public, lambda, &c).is_ok());
    let wrong = SignatureShare::<Toy> { identifier: share.identifier, share: share.share ^ 1 };
    assert!(matches!(
        wrong.verify(&part, &public, lambda, &c),
        Err(Error::InvalidSignatureShare(_))
    ));
}

#[test]
fn identity_commitment_is_refused_before_any_share() {
    let dealt = deal(31337, 3, 2, 34);
    let session = run_session(&dealt, &[1, 3], b"hello", 35);
    let mut list = session.package.signing_commitments();
    list[0].binding = NonceCommitment { element: ToyGroup::identity() };
    let package = SigningPackage::new(list, b"hello".to_vec());
    // the shares are not even valid for this package
    assert!(matches!(
        aggregate(&package, &session.shares, &dealt.pubkeys),
        Err(Error::IdentityCommitment)
    ));
    let mut list = session.package.signing_commitments();
    list[1].hiding = NonceCommitment { element: ToyGroup::identity() };
    let package = SigningPackage::new(list, b"hello".to_vec());
    assert!(matches!(
        aggregate(&package, &session.shares, &dealt.pubkeys),
        Err(Error::IdentityCommitment)
    ));
    assert!(matches!(
        sign(&package, &session.nonces[0], &dealt.packages[0]),
        Err(Error::IdentityCommitment)
    ));
}

#[test]
fn share_of_a_stranger_is_a_mismatch() {
    let dealt = deal(31337, 3, 2, 36);
    let session = run_session(&dealt, &[1, 3], b"hello", 37);
    let mut shares = session.shares.clone();
    shares[1] = SignatureShare { identifier: id(2), share: shares[1].share };
    assert!(matches!(
        aggregate(&session.package, &shares, &dealt.pubkeys),
        Err(Error::MismatchedShares)
    ));
    let mut shares = session.shares.clone();
    shares[1] = SignatureShare { identifier: id(9), share: shares[1].share };
    assert!(matches!(
        aggregate(&session.package, &shares, &dealt.pubkeys),
        Err(Error::MismatchedShares)
    ));
}

#[test]
fn shares_for_another_commitment_set_are_a_mismatch() {
    let dealt = deal(31337, 3, 2, 38);
    let emitted = run_session(&dealt, &[1, 3], b"hello", 39);
    let other = run_session(&dealt, &[1, 2], b"hello", 40);
    assert!(matches!(
        aggregate(&other.package, &emitted.shares, &dealt.pubkeys),
        Err(Error::MismatchedShares)
    ));
    let missing = vec![emitted.shares[0]];
    assert!(matches!(
        aggregate(&emitted.package, &missing, &dealt.pubkeys),
        Err(Error::MismatchedShares)
    ));
    let three = run_session(&dealt, &[1, 2, 3], b"hello", 41);
    assert!(matches!(
        aggregate(&emitted.package, &three.shares, &dealt.pubkeys),
        Err(Error::MismatchedShares)
    ));
}

#[test]
fn repeated_share_is_refused() {
    let dealt = deal(31337, 3, 2, 42);
    let session = run_session(&dealt, &[1, 3], b"hello", 43);
    let shares = vec![session.shares[0], session.shares[1], session.shares[0]];
    assert!(matches!(
        aggregate(&session.package, &shares, &dealt.pubkeys),
        Err(Error::DuplicateIdentifier)
    ));
}

#[test]
fn signer_unknown_to_the_public_keys() {
    let dealt = deal(31337, 3, 2, 44);
    let session = run_session(&dealt, &[1, 3], b"hello", 45);
    let pubkeys = PublicKeyPackage::<Toy> {
        signer_pubkeys: vec![dealt.pubkeys.signer_pubkeys[0], dealt.pubkeys.signer_pubkeys[1]],
        group_public: dealt.pubkeys.group_public,
    };
    assert!(matches!(
        aggregate(&session.package, &session.shares, &pubkeys),
        Err(Error::UnknownIdentifier)
    ));
}

#[test]
fn signer_must_be_in_the_package() {
    let dealt = deal(31337, 3, 2, 46);
    let session = run_session(&dealt, &[1, 3], b"hello", 47);
    assert!(matches!(
        sign(&session.package, &session.nonces[0], &dealt.packages[1]),
        Err(Error::MissingCommitment)
    ));
}

#[test]
fn zero_group_commitment_is_refused_by_the_signer() {
    let dealt = deal(31337, 3, 2, 48);
    let session = run_session(&dealt, &[1, 3], b"hello", 49);
    // choose the second signer's hiding commitment so that the sum vanishes
    let mut list = session.package.signing_commitments();
    let rho_free = SigningCommitments::<Toy> {
        identifier: list[1].identifier,
        hiding: NonceCommitment { element: 1 },
        binding: NonceCommitment { element: Q - 1 },
    };
    list[0].hiding = NonceCommitment { element: Q - 1 };
    list[0].binding = NonceCommitment { element: 1 };
    list[1] = rho_free;
    let package = SigningPackage::new(list, b"hello".to_vec());
    assert_eq!(ok(GroupCommitment::try_from(&package)).element, 0);
    assert!(matches!(
        sign(&package, &session.nonces[0], &dealt.packages[0]),
        Err(Error::InvalidGroupCommitment)
    ));
}

#[test]
fn reused_nonces_reveal_the_share() {
    let dealt = deal(31337, 3, 2, 50);
    let first = run_session(&dealt, &[1, 3], b"one", 51);
    // the second message is signed with the very same nonces and commitments
    let package = SigningPackage::new(first.package.signing_commitments(), b"two".to_vec());
    let kp = &dealt.packages[0];
    let z1 = first.shares[0].share;
    let z2 = ok(sign(&package, &first.nonces[0], kp)).share;
    let lambda = ok(derive_lagrange_coeff(&kp.identifier, &package));
    let y = dealt.pubkeys.group_public.element;
    let (rho1, rho2) = (Rho::from(&first.package).scalar, Rho::from(&package).scalar);
    let c1 = challenge::<Toy>(&ok(GroupCommitment::try_from(&first.package)).element, &y, b"one");
    let c2 = challenge::<Toy>(&ok(GroupCommitment::try_from(&package)).element, &y, b"two");
    // z = d + rho e + c lambda s for both messages, and a third equation from a
    // third message: the unknowns d, e and s follow by elimination
    let package3 = SigningPackage::new(first.package.signing_commitments(), b"three".to_vec());
    let z3 = ok(sign(&package3, &first.nonces[0], kp)).share;
    let rho3 = Rho::from(&package3).scalar;
    let c3 =
        challenge::<Toy>(&ok(GroupCommitment::try_from(&package3)).element, &y, b"three");
    let sub = ToyField::sub;
    let mul = ToyField::mul;
    // (z1 - z2) = (rho1 - rho2) e + (c1 - c2) lambda s
    // (z1 - z3) = (rho1 - rho3) e + (c1 - c3) lambda s
    let (a1, b1, r1) = (sub(rho1, rho2), mul(sub(c1, c2), lambda), sub(z1, z2));
    let (a2, b2, r2) = (sub(rho1, rho3), mul(sub(c1, c3), lambda), sub(z1, z3));
    let det = sub(mul(a1, b2), mul(a2, b1));
    let numerator = sub(mul(a1, r2), mul(a2, r1));
    let inverse = match ToyField::invert(det) {
        Ok(v) => v,
        Err(_) => panic!("degenerate system"),
    };
    assert_eq!(mul(numerator, inverse), kp.secret_share.scalar);
}

#[test]
fn verifying_share_serialization() {
    let share = VerifyingShare::<Toy> { element: 258 };
    assert_eq!(share.serialize(), vec![2, 1, 0, 0, 0, 0, 0, 0]);
    let back = ok(VerifyingShare::<Toy>::deserialize(&share.serialize()));
    assert_eq!(back.element, 258);
    let identity = VerifyingShare::<Toy> { element: ToyGroup::identity() };
    assert!(matches!(
        VerifyingShare::<Toy>::deserialize(&identity.serialize()),
        Err(Error::GroupError(GroupError::InvalidIdentityElement))
    ));
    assert!(matches!(
        VerifyingShare::<Toy>::deserialize(&[255; 8]),
        Err(Error::GroupError(GroupError::MalformedElement))
    ));
    assert!(matches!(
        VerifyingShare::<Toy>::deserialize(&[1]),
        Err(Error::GroupError(GroupError::MalformedElement))
    ));
}

#[test]
fn signing_share_serialization() {
    assert_eq!(SigningShare::<Toy>::new(513).serialize(), vec![1, 2, 0, 0, 0, 0, 0, 0]);
}

#[test]
fn lagrange_weights_recover_the_constant_term() {
    // the values of 11 + 4x + 9x^2 at 2, 5 and 7
    let ids = vec![id(2), id(5), id(7)];
    let value = |x: u64| (11 + 4 * x + 9 * x * x) % Q;
    let mut sum = 0;
    for (k, x) in [2u64, 5, 7].iter().enumerate() {
        let lambda = ok(compute_lagrange_coefficient(&ids, &ids[k]));
        sum = (sum + lambda * value(*x)) % Q;
    }
    assert_eq!(sum, 11);
    // the weights add up to one, and weighted by the points to zero
    let lambdas: Vec<u64> =
        ids.iter().map(|i| ok(compute_lagrange_coefficient(&ids, i))).collect();
    assert_eq!(lambdas.iter().sum::<u64>() % Q, 1);
    let first: u64 =
        lambdas.iter().zip([2u64, 5, 7]).map(|(l, x)| l * x % Q).sum::<u64>() % Q;
    assert_eq!(first, 0);
}

#[test]
fn aggregation_identity_on_a_session() {
    let dealt = deal(31337, 4, 3, 60);
    let session = run_session(&dealt, &[4, 1, 2], b"identity", 61);
    let signature = ok(aggregate(&session.package, &session.shares, &dealt.pubkeys));
    let c = challenge::<Toy>(&signature.R, &dealt.pubkeys.group_public.element, b"identity");
    let mut weighted = 0;
    for share in &session.shares {
        let lambda = ok(derive_lagrange_coeff(&share.identifier, &session.package));
        let y = match dealt.pubkeys.signer_pubkey(&share.identifier) {
            Some(v) => v.element,
            None => panic!("signer unknown"),
        };
        weighted = (weighted + lambda * y) % Q;
    }
    // z B = R + c sum(lambda_i Y_i)
    assert_eq!(ToyGroup::mul(1, signature.z), (signature.R + c * weighted) % Q);
}

#[test]
fn participant_uses_nonces_once() {
    let dealt = deal(31337, 3, 2, 62);
    let mut rng = StdRng::seed_from_u64(63);
    let kp1 = dealt.packages[0];
    let kp3 = dealt.packages[2];
    let (p1, c1) = Participant::<Toy>::Idle.commit(
        kp1.identifier,
        &kp1.secret_share,
        &random_bytes(&mut rng),
        &random_bytes(&mut rng),
    );
    let (p3, c3) = Participant::<Toy>::Idle.commit(
        kp3.identifier,
        &kp3.secret_share,
        &random_bytes(&mut rng),
        &random_bytes(&mut rng),
    );
    assert!(matches!(p1, Participant::Committed(_)));
    let (c1, c3) = match (c1, c3) {
        (Some(a), Some(b)) => (a, b),
        _ => panic!("no commitments"),
    };
    // a second commit in the committed state draws nothing
    let (p1, none) = p1.commit(kp1.identifier, &kp1.secret_share, &[0; 32], &[1; 32]);
    assert!(none.is_none());
    assert!(matches!(p1, Participant::Committed(_)));
    let package = SigningPackage::new(vec![c3, c1], b"once".to_vec());
    let (p1, s1) = p1.sign(&package, &kp1);
    let (p3, s3) = p3.sign(&package, &kp3);
    assert!(matches!(p1, Participant::Signed));
    let shares = match (s1, s3) {
        (Some(Ok(a)), Some(Ok(b))) => vec![a, b],
        _ => panic!("no shares"),
    };
    let signature = ok(aggregate(&package, &shares, &dealt.pubkeys));
    assert!(verifies(&dealt, b"once", &signature));
    // the nonces are gone: there is nothing to sign with
    let (p1, nothing) = p1.sign(&package, &kp1);
    assert!(nothing.is_none());
    assert!(matches!(p1, Participant::Signed));
    assert!(matches!(p1.finish(), Participant::Idle));
    assert!(matches!(p3.finish(), Participant::Idle));
    let (idle, nothing) = Participant::<Toy>::Idle.sign(&package, &kp1);
    assert!(nothing.is_none());
    assert!(matches!(idle, Participant::Idle));
    assert!(matches!(idle.finish(), Participant::Idle));
}

#[test]
fn participant_drops_nonces_on_failure() {
    let dealt = deal(31337, 3, 2, 64);
    let mut rng = StdRng::seed_from_u64(65);
    let kp1 = dealt.packages[0];
    let (p1, _) = Participant::<Toy>::Idle.commit(
        kp1.identifier,
        &kp1.secret_share,
        &random_bytes(&mut rng),
        &random_bytes(&mut rng),
    );
    // a package without the signer's commitment
    let package = SigningPackage::new(vec![commitments(2, 20, 21)], b"m".to_vec());
    let (p1, outcome) = p1.sign(&package, &kp1);
    assert!(matches!(outcome, Some(Err(Error::MissingCommitment))));
    assert!(matches!(p1, Participant::Idle));
}

#[test]
fn lagrange_reports_a_repeated_point() {
    let ids = vec![id(1), id(2), id(1)];
    assert!(matches!(
        compute_lagrange_coefficient(&ids, &id(1)),
        Err(Error::DuplicateIdentifier)
    ));
    // 1 * 1 over (1 - 2) * (1 - 2)
    assert_eq!(ok(compute_lagrange_coefficient(&ids, &id(2))), 1);
    // a point that is not among the points: 1 * 2 over (1 - 3) * (2 - 3)
    assert_eq!(ok(compute_lagrange_coefficient(&vec![id(1), id(2)], &id(3))), 1);
    assert_eq!(ok(compute_lagrange_coefficient(&Vec::new(), &id(3))), 1);
}

#[test]
fn invalid_signature_is_refused() {
    let dealt = deal(31337, 3, 2, 70);
    let session = run_session(&dealt, &[2, 3], b"hello", 71);
    let signature = ok(aggregate(&session.package, &session.shares, &dealt.pubkeys));
    assert!(matches!(dealt.pubkeys.group_public.verify(b"hello", &signature), Ok(())));
    let forged = Signature::<Toy> { R: signature.R, z: (signature.z + 1) % Q };
    assert!(matches!(
        dealt.pubkeys.group_public.verify(b"hello", &forged),
        Err(Error::InvalidSignature)
    ));
    let moved = Signature::<Toy> { R: (signature.R + 1) % Q, z: signature.z };
    assert!(matches!(
        dealt.pubkeys.group_public.verify(b"hello", &moved),
        Err(Error::InvalidSignature)
    ));
}

#[test]
fn largest_number_of_signers() {
    let dealt = deal(99, 65535, 2, 72);
    assert_eq!(dealt.packages.len(), 65535);
    assert_eq!(dealt.packages[65534].identifier.to_scalar(), 65535);
    let session = run_session(&dealt, &[65535, 1], b"m", 73);
    let signature = ok(aggregate(&session.package, &session.shares, &dealt.pubkeys));
    assert!(verifies(&dealt, b"m", &signature));
    let two = vec![dealt.packages[65534], dealt.packages[4095]];
    assert_eq!(ok(reconstruct(&two)).scalar, 99);
}
