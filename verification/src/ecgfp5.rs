//! The ecGFp5 ciphersuite with Poseidon-256: what it fixes of byte strings
//! before the curve, the scalar field and the Poseidon permutation come in.
//!
//! A hash of the ciphersuite is Poseidon over the field-packed bytes of the
//! context string, a tag and the message. A group element is serialized as
//! the five 64-bit limbs of its encoding in the base field, little-endian.

use vstd::bytes::lemma_auto_spec_u64_to_from_le_bytes;
use vstd::bytes::spec_u64_from_le_bytes;
use vstd::bytes::spec_u64_to_le_bytes;
use vstd::bytes::u64_from_le_bytes;
use vstd::bytes::u64_to_le_bytes;
use vstd::prelude::*;
use vstd::slice::slice_subrange;
use vstd::string::StringSliceAdditionalSpecFns;

use crate::bytes::append;
use crate::ciphersuite::FieldError;
use crate::ciphersuite::GroupError;

verus! {

/// The context string, which starts every hash input of the ciphersuite.
pub const CONTEXT_STRING: &'static str = "FROST-ECGFP5-POSEIDON256-v1";

/// The order of the Goldilocks field, over which the base field of the
/// curve is built.
pub const GOLDILOCKS_ORDER: u64 = 0xffff_ffff_0000_0001;

/// The width of the Poseidon permutation, in field elements.
pub const PERMUTATION_WIDTH: usize = 12;

/// The length of a serialized scalar, and of a serialized group element.
pub const SERIALIZED_LEN: usize = 40;

/// The bytes that a hash with the given tag takes in for a message: the
/// context string, the tag, the message.
pub open spec fn domain_separated(tag: Seq<u8>, message: Seq<u8>) -> Seq<u8> {
    CONTEXT_STRING.spec_bytes() + tag + message
}

/// The field elements that a byte string is packed into: one for each byte.
pub open spec fn packed(bytes: Seq<u8>) -> Seq<u64> {
    Seq::new(bytes.len(), |i: int| bytes[i] as u64)
}

/// The number of zeros that the padding puts between its two ones, so that
/// the padded length is a multiple of the permutation width.
pub open spec fn padding_zeros(len: nat) -> nat {
    ((PERMUTATION_WIDTH - (len + 2) % (PERMUTATION_WIDTH as nat)) % (PERMUTATION_WIDTH as int))
        as nat
}

/// The elements after padding: a one, as few zeros as make the length a
/// multiple of the permutation width, and a one.
pub open spec fn padded(elements: Seq<u64>) -> Seq<u64> {
    elements + seq![1u64] + Seq::new(padding_zeros(elements.len()), |i: int| 0u64) + seq![1u64]
}

/// What the sponge takes in for a hash to a digest: the packed input. The
/// permutation's own padded hash is applied to it.
pub open spec fn digest_input(tag: Seq<u8>, message: Seq<u8>) -> Seq<u64> {
    packed(domain_separated(tag, message))
}

/// What the sponge takes in for a hash to a scalar: the packed input,
/// padded. Five elements are squeezed out and reduced modulo the group
/// order.
pub open spec fn scalar_hash_input(tag: Seq<u8>, message: Seq<u8>) -> Seq<u64> {
    padded(packed(domain_separated(tag, message)))
}

/// Whether the hash input for a message under a tag, once padded, has a
/// length that the machine can hold.
pub open spec fn fits(tag: Seq<u8>, message: Seq<u8>) -> bool {
    CONTEXT_STRING.spec_bytes().len() + tag.len() + message.len() + 13 <= usize::MAX
}

/// The limb at place `i` of a serialized element or scalar.
pub open spec fn limb_at(bytes: Seq<u8>, i: int) -> u64 {
    spec_u64_from_le_bytes(bytes.subrange(8 * i, 8 * i + 8))
}

/// The five limbs of a serialized element or scalar.
pub open spec fn limbs_of(bytes: Seq<u8>) -> Seq<u64> {
    Seq::new(5, |i: int| limb_at(bytes, i))
}

/// The serialization of five limbs: each in little-endian bytes, the least
/// significant limb first.
pub open spec fn bytes_of(limbs: Seq<u64>) -> Seq<u8> {
    spec_u64_to_le_bytes(limbs[0]) + spec_u64_to_le_bytes(limbs[1]) + spec_u64_to_le_bytes(
        limbs[2],
    ) + spec_u64_to_le_bytes(limbs[3]) + spec_u64_to_le_bytes(limbs[4])
}

/// Whether five limbs are canonical elements of the Goldilocks field.
pub open spec fn is_canonical(limbs: Seq<u64>) -> bool {
    forall|i: int| 0 <= i < 5 ==> #[trigger] limbs[i] < GOLDILOCKS_ORDER
}

/// Whether five limbs are all zero, which is the encoding of the neutral
/// element.
pub open spec fn is_zero(limbs: Seq<u64>) -> bool {
    forall|i: int| 0 <= i < 5 ==> #[trigger] limbs[i] == 0
}

/// The scalar field of ecGFp5.
#[derive(Clone, Copy)]
pub struct EcGFp5ScalarField;

impl EcGFp5ScalarField {
    /// Frames the bytes of a serialized scalar: there must be forty.
    pub fn frame(buf: &[u8]) -> (r: Result<[u8; 40], FieldError>)
        ensures
            buf@.len() == 40 ==> r is Ok && r->Ok_0@ == buf@,
            buf@.len() != 40 ==> r == Err::<[u8; 40], FieldError>(FieldError::MalformedScalar),
    {
        if buf.len() != SERIALIZED_LEN {
            return Err(FieldError::MalformedScalar);
        }
        let mut out = [0u8;40];
        let mut i: usize = 0;
        while i < 40
            invariant
                i <= 40,
                buf@.len() == 40,
                forall|k: int| 0 <= k < i ==> out@[k] == buf@[k],
            decreases 40 - i,
        {
            out[i] = buf[i];
            i = i + 1;
        }
        assert(out@ =~= buf@);
        Ok(out)
    }

    /// Accepts a decoded scalar where the decoder found the integer below
    /// the group order, which it signals by a flag of all ones.
    pub fn accept(limbs: [u64; 5], in_range: u64) -> (r: Result<[u64; 5], FieldError>)
        ensures
            in_range == u64::MAX ==> r == Ok::<[u64; 5], FieldError>(limbs),
            in_range != u64::MAX ==> r == Err::<[u64; 5], FieldError>(
                FieldError::MalformedScalar,
            ),
    {
        if in_range == u64::MAX {
            Ok(limbs)
        } else {
            Err(FieldError::MalformedScalar)
        }
    }
}

/// The group of ecGFp5.
#[derive(Clone, Copy)]
pub struct EcGFp5Group;

impl EcGFp5Group {
    /// The limbs of a serialized element. There must be forty bytes, and
    /// every limb must be a canonical element of the Goldilocks field; the
    /// encoding of the neutral element is refused.
    pub fn element_limbs(buf: &[u8]) -> (r: Result<[u64; 5], GroupError>)
        ensures
            ({
                let well_formed = buf@.len() == 40 && is_canonical(limbs_of(buf@));
                &&& !well_formed ==> r == Err::<[u64; 5], GroupError>(
                    GroupError::MalformedElement,
                )
                &&& well_formed && is_zero(limbs_of(buf@)) ==> r == Err::<[u64; 5], GroupError>(
                    GroupError::InvalidIdentityElement,
                )
                &&& well_formed && !is_zero(limbs_of(buf@)) ==> r is Ok && r->Ok_0@ == limbs_of(
                    buf@,
                )
            }),
    {
        if buf.len() != SERIALIZED_LEN {
            return Err(GroupError::MalformedElement);
        }
        let l0 = u64_from_le_bytes(slice_subrange(buf, 0, 8));
        let l1 = u64_from_le_bytes(slice_subrange(buf, 8, 16));
        let l2 = u64_from_le_bytes(slice_subrange(buf, 16, 24));
        let l3 = u64_from_le_bytes(slice_subrange(buf, 24, 32));
        let l4 = u64_from_le_bytes(slice_subrange(buf, 32, 40));
        let limbs = [l0, l1, l2, l3, l4];
        assert(limbs@ =~= limbs_of(buf@));
        if l0 >= GOLDILOCKS_ORDER || l1 >= GOLDILOCKS_ORDER || l2 >= GOLDILOCKS_ORDER || l3
            >= GOLDILOCKS_ORDER || l4 >= GOLDILOCKS_ORDER {
            return Err(GroupError::MalformedElement);
        }
        if l0 == 0 && l1 == 0 && l2 == 0 && l3 == 0 && l4 == 0 {
            return Err(GroupError::InvalidIdentityElement);
        }
        Ok(limbs)
    }

    /// The serialization of an element's limbs.
    pub fn element_bytes(limbs: &[u64; 5]) -> (r: Vec<u8>)
        ensures
            r@ == bytes_of(limbs@),
            r@.len() == 40,
    {
        let mut out: Vec<u8> = Vec::new();
        let b0 = u64_to_le_bytes(limbs[0]);
        let b1 = u64_to_le_bytes(limbs[1]);
        let b2 = u64_to_le_bytes(limbs[2]);
        let b3 = u64_to_le_bytes(limbs[3]);
        let b4 = u64_to_le_bytes(limbs[4]);
        append(&mut out, b0.as_slice());
        append(&mut out, b1.as_slice());
        append(&mut out, b2.as_slice());
        append(&mut out, b3.as_slice());
        append(&mut out, b4.as_slice());
        proof {
            lemma_auto_spec_u64_to_from_le_bytes();
            assert(out@ =~= bytes_of(limbs@));
        }
        out
    }
}

/// Serializing the limbs of an element and reading them back gives the same
/// limbs.
pub proof fn law_limbs_round_trip(limbs: Seq<u64>)
    requires
        limbs.len() == 5,
    ensures
        bytes_of(limbs).len() == 40,
        limbs_of(bytes_of(limbs)) == limbs,
{
    lemma_auto_spec_u64_to_from_le_bytes();
    let bytes = bytes_of(limbs);
    assert forall|i: int| 0 <= i < 5 implies limb_at(bytes, i) == limbs[i] by {
        assert(bytes.subrange(8 * i, 8 * i + 8) =~= spec_u64_to_le_bytes(limbs[i]));
    }
    assert(limbs_of(bytes) =~= limbs);
}

/// The ciphersuite of ecGFp5 with Poseidon-256.
#[derive(Clone, Copy)]
pub struct EcGFp5Poseidon256;

impl EcGFp5Poseidon256 {
    /// The bytes that a hash with the given tag takes in for a message.
    pub fn preimage(tag: &str, m: &[u8]) -> (r: Vec<u8>)
        ensures
            r@ == domain_separated(tag.spec_bytes(), m@),
    {
        let mut out: Vec<u8> = Vec::new();
        append(&mut out, CONTEXT_STRING.as_bytes());
        append(&mut out, tag.as_bytes());
        append(&mut out, m);
        out
    }

    /// Packs bytes into field elements, one for each byte.
    pub fn pack(bytes: &[u8]) -> (r: Vec<u64>)
        ensures
            r@ == packed(bytes@),
    {
        let mut out: Vec<u64> = Vec::new();
        let mut i: usize = 0;
        while i < bytes.len()
            invariant
                i <= bytes.len(),
                out@.len() == i,
                forall|k: int| 0 <= k < i ==> out@[k] == bytes@[k] as u64,
            decreases bytes.len() - i,
        {
            out.push(bytes[i] as u64);
            i = i + 1;
        }
        assert(out@ =~= packed(bytes@));
        out
    }

    /// Pads field elements for the sponge: a one, as few zeros as make the
    /// length a multiple of the permutation width, and a one.
    pub fn pad(elements: Vec<u64>) -> (r: Vec<u64>)
        requires
            elements@.len() + 13 <= usize::MAX,
        ensures
            r@ == padded(elements@),
            r@.len() % (PERMUTATION_WIDTH as nat) == 0,
    {
        let ghost start = elements@;
        let ghost wanted = padding_zeros(start.len());
        let mut out = elements;
        out.push(1);
        let mut zeros: usize = 0;
        while (out.len() + 1) % PERMUTATION_WIDTH != 0
            invariant
                zeros <= wanted,
                wanted == padding_zeros(start.len()),
                start.len() + 13 <= usize::MAX,
                out@ == start + seq![1u64] + Seq::new(zeros as nat, |i: int| 0u64),
            decreases wanted - zeros,
        {
            out.push(0);
            zeros = zeros + 1;
            assert(out@ =~= start + seq![1u64] + Seq::new(zeros as nat, |i: int| 0u64));
        }
        out.push(1);
        assert(out@ =~= padded(start));
        out
    }

    /// What the sponge takes in for a hash to a digest with the given tag.
    pub fn digest_elements(tag: &str, m: &[u8]) -> (r: Vec<u64>)
        ensures
            r@ == digest_input(tag.spec_bytes(), m@),
    {
        let bytes = Self::preimage(tag, m);
        Self::pack(bytes.as_slice())
    }

    /// What the sponge takes in for a hash to a scalar with the given tag.
    pub fn scalar_elements(tag: &str, m: &[u8]) -> (r: Option<Vec<u64>>)
        ensures
            r is Some == fits(tag.spec_bytes(), m@),
            r is Some ==> r->Some_0@ == scalar_hash_input(tag.spec_bytes(), m@),
    {
        let bytes = Self::preimage(tag, m);
        if bytes.len() > usize::MAX - 13 {
            return None;
        }
        let elements = Self::pack(bytes.as_slice());
        Some(Self::pad(elements))
    }

    /// The sponge input of H1, which yields the binding factor.
    pub fn h1_input(m: &[u8]) -> (r: Option<Vec<u64>>)
        ensures
            r is Some == fits("rho".spec_bytes(), m@),
            r is Some ==> r->Some_0@ == scalar_hash_input("rho".spec_bytes(), m@),
    {
        Self::scalar_elements("rho", m)
    }

    /// The sponge input of H2, which yields the challenge.
    pub fn h2_input(m: &[u8]) -> (r: Option<Vec<u64>>)
        ensures
            r is Some == fits("chal".spec_bytes(), m@),
            r is Some ==> r->Some_0@ == scalar_hash_input("chal".spec_bytes(), m@),
    {
        Self::scalar_elements("chal", m)
    }

    /// The sponge input of H3, which derives nonces.
    pub fn h3_input(m: &[u8]) -> (r: Option<Vec<u64>>)
        ensures
            r is Some == fits("nonce".spec_bytes(), m@),
            r is Some ==> r->Some_0@ == scalar_hash_input("nonce".spec_bytes(), m@),
    {
        Self::scalar_elements("nonce", m)
    }

    /// The sponge input of H4, the digest of a message.
    pub fn h4_input(m: &[u8]) -> (r: Vec<u64>)
        ensures
            r@ == digest_input("msg".spec_bytes(), m@),
    {
        Self::digest_elements("msg", m)
    }

    /// The sponge input of H5, the digest bound into the transcript.
    pub fn h5_input(m: &[u8]) -> (r: Vec<u64>)
        ensures
            r@ == digest_input("com".spec_bytes(), m@),
    {
        Self::digest_elements("com", m)
    }

    /// The sponge input of HDKG.
    pub fn hdkg_input(m: &[u8]) -> (r: Option<Vec<u64>>)
        ensures
            r is Some == fits("dkg".spec_bytes(), m@),
            r is Some ==> r->Some_0@ == scalar_hash_input("dkg".spec_bytes(), m@),
    {
        Self::scalar_elements("dkg", m)
    }

    /// The sponge input of HID.
    pub fn hid_input(m: &[u8]) -> (r: Option<Vec<u64>>)
        ensures
            r is Some == fits("id".spec_bytes(), m@),
            r is Some ==> r->Some_0@ == scalar_hash_input("id".spec_bytes(), m@),
    {
        Self::scalar_elements("id", m)
    }

    /// The sponge input of the randomizer hash.
    pub fn hash_randomizer_input(m: &[u8]) -> (r: Option<Vec<u64>>)
        ensures
            r is Some == fits("randomizer".spec_bytes(), m@),
            r is Some ==> r->Some_0@ == scalar_hash_input("randomizer".spec_bytes(), m@),
    {
        Self::scalar_elements("randomizer", m)
    }
}

} // verus!
