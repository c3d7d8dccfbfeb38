//! Schnorr signatures and their verification under the group's public key.

use vstd::prelude::*;

use crate::algebra::lemma_add_mod;
use crate::bytes::append;
use crate::ciphersuite::Ciphersuite;
use crate::ciphersuite::Element;
use crate::ciphersuite::Field;
use crate::ciphersuite::Group;
use crate::ciphersuite::Scalar;
use crate::ciphersuite::encode_element;
use crate::ciphersuite::encode_scalar;
use crate::ciphersuite::index;
use crate::ciphersuite::order;
use crate::ciphersuite::value;
use crate::error::Error;
use crate::frost::keys::VerifyingKey;

verus! {

/// The challenge of a signature: the hash of the serialized group
/// commitment, the serialized public key and the message. `commitment` and
/// `key` are the multiples of the generator that the two elements stand for.
pub open spec fn challenge_value<C: Ciphersuite>(
    commitment: nat,
    key: nat,
    message: Seq<u8>,
) -> nat {
    C::h2(encode_element::<C>(commitment) + encode_element::<C>(key) + message)
}

/// Whether the signature `(commitment, z)` on `message` verifies under
/// `key`: `z` times the generator is the commitment plus the challenge times
/// the key.
pub open spec fn signature_verifies<C: Ciphersuite>(
    commitment: nat,
    z: nat,
    key: nat,
    message: Seq<u8>,
) -> bool {
    z % order::<C>() == (commitment + challenge_value::<C>(commitment, key, message) * key)
        % order::<C>()
}

/// Computes the challenge of a signature.
pub fn challenge<C: Ciphersuite>(
    commitment: &Element<C>,
    verifying_key: &Element<C>,
    message: &[u8],
) -> (r: Scalar<C>)
    ensures
        value::<C>(r) == challenge_value::<C>(
            index::<C>(*commitment),
            index::<C>(*verifying_key),
            message@,
        ),
{
    let mut preimage: Vec<u8> = Vec::new();
    let commitment_bytes = <C::Group as Group>::serialize(*commitment);
    let key_bytes = <C::Group as Group>::serialize(*verifying_key);
    append(&mut preimage, commitment_bytes.as_slice());
    append(&mut preimage, key_bytes.as_slice());
    append(&mut preimage, message);
    C::H2(preimage.as_slice())
}

/// A Schnorr signature: the group commitment `R` and the response `z`.
#[derive(Clone, Copy)]
#[allow(non_snake_case)]
pub struct Signature<C: Ciphersuite> {
    pub R: Element<C>,
    pub z: Scalar<C>,
}

impl<C: Ciphersuite> Signature<C> {
    /// The multiple of the generator that the group commitment stands for.
    pub open spec fn commitment(&self) -> nat {
        index::<C>(self.R)
    }

    /// The integer that the response stands for.
    pub open spec fn response(&self) -> nat {
        value::<C>(self.z)
    }

    /// The serialization of the signature: the group commitment, then the
    /// response.
    pub fn serialize(&self) -> (r: Vec<u8>)
        ensures
            r@ == encode_element::<C>(self.commitment()) + encode_scalar::<C>(self.response()),
    {
        let mut bytes = <C::Group as Group>::serialize(self.R);
        let response = <<C::Group as Group>::Field as Field>::serialize(self.z);
        append(&mut bytes, response.as_slice());
        bytes
    }
}

impl<C: Ciphersuite> VerifyingKey<C> {
    /// Verifies a signature on a message under this key, as a plain Schnorr
    /// verifier does.
    pub fn verify(&self, message: &[u8], signature: &Signature<C>) -> (r: Result<(), Error<C>>)
        ensures
            signature_verifies::<C>(signature.commitment(), signature.response(), self@, message@)
                ==> r is Ok,
            !signature_verifies::<C>(
                signature.commitment(),
                signature.response(),
                self@,
                message@,
            ) ==> r is Err && r->Err_0 is InvalidSignature,
    {
        let c = challenge::<C>(&signature.R, &self.element, message);
        let generator = <C::Group as Group>::generator();
        let left = <C::Group as Group>::mul(generator, signature.z);
        let scaled_key = <C::Group as Group>::mul(self.element, c);
        let right = <C::Group as Group>::add(signature.R, scaled_key);
        proof {
            <<C::Group as Group>::Field as Field>::lemma_order_above_u16();
            <C::Group as Group>::lemma_index_below_order(signature.R);
            assert(1 * signature.response() == signature.response());
            assert(self@ * value::<C>(c) == value::<C>(c) * self@) by (nonlinear_arith);
            lemma_add_mod(signature.commitment(), value::<C>(c) * self@, order::<C>());
        }
        if <C::Group as Group>::equals(left, right) {
            Ok(())
        } else {
            Err(Error::InvalidSignature)
        }
    }
}

} // verus!
