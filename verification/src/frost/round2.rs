//! Round two: every signer computes a share of the signature.

use vstd::prelude::*;

use crate::algebra::lagrange_coefficient;
use crate::algebra::lemma_add_mod;
use crate::algebra::lemma_mul_mod;
use crate::ciphersuite::Ciphersuite;
use crate::ciphersuite::Element;
use crate::ciphersuite::Field;
use crate::ciphersuite::Group;
use crate::ciphersuite::Scalar;
use crate::ciphersuite::index;
use crate::ciphersuite::order;
use crate::ciphersuite::value;
use crate::error::Error;
use crate::frost::GroupCommitment;
use crate::frost::Rho;
use crate::frost::SigningPackage;
use crate::frost::binding_factor;
use crate::frost::commitment_sum;
use crate::frost::derive_lagrange_coeff;
use crate::frost::has_identifier;
use crate::frost::has_identity_commitment;
use crate::frost::identifier::Identifier;
use crate::frost::identifiers_of;
use crate::frost::keys::KeyPackage;
use crate::frost::keys::VerifyingShare;
use crate::frost::round1::SigningNonces;
use crate::signature::challenge;
use crate::signature::challenge_value;

verus! {

/// The signature share of a signer, before reduction: the hiding nonce, plus
/// the binding factor times the binding nonce, plus the Lagrange coefficient
/// times the signing share times the challenge.
pub open spec fn signature_share_value(
    hiding: nat,
    binding: nat,
    rho: nat,
    lambda: nat,
    secret: nat,
    challenge: nat,
) -> nat {
    hiding + rho * binding + lambda * secret * challenge
}

/// Whether the share `z` of a signer verifies: `z` times the generator is
/// the signer's part of the group commitment plus the challenge times the
/// Lagrange coefficient times the signer's verifying share.
pub open spec fn share_verifies(
    z: nat,
    commitment_share: nat,
    verifying_share: nat,
    lambda: nat,
    challenge: nat,
    n: nat,
) -> bool {
    z % n == (commitment_share + challenge * lambda * verifying_share) % n
}

/// A signer's share of the signature, which the coordinator aggregates with
/// the shares of the other signers.
#[derive(Clone, Copy)]
pub struct SignatureShare<C: Ciphersuite> {
    pub identifier: Identifier<C>,
    pub share: Scalar<C>,
}

impl<C: Ciphersuite> View for SignatureShare<C> {
    type V = (nat, nat);

    /// The signer's identifier and the integer that the share stands for.
    open spec fn view(&self) -> (nat, nat) {
        (self.identifier@, value::<C>(self.share))
    }
}

impl<C: Ciphersuite> SignatureShare<C> {
    /// Tests the share against the signer's part of the group commitment,
    /// the signer's verifying share, the Lagrange coefficient and the
    /// challenge.
    pub fn verify(
        &self,
        group_commitment_share: &Element<C>,
        public_key: &VerifyingShare<C>,
        lambda_i: Scalar<C>,
        challenge: &Scalar<C>,
    ) -> (r: Result<(), Error<C>>)
        ensures
            share_verifies(
                self@.1,
                index::<C>(*group_commitment_share),
                public_key@,
                value::<C>(lambda_i),
                value::<C>(*challenge),
                order::<C>(),
            ) ==> r is Ok,
            !share_verifies(
                self@.1,
                index::<C>(*group_commitment_share),
                public_key@,
                value::<C>(lambda_i),
                value::<C>(*challenge),
                order::<C>(),
            ) ==> r is Err && r->Err_0 is InvalidSignatureShare
                && r->Err_0->InvalidSignatureShare_0@ == self@.0,
    {
        let generator = <C::Group as Group>::generator();
        let left = <C::Group as Group>::mul(generator, self.share);
        let factor = <<C::Group as Group>::Field as Field>::mul(*challenge, lambda_i);
        let scaled = <C::Group as Group>::mul(public_key.element, factor);
        let right = <C::Group as Group>::add(*group_commitment_share, scaled);
        proof {
            let n = order::<C>();
            let c = value::<C>(*challenge);
            let l = value::<C>(lambda_i);
            <<C::Group as Group>::Field as Field>::lemma_order_above_u16();
            <C::Group as Group>::lemma_index_below_order(*group_commitment_share);
            assert(1 * self@.1 == self@.1);
            lemma_mul_mod(c * l, public_key@, n);
            assert(public_key@ * ((c * l) % n) == ((c * l) % n) * public_key@)
                by (nonlinear_arith);
            lemma_add_mod(index::<C>(*group_commitment_share), c * l * public_key@, n);
        }
        if <C::Group as Group>::equals(left, right) {
            Ok(())
        } else {
            Err(Error::InvalidSignatureShare(self.identifier))
        }
    }
}

/// Whether `r` is what round two gives the signer `id` for the package with
/// the commitments `list` and the message `message`: a refusal where the
/// signer's commitment is missing, where a commitment is the identity or
/// where the group commitment is the identity, and else the signer's share.
pub open spec fn is_signing_outcome<C: Ciphersuite>(
    list: Seq<crate::frost::round1::CommitmentView>,
    message: Seq<u8>,
    hiding: nat,
    binding: nat,
    id: nat,
    secret: nat,
    key: nat,
    r: Result<SignatureShare<C>, Error<C>>,
) -> bool {
    let n = order::<C>();
    let rho = binding_factor::<C>(list, message);
    let commitment = commitment_sum(list, rho) % n;
    if !has_identifier(list, id) {
        r is Err && r->Err_0 is MissingCommitment
    } else if has_identity_commitment(list) {
        r is Err && r->Err_0 is IdentityCommitment
    } else if commitment == 0 {
        r is Err && r->Err_0 is InvalidGroupCommitment
    } else {
        r is Ok && r->Ok_0@ == (
            id,
            signature_share_value(
                hiding,
                binding,
                rho,
                lagrange_coefficient(identifiers_of(list), id, n),
                secret,
                challenge_value::<C>(commitment, key, message),
            ) % n,
        )
    }
}

/// Performed once by each signer selected for a signing operation: computes
/// the signer's share of the signature on the message of the package.
///
/// The signer's own commitment must be in the package. The nonces must be
/// the ones behind that commitment, and must never be used again.
pub fn sign<C: Ciphersuite>(
    signing_package: &SigningPackage<C>,
    signer_nonces: &SigningNonces<C>,
    key_package: &KeyPackage<C>,
) -> (r: Result<SignatureShare<C>, Error<C>>)
    ensures
        is_signing_outcome::<C>(
            signing_package.commitments(),
            signing_package.message_view(),
            signer_nonces.hiding@,
            signer_nonces.binding@,
            key_package.identifier@,
            key_package.secret_share@,
            key_package.group_public@,
            r,
        ),
{
    if signing_package.find_signing_commitment(&key_package.identifier).is_none() {
        return Err(Error::MissingCommitment);
    }
    let rho = Rho::from(signing_package);
    let group_commitment = match GroupCommitment::try_from(signing_package) {
        Ok(commitment) => commitment,
        Err(e) => {
            return Err(e);
        },
    };
    let identity = <C::Group as Group>::identity();
    if <C::Group as Group>::equals(group_commitment.element, identity) {
        return Err(Error::InvalidGroupCommitment);
    }
    let c = challenge::<C>(
        &group_commitment.element,
        &key_package.group_public.element,
        signing_package.message().as_slice(),
    );
    let lambda_i = match derive_lagrange_coeff(&key_package.identifier, signing_package) {
        Ok(lambda) => lambda,
        Err(e) => {
            return Err(e);
        },
    };
    let bound = <<C::Group as Group>::Field as Field>::mul(signer_nonces.binding.scalar, rho.scalar);
    let keyed = <<C::Group as Group>::Field as Field>::mul(lambda_i, key_package.secret_share.scalar);
    let keyed = <<C::Group as Group>::Field as Field>::mul(keyed, c);
    let sum = <<C::Group as Group>::Field as Field>::add(signer_nonces.hiding.scalar, bound);
    let share = <<C::Group as Group>::Field as Field>::add(sum, keyed);
    proof {
        let n = order::<C>();
        let d = signer_nonces.hiding@;
        let e = signer_nonces.binding@;
        let l = value::<C>(lambda_i);
        let s = key_package.secret_share@;
        let cv = value::<C>(c);
        <<C::Group as Group>::Field as Field>::lemma_order_above_u16();
        assert(e * rho@ == rho@ * e) by (nonlinear_arith);
        lemma_mul_mod(l * s, cv, n);
        lemma_add_mod(d, rho@ * e, n);
        lemma_add_mod(d + rho@ * e, l * s * cv, n);
        lemma_add_mod((d + rho@ * e) % n, l * s * cv, n);
    }
    Ok(SignatureShare { identifier: key_package.identifier, share })
}

} // verus!
