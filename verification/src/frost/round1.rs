//! Round one: every signer derives two nonces from fresh randomness and
//! publishes commitments to them.

use vstd::prelude::*;

use crate::bytes::append;
use crate::ciphersuite::Ciphersuite;
use crate::ciphersuite::Element;
use crate::ciphersuite::Field;
use crate::ciphersuite::Group;
use crate::ciphersuite::Scalar;
use crate::ciphersuite::encode_element;
use crate::ciphersuite::encode_scalar;
use crate::ciphersuite::index;
use crate::ciphersuite::order;
use crate::ciphersuite::value;
use crate::frost::identifier::Identifier;
use crate::frost::keys::SigningShare;

verus! {

/// A secret nonce.
#[derive(Clone, Copy)]
pub struct Nonce<C: Ciphersuite> {
    pub scalar: Scalar<C>,
}

impl<C: Ciphersuite> View for Nonce<C> {
    type V = nat;

    /// The integer that the nonce stands for.
    open spec fn view(&self) -> nat {
        value::<C>(self.scalar)
    }
}

/// The nonce that `random_bytes` and a signing share of value `secret` give:
/// the nonce hash of the random bytes followed by the serialized share.
pub open spec fn nonce_value<C: Ciphersuite>(random_bytes: Seq<u8>, secret: nat) -> nat {
    C::h3(random_bytes + encode_scalar::<C>(secret))
}

impl<C: Ciphersuite> Nonce<C> {
    /// The nonce derived from random bytes and the signer's share. Hashing
    /// the share in hedges against a weak randomness source.
    pub fn from_random_bytes(secret: &SigningShare<C>, random_bytes: &[u8]) -> (r: Self)
        ensures
            r@ == nonce_value::<C>(random_bytes@, secret@),
    {
        let mut input: Vec<u8> = Vec::new();
        append(&mut input, random_bytes);
        let share = secret.serialize();
        append(&mut input, share.as_slice());
        assert(input@ =~= random_bytes@ + encode_scalar::<C>(secret@));
        Nonce { scalar: C::H3(input.as_slice()) }
    }
}

/// The public commitment to a nonce: the generator times the nonce.
#[derive(Clone, Copy)]
pub struct NonceCommitment<C: Ciphersuite> {
    pub element: Element<C>,
}

impl<C: Ciphersuite> View for NonceCommitment<C> {
    type V = nat;

    /// The multiple of the generator that the commitment stands for.
    open spec fn view(&self) -> nat {
        index::<C>(self.element)
    }
}

impl<C: Ciphersuite> NonceCommitment<C> {
    /// The commitment to a nonce.
    pub fn from(nonce: &Nonce<C>) -> (r: Self)
        ensures
            r@ == nonce@,
    {
        let generator = <C::Group as Group>::generator();
        let element = <C::Group as Group>::mul(generator, nonce.scalar);
        proof {
            <<C::Group as Group>::Field as Field>::lemma_value_below_order(nonce.scalar);
            assert(1 * nonce@ == nonce@);
            vstd::arithmetic::div_mod::lemma_small_mod(nonce@, order::<C>());
        }
        NonceCommitment { element }
    }
}

/// The two nonces a signer keeps for one signing operation. They must be
/// used once and never again: a second use reveals the signer's share.
pub struct SigningNonces<C: Ciphersuite> {
    pub hiding: Nonce<C>,
    pub binding: Nonce<C>,
}

impl<C: Ciphersuite> SigningNonces<C> {
    /// The nonces derived from two strings of random bytes and the signer's
    /// share. The random bytes must be fresh from a cryptographic source.
    pub fn from_random_bytes(
        secret: &SigningShare<C>,
        hiding_randomness: &[u8],
        binding_randomness: &[u8],
    ) -> (r: Self)
        ensures
            r.hiding@ == nonce_value::<C>(hiding_randomness@, secret@),
            r.binding@ == nonce_value::<C>(binding_randomness@, secret@),
    {
        let hiding = Nonce::from_random_bytes(secret, hiding_randomness);
        let binding = Nonce::from_random_bytes(secret, binding_randomness);
        SigningNonces { hiding, binding }
    }
}

/// What a signer publishes in round one, as plain numbers: the identifier
/// and the multiples of the generator that the two commitments stand for.
pub struct CommitmentView {
    pub id: nat,
    pub hiding: nat,
    pub binding: nat,
}

/// What a signer publishes in round one: commitments to both nonces, under
/// the signer's identifier.
#[derive(Clone, Copy)]
pub struct SigningCommitments<C: Ciphersuite> {
    pub identifier: Identifier<C>,
    pub hiding: NonceCommitment<C>,
    pub binding: NonceCommitment<C>,
}

impl<C: Ciphersuite> View for SigningCommitments<C> {
    type V = CommitmentView;

    open spec fn view(&self) -> CommitmentView {
        CommitmentView { id: self.identifier@, hiding: self.hiding@, binding: self.binding@ }
    }
}

/// The views of a list of commitments.
pub open spec fn commitment_views<C: Ciphersuite>(
    list: Seq<SigningCommitments<C>>,
) -> Seq<CommitmentView> {
    Seq::new(list.len(), |i: int| list[i]@)
}

impl<C: Ciphersuite> SigningCommitments<C> {
    /// The commitments of the signer `identifier` to the given nonces.
    pub fn from(identifier: Identifier<C>, nonces: &SigningNonces<C>) -> (r: Self)
        ensures
            r@ == (CommitmentView {
                id: identifier@,
                hiding: nonces.hiding@,
                binding: nonces.binding@,
            }),
    {
        SigningCommitments {
            identifier,
            hiding: NonceCommitment::from(&nonces.hiding),
            binding: NonceCommitment::from(&nonces.binding),
        }
    }

    /// This signer's part of the group commitment under the binding factor
    /// `rho`: the hiding commitment plus `rho` times the binding commitment.
    pub fn to_group_commitment_share(&self, rho: Scalar<C>) -> (r: Element<C>)
        ensures
            index::<C>(r) == commitment_share(self@, value::<C>(rho)) % order::<C>(),
    {
        let bound = <C::Group as Group>::mul(self.binding.element, rho);
        let share = <C::Group as Group>::add(self.hiding.element, bound);
        proof {
            <C::Group as Group>::lemma_index_below_order(self.hiding.element);
            crate::algebra::lemma_add_mod(
                self.hiding@,
                self.binding@ * value::<C>(rho),
                order::<C>(),
            );
            assert(self.binding@ * value::<C>(rho) == value::<C>(rho) * self.binding@)
                by (nonlinear_arith);
        }
        share
    }
}

/// One signer's part of the group commitment, before reduction: the hiding
/// commitment plus `rho` times the binding commitment.
pub open spec fn commitment_share(c: CommitmentView, rho: nat) -> nat {
    c.hiding + rho * c.binding
}

/// The encoding of a list of commitments: for each in turn, the serialized
/// identifier, hiding commitment and binding commitment.
pub open spec fn encoded_commitments<C: Ciphersuite>(list: Seq<CommitmentView>) -> Seq<u8>
    decreases list.len(),
{
    if list.len() == 0 {
        Seq::<u8>::empty()
    } else {
        encoded_commitments::<C>(list.drop_last()) + encode_scalar::<C>(list.last().id)
            + encode_element::<C>(list.last().hiding) + encode_element::<C>(list.last().binding)
    }
}

/// Encodes a list of commitments for the transcript, in the order given.
pub fn encode_group_commitments<C: Ciphersuite>(list: &Vec<SigningCommitments<C>>) -> (r: Vec<u8>)
    ensures
        r@ == encoded_commitments::<C>(commitment_views(list@)),
{
    let mut out: Vec<u8> = Vec::new();
    let mut i: usize = 0;
    assert(commitment_views(list@).take(0) =~= Seq::<CommitmentView>::empty());
    while i < list.len()
        invariant
            i <= list.len(),
            out@ == encoded_commitments::<C>(commitment_views(list@).take(i as int)),
        decreases list.len() - i,
    {
        let c = list[i];
        let id = c.identifier.serialize();
        let hiding = <C::Group as Group>::serialize(c.hiding.element);
        let binding = <C::Group as Group>::serialize(c.binding.element);
        append(&mut out, id.as_slice());
        append(&mut out, hiding.as_slice());
        append(&mut out, binding.as_slice());
        proof {
            let views = commitment_views(list@);
            assert(views.take(i as int + 1).drop_last() =~= views.take(i as int));
            assert(views.take(i as int + 1).last() == list[i as int]@);
        }
        i = i + 1;
    }
    assert(commitment_views(list@).take(i as int) =~= commitment_views(list@));
    out
}

/// Performed once by each signer selected for a signing operation: derives
/// the nonces to keep from fresh random bytes and the signer's share, and
/// the commitments to publish from the nonces.
pub fn commit<C: Ciphersuite>(
    identifier: Identifier<C>,
    secret: &SigningShare<C>,
    hiding_randomness: &[u8],
    binding_randomness: &[u8],
) -> (r: (SigningNonces<C>, SigningCommitments<C>))
    ensures
        r.0.hiding@ == nonce_value::<C>(hiding_randomness@, secret@),
        r.0.binding@ == nonce_value::<C>(binding_randomness@, secret@),
        r.1@ == (CommitmentView { id: identifier@, hiding: r.0.hiding@, binding: r.0.binding@ }),
{
    let nonces = SigningNonces::from_random_bytes(secret, hiding_randomness, binding_randomness);
    let commitments = SigningCommitments::from(identifier, &nonces);
    (nonces, commitments)
}

} // verus!
