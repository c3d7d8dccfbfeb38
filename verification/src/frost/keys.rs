//! Key material: signing and verifying shares, key packages, and the
//! dealer that produces them by verifiable secret sharing.

use vstd::prelude::*;

use crate::algebra::lemma_add_mod;
use crate::algebra::lemma_mul_mod;
use crate::algebra::lemma_poly_eval_is_power_sum;
use crate::algebra::occurrences;
use crate::algebra::poly_eval;
use crate::algebra::power;
use crate::algebra::power_sum;
use crate::ciphersuite::Ciphersuite;
use crate::ciphersuite::Element;
use crate::ciphersuite::Field;
use crate::ciphersuite::Group;
use crate::ciphersuite::GroupError;
use crate::ciphersuite::Scalar;
use crate::ciphersuite::decoded_element;
use crate::ciphersuite::encode_element;
use crate::ciphersuite::encode_scalar;
use crate::ciphersuite::index;
use crate::ciphersuite::lemma_decoded_element;
use crate::ciphersuite::order;
use crate::ciphersuite::value;
use crate::error::Error;
use crate::frost::compute_lagrange_coefficient;
use crate::frost::identifier::Identifier;
use crate::interpolation::interpolation_sum;

verus! {

/// A participant's secret share of the group's signing key.
#[derive(Clone, Copy)]
pub struct SigningShare<C: Ciphersuite> {
    pub scalar: Scalar<C>,
}

impl<C: Ciphersuite> View for SigningShare<C> {
    type V = nat;

    /// The integer that the share stands for.
    open spec fn view(&self) -> nat {
        value::<C>(self.scalar)
    }
}

impl<C: Ciphersuite> SigningShare<C> {
    /// The share that a scalar stands for.
    pub fn new(scalar: Scalar<C>) -> (r: Self)
        ensures
            r@ == value::<C>(scalar),
    {
        SigningShare { scalar }
    }

    /// The canonical serialization of the share.
    pub fn serialize(&self) -> (r: Vec<u8>)
        ensures
            r@ == encode_scalar::<C>(self@),
    {
        <<C::Group as Group>::Field as Field>::serialize(self.scalar)
    }
}

/// The public counterpart of a signing share: the generator times the share.
#[derive(Clone, Copy)]
pub struct VerifyingShare<C: Ciphersuite> {
    pub element: Element<C>,
}

impl<C: Ciphersuite> View for VerifyingShare<C> {
    type V = nat;

    /// The multiple of the generator that the share stands for.
    open spec fn view(&self) -> nat {
        index::<C>(self.element)
    }
}

impl<C: Ciphersuite> VerifyingShare<C> {
    /// The verifying share of a signing share.
    pub fn from(secret: &SigningShare<C>) -> (r: Self)
        ensures
            r@ == secret@,
    {
        let generator = <C::Group as Group>::generator();
        let element = <C::Group as Group>::mul(generator, secret.scalar);
        proof {
            <<C::Group as Group>::Field as Field>::lemma_value_below_order(secret.scalar);
            assert(1 * secret@ == secret@);
            vstd::arithmetic::div_mod::lemma_small_mod(
                secret@,
                <<C::Group as Group>::Field as Field>::order(),
            );
        }
        VerifyingShare { element }
    }

    /// The canonical serialization of the share.
    pub fn serialize(&self) -> (r: Vec<u8>)
        ensures
            r@ == encode_element::<C>(self@),
    {
        <C::Group as Group>::serialize(self.element)
    }

    /// The verifying share with the given canonical serialization. The
    /// identity is refused, and so are bytes that no element serializes to.
    pub fn deserialize(buf: &[u8]) -> (r: Result<Self, Error<C>>)
        ensures
            match decoded_element::<C>(buf@) {
                Some(k) => if k == 0 {
                    r is Err && r->Err_0 is GroupError && r->Err_0->GroupError_0
                        == GroupError::InvalidIdentityElement
                } else {
                    r is Ok && r->Ok_0@ == k
                },
                None => r is Err && r->Err_0 is GroupError && r->Err_0->GroupError_0
                    == GroupError::MalformedElement,
            },
    {
        proof {
            <<C::Group as Group>::Field as Field>::lemma_order_above_u16();
        }
        match <C::Group as Group>::deserialize(buf) {
            Ok(element) => {
                proof {
                    <C::Group as Group>::lemma_index_below_order(element);
                    lemma_decoded_element::<C>(index::<C>(element));
                }
                Ok(VerifyingShare { element })
            },
            Err(e) => {
                proof {
                    if e == GroupError::InvalidIdentityElement {
                        lemma_decoded_element::<C>(0);
                    }
                }
                Err(Error::GroupError(e))
            },
        }
    }
}

/// The public key of the whole group.
#[derive(Clone, Copy)]
pub struct VerifyingKey<C: Ciphersuite> {
    pub element: Element<C>,
}

impl<C: Ciphersuite> View for VerifyingKey<C> {
    type V = nat;

    /// The multiple of the generator that the key stands for.
    open spec fn view(&self) -> nat {
        index::<C>(self.element)
    }
}

/// The secret key of the whole group.
#[derive(Clone, Copy)]
pub struct SigningKey<C: Ciphersuite> {
    pub scalar: Scalar<C>,
}

impl<C: Ciphersuite> View for SigningKey<C> {
    type V = nat;

    /// The integer that the key stands for.
    open spec fn view(&self) -> nat {
        value::<C>(self.scalar)
    }
}

/// What a participant keeps to sign: the identifier, the signing share, its
/// public counterpart and the public key of the group.
#[derive(Clone, Copy)]
pub struct KeyPackage<C: Ciphersuite> {
    pub identifier: Identifier<C>,
    pub secret_share: SigningShare<C>,
    pub public: VerifyingShare<C>,
    pub group_public: VerifyingKey<C>,
}

/// The verifying share of the first entry under the identifier `id`, where
/// there is one. An entry is an identifier and a verifying share, both as
/// plain numbers.
pub open spec fn lookup_share(entries: Seq<(nat, nat)>, id: nat) -> Option<nat>
    decreases entries.len(),
{
    if entries.len() == 0 {
        None
    } else if entries[0].0 == id {
        Some(entries[0].1)
    } else {
        lookup_share(entries.drop_first(), id)
    }
}

/// The public key material of the group: every signer's verifying share and
/// the public key of the group.
pub struct PublicKeyPackage<C: Ciphersuite> {
    pub signer_pubkeys: Vec<(Identifier<C>, VerifyingShare<C>)>,
    pub group_public: VerifyingKey<C>,
}

impl<C: Ciphersuite> PublicKeyPackage<C> {
    /// The signers' identifiers and verifying shares, as plain numbers.
    pub open spec fn entries(&self) -> Seq<(nat, nat)> {
        Seq::new(
            self.signer_pubkeys@.len(),
            |i: int| (self.signer_pubkeys@[i].0@, self.signer_pubkeys@[i].1@),
        )
    }

    /// The verifying share of the signer `identifier`, where the package
    /// knows the signer.
    pub fn signer_pubkey(&self, identifier: &Identifier<C>) -> (r: Option<VerifyingShare<C>>)
        ensures
            r is Some == lookup_share(self.entries(), identifier@) is Some,
            r is Some ==> r->Some_0@ == lookup_share(self.entries(), identifier@)->Some_0,
    {
        let ghost entries = self.entries();
        let mut i: usize = 0;
        assert(entries.skip(0) =~= entries);
        while i < self.signer_pubkeys.len()
            invariant
                i <= self.signer_pubkeys.len(),
                entries == self.entries(),
                lookup_share(entries, identifier@) == lookup_share(
                    entries.skip(i as int),
                    identifier@,
                ),
            decreases self.signer_pubkeys.len() - i,
        {
            let entry = self.signer_pubkeys[i];
            proof {
                assert(entries.skip(i as int)[0] == entries[i as int]);
                assert(entries.skip(i as int).drop_first() =~= entries.skip(i as int + 1));
            }
            if entry.0.equals(identifier) {
                return Some(entry.1);
            }
            i = i + 1;
        }
        None
    }
}

/// The integers that a list of scalars stands for.
pub open spec fn scalar_values<C: Ciphersuite>(scalars: Seq<Scalar<C>>) -> Seq<nat> {
    Seq::new(scalars.len(), |i: int| value::<C>(scalars[i]))
}

/// The multiples of the generator that a list of elements stands for.
pub open spec fn element_indices<C: Ciphersuite>(elements: Seq<Element<C>>) -> Seq<nat> {
    Seq::new(elements.len(), |i: int| index::<C>(elements[i]))
}

/// The integers that a list of identifiers stands for.
pub open spec fn identifier_values<C: Ciphersuite>(identifiers: Seq<Identifier<C>>) -> Seq<nat> {
    Seq::new(identifiers.len(), |i: int| identifiers[i]@)
}

/// Whether some integer occurs twice in the list.
pub open spec fn has_duplicate(ids: Seq<nat>) -> bool {
    exists|i: int, j: int| 0 <= i < j < ids.len() && ids[i] == ids[j]
}

/// The polynomial with constant term `secret` and the given further
/// coefficients.
pub open spec fn polynomial(secret: nat, coefficients: Seq<nat>) -> Seq<nat> {
    seq![secret] + coefficients
}

/// The value at an identifier of the polynomial with the given
/// coefficients, by Horner's rule.
pub fn evaluate_polynomial<C: Ciphersuite>(
    identifier: &Identifier<C>,
    coefficients: &Vec<Scalar<C>>,
) -> (r: Scalar<C>)
    ensures
        value::<C>(r) == poly_eval(scalar_values::<C>(coefficients@), identifier@) % order::<C>(),
{
    let ghost cs = scalar_values::<C>(coefficients@);
    let ghost n = order::<C>();
    let x = identifier.to_scalar();
    let mut result = <<C::Group as Group>::Field as Field>::zero();
    let mut i: usize = coefficients.len();
    proof {
        assert(cs.skip(i as int) =~= Seq::<nat>::empty());
        vstd::arithmetic::div_mod::lemma_small_mod(0, n);
    }
    while i > 0
        invariant
            i <= coefficients.len(),
            cs == scalar_values::<C>(coefficients@),
            n == order::<C>(),
            n > 0,
            value::<C>(x) == identifier@,
            value::<C>(result) == poly_eval(cs.skip(i as int), identifier@) % n,
        decreases i,
    {
        i = i - 1;
        let ghost rest = poly_eval(cs.skip(i as int + 1), identifier@);
        result = <<C::Group as Group>::Field as Field>::mul(result, x);
        result = <<C::Group as Group>::Field as Field>::add(result, coefficients[i]);
        proof {
            assert(cs.skip(i as int).drop_first() =~= cs.skip(i as int + 1));
            assert(cs.skip(i as int)[0] == value::<C>(coefficients@[i as int]));
            lemma_mul_mod(rest, identifier@, n);
            lemma_add_mod(rest * identifier@, cs[i as int], n);
            assert(rest * identifier@ == identifier@ * rest) by (nonlinear_arith);
        }
    }
    proof {
        assert(cs.skip(0) =~= cs);
    }
    result
}

/// A commitment to the coefficients of the dealer's secret polynomial: the
/// generator times each coefficient, constant term first. The first entry
/// is the group's public key.
pub struct VerifiableSecretSharingCommitment<C: Ciphersuite> {
    pub coefficients: Vec<Element<C>>,
}

impl<C: Ciphersuite> View for VerifiableSecretSharingCommitment<C> {
    type V = Seq<nat>;

    /// The multiples of the generator that the entries stand for.
    open spec fn view(&self) -> Seq<nat> {
        element_indices::<C>(self.coefficients@)
    }
}

impl<C: Ciphersuite> VerifiableSecretSharingCommitment<C> {
    /// The commitment to a polynomial.
    pub fn from_coefficients(coefficients: &Vec<Scalar<C>>) -> (r: Self)
        ensures
            r@ == scalar_values::<C>(coefficients@),
    {
        let generator = <C::Group as Group>::generator();
        let mut out: Vec<Element<C>> = Vec::new();
        let mut i: usize = 0;
        while i < coefficients.len()
            invariant
                i <= coefficients.len(),
                index::<C>(generator) == 1,
                out@.len() == i,
                forall|k: int| 0 <= k < i ==> index::<C>(out@[k]) == value::<C>(coefficients@[k]),
            decreases coefficients.len() - i,
        {
            let c = coefficients[i];
            let element = <C::Group as Group>::mul(generator, c);
            proof {
                <<C::Group as Group>::Field as Field>::lemma_value_below_order(c);
                assert(1 * value::<C>(c) == value::<C>(c));
                vstd::arithmetic::div_mod::lemma_small_mod(value::<C>(c), order::<C>());
            }
            out.push(element);
            i = i + 1;
        }
        assert(element_indices::<C>(out@) =~= scalar_values::<C>(coefficients@));
        VerifiableSecretSharingCommitment { coefficients: out }
    }

    /// A copy of the commitment.
    pub fn duplicate(&self) -> (r: Self)
        ensures
            r@ == self@,
            r.coefficients@ == self.coefficients@,
    {
        let mut out: Vec<Element<C>> = Vec::new();
        let mut i: usize = 0;
        while i < self.coefficients.len()
            invariant
                i <= self.coefficients.len(),
                out@ == self.coefficients@.take(i as int),
            decreases self.coefficients.len() - i,
        {
            out.push(self.coefficients[i]);
            i = i + 1;
            assert(out@ =~= self.coefficients@.take(i as int));
        }
        assert(out@ =~= self.coefficients@);
        VerifiableSecretSharingCommitment { coefficients: out }
    }
}

/// The element that the commitment assigns to an identifier: the sum of the
/// entries, each times the power of the identifier at its place.
pub fn evaluate_vss<C: Ciphersuite>(
    commitment: &VerifiableSecretSharingCommitment<C>,
    identifier: &Identifier<C>,
) -> (r: Element<C>)
    ensures
        index::<C>(r) == power_sum(commitment@, identifier@) % order::<C>(),
{
    let ghost a = commitment@;
    let ghost n = order::<C>();
    let x = identifier.to_scalar();
    let mut x_to_the_k = <<C::Group as Group>::Field as Field>::one();
    let mut sum = <C::Group as Group>::identity();
    let mut k: usize = 0;
    proof {
        assert(a.take(0) =~= Seq::<nat>::empty());
        vstd::arithmetic::div_mod::lemma_small_mod(0, n);
        vstd::arithmetic::div_mod::lemma_small_mod(1, n);
    }
    while k < commitment.coefficients.len()
        invariant
            k <= commitment.coefficients.len(),
            a == commitment@,
            n == order::<C>(),
            n > 1,
            value::<C>(x) == identifier@,
            value::<C>(x_to_the_k) == power(identifier@, k as nat) % n,
            index::<C>(sum) == power_sum(a.take(k as int), identifier@) % n,
        decreases commitment.coefficients.len() - k,
    {
        let ghost before = power_sum(a.take(k as int), identifier@);
        let ghost p = power(identifier@, k as nat);
        let comm_k = commitment.coefficients[k];
        let term = <C::Group as Group>::mul(comm_k, x_to_the_k);
        sum = <C::Group as Group>::add(sum, term);
        x_to_the_k = <<C::Group as Group>::Field as Field>::mul(x, x_to_the_k);
        proof {
            assert(a.take(k as int + 1).drop_last() =~= a.take(k as int));
            assert(a.take(k as int + 1).last() == index::<C>(comm_k));
            lemma_mul_mod(index::<C>(comm_k), p, n);
            lemma_add_mod(before, index::<C>(comm_k) * p, n);
            lemma_mul_mod(identifier@, p, n);
            assert(power(identifier@, (k + 1) as nat) == identifier@ * p);
        }
        k = k + 1;
    }
    proof {
        assert(a.take(k as int) =~= a);
    }
    sum
}

/// A secret share as plain numbers: the identifier, the share, and the
/// multiples of the generator that the commitment's entries stand for.
pub struct ShareView {
    pub id: nat,
    pub value: nat,
    pub commitment: Seq<nat>,
}

/// Whether a secret share agrees with the commitment to the polynomial:
/// the generator times the share is the element that the commitment assigns
/// to the identifier.
pub open spec fn share_is_consistent(share: ShareView, n: nat) -> bool {
    share.value % n == power_sum(share.commitment, share.id) % n
}

/// What the dealer sends to one participant: the participant's share of the
/// secret and the commitment to the polynomial, by which the participant
/// verifies the share.
pub struct SecretShare<C: Ciphersuite> {
    pub identifier: Identifier<C>,
    pub value: SigningShare<C>,
    pub commitment: VerifiableSecretSharingCommitment<C>,
}

impl<C: Ciphersuite> View for SecretShare<C> {
    type V = ShareView;

    open spec fn view(&self) -> ShareView {
        ShareView { id: self.identifier@, value: self.value@, commitment: self.commitment@ }
    }
}

impl<C: Ciphersuite> SecretShare<C> {
    /// Verifies the share against the commitment and returns the
    /// participant's verifying share and the group's public key. A share
    /// without commitment cannot be verified.
    pub fn verify(&self) -> (r: Result<(VerifyingShare<C>, VerifyingKey<C>), Error<C>>)
        ensures
            self@.commitment.len() == 0 ==> r is Err && r->Err_0 is MissingCommitment,
            self@.commitment.len() > 0 && !share_is_consistent(self@, order::<C>()) ==> r is Err
                && r->Err_0 is InvalidSecretShare && r->Err_0->InvalidSecretShare_0@ == self@.id,
            self@.commitment.len() > 0 && share_is_consistent(self@, order::<C>()) ==> r is Ok
                && r->Ok_0.0@ == self@.value && r->Ok_0.1@ == self@.commitment[0],
    {
        if self.commitment.coefficients.len() == 0 {
            return Err(Error::MissingCommitment);
        }
        let public = VerifyingShare::from(&self.value);
        let expected = evaluate_vss(&self.commitment, &self.identifier);
        proof {
            <<C::Group as Group>::Field as Field>::lemma_value_below_order(self.value.scalar);
            vstd::arithmetic::div_mod::lemma_small_mod(self.value@, order::<C>());
        }
        if !<C::Group as Group>::equals(public.element, expected) {
            return Err(Error::InvalidSecretShare(self.identifier));
        }
        let group_public = VerifyingKey { element: self.commitment.coefficients[0] };
        Ok((public, group_public))
    }
}

impl<C: Ciphersuite> KeyPackage<C> {
    /// The key package of a participant, made from the dealer's secret
    /// share once the share has been verified against the commitment.
    pub fn try_from(secret_share: SecretShare<C>) -> (r: Result<Self, Error<C>>)
        ensures
            secret_share@.commitment.len() == 0 ==> r is Err && r->Err_0 is MissingCommitment,
            secret_share@.commitment.len() > 0 && !share_is_consistent(
                secret_share@,
                order::<C>(),
            ) ==> r is Err && r->Err_0 is InvalidSecretShare
                && r->Err_0->InvalidSecretShare_0@ == secret_share@.id,
            secret_share@.commitment.len() > 0 && share_is_consistent(secret_share@, order::<C>())
                ==> r is Ok && r->Ok_0.identifier@ == secret_share@.id && r->Ok_0.secret_share@
                == secret_share@.value && r->Ok_0.public@ == secret_share@.value
                && r->Ok_0.group_public@ == secret_share@.commitment[0],
    {
        match secret_share.verify() {
            Ok((public, group_public)) => Ok(
                KeyPackage {
                    identifier: secret_share.identifier,
                    secret_share: secret_share.value,
                    public,
                    group_public,
                },
            ),
            Err(e) => Err(e),
        }
    }
}

/// The identifiers to deal shares to.
pub enum IdentifierList<C: Ciphersuite> {
    /// The participant numbers from one up to the number of signers.
    Default,
    /// The identifiers given, one for each signer.
    Custom(Vec<Identifier<C>>),
}

impl<C: Ciphersuite> IdentifierList<C> {
    /// The integers that the identifiers stand for when shares are dealt to
    /// `max_signers` participants.
    pub open spec fn values(&self, max_signers: u16) -> Seq<nat> {
        match self {
            IdentifierList::Default => Seq::new(max_signers as nat, |i: int| (i + 1) as nat),
            IdentifierList::Custom(list) => identifier_values::<C>(list@),
        }
    }
}

/// Whether a dealing is well described by the arguments, and if not, why:
/// the threshold must be at least two and at most the number of signers,
/// there must be one identifier for each signer, and no identifier twice.
pub open spec fn dealing_fault<C: Ciphersuite>(
    max_signers: u16,
    min_signers: u16,
    ids: Seq<nat>,
    e: Option<Error<C>>,
) -> bool {
    if min_signers < 2 {
        e is Some && e->Some_0 is InvalidMinSigners
    } else if max_signers < 2 {
        e is Some && e->Some_0 is InvalidMaxSigners
    } else if min_signers > max_signers {
        e is Some && e->Some_0 is InvalidMinSigners
    } else if ids.len() != max_signers {
        e is Some && e->Some_0 is IncorrectNumberOfIdentifiers
    } else if has_duplicate(ids) {
        e is Some && e->Some_0 is DuplicateIdentifier
    } else {
        e is None
    }
}

/// Whether the shares and the public key material are what the dealer of
/// the polynomial `poly` hands to the participants `ids`: every share is the
/// value of the polynomial at the participant's identifier, every verifying
/// share is its public counterpart, the commitment is to `poly`, and the
/// group's public key is the constant term.
pub open spec fn is_dealing(
    shares: Seq<ShareView>,
    entries: Seq<(nat, nat)>,
    key: nat,
    ids: Seq<nat>,
    poly: Seq<nat>,
    n: nat,
) -> bool {
    &&& poly.len() > 0
    &&& key == poly[0]
    &&& shares.len() == ids.len()
    &&& entries.len() == ids.len()
    &&& forall|i: int|
        0 <= i < ids.len() ==> #[trigger] shares[i] == (ShareView {
            id: ids[i],
            value: poly_eval(poly, ids[i]) % n,
            commitment: poly,
        })
    &&& forall|i: int|
        0 <= i < ids.len() ==> #[trigger] entries[i] == (ids[i], poly_eval(poly, ids[i]) % n)
}

/// The views of a list of secret shares.
pub open spec fn secret_share_views<C: Ciphersuite>(shares: Seq<SecretShare<C>>) -> Seq<
    ShareView,
> {
    Seq::new(shares.len(), |i: int| shares[i]@)
}

/// Checks the threshold and the number of signers of a dealing.
pub fn validate_num_of_signers<C: Ciphersuite>(min_signers: u16, max_signers: u16) -> (r: Result<
    (),
    Error<C>,
>)
    ensures
        if min_signers < 2 {
            r is Err && r->Err_0 is InvalidMinSigners
        } else if max_signers < 2 {
            r is Err && r->Err_0 is InvalidMaxSigners
        } else if min_signers > max_signers {
            r is Err && r->Err_0 is InvalidMinSigners
        } else {
            r is Ok
        },
{
    if min_signers < 2 {
        return Err(Error::InvalidMinSigners);
    }
    if max_signers < 2 {
        return Err(Error::InvalidMaxSigners);
    }
    if min_signers > max_signers {
        return Err(Error::InvalidMinSigners);
    }
    Ok(())
}

/// The participant numbers from one up to `max_signers`, as identifiers.
pub fn default_identifiers<C: Ciphersuite>(max_signers: u16) -> (r: Vec<Identifier<C>>)
    ensures
        identifier_values::<C>(r@) == Seq::new(max_signers as nat, |i: int| (i + 1) as nat),
{
    let mut out: Vec<Identifier<C>> = Vec::new();
    let mut i: u16 = 0;
    while i < max_signers
        invariant
            i <= max_signers,
            out@.len() == i,
            forall|k: int| 0 <= k < i ==> out@[k]@ == k + 1,
        decreases max_signers - i,
    {
        i = i + 1;
        match Identifier::try_from(i) {
            Ok(identifier) => {
                out.push(identifier);
            },
            Err(_) => {
                proof {
                    assert(false);
                }
            },
        }
    }
    assert(identifier_values::<C>(out@) =~= Seq::new(
        max_signers as nat,
        |i: int| (i + 1) as nat,
    ));
    out
}

/// Whether some identifier occurs twice in the list.
pub fn contains_duplicate<C: Ciphersuite>(identifiers: &Vec<Identifier<C>>) -> (r: bool)
    ensures
        r == has_duplicate(identifier_values::<C>(identifiers@)),
{
    let ghost ids = identifier_values::<C>(identifiers@);
    let mut j: usize = 0;
    while j < identifiers.len()
        invariant
            j <= identifiers.len(),
            ids == identifier_values::<C>(identifiers@),
            forall|a: int, b: int| 0 <= a < b < j ==> ids[a] != ids[b],
        decreases identifiers.len() - j,
    {
        let mut i: usize = 0;
        while i < j
            invariant
                i <= j,
                j < identifiers.len(),
                ids == identifier_values::<C>(identifiers@),
                forall|a: int| 0 <= a < i ==> ids[a] != ids[j as int],
            decreases j - i,
        {
            if identifiers[i].equals(&identifiers[j]) {
                assert(ids[i as int] == ids[j as int]);
                return true;
            }
            i = i + 1;
        }
        j = j + 1;
    }
    false
}

/// Deals the secret to the participants `identifiers` along the polynomial
/// whose constant term is the secret and whose further coefficients are
/// `coefficients`, one for each power up to the threshold less one.
///
/// Every share that comes out agrees with the commitment that comes with
/// it.
pub fn generate_secret_shares<C: Ciphersuite>(
    secret: &SigningKey<C>,
    max_signers: u16,
    min_signers: u16,
    coefficients: Vec<Scalar<C>>,
    identifiers: &Vec<Identifier<C>>,
) -> (r: Result<Vec<SecretShare<C>>, Error<C>>)
    ensures
        ({
            let ids = identifier_values::<C>(identifiers@);
            let poly = polynomial(secret@, scalar_values::<C>(coefficients@));
            let n = order::<C>();
            if !dealing_fault::<C>(max_signers, min_signers, ids, None) {
                r is Err && dealing_fault::<C>(max_signers, min_signers, ids, Some(r->Err_0))
            } else if coefficients@.len() != min_signers - 1 {
                r is Err && r->Err_0 is InvalidCoefficients
            } else {
                &&& r is Ok
                &&& r->Ok_0@.len() == ids.len()
                &&& forall|i: int|
                    0 <= i < ids.len() ==> #[trigger] r->Ok_0@[i]@ == (ShareView {
                        id: ids[i],
                        value: poly_eval(poly, ids[i]) % n,
                        commitment: poly,
                    })
                &&& forall|i: int|
                    0 <= i < ids.len() ==> share_is_consistent(#[trigger] r->Ok_0@[i]@, n)
            }
        }),
{
    let ghost ids = identifier_values::<C>(identifiers@);
    let ghost n = order::<C>();
    match validate_num_of_signers::<C>(min_signers, max_signers) {
        Ok(_) => {},
        Err(e) => {
            return Err(e);
        },
    }
    if identifiers.len() != max_signers as usize {
        return Err(Error::IncorrectNumberOfIdentifiers);
    }
    if contains_duplicate(identifiers) {
        return Err(Error::DuplicateIdentifier);
    }
    if coefficients.len() != (min_signers - 1) as usize {
        return Err(Error::InvalidCoefficients);
    }
    let mut all: Vec<Scalar<C>> = Vec::new();
    all.push(secret.scalar);
    let mut k: usize = 0;
    while k < coefficients.len()
        invariant
            k <= coefficients.len(),
            all@ == seq![secret.scalar] + coefficients@.take(k as int),
        decreases coefficients.len() - k,
    {
        all.push(coefficients[k]);
        k = k + 1;
        assert(all@ =~= seq![secret.scalar] + coefficients@.take(k as int));
    }
    let ghost poly = polynomial(secret@, scalar_values::<C>(coefficients@));
    proof {
        assert(coefficients@.take(k as int) =~= coefficients@);
        assert(scalar_values::<C>(all@) =~= poly);
    }
    let commitment = VerifiableSecretSharingCommitment::<C>::from_coefficients(&all);
    let mut shares: Vec<SecretShare<C>> = Vec::new();
    let mut i: usize = 0;
    proof {
        <<C::Group as Group>::Field as Field>::lemma_order_above_u16();
    }
    while i < identifiers.len()
        invariant
            i <= identifiers.len(),
            ids == identifier_values::<C>(identifiers@),
            n == order::<C>(),
            n > 0,
            scalar_values::<C>(all@) == poly,
            commitment@ == poly,
            shares@.len() == i,
            forall|j: int|
                0 <= j < i ==> #[trigger] shares@[j]@ == (ShareView {
                    id: ids[j],
                    value: poly_eval(poly, ids[j]) % n,
                    commitment: poly,
                }),
            forall|j: int| 0 <= j < i ==> share_is_consistent(#[trigger] shares@[j]@, n),
        decreases identifiers.len() - i,
    {
        let identifier = identifiers[i];
        let value = evaluate_polynomial::<C>(&identifier, &all);
        let share = SecretShare {
            identifier,
            value: SigningShare { scalar: value },
            commitment: commitment.duplicate(),
        };
        proof {
            lemma_poly_eval_is_power_sum(poly, identifier@);
            vstd::arithmetic::div_mod::lemma_mod_twice(
                poly_eval(poly, identifier@) as int,
                n as int,
            );
        }
        shares.push(share);
        i = i + 1;
    }
    Ok(shares)
}

/// Splits an existing key into shares, one for each of `max_signers`
/// participants, any `min_signers` of which can sign. The further
/// coefficients of the polynomial, one for each power up to the threshold
/// less one, must be fresh from a cryptographic source.
pub fn split<C: Ciphersuite>(
    key: &SigningKey<C>,
    max_signers: u16,
    min_signers: u16,
    identifiers: IdentifierList<C>,
    coefficients: Vec<Scalar<C>>,
) -> (r: Result<(Vec<SecretShare<C>>, PublicKeyPackage<C>), Error<C>>)
    ensures
        ({
            let ids = identifiers.values(max_signers);
            let n = order::<C>();
            if !dealing_fault::<C>(max_signers, min_signers, ids, None) {
                r is Err && dealing_fault::<C>(max_signers, min_signers, ids, Some(r->Err_0))
            } else if coefficients@.len() != min_signers - 1 {
                r is Err && r->Err_0 is InvalidCoefficients
            } else {
                &&& r is Ok
                &&& is_dealing(
                    secret_share_views::<C>(r->Ok_0.0@),
                    r->Ok_0.1.entries(),
                    r->Ok_0.1.group_public@,
                    ids,
                    polynomial(key@, scalar_values::<C>(coefficients@)),
                    n,
                )
                &&& forall|i: int|
                    0 <= i < ids.len() ==> share_is_consistent(#[trigger] r->Ok_0.0@[i]@, n)
            }
        }),
{
    let ghost ids = identifiers.values(max_signers);
    let ghost n = order::<C>();
    let ghost poly = polynomial(key@, scalar_values::<C>(coefficients@));
    match validate_num_of_signers::<C>(min_signers, max_signers) {
        Ok(_) => {},
        Err(e) => {
            return Err(e);
        },
    }
    let list = match identifiers {
        IdentifierList::Default => default_identifiers::<C>(max_signers),
        IdentifierList::Custom(list) => list,
    };
    assert(identifier_values::<C>(list@) == ids);
    let shares = match generate_secret_shares::<C>(
        key,
        max_signers,
        min_signers,
        coefficients,
        &list,
    ) {
        Ok(shares) => shares,
        Err(e) => {
            return Err(e);
        },
    };
    let mut signer_pubkeys: Vec<(Identifier<C>, VerifyingShare<C>)> = Vec::new();
    let mut i: usize = 0;
    while i < shares.len()
        invariant
            i <= shares.len(),
            signer_pubkeys@.len() == i,
            forall|j: int|
                0 <= j < i ==> (#[trigger] signer_pubkeys@[j]).0@ == shares@[j]@.id
                    && signer_pubkeys@[j].1@ == shares@[j]@.value,
        decreases shares.len() - i,
    {
        let public = VerifyingShare::from(&shares[i].value);
        signer_pubkeys.push((shares[i].identifier, public));
        i = i + 1;
    }
    let secret_share: SigningShare<C> = SigningShare { scalar: key.scalar };
    let group_public = VerifyingKey { element: VerifyingShare::from(&secret_share).element };
    let pubkeys = PublicKeyPackage { signer_pubkeys, group_public };
    proof {
        assert(is_dealing(
            secret_share_views::<C>(shares@),
            pubkeys.entries(),
            pubkeys.group_public@,
            ids,
            poly,
            n,
        ));
    }
    Ok((shares, pubkeys))
}

/// Lets a trusted dealer generate the keys of all participants from a
/// secret and the further coefficients of the polynomial, all of which must
/// be fresh from a cryptographic source.
pub fn generate_with_dealer<C: Ciphersuite>(
    max_signers: u16,
    min_signers: u16,
    identifiers: IdentifierList<C>,
    secret: Scalar<C>,
    coefficients: Vec<Scalar<C>>,
) -> (r: Result<(Vec<SecretShare<C>>, PublicKeyPackage<C>), Error<C>>)
    ensures
        ({
            let ids = identifiers.values(max_signers);
            let n = order::<C>();
            if !dealing_fault::<C>(max_signers, min_signers, ids, None) {
                r is Err && dealing_fault::<C>(max_signers, min_signers, ids, Some(r->Err_0))
            } else if coefficients@.len() != min_signers - 1 {
                r is Err && r->Err_0 is InvalidCoefficients
            } else {
                &&& r is Ok
                &&& is_dealing(
                    secret_share_views::<C>(r->Ok_0.0@),
                    r->Ok_0.1.entries(),
                    r->Ok_0.1.group_public@,
                    ids,
                    polynomial(value::<C>(secret), scalar_values::<C>(coefficients@)),
                    n,
                )
                &&& forall|i: int|
                    0 <= i < ids.len() ==> share_is_consistent(#[trigger] r->Ok_0.0@[i]@, n)
            }
        }),
{
    let key = SigningKey { scalar: secret };
    split(&key, max_signers, min_signers, identifiers, coefficients)
}

/// Where no integer occurs twice in a list, none occurs more than once
/// among the first `count`.
pub proof fn lemma_distinct_occurs_once(ids: Seq<nat>, x: nat, count: int)
    requires
        !has_duplicate(ids),
        0 <= count <= ids.len(),
    ensures
        occurrences(ids.take(count), x) <= 1,
        occurrences(ids.take(count), x) == 1 ==> exists|i: int|
            0 <= i < count && #[trigger] ids[i] == x,
    decreases count,
{
    if count > 0 {
        lemma_distinct_occurs_once(ids, x, count - 1);
        assert(ids.take(count).drop_last() =~= ids.take(count - 1));
        assert(ids.take(count).last() == ids[count - 1]);
        if ids[count - 1] == x && occurrences(ids.take(count - 1), x) == 1 {
            let i = choose|i: int| 0 <= i < count - 1 && #[trigger] ids[i] == x;
            assert(ids[i] == ids[count - 1]);
        }
    } else {
        assert(ids.take(0) =~= Seq::<nat>::empty());
    }
}

/// The identifiers of a list of key packages.
pub open spec fn package_identifiers<C: Ciphersuite>(packages: Seq<KeyPackage<C>>) -> Seq<nat> {
    Seq::new(packages.len(), |i: int| packages[i].identifier@)
}

/// The signing shares of a list of key packages.
pub open spec fn package_shares<C: Ciphersuite>(packages: Seq<KeyPackage<C>>) -> Seq<nat> {
    Seq::new(packages.len(), |i: int| packages[i].secret_share@)
}

/// Recomputes the secret from key packages by Lagrange interpolation at
/// zero.
///
/// This is not needed to sign. The caller is to give at least as many
/// packages as the threshold of the dealing; with fewer, another key comes
/// out.
pub fn reconstruct<C: Ciphersuite>(secret_shares: &[KeyPackage<C>]) -> (r: Result<
    SigningKey<C>,
    Error<C>,
>)
    ensures
        ({
            let ids = package_identifiers::<C>(secret_shares@);
            let values = package_shares::<C>(secret_shares@);
            let n = order::<C>();
            if ids.len() == 0 {
                r is Err && r->Err_0 is IncorrectNumberOfShares
            } else if has_duplicate(ids) {
                r is Err && r->Err_0 is DuplicateIdentifier
            } else {
                r is Ok && r->Ok_0@ == interpolation_sum(ids, values, ids.len(), n) % n
            }
        }),
{
    let ghost ids = package_identifiers::<C>(secret_shares@);
    let ghost values = package_shares::<C>(secret_shares@);
    let ghost n = order::<C>();
    if secret_shares.len() == 0 {
        return Err(Error::IncorrectNumberOfShares);
    }
    let mut identifiers: Vec<Identifier<C>> = Vec::new();
    let mut i: usize = 0;
    while i < secret_shares.len()
        invariant
            i <= secret_shares.len(),
            identifiers@.len() == i,
            forall|j: int| 0 <= j < i ==> identifiers@[j]@ == secret_shares@[j].identifier@,
        decreases secret_shares.len() - i,
    {
        identifiers.push(secret_shares[i].identifier);
        i = i + 1;
    }
    assert(identifier_values::<C>(identifiers@) =~= ids);
    assert(Seq::new(identifiers@.len(), |i: int| identifiers@[i]@) =~= ids);
    if contains_duplicate(&identifiers) {
        return Err(Error::DuplicateIdentifier);
    }
    let mut secret = <<C::Group as Group>::Field as Field>::zero();
    let mut i: usize = 0;
    proof {
        <<C::Group as Group>::Field as Field>::lemma_order_above_u16();
        vstd::arithmetic::div_mod::lemma_small_mod(0, n);
    }
    while i < secret_shares.len()
        invariant
            i <= secret_shares.len(),
            ids == package_identifiers::<C>(secret_shares@),
            values == package_shares::<C>(secret_shares@),
            n == order::<C>(),
            n > 1,
            Seq::new(identifiers@.len(), |i: int| identifiers@[i]@) == ids,
            !has_duplicate(ids),
            value::<C>(secret) == interpolation_sum(ids, values, i as nat, n) % n,
        decreases secret_shares.len() - i,
    {
        let share = secret_shares[i];
        assert(ids[i as int] == share.identifier@);
        assert(values[i as int] == share.secret_share@);
        proof {
            lemma_distinct_occurs_once(ids, share.identifier@, ids.len() as int);
            assert(ids.take(ids.len() as int) =~= ids);
        }
        let lambda = match compute_lagrange_coefficient(&identifiers, &share.identifier) {
            Ok(lambda) => lambda,
            Err(e) => {
                return Err(e);
            },
        };
        let ghost before = interpolation_sum(ids, values, i as nat, n);
        let term = <<C::Group as Group>::Field as Field>::mul(lambda, share.secret_share.scalar);
        secret = <<C::Group as Group>::Field as Field>::add(secret, term);
        proof {
            lemma_add_mod(before, value::<C>(lambda) * share.secret_share@, n);
        }
        i = i + 1;
    }
    Ok(SigningKey { scalar: secret })
}

} // verus!
