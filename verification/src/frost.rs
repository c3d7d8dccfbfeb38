//! The coordinator's side of FROST: binding factor, group commitment,
//! Lagrange coefficients, and aggregation of signature shares.

use vstd::prelude::*;

use crate::algebra::is_inverse;
use crate::algebra::lagrange_coefficient;
use crate::algebra::lagrange_denominator;
use crate::algebra::lagrange_numerator;
use crate::algebra::lemma_add_mod;
use crate::algebra::lemma_inverse_is_mod_inverse;
use crate::algebra::lemma_mul_mod;
use crate::algebra::occurrences;
use crate::bytes::append;
use crate::ciphersuite::Ciphersuite;
use crate::ciphersuite::Element;
use crate::ciphersuite::Field;
use crate::ciphersuite::FieldError;
use crate::ciphersuite::Group;
use crate::ciphersuite::Scalar;
use crate::ciphersuite::decoded_scalar;
use crate::ciphersuite::encode_scalar;
use crate::ciphersuite::index;
use crate::ciphersuite::lemma_decoded_scalar;
use crate::ciphersuite::order;
use crate::ciphersuite::value;
use crate::encoding::decode_hex;
use crate::encoding::encode_hex;
use crate::encoding::hex_bytes;
use crate::encoding::hex_text;
use crate::encoding::is_hex;
use crate::error::Error;
use crate::frost::identifier::Identifier;
use crate::frost::keys::PublicKeyPackage;
use crate::frost::keys::lookup_share;
use crate::frost::round1::CommitmentView;
use crate::frost::round1::SigningCommitments;
use crate::frost::round1::commitment_share;
use crate::frost::round1::commitment_views;
use crate::frost::round1::encode_group_commitments;
use crate::frost::round1::encoded_commitments;
use crate::frost::round2::SignatureShare;
use crate::frost::round2::share_verifies;
use crate::interpolation::lemma_denominator_nonzero;
use crate::signature::Signature;
use crate::signature::challenge;
use crate::signature::challenge_value;

pub mod identifier;
pub mod keys;
pub mod round1;
pub mod round2;

verus! {

/// The identifiers of a list of commitments, in order.
pub open spec fn identifiers_of(list: Seq<CommitmentView>) -> Seq<nat> {
    Seq::new(list.len(), |i: int| list[i].id)
}

/// Whether the commitments are in canonical order: strictly ascending by
/// identifier, so that no identifier occurs twice.
pub open spec fn strictly_ascending(list: Seq<CommitmentView>) -> bool {
    forall|i: int, j: int| 0 <= i < j < list.len() ==> list[i].id < list[j].id
}

/// Whether `list` has a commitment under the identifier `id`.
pub open spec fn has_identifier(list: Seq<CommitmentView>, id: nat) -> bool {
    exists|i: int| 0 <= i < list.len() && #[trigger] list[i].id == id
}

/// Whether `input[i]` is the last commitment in `input` under its
/// identifier.
pub open spec fn is_last_occurrence(input: Seq<CommitmentView>, i: int) -> bool {
    0 <= i < input.len() && forall|k: int| i < k < input.len() ==> input[k].id != input[i].id
}

/// Whether `canonical` is the canonical form of `input`: in strictly
/// ascending order of identifier, holding under every identifier of `input`
/// the last commitment that `input` has for it, and nothing else.
pub open spec fn is_canonical_form(
    input: Seq<CommitmentView>,
    canonical: Seq<CommitmentView>,
) -> bool {
    &&& strictly_ascending(canonical)
    &&& forall|j: int|
        0 <= j < canonical.len() ==> exists|i: int|
            is_last_occurrence(input, i) && input[i] == #[trigger] canonical[j]
    &&& forall|i: int|
        0 <= i < input.len() ==> has_identifier(canonical, #[trigger] input[i].id)
}

/// What the binding factor is the hash of: the encoded commitments followed
/// by the digest of the message.
pub open spec fn rho_preimage_of<C: Ciphersuite>(
    commitments: Seq<CommitmentView>,
    message: Seq<u8>,
) -> Seq<u8> {
    encoded_commitments::<C>(commitments) + C::h5(message)
}

/// The binding factor of a signing session.
pub open spec fn binding_factor<C: Ciphersuite>(
    commitments: Seq<CommitmentView>,
    message: Seq<u8>,
) -> nat {
    C::h1(rho_preimage_of::<C>(commitments, message))
}

/// The sum of every signer's part of the group commitment, before
/// reduction.
pub open spec fn commitment_sum(commitments: Seq<CommitmentView>, rho: nat) -> nat
    decreases commitments.len(),
{
    if commitments.len() == 0 {
        0
    } else {
        commitment_sum(commitments.drop_last(), rho) + commitment_share(commitments.last(), rho)
    }
}

/// Whether one of a signer's commitments is the identity of the group.
pub open spec fn is_identity_commitment(c: CommitmentView) -> bool {
    c.hiding == 0 || c.binding == 0
}

/// Whether some commitment in the list is the identity of the group.
pub open spec fn has_identity_commitment(commitments: Seq<CommitmentView>) -> bool {
    exists|i: int| 0 <= i < commitments.len() && is_identity_commitment(#[trigger] commitments[i])
}

/// The binding factor, also known as rho: it binds every signature share to
/// the signing set, the commitments and the message of one session.
pub struct Rho<C: Ciphersuite> {
    pub scalar: Scalar<C>,
}

impl<C: Ciphersuite> View for Rho<C> {
    type V = nat;

    /// The integer that the binding factor stands for.
    open spec fn view(&self) -> nat {
        value::<C>(self.scalar)
    }
}

impl<C: Ciphersuite> Rho<C> {
    /// The binding factor with the given canonical serialization; other
    /// bytes are refused as a malformed scalar.
    pub fn from_bytes(bytes: &[u8]) -> (r: Result<Self, Error<C>>)
        ensures
            match decoded_scalar::<C>(bytes@) {
                Some(v) => r is Ok && r->Ok_0@ == v,
                None => r is Err && r->Err_0 is FieldError && r->Err_0->FieldError_0
                    == FieldError::MalformedScalar,
            },
    {
        match <<C::Group as Group>::Field as Field>::deserialize(bytes) {
            Ok(scalar) => {
                proof {
                    <<C::Group as Group>::Field as Field>::lemma_value_below_order(scalar);
                    lemma_decoded_scalar::<C>(value::<C>(scalar));
                }
                Ok(Rho { scalar })
            },
            Err(e) => Err(Error::FieldError(e)),
        }
    }

    /// The canonical serialization of the binding factor.
    pub fn to_bytes(&self) -> (r: Vec<u8>)
        ensures
            r@ == encode_scalar::<C>(self@),
    {
        <<C::Group as Group>::Field as Field>::serialize(self.scalar)
    }

    /// The binding factor whose canonical serialization the hexadecimal text
    /// stands for.
    pub fn from_hex(hex: &str) -> (r: Result<Self, &'static str>)
        ensures
            if !is_hex(hex@) {
                r is Err && r->Err_0@ == "invalid hex"@
            } else {
                match decoded_scalar::<C>(hex_bytes(hex@)) {
                    Some(v) => r is Ok && r->Ok_0@ == v,
                    None => r is Err && r->Err_0@ == "malformed scalar encoding"@,
                }
            },
    {
        match decode_hex(hex) {
            Some(bytes) => match Self::from_bytes(bytes.as_slice()) {
                Ok(rho) => Ok(rho),
                Err(_) => Err("malformed scalar encoding"),
            },
            None => Err("invalid hex"),
        }
    }

    /// The canonical serialization of the binding factor as hexadecimal
    /// text.
    pub fn to_hex(&self) -> (r: String)
        ensures
            r@ == hex_text(encode_scalar::<C>(self@)),
    {
        let bytes = self.to_bytes();
        encode_hex(bytes.as_slice())
    }

    /// The binding factor of a signing package.
    pub fn from(signing_package: &SigningPackage<C>) -> (r: Self)
        ensures
            r@ == binding_factor::<C>(signing_package.commitments(), signing_package.message_view()),
    {
        let preimage = signing_package.rho_preimage();
        Rho { scalar: C::H1(preimage.as_slice()) }
    }
}

/// The Lagrange coefficient at zero of the point `x` among the points
/// `identifiers`: the product of the other points over the product of their
/// differences to `x`. Where `x` occurs more than once among the points, a
/// difference is zero, and so is the denominator: this is reported as a
/// duplicate identifier.
pub fn compute_lagrange_coefficient<C: Ciphersuite>(
    identifiers: &Vec<Identifier<C>>,
    x: &Identifier<C>,
) -> (r: Result<Scalar<C>, Error<C>>)
    ensures
        ({
            let xs = Seq::new(identifiers@.len(), |i: int| identifiers@[i]@);
            &&& occurrences(xs, x@) >= 2 ==> r is Err && r->Err_0 is DuplicateIdentifier
            &&& occurrences(xs, x@) < 2 ==> r is Ok && value::<C>(r->Ok_0) == lagrange_coefficient(
                xs,
                x@,
                order::<C>(),
            )
        }),
{
    let ghost xs = Seq::new(identifiers@.len(), |i: int| identifiers@[i]@);
    let ghost n = order::<C>();
    let zero = <<C::Group as Group>::Field as Field>::zero();
    let mut num = <<C::Group as Group>::Field as Field>::one();
    let mut den = <<C::Group as Group>::Field as Field>::one();
    let x_scalar = x.to_scalar();
    let mut seen = false;
    let mut j: usize = 0;
    proof {
        <<C::Group as Group>::Field as Field>::lemma_order_above_u16();
        assert(xs.take(0) =~= Seq::<nat>::empty());
        vstd::arithmetic::div_mod::lemma_small_mod(1, n);
    }
    while j < identifiers.len()
        invariant
            j <= identifiers.len(),
            n == order::<C>(),
            n > 1,
            xs == Seq::new(identifiers@.len(), |i: int| identifiers@[i]@),
            value::<C>(x_scalar) == x@,
            x@ < n,
            forall|i: int| 0 <= i < j ==> #[trigger] xs[i] < n,
            seen == (occurrences(xs.take(j as int), x@) >= 1),
            occurrences(xs.take(j as int), x@) >= 2 ==> value::<C>(den) == 0,
            occurrences(xs.take(j as int), x@) < 2 ==> value::<C>(num) == lagrange_numerator(
                xs.take(j as int),
                x@,
            ) % n && value::<C>(den) == lagrange_denominator(xs.take(j as int), x@, n) % n,
        decreases identifiers.len() - j,
    {
        let x_j = identifiers[j];
        let x_j_scalar = x_j.to_scalar();
        proof {
            assert(xs.take(j as int + 1).drop_last() =~= xs.take(j as int));
            assert(xs.take(j as int + 1).last() == x_j@);
        }
        if x_j.equals(x) && !seen {
            seen = true;
        } else {
            let ghost num_before = lagrange_numerator(xs.take(j as int), x@);
            let ghost den_before = lagrange_denominator(xs.take(j as int), x@, n);
            let ghost den_value = value::<C>(den);
            num = <<C::Group as Group>::Field as Field>::mul(num, x_j_scalar);
            let difference = <<C::Group as Group>::Field as Field>::sub(x_j_scalar, x_scalar);
            den = <<C::Group as Group>::Field as Field>::mul(den, difference);
            proof {
                lemma_mul_mod(num_before, x_j@, n);
                lemma_mul_mod(den_before, (x_j@ + n - x@) as nat, n);
                if x_j@ == x@ {
                    // a second occurrence: the difference is zero
                    vstd::arithmetic::div_mod::lemma_mod_self_0(n as int);
                    assert(value::<C>(difference) == 0);
                    assert(den_value * 0 == 0);
                }
                if den_value == 0 {
                    assert(0 * value::<C>(difference) == 0);
                }
                vstd::arithmetic::div_mod::lemma_small_mod(0, n);
            }
        }
        j = j + 1;
    }
    proof {
        assert(xs.take(j as int) =~= xs);
        <<C::Group as Group>::Field as Field>::lemma_order_is_prime();
        lemma_denominator_nonzero(xs, x@, n);
    }
    if <<C::Group as Group>::Field as Field>::equals(den, zero) {
        return Err(Error::DuplicateIdentifier);
    }
    match <<C::Group as Group>::Field as Field>::invert(den) {
        Ok(inverse) => {
            let coefficient = <<C::Group as Group>::Field as Field>::mul(num, inverse);
            proof {
                <<C::Group as Group>::Field as Field>::lemma_value_below_order(inverse);
                assert(is_inverse(value::<C>(den), value::<C>(inverse), n));
                lemma_inverse_is_mod_inverse(value::<C>(den), value::<C>(inverse), n);
            }
            Ok(coefficient)
        },
        Err(_) => Err(Error::DuplicateIdentifier),
    }
}

/// No identifier occurs twice in a list in strictly ascending order.
pub proof fn lemma_occurs_once(list: Seq<CommitmentView>, x: nat, count: int)
    requires
        strictly_ascending(list),
        0 <= count <= list.len(),
    ensures
        occurrences(identifiers_of(list).take(count), x) <= 1,
        occurrences(identifiers_of(list).take(count), x) == 1 ==> exists|i: int|
            0 <= i < count && #[trigger] list[i].id == x,
    decreases count,
{
    let xs = identifiers_of(list);
    if count > 0 {
        lemma_occurs_once(list, x, count - 1);
        assert(xs.take(count).drop_last() =~= xs.take(count - 1));
        assert(xs.take(count).last() == list[count - 1].id);
        if list[count - 1].id == x && occurrences(xs.take(count - 1), x) == 1 {
            let i = choose|i: int| 0 <= i < count - 1 && #[trigger] list[i].id == x;
            assert(list[i].id < list[count - 1].id);
        }
    } else {
        assert(xs.take(0) =~= Seq::<nat>::empty());
    }
}

/// The Lagrange coefficient of a signer among the signers of a package.
pub fn derive_lagrange_coeff<C: Ciphersuite>(
    signer_id: &Identifier<C>,
    signing_package: &SigningPackage<C>,
) -> (r: Result<Scalar<C>, Error<C>>)
    ensures
        r is Ok,
        value::<C>(r->Ok_0) == lagrange_coefficient(
            identifiers_of(signing_package.commitments()),
            signer_id@,
            order::<C>(),
        ),
{
    let identifiers = signing_package.identifiers();
    proof {
        let list = signing_package.commitments();
        assert(Seq::new(identifiers@.len(), |i: int| identifiers@[i]@) =~= identifiers_of(list));
        lemma_occurs_once(list, signer_id@, list.len() as int);
        assert(identifiers_of(list).take(list.len() as int) =~= identifiers_of(list));
    }
    compute_lagrange_coefficient(&identifiers, signer_id)
}

/// Generated by the coordinator of a signing operation and handed to every
/// signer: the commitments of round one, in canonical order, and the
/// message.
pub struct SigningPackage<C: Ciphersuite> {
    signing_commitments: Vec<SigningCommitments<C>>,
    message: Vec<u8>,
}

impl<C: Ciphersuite> SigningPackage<C> {
    #[verifier::type_invariant]
    spec fn canonical(&self) -> bool {
        strictly_ascending(commitment_views(self.signing_commitments@))
    }

    /// The commitments of the package, in canonical order.
    pub closed spec fn commitments(&self) -> Seq<CommitmentView> {
        commitment_views(self.signing_commitments@)
    }

    /// The message of the package.
    pub closed spec fn message_view(&self) -> Seq<u8> {
        self.message@
    }

    /// Builds a signing package. The commitments are put in ascending order
    /// of identifier; where an identifier occurs more than once, its last
    /// commitment stands.
    pub fn new(signing_commitments: Vec<SigningCommitments<C>>, message: Vec<u8>) -> (r: Self)
        ensures
            r.message_view() == message@,
            is_canonical_form(commitment_views(signing_commitments@), r.commitments()),
    {
        let ghost input = commitment_views(signing_commitments@);
        let mut sorted: Vec<SigningCommitments<C>> = Vec::new();
        let mut i: usize = 0;
        while i < signing_commitments.len()
            invariant
                i <= signing_commitments.len(),
                input == commitment_views(signing_commitments@),
                is_canonical_form(input.take(i as int), commitment_views(sorted@)),
            decreases signing_commitments.len() - i,
        {
            let c = signing_commitments[i];
            let ghost before = commitment_views(sorted@);
            let mut p: usize = 0;
            while p < sorted.len() && sorted[p].identifier.less_than(&c.identifier)
                invariant
                    p <= sorted.len(),
                    before == commitment_views(sorted@),
                    forall|k: int| 0 <= k < p ==> before[k].id < c@.id,
                decreases sorted.len() - p,
            {
                p = p + 1;
            }
            let replace = p < sorted.len() && sorted[p].identifier.equals(&c.identifier);
            proof {
                assert(strictly_ascending(before));
                if p < sorted.len() {
                    assert(before[p as int] == sorted@[p as int]@);
                    assert(c@.id <= before[p as int].id);
                }
            }
            if replace {
                sorted.set(p, c);
            } else {
                sorted.insert(p, c);
            }
            proof {
                let after = commitment_views(sorted@);
                let prefix = input.take(i as int);
                let next = input.take(i as int + 1);
                assert(next[i as int] == c@);
                assert(forall|k: int| 0 <= k < i ==> next[k] == prefix[k]);
                if replace {
                    assert(after =~= before.update(p as int, c@));
                    assert(forall|k: int|
                        0 <= k < after.len() ==> #[trigger] after[k].id == before[k].id);
                } else {
                    assert(after =~= before.insert(p as int, c@));
                    assert(forall|k: int| 0 <= k < p ==> after[k] == before[k]);
                    assert(forall|k: int| p < k < after.len() ==> after[k] == before[k - 1]);
                    assert forall|k: int| p <= k < before.len() implies c@.id < before[k].id by {
                        if k > p {
                            assert(before[p as int].id < before[k].id);
                        }
                    }
                }
                assert(after[p as int] == c@);
                // every other entry differs from the new one in its identifier
                assert(forall|k: int| 0 <= k < after.len() && k != p ==> after[k].id != c@.id);
                assert(strictly_ascending(after));
                assert forall|j: int| 0 <= j < after.len() implies exists|w: int|
                    is_last_occurrence(next, w) && next[w] == #[trigger] after[j] by {
                    if j == p {
                        assert(is_last_occurrence(next, i as int));
                    } else {
                        let b = if replace || j < p {
                            j
                        } else {
                            j - 1
                        };
                        assert(before[b] == after[j]);
                        let w = choose|w: int|
                            is_last_occurrence(prefix, w) && prefix[w] == before[b];
                        assert(is_last_occurrence(next, w));
                    }
                }
                assert forall|k: int| 0 <= k < next.len() implies has_identifier(
                    after,
                    #[trigger] next[k].id,
                ) by {
                    if k == i {
                        assert(after[p as int].id == next[k].id);
                    } else {
                        assert(has_identifier(before, prefix[k].id));
                        let b = choose|b: int|
                            0 <= b < before.len() && #[trigger] before[b].id == prefix[k].id;
                        let a = if replace || b < p {
                            b
                        } else {
                            b + 1
                        };
                        assert(after[a].id == next[k].id);
                    }
                }
            }
            i = i + 1;
        }
        proof {
            assert(input.take(i as int) =~= input);
        }
        SigningPackage { signing_commitments: sorted, message }
    }

    /// The commitment of the signer `identifier`, where the package has one.
    pub fn find_signing_commitment(&self, identifier: &Identifier<C>) -> (r: Option<
        SigningCommitments<C>,
    >)
        ensures
            r is Some == has_identifier(self.commitments(), identifier@),
            r is Some ==> self.commitments().contains(r->Some_0@) && r->Some_0@.id == identifier@,
    {
        let mut i: usize = 0;
        while i < self.signing_commitments.len()
            invariant
                i <= self.signing_commitments.len(),
                forall|k: int| 0 <= k < i ==> self.commitments()[k].id != identifier@,
            decreases self.signing_commitments.len() - i,
        {
            let c = self.signing_commitments[i];
            if c.identifier.equals(identifier) {
                assert(self.commitments()[i as int] == c@);
                assert(self.commitments()[i as int].id == identifier@);
                return Some(c);
            }
            i = i + 1;
        }
        None
    }

    /// The commitment of the signer `identifier`, who must be among the
    /// signers of the package.
    pub fn signing_commitment(&self, identifier: &Identifier<C>) -> (r: SigningCommitments<C>)
        requires
            has_identifier(self.commitments(), identifier@),
        ensures
            self.commitments().contains(r@),
            r@.id == identifier@,
    {
        match self.find_signing_commitment(identifier) {
            Some(c) => c,
            None => {
                proof {
                    assert(false);
                }
                self.signing_commitments[0]
            },
        }
    }

    /// The commitments of the package, in ascending order of identifier.
    pub fn signing_commitments(&self) -> (r: Vec<SigningCommitments<C>>)
        ensures
            commitment_views(r@) == self.commitments(),
            strictly_ascending(self.commitments()),
    {
        proof {
            use_type_invariant(self);
        }
        let mut out: Vec<SigningCommitments<C>> = Vec::new();
        let mut i: usize = 0;
        while i < self.signing_commitments.len()
            invariant
                i <= self.signing_commitments.len(),
                out@ == self.signing_commitments@.take(i as int),
            decreases self.signing_commitments.len() - i,
        {
            out.push(self.signing_commitments[i]);
            i = i + 1;
            assert(out@ =~= self.signing_commitments@.take(i as int));
        }
        assert(out@ =~= self.signing_commitments@);
        out
    }

    /// The identifiers of the signers of the package, in ascending order.
    pub fn identifiers(&self) -> (r: Vec<Identifier<C>>)
        ensures
            r@.len() == self.commitments().len(),
            forall|i: int| 0 <= i < r@.len() ==> r@[i]@ == self.commitments()[i].id,
            strictly_ascending(self.commitments()),
    {
        proof {
            use_type_invariant(self);
        }
        let mut out: Vec<Identifier<C>> = Vec::new();
        let mut i: usize = 0;
        while i < self.signing_commitments.len()
            invariant
                i <= self.signing_commitments.len(),
                out@.len() == i,
                forall|k: int| 0 <= k < i ==> out@[k]@ == self.commitments()[k].id,
            decreases self.signing_commitments.len() - i,
        {
            out.push(self.signing_commitments[i].identifier);
            i = i + 1;
        }
        out
    }

    /// The message to be signed.
    pub fn message(&self) -> (r: &Vec<u8>)
        ensures
            r@ == self.message_view(),
    {
        &self.message
    }

    /// What the binding factor is the hash of: the commitments, encoded in
    /// canonical order, followed by the digest of the message.
    pub fn rho_preimage(&self) -> (r: Vec<u8>)
        ensures
            r@ == rho_preimage_of::<C>(self.commitments(), self.message_view()),
    {
        let mut preimage = encode_group_commitments(&self.signing_commitments);
        let digest = C::H5(self.message.as_slice());
        append(&mut preimage, digest.as_slice());
        preimage
    }
}

/// The sum of all signers' commitments, published as part of the final
/// signature.
pub struct GroupCommitment<C: Ciphersuite> {
    pub element: Element<C>,
}

impl<C: Ciphersuite> View for GroupCommitment<C> {
    type V = nat;

    /// The multiple of the generator that the group commitment stands for.
    open spec fn view(&self) -> nat {
        index::<C>(self.element)
    }
}

impl<C: Ciphersuite> GroupCommitment<C> {
    /// The group commitment of a signing package: the sum over all signers
    /// of the hiding commitment plus the binding factor times the binding
    /// commitment. A commitment that is the identity is refused, since it
    /// could make a signer reveal their share.
    pub fn try_from(signing_package: &SigningPackage<C>) -> (r: Result<Self, Error<C>>)
        ensures
            has_identity_commitment(signing_package.commitments()) ==> r is Err
                && r->Err_0 is IdentityCommitment,
            !has_identity_commitment(signing_package.commitments()) ==> r is Ok && r->Ok_0@
                == commitment_sum(
                signing_package.commitments(),
                binding_factor::<C>(
                    signing_package.commitments(),
                    signing_package.message_view(),
                ),
            ) % order::<C>(),
    {
        let rho = Rho::from(signing_package);
        let identity = <C::Group as Group>::identity();
        let mut accumulator = <C::Group as Group>::identity();
        let ghost list = signing_package.commitments();
        let mut i: usize = 0;
        proof {
            <<C::Group as Group>::Field as Field>::lemma_order_above_u16();
            assert(list.take(0) =~= Seq::<CommitmentView>::empty());
            vstd::arithmetic::div_mod::lemma_small_mod(0, order::<C>());
        }
        while i < signing_package.signing_commitments.len()
            invariant
                i <= signing_package.signing_commitments.len(),
                list == signing_package.commitments(),
                order::<C>() > 1,
                index::<C>(identity) == 0,
                !has_identity_commitment(list.take(i as int)),
                index::<C>(accumulator) == commitment_sum(list.take(i as int), rho@) % order::<C>(),
            decreases signing_package.signing_commitments.len() - i,
        {
            let commitment = signing_package.signing_commitments[i];
            assert(list[i as int] == commitment@);
            if <C::Group as Group>::equals(identity, commitment.binding.element)
                || <C::Group as Group>::equals(identity, commitment.hiding.element) {
                assert(is_identity_commitment(list[i as int]));
                return Err(Error::IdentityCommitment);
            }
            let share = commitment.to_group_commitment_share(rho.scalar);
            let ghost before = commitment_sum(list.take(i as int), rho@);
            accumulator = <C::Group as Group>::add(accumulator, share);
            proof {
                assert(list.take(i as int + 1).drop_last() =~= list.take(i as int));
                assert(list.take(i as int + 1).last() == commitment@);
                lemma_add_mod(before, commitment_share(commitment@, rho@), order::<C>());
                assert forall|k: int| 0 <= k < i + 1 implies !is_identity_commitment(
                    #[trigger] list.take(i as int + 1)[k],
                ) by {
                    if k < i {
                        assert(list.take(i as int)[k] == list.take(i as int + 1)[k]);
                    } else {
                        assert(list.take(i as int + 1)[k] == commitment@);
                    }
                }
            }
            i = i + 1;
        }
        proof {
            assert(list.take(i as int) =~= list);
        }
        Ok(GroupCommitment { element: accumulator })
    }
}

/// The commitment that a canonical list holds under the identifier `id`.
pub open spec fn commitment_of(list: Seq<CommitmentView>, id: nat) -> CommitmentView {
    list[choose|i: int| 0 <= i < list.len() && #[trigger] list[i].id == id]
}

/// A canonical list holds one commitment under each of its identifiers.
pub proof fn lemma_commitment_of(list: Seq<CommitmentView>, c: CommitmentView)
    requires
        strictly_ascending(list),
        list.contains(c),
    ensures
        commitment_of(list, c.id) == c,
{
    let i = choose|i: int| 0 <= i < list.len() && list[i] == c;
    assert(list[i].id == c.id);
    let j = choose|j: int| 0 <= j < list.len() && #[trigger] list[j].id == c.id;
    if i < j {
        assert(list[i].id < list[j].id);
    } else if j < i {
        assert(list[j].id < list[i].id);
    }
}

/// The views of a list of signature shares: identifier and share, as plain
/// numbers.
pub open spec fn share_views<C: Ciphersuite>(shares: Seq<SignatureShare<C>>) -> Seq<(nat, nat)> {
    Seq::new(shares.len(), |i: int| shares[i]@)
}

/// Whether `shares` has a share of the signer `id`.
pub open spec fn has_share(shares: Seq<(nat, nat)>, id: nat) -> bool {
    exists|k: int| 0 <= k < shares.len() && (#[trigger] shares[k]).0 == id
}

/// Whether the shares come from exactly the signers of the commitments.
pub open spec fn same_signers(shares: Seq<(nat, nat)>, list: Seq<CommitmentView>) -> bool {
    &&& forall|k: int| 0 <= k < shares.len() ==> has_identifier(list, (#[trigger] shares[k]).0)
    &&& forall|i: int| 0 <= i < list.len() ==> has_share(shares, (#[trigger] list[i]).id)
}

/// The sum of the shares, before reduction.
pub open spec fn share_sum(shares: Seq<(nat, nat)>) -> nat
    decreases shares.len(),
{
    if shares.len() == 0 {
        0
    } else {
        share_sum(shares.drop_last()) + shares.last().1
    }
}

/// What the coordinator finds of one signature share.
pub enum ShareCheck {
    /// The share verifies.
    Valid,
    /// The public key package has no verifying share for the signer.
    UnknownIdentifier,
    /// The share fails its verification.
    InvalidSignatureShare,
}

/// What the coordinator finds of the share `share` in the session given by
/// the commitments `list`, the message, the signers' verifying shares
/// `entries` and the group's public key `key`.
pub open spec fn check_share<C: Ciphersuite>(
    list: Seq<CommitmentView>,
    message: Seq<u8>,
    entries: Seq<(nat, nat)>,
    key: nat,
    share: (nat, nat),
) -> ShareCheck {
    let n = order::<C>();
    let rho = binding_factor::<C>(list, message);
    let commitment = commitment_sum(list, rho) % n;
    let c = challenge_value::<C>(commitment, key, message);
    let xs = identifiers_of(list);
    match lookup_share(entries, share.0) {
        None => ShareCheck::UnknownIdentifier,
        Some(y) => if share_verifies(
            share.1,
            commitment_share(commitment_of(list, share.0), rho) % n,
            y,
            lagrange_coefficient(xs, share.0, n),
            c,
            n,
        ) {
            ShareCheck::Valid
        } else {
            ShareCheck::InvalidSignatureShare
        },
    }
}

/// What the coordinator finds of each share in turn.
pub open spec fn check_shares<C: Ciphersuite>(
    list: Seq<CommitmentView>,
    message: Seq<u8>,
    entries: Seq<(nat, nat)>,
    key: nat,
    shares: Seq<(nat, nat)>,
) -> Seq<ShareCheck> {
    Seq::new(shares.len(), |k: int| check_share::<C>(list, message, entries, key, shares[k]))
}

/// Whether the error `e` reports the finding `check` of the share of signer
/// `id`.
pub open spec fn reports<C: Ciphersuite>(e: Error<C>, check: ShareCheck, id: nat) -> bool {
    match check {
        ShareCheck::Valid => false,
        ShareCheck::UnknownIdentifier => e is UnknownIdentifier,
        ShareCheck::InvalidSignatureShare => e is InvalidSignatureShare
            && e->InvalidSignatureShare_0@ == id,
    }
}

/// Whether `k` is the first share that is not found valid.
pub open spec fn is_first_failure(checks: Seq<ShareCheck>, k: int) -> bool {
    &&& 0 <= k < checks.len()
    &&& !(checks[k] is Valid)
    &&& forall|j: int| 0 <= j < k ==> #[trigger] checks[j] is Valid
}

/// Verifies each signer's signature share and, if all are valid, adds them
/// up to the signature to publish, which verifies as a plain Schnorr
/// signature under the group's public key.
///
/// The shares must come from exactly the signers whose commitments are in
/// the package, one share each. A commitment that is the identity is
/// refused before any share is looked at. The shares are then checked in the
/// order given, and the first that fails is reported.
pub fn aggregate<C: Ciphersuite>(
    signing_package: &SigningPackage<C>,
    signature_shares: &Vec<SignatureShare<C>>,
    pubkeys: &PublicKeyPackage<C>,
) -> (r: Result<Signature<C>, Error<C>>)
    ensures
        ({
            let list = signing_package.commitments();
            let message = signing_package.message_view();
            let shares = share_views(signature_shares@);
            let n = order::<C>();
            let rho = binding_factor::<C>(list, message);
            let checks = check_shares::<C>(
                list,
                message,
                pubkeys.entries(),
                pubkeys.group_public@,
                shares,
            );
            if !same_signers(shares, list) {
                r is Err && r->Err_0 is MismatchedShares
            } else if shares.len() != list.len() {
                r is Err && r->Err_0 is DuplicateIdentifier
            } else if has_identity_commitment(list) {
                r is Err && r->Err_0 is IdentityCommitment
            } else {
                &&& forall|k: int|
                    is_first_failure(checks, k) ==> r is Err && reports(
                        r->Err_0,
                        checks[k],
                        shares[k].0,
                    )
                &&& (forall|k: int| 0 <= k < checks.len() ==> #[trigger] checks[k] is Valid) ==> r is Ok
                    && r->Ok_0.commitment() == commitment_sum(list, rho) % n && r->Ok_0.response()
                    == share_sum(shares) % n
            }
        }),
{
    let ghost list = signing_package.commitments();
    let ghost message = signing_package.message_view();
    let ghost shares = share_views(signature_shares@);
    let ghost n = order::<C>();
    let ghost checks = check_shares::<C>(
        list,
        message,
        pubkeys.entries(),
        pubkeys.group_public@,
        shares,
    );
    let commitments = signing_package.signing_commitments();

    // Every share must belong to a signer of the package.
    let mut k: usize = 0;
    while k < signature_shares.len()
        invariant
            k <= signature_shares.len(),
            list == signing_package.commitments(),
            shares == share_views(signature_shares@),
            forall|j: int| 0 <= j < k ==> has_identifier(list, (#[trigger] shares[j]).0),
        decreases signature_shares.len() - k,
    {
        let share = signature_shares[k];
        assert(shares[k as int] == share@);
        if signing_package.find_signing_commitment(&share.identifier).is_none() {
            return Err(Error::MismatchedShares);
        }
        k = k + 1;
    }
    // Every signer of the package must have sent a share.
    let mut i: usize = 0;
    while i < commitments.len()
        invariant
            i <= commitments.len(),
            commitment_views(commitments@) == list,
            list == signing_package.commitments(),
            shares == share_views(signature_shares@),
            forall|a: int| 0 <= a < i ==> has_share(shares, (#[trigger] list[a]).id),
        decreases commitments.len() - i,
    {
        let wanted = commitments[i].identifier;
        assert(list[i as int] == commitments[i as int]@);
        let mut found = false;
        let mut j: usize = 0;
        while j < signature_shares.len() && !found
            invariant
                j <= signature_shares.len(),
                shares == share_views(signature_shares@),
                found ==> has_share(shares, wanted@),
                !found ==> forall|b: int| 0 <= b < j ==> (#[trigger] shares[b]).0 != wanted@,
            decreases signature_shares.len() - j + if found { 0int } else { 1int },
        {
            let share = signature_shares[j];
            assert(shares[j as int] == share@);
            if share.identifier.equals(&wanted) {
                found = true;
            } else {
                j = j + 1;
            }
        }
        if !found {
            assert(0 <= i < list.len());
            assert(!has_share(shares, list[i as int].id));
            return Err(Error::MismatchedShares);
        }
        i = i + 1;
    }
    assert(same_signers(shares, list));
    if signature_shares.len() != commitments.len() {
        return Err(Error::DuplicateIdentifier);
    }
    let rho = Rho::from(signing_package);
    let group_commitment = match GroupCommitment::try_from(signing_package) {
        Ok(commitment) => commitment,
        Err(e) => {
            return Err(e);
        },
    };
    let c = challenge::<C>(
        &group_commitment.element,
        &pubkeys.group_public.element,
        signing_package.message().as_slice(),
    );

    // Verify the signature shares.
    let mut k: usize = 0;
    while k < signature_shares.len()
        invariant
            k <= signature_shares.len(),
            list == signing_package.commitments(),
            message == signing_package.message_view(),
            shares == share_views(signature_shares@),
            n == order::<C>(),
            strictly_ascending(list),
            checks == check_shares::<C>(
                list,
                message,
                pubkeys.entries(),
                pubkeys.group_public@,
                shares,
            ),
            rho@ == binding_factor::<C>(list, message),
            value::<C>(c) == challenge_value::<C>(
                commitment_sum(list, rho@) % n,
                pubkeys.group_public@,
                message,
            ),
            same_signers(shares, list),
            shares.len() == list.len(),
            !has_identity_commitment(list),
            forall|j: int| 0 <= j < k ==> #[trigger] checks[j] is Valid,
        decreases signature_shares.len() - k,
    {
        let share = signature_shares[k];
        assert(shares[k as int] == share@);
        let signer_pubkey = match pubkeys.signer_pubkey(&share.identifier) {
            Some(key) => key,
            None => {
                assert(is_first_failure(checks, k as int));
                return Err(Error::UnknownIdentifier);
            },
        };
        let lambda_i = match derive_lagrange_coeff(&share.identifier, signing_package) {
            Ok(lambda) => lambda,
            Err(e) => {
                assert(is_first_failure(checks, k as int));
                return Err(e);
            },
        };
        let commitment = signing_package.signing_commitment(&share.identifier);
        proof {
            lemma_commitment_of(list, commitment@);
        }
        let commitment_share = commitment.to_group_commitment_share(rho.scalar);
        match share.verify(&commitment_share, &signer_pubkey, lambda_i, &c) {
            Ok(_) => {},
            Err(e) => {
                assert(is_first_failure(checks, k as int));
                return Err(e);
            },
        }
        k = k + 1;
    }

    // Add the shares up.
    let mut z = <<C::Group as Group>::Field as Field>::zero();
    let mut k: usize = 0;
    proof {
        <<C::Group as Group>::Field as Field>::lemma_order_above_u16();
        assert(shares.take(0) =~= Seq::<(nat, nat)>::empty());
        vstd::arithmetic::div_mod::lemma_small_mod(0, n);
    }
    while k < signature_shares.len()
        invariant
            k <= signature_shares.len(),
            shares == share_views(signature_shares@),
            n == order::<C>(),
            n > 1,
            value::<C>(z) == share_sum(shares.take(k as int)) % n,
        decreases signature_shares.len() - k,
    {
        let ghost before = share_sum(shares.take(k as int));
        let share = signature_shares[k];
        z = <<C::Group as Group>::Field as Field>::add(z, share.share);
        proof {
            assert(shares.take(k as int + 1).drop_last() =~= shares.take(k as int));
            assert(shares.take(k as int + 1).last() == share@);
            lemma_add_mod(before, share@.1, n);
        }
        k = k + 1;
    }
    proof {
        assert(shares.take(k as int) =~= shares);
    }
    Ok(Signature { R: group_commitment.element, z })
}

} // verus!
