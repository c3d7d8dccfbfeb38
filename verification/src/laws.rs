//! What holds of the protocol as a whole, proved from the contracts of its
//! parts.

use vstd::prelude::*;

use crate::algebra::lagrange_coefficient;
use crate::algebra::lemma_poly_eval_is_power_sum;
use crate::algebra::poly_eval;
use crate::ciphersuite::Ciphersuite;
use crate::ciphersuite::Field;
use crate::ciphersuite::Group;
use crate::ciphersuite::decoded_element;
use crate::ciphersuite::decoded_scalar;
use crate::ciphersuite::encode_element;
use crate::ciphersuite::encode_scalar;
use crate::ciphersuite::lemma_decoded_element;
use crate::ciphersuite::lemma_decoded_scalar;
use crate::ciphersuite::order;
use crate::frost::binding_factor;
use crate::frost::check_shares;
use crate::frost::commitment_of;
use crate::frost::commitment_sum;
use crate::frost::has_identifier;
use crate::frost::has_share;
use crate::frost::identifiers_of;
use crate::frost::is_canonical_form;
use crate::frost::is_last_occurrence;
use crate::frost::keys::ShareView;
use crate::frost::keys::has_duplicate;
use crate::frost::keys::lookup_share;
use crate::frost::keys::share_is_consistent;
use crate::frost::lemma_commitment_of;
use crate::frost::round1::CommitmentView;
use crate::frost::round1::commitment_share;
use crate::frost::round2::share_verifies;
use crate::frost::round2::signature_share_value;
use crate::frost::same_signers;
use crate::frost::share_sum;
use crate::frost::strictly_ascending;
use crate::interpolation::distinct_below;
use crate::interpolation::interpolation_sum;
use crate::interpolation::lemma_interpolation_at_zero;
use crate::interpolation::values_at;
use crate::signature::challenge_value;
use crate::signature::signature_verifies;

verus! {

/// Two lists in strictly ascending order that hold the same identifiers
/// hold them at the same places.
proof fn lemma_same_identifiers(a: Seq<CommitmentView>, b: Seq<CommitmentView>)
    requires
        strictly_ascending(a),
        strictly_ascending(b),
        forall|i: int| 0 <= i < a.len() ==> has_identifier(b, #[trigger] a[i].id),
        forall|i: int| 0 <= i < b.len() ==> has_identifier(a, #[trigger] b[i].id),
    ensures
        a.len() == b.len(),
        forall|k: int| 0 <= k < a.len() ==> #[trigger] a[k].id == b[k].id,
    decreases a.len(),
{
    if a.len() == 0 {
        if b.len() > 0 {
            assert(has_identifier(a, b[0].id));
        }
    } else {
        let la = a.len() - 1;
        assert(has_identifier(b, a[la].id));
        let pb = choose|i: int| 0 <= i < b.len() && #[trigger] b[i].id == a[la].id;
        let lb = b.len() - 1;
        assert(has_identifier(a, b[lb].id));
        let pa = choose|i: int| 0 <= i < a.len() && #[trigger] a[i].id == b[lb].id;
        // the last of each list is the greatest, so the two are the same
        if pb < lb {
            assert(b[pb].id < b[lb].id);
        }
        if pa < la {
            assert(a[pa].id < a[la].id);
        }
        assert(a[la].id == b[lb].id);
        let a1 = a.drop_last();
        let b1 = b.drop_last();
        assert forall|i: int| 0 <= i < a1.len() implies has_identifier(b1, #[trigger] a1[i].id) by {
            assert(a1[i] == a[i]);
            assert(has_identifier(b, a[i].id));
            let j = choose|j: int| 0 <= j < b.len() && #[trigger] b[j].id == a[i].id;
            assert(a[i].id < a[la].id);
            assert(j != lb);
            assert(b1[j].id == a1[i].id);
        }
        assert forall|i: int| 0 <= i < b1.len() implies has_identifier(a1, #[trigger] b1[i].id) by {
            assert(b1[i] == b[i]);
            assert(has_identifier(a, b[i].id));
            let j = choose|j: int| 0 <= j < a.len() && #[trigger] a[j].id == b[i].id;
            assert(b[i].id < b[lb].id);
            assert(j != la);
            assert(a1[j].id == b1[i].id);
        }
        lemma_same_identifiers(a1, b1);
        assert forall|k: int| 0 <= k < a.len() implies #[trigger] a[k].id == b[k].id by {
            if k < la {
                assert(a1[k].id == b1[k].id);
            }
        }
    }
}

/// A list of commitments has one canonical form: whatever order the
/// commitments arrive in at the coordinator, the signing package is the
/// same.
pub proof fn law_canonical_form_is_unique(
    input: Seq<CommitmentView>,
    a: Seq<CommitmentView>,
    b: Seq<CommitmentView>,
)
    requires
        is_canonical_form(input, a),
        is_canonical_form(input, b),
    ensures
        a == b,
{
    assert forall|j: int| 0 <= j < a.len() implies has_identifier(b, #[trigger] a[j].id) by {
        let i = choose|i: int| is_last_occurrence(input, i) && input[i] == a[j];
        assert(has_identifier(b, input[i].id));
    }
    assert forall|j: int| 0 <= j < b.len() implies has_identifier(a, #[trigger] b[j].id) by {
        let i = choose|i: int| is_last_occurrence(input, i) && input[i] == b[j];
        assert(has_identifier(a, input[i].id));
    }
    lemma_same_identifiers(a, b);
    assert forall|k: int| 0 <= k < a.len() implies a[k] == b[k] by {
        let i = choose|i: int| is_last_occurrence(input, i) && input[i] == a[k];
        let j = choose|j: int| is_last_occurrence(input, j) && input[j] == b[k];
        assert(a[k].id == b[k].id);
        if i < j {
            assert(input[j].id != input[i].id);
        } else if j < i {
            assert(input[i].id != input[j].id);
        }
    }
    assert(a =~= b);
}

/// The coordinator and every signer compute the same binding factor: it is
/// a function of the message and of the commitments alone, in whatever order
/// each of them was handed the commitments.
pub proof fn law_binding_factor_agrees<C: Ciphersuite>(
    input: Seq<CommitmentView>,
    coordinator: Seq<CommitmentView>,
    signer: Seq<CommitmentView>,
    message: Seq<u8>,
)
    requires
        is_canonical_form(input, coordinator),
        is_canonical_form(input, signer),
    ensures
        binding_factor::<C>(coordinator, message) == binding_factor::<C>(signer, message),
{
    law_canonical_form_is_unique(input, coordinator, signer);
}

/// Every share that the dealer computes agrees with the commitment to the
/// polynomial: the generator times the value of the polynomial at an
/// identifier is the sum of the committed coefficients times the powers of
/// the identifier.
pub proof fn law_dealt_share_is_consistent(polynomial: Seq<nat>, id: nat, n: nat)
    requires
        n > 0,
    ensures
        share_is_consistent(
            ShareView { id, value: poly_eval(polynomial, id) % n, commitment: polynomial },
            n,
        ),
{
    lemma_poly_eval_is_power_sum(polynomial, id);
    vstd::arithmetic::div_mod::lemma_mod_twice(poly_eval(polynomial, id) as int, n as int);
}

/// Serializing a scalar and reading it back gives the scalar.
pub proof fn law_scalar_round_trip<C: Ciphersuite>(v: nat)
    requires
        v < order::<C>(),
    ensures
        decoded_scalar::<C>(encode_scalar::<C>(v)) == Some(v),
{
    lemma_decoded_scalar::<C>(v);
}

/// Serializing a group element and reading it back gives the element. For
/// the identity, which stands for zero times the generator, a reader that
/// refuses what decodes to zero refuses it.
pub proof fn law_element_round_trip<C: Ciphersuite>(k: nat)
    requires
        k < order::<C>(),
    ensures
        decoded_element::<C>(encode_element::<C>(k)) == Some(k),
{
    lemma_decoded_element::<C>(k);
}

/// Whether no signer has two shares in the list.
pub open spec fn distinct_signers(shares: Seq<(nat, nat)>) -> bool {
    forall|i: int, j: int| 0 <= i < j < shares.len() ==> shares[i].0 != shares[j].0
}

/// The sum, over the shares in the order given, of the part that the
/// share's signer has in the group commitment, before reduction.
pub open spec fn share_commitment_sum(
    list: Seq<CommitmentView>,
    shares: Seq<(nat, nat)>,
    rho: nat,
) -> nat
    decreases shares.len(),
{
    if shares.len() == 0 {
        0
    } else {
        share_commitment_sum(list, shares.drop_last(), rho) + commitment_share(
            commitment_of(list, shares.last().0),
            rho,
        )
    }
}

/// The sum, over the shares in the order given, of the verifying share of
/// the share's signer times the signer's Lagrange coefficient among the
/// signers `xs`.
pub open spec fn weighted_key_sum(
    xs: Seq<nat>,
    entries: Seq<(nat, nat)>,
    shares: Seq<(nat, nat)>,
    n: nat,
) -> nat
    decreases shares.len(),
{
    if shares.len() == 0 {
        0
    } else {
        weighted_key_sum(xs, entries, shares.drop_last(), n) + lagrange_coefficient(
            xs,
            shares.last().0,
            n,
        ) * lookup_share(entries, shares.last().0)->Some_0
    }
}

proof fn lemma_share_commitment_sum_remove(
    list: Seq<CommitmentView>,
    shares: Seq<(nat, nat)>,
    rho: nat,
    k: int,
)
    requires
        0 <= k < shares.len(),
    ensures
        share_commitment_sum(list, shares, rho) == share_commitment_sum(
            list,
            shares.remove(k),
            rho,
        ) + commitment_share(commitment_of(list, shares[k].0), rho),
    decreases shares.len(),
{
    if k == shares.len() - 1 {
        assert(shares.remove(k) =~= shares.drop_last());
    } else {
        lemma_share_commitment_sum_remove(list, shares.drop_last(), rho, k);
        assert(shares.remove(k).drop_last() =~= shares.drop_last().remove(k));
        assert(shares.remove(k).last() == shares.last());
        assert(shares.drop_last()[k] == shares[k]);
    }
}

proof fn lemma_share_commitment_sum_shorter(
    list: Seq<CommitmentView>,
    shares: Seq<(nat, nat)>,
    rho: nat,
)
    requires
        strictly_ascending(list),
        list.len() > 0,
        forall|k: int|
            0 <= k < shares.len() ==> has_identifier(list.drop_last(), (#[trigger] shares[k]).0),
    ensures
        share_commitment_sum(list, shares, rho) == share_commitment_sum(
            list.drop_last(),
            shares,
            rho,
        ),
    decreases shares.len(),
{
    if shares.len() > 0 {
        let front = shares.drop_last();
        assert forall|k: int| 0 <= k < front.len() implies has_identifier(
            list.drop_last(),
            (#[trigger] front[k]).0,
        ) by {
            assert(front[k] == shares[k]);
        }
        lemma_share_commitment_sum_shorter(list, front, rho);
        let id = shares.last().0;
        let shorter = list.drop_last();
        assert(has_identifier(shorter, shares[shares.len() - 1].0));
        let i = choose|i: int| 0 <= i < shorter.len() && #[trigger] shorter[i].id == id;
        let c = shorter[i];
        assert(list[i] == c);
        assert(list.contains(c));
        assert(shorter.contains(c));
        assert(strictly_ascending(shorter)) by {
            assert forall|a: int, b: int| 0 <= a < b < shorter.len() implies shorter[a].id
                < shorter[b].id by {
                assert(list[a].id < list[b].id);
            }
        }
        lemma_commitment_of(list, c);
        lemma_commitment_of(shorter, c);
    }
}

/// Shares from exactly the signers of a package, one each, cover the
/// signers' parts of the group commitment, in whatever order they come.
proof fn lemma_shares_cover_commitments(
    list: Seq<CommitmentView>,
    shares: Seq<(nat, nat)>,
    rho: nat,
)
    requires
        strictly_ascending(list),
        same_signers(shares, list),
        distinct_signers(shares),
    ensures
        share_commitment_sum(list, shares, rho) == commitment_sum(list, rho),
    decreases list.len(),
{
    if list.len() == 0 {
        if shares.len() > 0 {
            assert(has_identifier(list, shares[0].0));
        }
    } else {
        let last = list.len() - 1;
        let m = list[last];
        assert(has_share(shares, list[last].id));
        let k = choose|k: int| 0 <= k < shares.len() && (#[trigger] shares[k]).0 == m.id;
        let rest = shares.remove(k);
        let shorter = list.drop_last();
        assert(strictly_ascending(shorter)) by {
            assert forall|a: int, b: int| 0 <= a < b < shorter.len() implies shorter[a].id
                < shorter[b].id by {
                assert(list[a].id < list[b].id);
            }
        }
        assert forall|j: int| 0 <= j < rest.len() implies has_identifier(
            shorter,
            (#[trigger] rest[j]).0,
        ) by {
            let source = if j < k {
                j
            } else {
                j + 1
            };
            assert(rest[j] == shares[source]);
            assert(has_identifier(list, shares[source].0));
            let i = choose|i: int| 0 <= i < list.len() && #[trigger] list[i].id == shares[source].0;
            assert(shares[source].0 != shares[k].0);
            assert(i != last);
            assert(shorter[i].id == rest[j].0);
        }
        assert forall|i: int| 0 <= i < shorter.len() implies has_share(
            rest,
            (#[trigger] shorter[i]).id,
        ) by {
            assert(shorter[i] == list[i]);
            assert(has_share(shares, list[i].id));
            let j = choose|j: int| 0 <= j < shares.len() && (#[trigger] shares[j]).0 == list[i].id;
            assert(list[i].id < list[last].id);
            assert(j != k);
            let target = if j < k {
                j
            } else {
                j - 1
            };
            assert(rest[target] == shares[j]);
        }
        assert(distinct_signers(rest)) by {
            assert forall|a: int, b: int| 0 <= a < b < rest.len() implies rest[a].0
                != rest[b].0 by {
                let sa = if a < k {
                    a
                } else {
                    a + 1
                };
                let sb = if b < k {
                    b
                } else {
                    b + 1
                };
                assert(rest[a] == shares[sa]);
                assert(rest[b] == shares[sb]);
            }
        }
        lemma_shares_cover_commitments(shorter, rest, rho);
        lemma_share_commitment_sum_remove(list, shares, rho, k);
        lemma_share_commitment_sum_shorter(list, rest, rho);
        assert(list.contains(m));
        lemma_commitment_of(list, m);
    }
}

/// Where every share verifies, the shares add up as the verification
/// equations do.
proof fn lemma_valid_shares_add_up<C: Ciphersuite>(
    list: Seq<CommitmentView>,
    message: Seq<u8>,
    entries: Seq<(nat, nat)>,
    key: nat,
    shares: Seq<(nat, nat)>,
    count: int,
)
    requires
        0 <= count <= shares.len(),
        forall|k: int|
            0 <= k < shares.len() ==> #[trigger] check_shares::<C>(
                list,
                message,
                entries,
                key,
                shares,
            )[k] is Valid,
    ensures
        ({
            let n = order::<C>();
            let rho = binding_factor::<C>(list, message);
            let c = challenge_value::<C>(commitment_sum(list, rho) % n, key, message);
            share_sum(shares.take(count)) % n == (share_commitment_sum(
                list,
                shares.take(count),
                rho,
            ) + c * weighted_key_sum(identifiers_of(list), entries, shares.take(count), n)) % n
        }),
    decreases count,
{
    let n = order::<C>();
    let rho = binding_factor::<C>(list, message);
    let c = challenge_value::<C>(commitment_sum(list, rho) % n, key, message);
    let xs = identifiers_of(list);
    <<C::Group as Group>::Field as Field>::lemma_order_above_u16();
    if count > 0 {
        lemma_valid_shares_add_up::<C>(list, message, entries, key, shares, count - 1);
        let now = shares.take(count);
        let before = shares.take(count - 1);
        assert(now.drop_last() =~= before);
        assert(now.last() == shares[count - 1]);
        let share = shares[count - 1];
        assert(check_shares::<C>(list, message, entries, key, shares)[count - 1] is Valid);
        let y = lookup_share(entries, share.0)->Some_0;
        let lambda = lagrange_coefficient(xs, share.0, n);
        let part = commitment_share(commitment_of(list, share.0), rho);
        let z = share.1;
        assert(z % n == (part % n + c * lambda * y) % n);
        let a = share_sum(before);
        let b = share_commitment_sum(list, before, rho);
        let w = weighted_key_sum(xs, entries, before, n);
        assert(a % n == (b + c * w) % n);
        assert(c * (w + lambda * y) == c * w + c * lambda * y) by (nonlinear_arith);
        crate::algebra::lemma_add_mod(part, c * lambda * y, n);
        crate::algebra::lemma_add_mod(a, z, n);
        crate::algebra::lemma_add_mod(b + c * w, part + c * lambda * y, n);
        assert(share_sum(now) == a + z);
        assert(share_commitment_sum(list, now, rho) == b + part);
        assert(weighted_key_sum(xs, entries, now, n) == w + lambda * y);
        assert((a + z) % n == ((b + c * w) + (part + c * lambda * y)) % n);
        assert((b + c * w) + (part + c * lambda * y) == (b + part) + c * (w + lambda * y));
    } else {
        assert(shares.take(0) =~= Seq::<(nat, nat)>::empty());
        assert(c * 0 == 0);
    }
}

/// The aggregation identity: where the shares come from exactly the signers
/// of the package, one each, and every share verifies, the generator times
/// the sum of the shares is the group commitment plus the challenge times
/// the sum of the signers' verifying shares, each times its Lagrange
/// coefficient. So the group commitment is what the shares and the public
/// key material say it is.
pub proof fn law_aggregation_identity<C: Ciphersuite>(
    list: Seq<CommitmentView>,
    message: Seq<u8>,
    entries: Seq<(nat, nat)>,
    key: nat,
    shares: Seq<(nat, nat)>,
)
    requires
        strictly_ascending(list),
        same_signers(shares, list),
        distinct_signers(shares),
        forall|k: int|
            0 <= k < shares.len() ==> #[trigger] check_shares::<C>(
                list,
                message,
                entries,
                key,
                shares,
            )[k] is Valid,
    ensures
        ({
            let n = order::<C>();
            let rho = binding_factor::<C>(list, message);
            let c = challenge_value::<C>(commitment_sum(list, rho) % n, key, message);
            share_sum(shares) % n == (commitment_sum(list, rho) + c * weighted_key_sum(
                identifiers_of(list),
                entries,
                shares,
                n,
            )) % n
        }),
{
    let rho = binding_factor::<C>(list, message);
    lemma_valid_shares_add_up::<C>(list, message, entries, key, shares, shares.len() as int);
    assert(shares.take(shares.len() as int) =~= shares);
    lemma_shares_cover_commitments(list, shares, rho);
}

/// Reconstruction: weighted by their Lagrange coefficients, the shares of
/// any participants, no fewer than the polynomial has coefficients and none
/// twice, add up to the dealer's secret. This is the key that `reconstruct`
/// returns for their key packages.
pub proof fn law_reconstruction<C: Ciphersuite>(ids: Seq<nat>, polynomial: Seq<nat>)
    requires
        forall|i: int| 0 <= i < ids.len() ==> #[trigger] ids[i] < order::<C>(),
        !has_duplicate(ids),
        0 < polynomial.len() <= ids.len(),
    ensures
        interpolation_sum(
            ids,
            values_at(polynomial, ids, order::<C>()),
            ids.len(),
            order::<C>(),
        ) % order::<C>() == polynomial[0] % order::<C>(),
{
    <<C::Group as Group>::Field as Field>::lemma_order_is_prime();
    lemma_interpolation_at_zero(ids, polynomial, order::<C>());
}

/// The share that the signer `id` computes in round two, when the signer's
/// nonces are the ones behind the signer's commitments in the package and
/// the signer's key package comes from the dealer of `polynomial`.
pub open spec fn honest_share<C: Ciphersuite>(
    list: Seq<CommitmentView>,
    message: Seq<u8>,
    polynomial: Seq<nat>,
    id: nat,
) -> (nat, nat) {
    let n = order::<C>();
    let rho = binding_factor::<C>(list, message);
    let c = challenge_value::<C>(commitment_sum(list, rho) % n, polynomial[0] % n, message);
    let published = commitment_of(list, id);
    (
        id,
        signature_share_value(
            published.hiding,
            published.binding,
            rho,
            lagrange_coefficient(identifiers_of(list), id, n),
            poly_eval(polynomial, id) % n,
            c,
        ) % n,
    )
}

/// The honest shares of the signers of a package, in the order of the
/// package.
pub open spec fn honest_shares<C: Ciphersuite>(
    list: Seq<CommitmentView>,
    message: Seq<u8>,
    polynomial: Seq<nat>,
) -> Seq<(nat, nat)> {
    Seq::new(list.len(), |i: int| honest_share::<C>(list, message, polynomial, list[i].id))
}

proof fn lemma_honest_shares_add_up<C: Ciphersuite>(
    list: Seq<CommitmentView>,
    message: Seq<u8>,
    polynomial: Seq<nat>,
    count: int,
)
    requires
        strictly_ascending(list),
        0 <= count <= list.len(),
    ensures
        ({
            let n = order::<C>();
            let rho = binding_factor::<C>(list, message);
            let c = challenge_value::<C>(
                commitment_sum(list, rho) % n,
                polynomial[0] % n,
                message,
            );
            let ids = identifiers_of(list);
            share_sum(honest_shares::<C>(list, message, polynomial).take(count)) % n == (
            commitment_sum(list.take(count), rho) + c * interpolation_sum(
                ids,
                values_at(polynomial, ids, n),
                count as nat,
                n,
            )) % n
        }),
    decreases count,
{
    let n = order::<C>();
    let rho = binding_factor::<C>(list, message);
    let c = challenge_value::<C>(commitment_sum(list, rho) % n, polynomial[0] % n, message);
    let ids = identifiers_of(list);
    let values = values_at(polynomial, ids, n);
    let shares = honest_shares::<C>(list, message, polynomial);
    <<C::Group as Group>::Field as Field>::lemma_order_above_u16();
    if count == 0 {
        assert(shares.take(0) =~= Seq::<(nat, nat)>::empty());
        assert(list.take(0) =~= Seq::<CommitmentView>::empty());
        assert(c * 0 == 0);
    } else {
        lemma_honest_shares_add_up::<C>(list, message, polynomial, count - 1);
        let i = count - 1;
        assert(shares.take(count).drop_last() =~= shares.take(i));
        assert(shares.take(count).last() == shares[i]);
        assert(list.take(count).drop_last() =~= list.take(i));
        assert(list.take(count).last() == list[i]);
        assert(shares[i] == honest_share::<C>(list, message, polynomial, list[i].id));
        assert(list.contains(list[i]));
        lemma_commitment_of(list, list[i]);
        let d = list[i].hiding;
        let e = list[i].binding;
        let lambda = lagrange_coefficient(ids, ids[i], n);
        let s = values[i];
        assert(ids[i] == list[i].id);
        assert(s == poly_eval(polynomial, list[i].id) % n);
        let z = shares[i].1;
        assert(z == (d + rho * e + lambda * s * c) % n);
        let a = share_sum(shares.take(i));
        let b = commitment_sum(list.take(i), rho);
        let w = interpolation_sum(ids, values, i as nat, n);
        vstd::arithmetic::div_mod::lemma_mod_twice((d + rho * e + lambda * s * c) as int, n as int);
        crate::algebra::lemma_add_mod(a, z, n);
        crate::algebra::lemma_add_mod(a, d + rho * e + lambda * s * c, n);
        crate::algebra::lemma_add_mod(b + c * w, d + rho * e + lambda * s * c, n);
        assert((a + z) % n == ((b + c * w) + (d + rho * e + lambda * s * c)) % n);
        assert((b + c * w) + (d + rho * e + lambda * s * c) == (b + (d + rho * e)) + c * (w
            + lambda * s)) by (nonlinear_arith);
    }
}

proof fn lemma_share_sum_remove(shares: Seq<(nat, nat)>, k: int)
    requires
        0 <= k < shares.len(),
    ensures
        share_sum(shares) == share_sum(shares.remove(k)) + shares[k].1,
    decreases shares.len(),
{
    if k == shares.len() - 1 {
        assert(shares.remove(k) =~= shares.drop_last());
    } else {
        lemma_share_sum_remove(shares.drop_last(), k);
        assert(shares.remove(k).drop_last() =~= shares.drop_last().remove(k));
        assert(shares.remove(k).last() == shares.last());
        assert(shares.drop_last()[k] == shares[k]);
    }
}

/// The sum of the shares does not depend on the order in which the shares
/// come.
proof fn lemma_share_sum_any_order(a: Seq<(nat, nat)>, b: Seq<(nat, nat)>)
    requires
        distinct_signers(a),
        distinct_signers(b),
        forall|i: int| 0 <= i < a.len() ==> b.contains(#[trigger] a[i]),
        forall|j: int| 0 <= j < b.len() ==> a.contains(#[trigger] b[j]),
    ensures
        share_sum(a) == share_sum(b),
    decreases a.len(),
{
    if a.len() == 0 {
        if b.len() > 0 {
            assert(a.contains(b[0]));
        }
    } else {
        let last = a.len() - 1;
        assert(b.contains(a[last]));
        let j = choose|j: int| 0 <= j < b.len() && b[j] == a[last];
        let a1 = a.drop_last();
        let b1 = b.remove(j);
        assert forall|i: int| 0 <= i < a1.len() implies b1.contains(#[trigger] a1[i]) by {
            assert(a1[i] == a[i]);
            assert(b.contains(a[i]));
            let t = choose|t: int| 0 <= t < b.len() && b[t] == a[i];
            assert(a[i].0 != a[last].0);
            assert(t != j);
            let u = if t < j {
                t
            } else {
                t - 1
            };
            assert(b1[u] == a1[i]);
        }
        assert forall|t: int| 0 <= t < b1.len() implies a1.contains(#[trigger] b1[t]) by {
            let source = if t < j {
                t
            } else {
                t + 1
            };
            assert(b1[t] == b[source]);
            assert(a.contains(b[source]));
            let i = choose|i: int| 0 <= i < a.len() && a[i] == b[source];
            if source < j {
                assert(b[source].0 != b[j].0);
            } else {
                assert(b[j].0 != b[source].0);
            }
            assert(i != last);
            assert(a1[i] == b1[t]);
        }
        assert(distinct_signers(b1)) by {
            assert forall|x: int, y: int| 0 <= x < y < b1.len() implies b1[x].0 != b1[y].0 by {
                let sx = if x < j {
                    x
                } else {
                    x + 1
                };
                let sy = if y < j {
                    y
                } else {
                    y + 1
                };
                assert(b1[x] == b[sx] && b1[y] == b[sy]);
            }
        }
        assert(distinct_signers(a1)) by {
            assert forall|x: int, y: int| 0 <= x < y < a1.len() implies a1[x].0 != a1[y].0 by {
                assert(a1[x] == a[x] && a1[y] == a[y]);
            }
        }
        lemma_share_sum_any_order(a1, b1);
        lemma_share_sum_remove(b, j);
    }
}

/// The protocol is correct: when every signer of a package holds a key
/// package of the same dealing, the signers are no fewer than the threshold,
/// and every signer computes the share of round two from the nonces behind
/// the signer's commitments, then the group commitment with the sum of the
/// shares, in whatever order they come, is a signature that verifies under
/// the group's public key.
pub proof fn law_signature_verifies<C: Ciphersuite>(
    list: Seq<CommitmentView>,
    message: Seq<u8>,
    polynomial: Seq<nat>,
    shares: Seq<(nat, nat)>,
)
    requires
        strictly_ascending(list),
        forall|i: int| 0 <= i < list.len() ==> (#[trigger] list[i]).id < order::<C>(),
        0 < polynomial.len() <= list.len(),
        same_signers(shares, list),
        distinct_signers(shares),
        forall|k: int|
            0 <= k < shares.len() ==> #[trigger] shares[k] == honest_share::<C>(
                list,
                message,
                polynomial,
                shares[k].0,
            ),
    ensures
        signature_verifies::<C>(
            commitment_sum(list, binding_factor::<C>(list, message)) % order::<C>(),
            share_sum(shares) % order::<C>(),
            polynomial[0] % order::<C>(),
            message,
        ),
{
    let n = order::<C>();
    let rho = binding_factor::<C>(list, message);
    let sum = commitment_sum(list, rho);
    let key = polynomial[0] % n;
    let c = challenge_value::<C>(sum % n, key, message);
    let ids = identifiers_of(list);
    let values = values_at(polynomial, ids, n);
    let sorted = honest_shares::<C>(list, message, polynomial);
    <<C::Group as Group>::Field as Field>::lemma_order_is_prime();
    assert(distinct_below(ids, n)) by {
        assert forall|i: int| 0 <= i < ids.len() implies #[trigger] ids[i] < n by {
            assert(list[i].id < n);
        }
        assert forall|i: int, j: int| 0 <= i < j < ids.len() implies ids[i] != ids[j] by {
            assert(list[i].id < list[j].id);
        }
    }
    // the shares are the honest shares in another order
    assert(distinct_signers(sorted)) by {
        assert forall|i: int, j: int| 0 <= i < j < sorted.len() implies sorted[i].0
            != sorted[j].0 by {
            assert(list[i].id < list[j].id);
        }
    }
    assert forall|k: int| 0 <= k < shares.len() implies sorted.contains(#[trigger] shares[k]) by {
        assert(has_identifier(list, shares[k].0));
        let i = choose|i: int| 0 <= i < list.len() && #[trigger] list[i].id == shares[k].0;
        assert(sorted[i] == shares[k]);
    }
    assert forall|i: int| 0 <= i < sorted.len() implies shares.contains(#[trigger] sorted[i]) by {
        assert(has_share(shares, list[i].id));
        let k = choose|k: int| 0 <= k < shares.len() && (#[trigger] shares[k]).0 == list[i].id;
        assert(shares[k] == sorted[i]);
    }
    lemma_share_sum_any_order(shares, sorted);
    lemma_interpolation_at_zero(ids, polynomial, n);
    lemma_honest_shares_add_up::<C>(list, message, polynomial, list.len() as int);
    assert(sorted.take(list.len() as int) =~= sorted);
    assert(list.take(list.len() as int) =~= list);
    let w = interpolation_sum(ids, values, ids.len(), n);
    let z = share_sum(shares);
    assert(z % n == (sum + c * w) % n);
    vstd::arithmetic::div_mod::lemma_mod_twice(z as int, n as int);
    vstd::arithmetic::div_mod::lemma_mod_twice(sum as int, n as int);
    vstd::arithmetic::div_mod::lemma_mod_twice(polynomial[0] as int, n as int);
    crate::interpolation::lemma_mul_congruent(c, c, w, key, n);
    crate::interpolation::lemma_add_congruent(sum, sum % n, c * w, c * key, n);
}

/// Honest shares pass the coordinator's test: when the public key package
/// holds, for every signer of the package, the public counterpart of the
/// share that the dealer of `polynomial` gave the signer, every share
/// computed as in round two is found valid. So `aggregate` refuses such
/// shares only for an identity among the commitments.
pub proof fn law_honest_shares_are_valid<C: Ciphersuite>(
    list: Seq<CommitmentView>,
    message: Seq<u8>,
    polynomial: Seq<nat>,
    entries: Seq<(nat, nat)>,
    shares: Seq<(nat, nat)>,
)
    requires
        strictly_ascending(list),
        polynomial.len() > 0,
        forall|k: int|
            0 <= k < shares.len() ==> has_identifier(list, (#[trigger] shares[k]).0) && shares[k]
                == honest_share::<C>(list, message, polynomial, shares[k].0),
        forall|i: int|
            0 <= i < list.len() ==> lookup_share(entries, (#[trigger] list[i]).id) == Some(
                poly_eval(polynomial, list[i].id) % order::<C>(),
            ),
    ensures
        forall|k: int|
            0 <= k < shares.len() ==> #[trigger] check_shares::<C>(
                list,
                message,
                entries,
                polynomial[0] % order::<C>(),
                shares,
            )[k] is Valid,
{
    let n = order::<C>();
    let rho = binding_factor::<C>(list, message);
    let key = polynomial[0] % n;
    let c = challenge_value::<C>(commitment_sum(list, rho) % n, key, message);
    let xs = identifiers_of(list);
    <<C::Group as Group>::Field as Field>::lemma_order_above_u16();
    assert forall|k: int| 0 <= k < shares.len() implies #[trigger] check_shares::<C>(
        list,
        message,
        entries,
        key,
        shares,
    )[k] is Valid by {
        let id = shares[k].0;
        assert(has_identifier(list, shares[k].0));
        assert(shares[k] == honest_share::<C>(list, message, polynomial, id));
        let i = choose|i: int| 0 <= i < list.len() && #[trigger] list[i].id == id;
        assert(list.contains(list[i]));
        lemma_commitment_of(list, list[i]);
        let s = poly_eval(polynomial, id) % n;
        let lambda = lagrange_coefficient(xs, id, n);
        let z = shares[k].1;
        let part = commitment_share(list[i], rho);
        assert(lookup_share(entries, list[i].id) == Some(s));
        assert(z == (part + lambda * s * c) % n);
        assert(lambda * s * c == c * lambda * s) by (nonlinear_arith);
        vstd::arithmetic::div_mod::lemma_mod_twice((part + lambda * s * c) as int, n as int);
        crate::algebra::lemma_add_mod(part, c * lambda * s, n);
        assert(share_verifies(z, part % n, s, lambda, c, n));
    }
}

} // verus!
