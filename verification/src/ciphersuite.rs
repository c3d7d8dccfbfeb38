//! The capabilities a ciphersuite supplies: a prime scalar field, a
//! prime-order group over it, and the transcript hashes.
//!
//! Every contract in this file is a demand on implementors. Verified code is
//! proved against these contracts, so what it guarantees holds of a
//! ciphersuite exactly as far as that ciphersuite meets them.

use vstd::prelude::*;

use crate::algebra::le_value;
use crate::interpolation::is_field_order;

verus! {

/// The type of the integers that scalars and elements stand for. It exists
/// in contracts only; a ciphersuite written outside this crate names it in
/// the signatures of the functions that describe it.
pub type Natural = nat;

/// The type of the byte strings in contracts.
pub type ByteString = Seq<u8>;

/// What can go wrong in the scalar field.
#[derive(Clone, Copy, Debug, PartialEq, Eq)]
pub enum FieldError {
    /// The bytes are not the canonical encoding of a scalar.
    MalformedScalar,
    /// The zero scalar has no inverse.
    InvalidZeroScalar,
}

/// What can go wrong in the group.
#[derive(Clone, Copy, Debug, PartialEq, Eq)]
pub enum GroupError {
    /// The bytes are not the canonical encoding of an element.
    MalformedElement,
    /// The bytes encode the identity, which is never accepted from outside.
    InvalidIdentityElement,
}

/// A prime field in which the scalars of a group live.
///
/// A scalar stands for an integer below `order()`, given by `value`.
pub trait Field {
    /// An element of the field.
    type Scalar: Copy;

    /// The number of elements of the field, a prime above every participant
    /// number.
    spec fn order() -> nat;

    /// The integer that a scalar stands for.
    spec fn value(s: Self::Scalar) -> nat;

    /// The canonical serialization of the scalar that stands for `v`.
    spec fn encode(v: nat) -> Seq<u8>;

    /// The length of the little-endian form of a scalar.
    spec fn width() -> nat;

    /// Every scalar stands for an integer below the order.
    proof fn lemma_value_below_order(s: Self::Scalar)
        ensures
            Self::value(s) < Self::order(),
    ;

    /// The order exceeds every 16-bit participant number.
    proof fn lemma_order_above_u16()
        ensures
            Self::order() > 0xffff,
    ;

    /// The order is prime: every integer between zero and the order has an
    /// inverse modulo the order.
    proof fn lemma_order_is_prime()
        ensures
            is_field_order(Self::order()),
    ;

    /// Two integers below the order with the same serialization are equal.
    proof fn lemma_encode_injective(a: nat, b: nat)
        requires
            a < Self::order(),
            b < Self::order(),
            Self::encode(a) == Self::encode(b),
        ensures
            a == b,
    ;

    /// The additive identity.
    fn zero() -> (r: Self::Scalar)
        ensures
            Self::value(r) == 0,
    ;

    /// The multiplicative identity.
    fn one() -> (r: Self::Scalar)
        ensures
            Self::value(r) == 1,
    ;

    /// Sum in the field.
    fn add(a: Self::Scalar, b: Self::Scalar) -> (r: Self::Scalar)
        ensures
            Self::value(r) == (Self::value(a) + Self::value(b)) % Self::order(),
    ;

    /// Difference in the field.
    fn sub(a: Self::Scalar, b: Self::Scalar) -> (r: Self::Scalar)
        ensures
            Self::value(r) == ((Self::value(a) + Self::order() - Self::value(b)) as nat)
                % Self::order(),
    ;

    /// Product in the field.
    fn mul(a: Self::Scalar, b: Self::Scalar) -> (r: Self::Scalar)
        ensures
            Self::value(r) == (Self::value(a) * Self::value(b)) % Self::order(),
    ;

    /// Whether two scalars stand for the same integer.
    fn equals(a: Self::Scalar, b: Self::Scalar) -> (r: bool)
        ensures
            r == (Self::value(a) == Self::value(b)),
    ;

    /// The multiplicative inverse; zero has none.
    fn invert(s: Self::Scalar) -> (r: Result<Self::Scalar, FieldError>)
        ensures
            Self::value(s) == 0 ==> r == Err::<Self::Scalar, FieldError>(
                FieldError::InvalidZeroScalar,
            ),
            Self::value(s) != 0 ==> r is Ok && (Self::value(r->Ok_0) * Self::value(s))
                % Self::order() == 1,
    ;

    /// The canonical serialization of a scalar.
    fn serialize(s: Self::Scalar) -> (r: Vec<u8>)
        ensures
            r@ == Self::encode(Self::value(s)),
    ;

    /// The scalar with the given canonical serialization; anything else is
    /// rejected as malformed.
    fn deserialize(buf: &[u8]) -> (r: Result<Self::Scalar, FieldError>)
        ensures
            match r {
                Ok(s) => Self::encode(Self::value(s)) == buf@,
                Err(e) => e == FieldError::MalformedScalar && forall|v: nat|
                    v < Self::order() ==> #[trigger] Self::encode(v) != buf@,
            },
    ;

    /// The scalar's integer in little-endian bytes, `width()` of them.
    fn little_endian_serialize(s: Self::Scalar) -> (r: Vec<u8>)
        ensures
            r@.len() == Self::width(),
            le_value(r@) == Self::value(s),
    ;
}

/// A group of prime order, written additively, with a fixed generator.
///
/// An element stands for a multiple of the generator; `index` gives the
/// multiplier, an integer below the order of the scalar field.
pub trait Group {
    /// The scalar field of the group.
    type Field: Field;

    /// An element of the group.
    type Element: Copy;

    /// The multiplier `k` for which the element is `k` times the generator.
    spec fn index(e: Self::Element) -> nat;

    /// The canonical serialization of `k` times the generator.
    spec fn encode(k: nat) -> Seq<u8>;

    /// Every element is a multiple of the generator below the order.
    proof fn lemma_index_below_order(e: Self::Element)
        ensures
            Self::index(e) < <Self::Field as Field>::order(),
    ;

    /// Two multipliers below the order with the same serialization are
    /// equal.
    proof fn lemma_encode_injective(a: nat, b: nat)
        requires
            a < <Self::Field as Field>::order(),
            b < <Self::Field as Field>::order(),
            Self::encode(a) == Self::encode(b),
        ensures
            a == b,
    ;

    /// The cofactor of the group, one for a group of prime order.
    fn cofactor() -> (r: <Self::Field as Field>::Scalar)
        ensures
            <Self::Field as Field>::value(r) == 1,
    ;

    /// The neutral element.
    fn identity() -> (r: Self::Element)
        ensures
            Self::index(r) == 0,
    ;

    /// The generator.
    fn generator() -> (r: Self::Element)
        ensures
            Self::index(r) == 1,
    ;

    /// Sum in the group.
    fn add(a: Self::Element, b: Self::Element) -> (r: Self::Element)
        ensures
            Self::index(r) == (Self::index(a) + Self::index(b)) % <Self::Field as Field>::order(),
    ;

    /// The element taken `s` times.
    fn mul(e: Self::Element, s: <Self::Field as Field>::Scalar) -> (r: Self::Element)
        ensures
            Self::index(r) == (Self::index(e) * <Self::Field as Field>::value(s))
                % <Self::Field as Field>::order(),
    ;

    /// Whether two values stand for the same element.
    fn equals(a: Self::Element, b: Self::Element) -> (r: bool)
        ensures
            r == (Self::index(a) == Self::index(b)),
    ;

    /// The canonical serialization of an element.
    fn serialize(e: Self::Element) -> (r: Vec<u8>)
        ensures
            r@ == Self::encode(Self::index(e)),
    ;

    /// The element with the given canonical serialization. The identity is
    /// rejected, and so is anything that no element serializes to.
    fn deserialize(buf: &[u8]) -> (r: Result<Self::Element, GroupError>)
        ensures
            match r {
                Ok(e) => Self::encode(Self::index(e)) == buf@ && Self::index(e) != 0,
                Err(GroupError::InvalidIdentityElement) => buf@ == Self::encode(0),
                Err(GroupError::MalformedElement) => forall|k: nat|
                    k < <Self::Field as Field>::order() ==> #[trigger] Self::encode(k) != buf@,
            },
    ;
}

/// A ciphersuite: a group together with the hash functions of the
/// transcript.
pub trait Ciphersuite: Copy {
    /// The group that signatures live in.
    type Group: Group;

    /// What `H1` maps a message to.
    spec fn h1(m: Seq<u8>) -> nat;

    /// What `H2` maps a message to.
    spec fn h2(m: Seq<u8>) -> nat;

    /// What `H3` maps a message to.
    spec fn h3(m: Seq<u8>) -> nat;

    /// What `H4` maps a message to.
    spec fn h4(m: Seq<u8>) -> Seq<u8>;

    /// What `H5` maps a message to.
    spec fn h5(m: Seq<u8>) -> Seq<u8>;

    /// What `HDKG` maps a message to.
    spec fn hdkg(m: Seq<u8>) -> Option<nat>;

    /// What `HID` maps a message to.
    spec fn hid(m: Seq<u8>) -> Option<nat>;

    /// The byte string that names the ciphersuite.
    fn id() -> Vec<u8>;

    /// The hash that yields the binding factor.
    fn H1(m: &[u8]) -> (r: <<Self::Group as Group>::Field as Field>::Scalar)
        ensures
            <<Self::Group as Group>::Field as Field>::value(r) == Self::h1(m@),
    ;

    /// The hash that yields the challenge.
    fn H2(m: &[u8]) -> (r: <<Self::Group as Group>::Field as Field>::Scalar)
        ensures
            <<Self::Group as Group>::Field as Field>::value(r) == Self::h2(m@),
    ;

    /// The hash that derives nonces.
    fn H3(m: &[u8]) -> (r: <<Self::Group as Group>::Field as Field>::Scalar)
        ensures
            <<Self::Group as Group>::Field as Field>::value(r) == Self::h3(m@),
    ;

    /// The digest of a message.
    fn H4(m: &[u8]) -> (r: Vec<u8>)
        ensures
            r@ == Self::h4(m@),
    ;

    /// The digest of a commitment list or message bound into the transcript.
    fn H5(m: &[u8]) -> (r: Vec<u8>)
        ensures
            r@ == Self::h5(m@),
    ;

    /// The hash of distributed key generation, where the ciphersuite has one.
    fn HDKG(m: &[u8]) -> (r: Option<<<Self::Group as Group>::Field as Field>::Scalar>)
        ensures
            r is Some == Self::hdkg(m@) is Some,
            r is Some ==> <<Self::Group as Group>::Field as Field>::value(r->Some_0)
                == Self::hdkg(m@)->Some_0,
    ;

    /// The hash that maps a byte string to an identifier, where the
    /// ciphersuite has one.
    fn HID(m: &[u8]) -> (r: Option<<<Self::Group as Group>::Field as Field>::Scalar>)
        ensures
            r is Some == Self::hid(m@) is Some,
            r is Some ==> <<Self::Group as Group>::Field as Field>::value(r->Some_0)
                == Self::hid(m@)->Some_0,
    ;
}

/// The scalar type of a ciphersuite.
pub type Scalar<C> = <<<C as Ciphersuite>::Group as Group>::Field as Field>::Scalar;

/// The element type of a ciphersuite.
pub type Element<C> = <<C as Ciphersuite>::Group as Group>::Element;

/// The order of the scalar field of a ciphersuite.
pub open spec fn order<C: Ciphersuite>() -> nat {
    <<C::Group as Group>::Field as Field>::order()
}

/// The integer that a scalar of the ciphersuite stands for.
pub open spec fn value<C: Ciphersuite>(s: Scalar<C>) -> nat {
    <<C::Group as Group>::Field as Field>::value(s)
}

/// The multiplier of the generator that an element of the ciphersuite stands
/// for.
pub open spec fn index<C: Ciphersuite>(e: Element<C>) -> nat {
    <C::Group as Group>::index(e)
}

/// The canonical serialization of the scalar of value `v`.
pub open spec fn encode_scalar<C: Ciphersuite>(v: nat) -> Seq<u8> {
    <<C::Group as Group>::Field as Field>::encode(v)
}

/// The canonical serialization of `k` times the generator.
pub open spec fn encode_element<C: Ciphersuite>(k: nat) -> Seq<u8> {
    <C::Group as Group>::encode(k)
}

/// The integer whose canonical scalar serialization `bytes` is, where there
/// is one.
pub open spec fn decoded_scalar<C: Ciphersuite>(bytes: Seq<u8>) -> Option<nat> {
    if exists|v: nat| v < order::<C>() && #[trigger] encode_scalar::<C>(v) == bytes {
        Some(choose|v: nat| v < order::<C>() && #[trigger] encode_scalar::<C>(v) == bytes)
    } else {
        None
    }
}

/// The multiple of the generator whose canonical element serialization
/// `bytes` is, where there is one.
pub open spec fn decoded_element<C: Ciphersuite>(bytes: Seq<u8>) -> Option<nat> {
    if exists|k: nat| k < order::<C>() && #[trigger] encode_element::<C>(k) == bytes {
        Some(choose|k: nat| k < order::<C>() && #[trigger] encode_element::<C>(k) == bytes)
    } else {
        None
    }
}

/// A scalar of value `v` is the one that its serialization decodes to.
pub proof fn lemma_decoded_scalar<C: Ciphersuite>(v: nat)
    requires
        v < order::<C>(),
    ensures
        decoded_scalar::<C>(encode_scalar::<C>(v)) == Some(v),
{
    let bytes = encode_scalar::<C>(v);
    assert(encode_scalar::<C>(v) == bytes);
    let w = choose|w: nat| w < order::<C>() && #[trigger] encode_scalar::<C>(w) == bytes;
    <<C::Group as Group>::Field as Field>::lemma_encode_injective(v, w);
}

/// The element `k` times the generator is the one that its serialization
/// decodes to.
pub proof fn lemma_decoded_element<C: Ciphersuite>(k: nat)
    requires
        k < order::<C>(),
    ensures
        decoded_element::<C>(encode_element::<C>(k)) == Some(k),
{
    let bytes = encode_element::<C>(k);
    assert(encode_element::<C>(k) == bytes);
    let w = choose|w: nat| w < order::<C>() && #[trigger] encode_element::<C>(w) == bytes;
    <C::Group as Group>::lemma_encode_injective(k, w);
}

} // verus!
