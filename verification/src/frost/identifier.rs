//! Participant identifiers.

use vstd::prelude::*;

use crate::algebra::le_value;
use crate::ciphersuite::Ciphersuite;
use crate::ciphersuite::Field;
use crate::ciphersuite::FieldError;
use crate::ciphersuite::Group;
use crate::ciphersuite::Scalar;
use crate::ciphersuite::decoded_scalar;
use crate::ciphersuite::encode_scalar;
use crate::ciphersuite::lemma_decoded_scalar;
use crate::ciphersuite::order;
use crate::ciphersuite::value;
use crate::error::Error;

verus! {

/// The identifier of a participant: a nonzero scalar.
pub struct Identifier<C: Ciphersuite> {
    scalar: Scalar<C>,
}

impl<C: Ciphersuite> Clone for Identifier<C> {
    fn clone(&self) -> (r: Self)
        ensures
            r == *self,
    {
        *self
    }
}

impl<C: Ciphersuite> Copy for Identifier<C> {

}

impl<C: Ciphersuite> View for Identifier<C> {
    type V = nat;

    /// The integer that the identifier's scalar stands for.
    closed spec fn view(&self) -> nat {
        value::<C>(self.scalar)
    }
}

impl<C: Ciphersuite> Identifier<C> {
    /// An identifier is never zero.
    #[verifier::type_invariant]
    spec fn nonzero(&self) -> bool {
        value::<C>(self.scalar) != 0
    }

    /// The identifier that a scalar stands for; zero is refused.
    pub fn new(scalar: Scalar<C>) -> (r: Result<Self, Error<C>>)
        ensures
            value::<C>(scalar) == 0 ==> r is Err && r->Err_0 is InvalidIdentifier,
            value::<C>(scalar) != 0 ==> r is Ok && r->Ok_0@ == value::<C>(scalar),
    {
        let zero = <<C::Group as Group>::Field as Field>::zero();
        proof {
            <<C::Group as Group>::Field as Field>::lemma_value_below_order(scalar);
        }
        if <<C::Group as Group>::Field as Field>::equals(scalar, zero) {
            Err(Error::InvalidIdentifier)
        } else {
            Ok(Identifier { scalar })
        }
    }

    /// The identifier of participant number `n`; zero is refused.
    pub fn try_from(n: u16) -> (r: Result<Self, Error<C>>)
        ensures
            n == 0 ==> r is Err && r->Err_0 is InvalidIdentifier,
            n != 0 ==> r is Ok && r->Ok_0@ == n,
    {
        if n == 0 {
            return Err(Error::InvalidIdentifier);
        }
        let one = <<C::Group as Group>::Field as Field>::one();
        let mut sum = <<C::Group as Group>::Field as Field>::zero();
        let mut i: u32 = 16;
        proof {
            <<C::Group as Group>::Field as Field>::lemma_order_above_u16();
            assert(n >> 16u16 == 0) by (bit_vector);
        }
        while i > 0
            invariant
                i <= 16,
                order::<C>() > 0xffff,
                value::<C>(one) == 1,
                value::<C>(sum) == (n >> (i as u16)),
            decreases i,
        {
            i = i - 1;
            let ghost before = value::<C>(sum);
            sum = <<C::Group as Group>::Field as Field>::add(sum, sum);
            let bit = (n >> (i as u16)) & 1;
            proof {
                let j = i as u16;
                assert(j < 16 ==> (n >> j) == 2 * (n >> ((j + 1) as u16)) + ((n >> j) & 1)
                    && ((n >> j) & 1) <= 1) by (bit_vector);
                vstd::arithmetic::div_mod::lemma_small_mod(2 * before, order::<C>());
            }
            if bit == 1 {
                let ghost doubled = value::<C>(sum);
                sum = <<C::Group as Group>::Field as Field>::add(sum, one);
                proof {
                    vstd::arithmetic::div_mod::lemma_small_mod(doubled + 1, order::<C>());
                }
            }
        }
        proof {
            assert(n >> 0u16 == n) by (bit_vector);
        }
        Ok(Identifier { scalar: sum })
    }

    /// The scalar of the identifier, which is not zero.
    pub fn to_scalar(&self) -> (r: Scalar<C>)
        ensures
            value::<C>(r) == self@,
            0 < self@ < order::<C>(),
    {
        proof {
            use_type_invariant(self);
            <<C::Group as Group>::Field as Field>::lemma_value_below_order(self.scalar);
        }
        self.scalar
    }

    /// The canonical serialization of the identifier's scalar.
    pub fn serialize(&self) -> (r: Vec<u8>)
        ensures
            r@ == encode_scalar::<C>(self@),
    {
        <<C::Group as Group>::Field as Field>::serialize(self.scalar)
    }

    /// The identifier with the given serialization. Bytes that are no
    /// canonical scalar are refused as malformed, the zero scalar as no
    /// identifier.
    pub fn deserialize(buf: &[u8]) -> (r: Result<Self, Error<C>>)
        ensures
            match decoded_scalar::<C>(buf@) {
                Some(v) => if v == 0 {
                    r is Err && r->Err_0 is InvalidIdentifier
                } else {
                    r is Ok && r->Ok_0@ == v
                },
                None => r is Err && r->Err_0 is FieldError && r->Err_0->FieldError_0
                    == FieldError::MalformedScalar,
            },
    {
        match <<C::Group as Group>::Field as Field>::deserialize(buf) {
            Ok(scalar) => {
                proof {
                    <<C::Group as Group>::Field as Field>::lemma_value_below_order(scalar);
                    lemma_decoded_scalar::<C>(value::<C>(scalar));
                }
                Self::new(scalar)
            },
            Err(e) => Err(Error::FieldError(e)),
        }
    }

    /// Whether two identifiers are the same.
    pub fn equals(&self, other: &Self) -> (r: bool)
        ensures
            r == (self@ == other@),
    {
        <<C::Group as Group>::Field as Field>::equals(self.scalar, other.scalar)
    }

    /// Whether this identifier comes before the other in the canonical
    /// order, which is that of the integers the identifiers stand for.
    pub fn less_than(&self, other: &Self) -> (r: bool)
        ensures
            r == (self@ < other@),
    {
        let a = <<C::Group as Group>::Field as Field>::little_endian_serialize(self.scalar);
        let b = <<C::Group as Group>::Field as Field>::little_endian_serialize(other.scalar);
        let n = a.len();
        let mut i: usize = n;
        let mut below = false;
        let mut same = true;
        proof {
            assert(a@.subrange(n as int, n as int) =~= Seq::<u8>::empty());
            assert(b@.subrange(n as int, n as int) =~= Seq::<u8>::empty());
        }
        while i > 0
            invariant
                i <= n,
                n == a.len(),
                n == b.len(),
                below == (le_value(a@.subrange(i as int, n as int)) < le_value(
                    b@.subrange(i as int, n as int),
                )),
                same == (le_value(a@.subrange(i as int, n as int)) == le_value(
                    b@.subrange(i as int, n as int),
                )),
            decreases i,
        {
            i = i - 1;
            proof {
                assert(a@.subrange(i as int, n as int).drop_first() =~= a@.subrange(
                    i as int + 1,
                    n as int,
                ));
                assert(b@.subrange(i as int, n as int).drop_first() =~= b@.subrange(
                    i as int + 1,
                    n as int,
                ));
            }
            if same {
                below = a[i] < b[i];
                same = a[i] == b[i];
            }
        }
        proof {
            assert(a@.subrange(0, n as int) =~= a@);
            assert(b@.subrange(0, n as int) =~= b@);
        }
        below
    }
}

} // verus!
