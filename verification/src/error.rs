//! The errors of the protocol.

use vstd::prelude::*;

use crate::ciphersuite::Ciphersuite;
use crate::ciphersuite::FieldError;
use crate::ciphersuite::GroupError;
use crate::frost::identifier::Identifier;

verus! {

/// Why an operation of the protocol was refused.
pub enum Error<C: Ciphersuite> {
    /// The threshold is below two or above the number of signers.
    InvalidMinSigners,
    /// The number of signers is below two.
    InvalidMaxSigners,
    /// The number of random coefficients does not fit the threshold.
    InvalidCoefficients,
    /// The list of identifiers does not have one entry per signer.
    IncorrectNumberOfIdentifiers,
    /// No key share was given.
    IncorrectNumberOfShares,
    /// A participant number is zero.
    InvalidIdentifier,
    /// An identifier occurs twice.
    DuplicateIdentifier,
    /// A share names an identifier that the public key package lacks.
    UnknownIdentifier,
    /// A signer's commitment is absent.
    MissingCommitment,
    /// The shares and the commitments are not from the same signers.
    MismatchedShares,
    /// A commitment is the identity of the group.
    IdentityCommitment,
    /// The group commitment is the identity of the group.
    InvalidGroupCommitment,
    /// The secret share of this participant contradicts the commitment to
    /// the polynomial.
    InvalidSecretShare(Identifier<C>),
    /// The signature share of this participant fails its verification.
    InvalidSignatureShare(Identifier<C>),
    /// The signature does not verify.
    InvalidSignature,
    /// An error of the scalar field.
    FieldError(FieldError),
    /// An error of the group.
    GroupError(GroupError),
}

} // verus!
