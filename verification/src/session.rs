//! The course of a signing session, at the coordinator and at a signer.

use vstd::prelude::*;

use crate::ciphersuite::Ciphersuite;
use crate::error::Error;
use crate::frost::SigningPackage;
use crate::frost::identifier::Identifier;
use crate::frost::keys::KeyPackage;
use crate::frost::keys::SigningShare;
use crate::frost::round1::CommitmentView;
use crate::frost::round1::SigningCommitments;
use crate::frost::round1::SigningNonces;
use crate::frost::round1::commit;
use crate::frost::round1::nonce_value;
use crate::frost::round2::SignatureShare;
use crate::frost::round2::is_signing_outcome;
use crate::frost::round2::sign;

verus! {

/// Where the coordinator stands in a session.
#[derive(Clone, Copy, Debug, PartialEq, Eq)]
pub enum CoordinatorState {
    /// The session is open and commitments are awaited.
    Open,
    /// The commitments of all signers are in.
    CommitmentsCollected,
    /// The signing package is built and handed to the signers.
    PackageSealed,
    /// The signature shares of all signers are in.
    SharesCollected,
    /// The signature is out. The session is over.
    Aggregated,
    /// The session failed. It is over.
    Aborted,
}

/// What happens to the coordinator in a session.
#[derive(Clone, Copy, Debug, PartialEq, Eq)]
pub enum CoordinatorEvent {
    /// The commitments of all signers have arrived.
    CommitmentsReceived,
    /// The signing package has been built.
    PackageBuilt,
    /// The signature shares of all signers have arrived.
    SharesReceived,
    /// The shares have been verified and aggregated.
    SignatureAggregated,
    /// An operation of the session returned an error.
    Failed,
}

impl CoordinatorState {
    /// The state after an event. The session goes forward one step at a
    /// time; an error, or an event out of turn, aborts it; once it is over
    /// nothing changes it.
    pub open spec fn after(self, event: CoordinatorEvent) -> CoordinatorState {
        match (self, event) {
            (CoordinatorState::Aggregated, _) => CoordinatorState::Aggregated,
            (CoordinatorState::Aborted, _) => CoordinatorState::Aborted,
            (
                CoordinatorState::Open,
                CoordinatorEvent::CommitmentsReceived,
            ) => CoordinatorState::CommitmentsCollected,
            (
                CoordinatorState::CommitmentsCollected,
                CoordinatorEvent::PackageBuilt,
            ) => CoordinatorState::PackageSealed,
            (
                CoordinatorState::PackageSealed,
                CoordinatorEvent::SharesReceived,
            ) => CoordinatorState::SharesCollected,
            (
                CoordinatorState::SharesCollected,
                CoordinatorEvent::SignatureAggregated,
            ) => CoordinatorState::Aggregated,
            (_, _) => CoordinatorState::Aborted,
        }
    }

    /// Whether the session is over.
    pub open spec fn is_over(self) -> bool {
        self is Aggregated || self is Aborted
    }

    /// How far the session has come.
    pub open spec fn progress(self) -> nat {
        match self {
            CoordinatorState::Open => 0,
            CoordinatorState::CommitmentsCollected => 1,
            CoordinatorState::PackageSealed => 2,
            CoordinatorState::SharesCollected => 3,
            CoordinatorState::Aggregated => 4,
            CoordinatorState::Aborted => 4,
        }
    }

    /// The state after an event.
    pub fn next(self, event: CoordinatorEvent) -> (r: CoordinatorState)
        ensures
            r == self.after(event),
    {
        match (self, event) {
            (CoordinatorState::Aggregated, _) => CoordinatorState::Aggregated,
            (CoordinatorState::Aborted, _) => CoordinatorState::Aborted,
            (
                CoordinatorState::Open,
                CoordinatorEvent::CommitmentsReceived,
            ) => CoordinatorState::CommitmentsCollected,
            (
                CoordinatorState::CommitmentsCollected,
                CoordinatorEvent::PackageBuilt,
            ) => CoordinatorState::PackageSealed,
            (
                CoordinatorState::PackageSealed,
                CoordinatorEvent::SharesReceived,
            ) => CoordinatorState::SharesCollected,
            (
                CoordinatorState::SharesCollected,
                CoordinatorEvent::SignatureAggregated,
            ) => CoordinatorState::Aggregated,
            (_, _) => CoordinatorState::Aborted,
        }
    }

    /// Whether the session is over.
    pub fn finished(self) -> (r: bool)
        ensures
            r == self.is_over(),
    {
        match self {
            CoordinatorState::Aggregated => true,
            CoordinatorState::Aborted => true,
            _ => false,
        }
    }
}

/// The session is linear: no event takes it back, and once it is over no
/// event changes it.
pub proof fn law_session_is_linear(state: CoordinatorState, event: CoordinatorEvent)
    ensures
        state.after(event).progress() >= state.progress(),
        state.is_over() ==> state.after(event) == state,
        !state.is_over() ==> state.after(event).progress() > state.progress(),
{
}

/// Where a signer stands. The nonces of round one live in the state and
/// leave it when they are used, so that no share is ever computed from
/// nonces that were used before.
pub enum Participant<C: Ciphersuite> {
    /// Nothing is pending.
    Idle,
    /// The commitments are published and the nonces are kept for round two.
    Committed(SigningNonces<C>),
    /// The share is out and the nonces are gone.
    Signed,
}

impl<C: Ciphersuite> Participant<C> {
    /// Round one, from the idle state: derives nonces from fresh random
    /// bytes, keeps them, and gives the commitments to publish. In any other
    /// state nothing is derived and the state stays.
    pub fn commit(
        self,
        identifier: Identifier<C>,
        secret: &SigningShare<C>,
        hiding_randomness: &[u8],
        binding_randomness: &[u8],
    ) -> (r: (Self, Option<SigningCommitments<C>>))
        ensures
            self is Idle ==> r.0 is Committed && r.0->Committed_0.hiding@ == nonce_value::<C>(
                hiding_randomness@,
                secret@,
            ) && r.0->Committed_0.binding@ == nonce_value::<C>(binding_randomness@, secret@)
                && r.1 is Some && r.1->Some_0@ == (CommitmentView {
                id: identifier@,
                hiding: r.0->Committed_0.hiding@,
                binding: r.0->Committed_0.binding@,
            }),
            !(self is Idle) ==> r.0 == self && r.1 is None,
    {
        match self {
            Participant::Idle => {
                let (nonces, commitments) = commit(
                    identifier,
                    secret,
                    hiding_randomness,
                    binding_randomness,
                );
                (Participant::Committed(nonces), Some(commitments))
            },
            other => (other, None),
        }
    }

    /// Round two, from the committed state: computes the share with the
    /// nonces kept, which are gone afterwards whether a share came out or
    /// not. In any other state there are no nonces to sign with: nothing
    /// comes out and the state stays.
    pub fn sign(self, signing_package: &SigningPackage<C>, key_package: &KeyPackage<C>) -> (r: (
        Self,
        Option<Result<SignatureShare<C>, Error<C>>>,
    ))
        ensures
            self is Committed ==> r.1 is Some && is_signing_outcome::<C>(
                signing_package.commitments(),
                signing_package.message_view(),
                self->Committed_0.hiding@,
                self->Committed_0.binding@,
                key_package.identifier@,
                key_package.secret_share@,
                key_package.group_public@,
                r.1->Some_0,
            ) && (if r.1->Some_0 is Ok {
                r.0 is Signed
            } else {
                r.0 is Idle
            }),
            !(self is Committed) ==> r.0 == self && r.1 is None,
    {
        match self {
            Participant::Committed(nonces) => {
                let outcome = sign(signing_package, &nonces, key_package);
                if outcome.is_ok() {
                    (Participant::Signed, Some(outcome))
                } else {
                    (Participant::Idle, Some(outcome))
                }
            },
            other => (other, None),
        }
    }

    /// Back to the idle state once the share is out.
    pub fn finish(self) -> (r: Self)
        ensures
            self is Signed ==> r is Idle,
            !(self is Signed) ==> r == self,
    {
        match self {
            Participant::Signed => Participant::Idle,
            other => other,
        }
    }
}

} // verus!
