//! The words in which the reducer and its executor speak of authentication.

use vstd::prelude::*;

use crate::ids::{AuthCapabilityInstance, EventId, PublicKey, RelaySessionKey, TransportRelayHandle};
use crate::outside::UnsignedEvent;

verus! {

/// Identity of one challenge epoch. The sequence rises over the whole life of
/// the engine; the handle tells a stale connection apart even before it is
/// looked at.
#[derive(Clone, Copy, Debug, PartialEq, Eq, Structural)]
pub struct AuthEpoch {
    pub handle: TransportRelayHandle,
    pub session: RelaySessionKey,
    pub sequence: u64,
}

/// One asynchronous operation inside an epoch.
#[derive(Clone, Copy, Debug, PartialEq, Eq, Structural)]
pub struct AuthOpToken {
    pub epoch: AuthEpoch,
    pub sequence: u64,
}

/// The application policy's result for one exact operation.
#[derive(Clone, Debug, PartialEq, Eq)]
pub enum AuthPolicyOutcome {
    Allow,
    Deny { reason: String },
    Unavailable,
    Error { reason: String },
}

/// The signer's result for one exact operation. A signed event is not trusted
/// until its template, id and signature have been verified.
#[derive(Clone, Debug, PartialEq, Eq)]
pub enum AuthSignerOutcome {
    Signed { event_id: EventId },
    Unavailable,
    Rejected { reason: String },
    Error { reason: String },
}

/// What came of handing an authentication event to the current connection.
#[derive(Clone, Copy, Debug, PartialEq, Eq, Structural)]
pub enum AuthSendOutcome {
    Accepted,
    Unavailable,
}

/// The one end of one exact authentication send.
#[derive(Clone, Copy, Debug, PartialEq, Eq, Structural)]
pub struct AuthSendCompletion {
    pub handle: TransportRelayHandle,
    pub session: RelaySessionKey,
    /// The sequence of the token that the send was started with.
    pub operation: u64,
    pub outcome: AuthSendOutcome,
}

impl AuthSendCompletion {
    /// The end of the exact send that `token` started.
    #[must_use]
    pub fn for_operation(token: &AuthOpToken, outcome: AuthSendOutcome) -> (r: Self)
        ensures
            r == (AuthSendCompletion {
                handle: token.epoch.handle,
                session: token.epoch.session,
                operation: token.sequence,
                outcome,
            }),
    {
        AuthSendCompletion {
            handle: token.epoch.handle,
            session: token.epoch.session,
            operation: token.sequence,
            outcome,
        }
    }
}

/// The capability whose removal ends an authentication.
#[derive(Clone, Copy, Debug, PartialEq, Eq, Structural)]
pub enum AuthCapability {
    Policy,
    Signer,
}

/// Who refused an authentication.
#[derive(Clone, Copy, Debug, PartialEq, Eq, Structural)]
pub enum AuthDenialSource {
    Policy,
    Signer,
    Relay,
}

/// What the reducer asks of the executor.
pub enum AuthEffect {
    Cancel(AuthEpoch),
    RequestPolicy { token: AuthOpToken, expected_pubkey: PublicKey, challenge: String },
    RequestSignature { token: AuthOpToken, unsigned: UnsignedEvent },
    Send { token: AuthOpToken, event_id: EventId },
}

/// How far the authentication of one epoch has come.
pub enum AuthSessionPhase {
    AwaitingPolicy { token: AuthOpToken },
    AwaitingSignature { token: AuthOpToken, unsigned: UnsignedEvent },
    AwaitingSend { token: AuthOpToken, event_id: EventId, early_ok: Option<(bool, String)> },
    AwaitingOk { event_id: EventId },
    Ready { event_id: EventId },
    /// Refused for good in this epoch, with who refused and why.
    Denied { source: AuthDenialSource, reason: String },
    Error,
}

/// The current epoch of one protected session.
pub struct AuthSessionState {
    pub epoch: AuthEpoch,
    pub challenge: String,
    pub last_created_at: Option<u64>,
    pub policy_instance: Option<AuthCapabilityInstance>,
    pub signer_instance: Option<AuthCapabilityInstance>,
    pub phase: AuthSessionPhase,
}

} // verus!
