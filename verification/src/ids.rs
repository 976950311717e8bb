//! The identities that the engine keeps its books by.
//!
//! Addresses, filters and demand atoms are named here by numbers. A number
//! stands for one such value and follows its order, so that what is ordered
//! by address is ordered by number too.

use vstd::prelude::*;

use crate::key::{lemma_pair_order, Key, Pair};

verus! {

/// A relay, named by the number of its normalised address.
#[derive(Clone, Copy, Debug, PartialEq, Eq, Structural)]
pub struct Relay(pub u64);

impl Key for Relay {
    open spec fn rank(self) -> int {
        self.0 as int
    }

    open spec fn bound() -> int {
        0x1_0000_0000_0000_0000
    }

    proof fn rank_in_bound(a: Self) {
    }

    proof fn rank_injective(a: Self, b: Self) {
    }

    fn precedes(&self, other: &Self) -> (b: bool) {
        self.0 < other.0
    }
}

/// Reducer-assigned identity of one accepted write.
#[derive(Clone, Copy, Debug, PartialEq, Eq, Structural)]
pub struct ReceiptId(pub u64);

impl Key for ReceiptId {
    open spec fn rank(self) -> int {
        self.0 as int
    }

    open spec fn bound() -> int {
        0x1_0000_0000_0000_0000
    }

    proof fn rank_in_bound(a: Self) {
    }

    proof fn rank_injective(a: Self, b: Self) {
    }

    fn precedes(&self, other: &Self) -> (b: bool) {
        self.0 < other.0
    }
}

/// Reducer-assigned identity of one open observation.
#[derive(Clone, Copy, Debug, PartialEq, Eq, Structural)]
pub struct ObservationId(pub u64);

impl Key for ObservationId {
    open spec fn rank(self) -> int {
        self.0 as int
    }

    open spec fn bound() -> int {
        0x1_0000_0000_0000_0000
    }

    proof fn rank_in_bound(a: Self) {
    }

    proof fn rank_injective(a: Self, b: Self) {
    }

    fn precedes(&self, other: &Self) -> (b: bool) {
        self.0 < other.0
    }
}

/// One resolver handle: the standing subscription of one query branch.
#[derive(Clone, Copy, Debug, PartialEq, Eq, Structural)]
pub struct HandleId(pub u64);

impl Key for HandleId {
    open spec fn rank(self) -> int {
        self.0 as int
    }

    open spec fn bound() -> int {
        0x1_0000_0000_0000_0000
    }

    proof fn rank_in_bound(a: Self) {
    }

    proof fn rank_injective(a: Self, b: Self) {
    }

    fn precedes(&self, other: &Self) -> (b: bool) {
        self.0 < other.0
    }
}

/// One demand atom with its routing context.
#[derive(Clone, Copy, Debug, PartialEq, Eq, Structural)]
pub struct DemandKey(pub u64);

impl Key for DemandKey {
    open spec fn rank(self) -> int {
        self.0 as int
    }

    open spec fn bound() -> int {
        0x1_0000_0000_0000_0000
    }

    proof fn rank_in_bound(a: Self) {
    }

    proof fn rank_injective(a: Self, b: Self) {
    }

    fn precedes(&self, other: &Self) -> (b: bool) {
        self.0 < other.0
    }
}

/// One coverage claim: the atom whose acquisition it records.
#[derive(Clone, Copy, Debug, PartialEq, Eq, Structural)]
pub struct CoverageKey(pub u64);

impl Key for CoverageKey {
    open spec fn rank(self) -> int {
        self.0 as int
    }

    open spec fn bound() -> int {
        0x1_0000_0000_0000_0000
    }

    proof fn rank_in_bound(a: Self) {
    }

    proof fn rank_injective(a: Self, b: Self) {
    }

    fn precedes(&self, other: &Self) -> (b: bool) {
        self.0 < other.0
    }
}

/// Correlates one exact relay request with its local hand-off result.
#[derive(Clone, Copy, Debug, PartialEq, Eq, Structural)]
pub struct RequestAttemptId(pub u64);

impl Key for RequestAttemptId {
    open spec fn rank(self) -> int {
        self.0 as int
    }

    open spec fn bound() -> int {
        0x1_0000_0000_0000_0000
    }

    proof fn rank_in_bound(a: Self) {
    }

    proof fn rank_injective(a: Self, b: Self) {
    }

    fn precedes(&self, other: &Self) -> (b: bool) {
        self.0 < other.0
    }
}

/// One durable write intent of the publish queue.
#[derive(Clone, Copy, Debug, PartialEq, Eq, Structural)]
pub struct IntentId(pub u64);

impl Key for IntentId {
    open spec fn rank(self) -> int {
        self.0 as int
    }

    open spec fn bound() -> int {
        0x1_0000_0000_0000_0000
    }

    proof fn rank_in_bound(a: Self) {
    }

    proof fn rank_injective(a: Self, b: Self) {
    }

    fn precedes(&self, other: &Self) -> (b: bool) {
        self.0 < other.0
    }
}

/// The content hash of one concrete filter.
#[derive(Clone, Copy, Debug, PartialEq, Eq, Structural)]
pub struct FilterHash(pub u64);

impl Key for FilterHash {
    open spec fn rank(self) -> int {
        self.0 as int
    }

    open spec fn bound() -> int {
        0x1_0000_0000_0000_0000
    }

    proof fn rank_in_bound(a: Self) {
    }

    proof fn rank_injective(a: Self, b: Self) {
    }

    fn precedes(&self, other: &Self) -> (b: bool) {
        self.0 < other.0
    }
}

/// One registration of an authentication capability.
#[derive(Clone, Copy, Debug, PartialEq, Eq, Structural)]
pub struct AuthCapabilityInstance(pub u64);

impl Key for AuthCapabilityInstance {
    open spec fn rank(self) -> int {
        self.0 as int
    }

    open spec fn bound() -> int {
        0x1_0000_0000_0000_0000
    }

    proof fn rank_in_bound(a: Self) {
    }

    proof fn rank_injective(a: Self, b: Self) {
    }

    fn precedes(&self, other: &Self) -> (b: bool) {
        self.0 < other.0
    }
}

/// A 32-byte public key: its high and its low half.
#[derive(Clone, Copy, Debug, PartialEq, Eq, Structural)]
pub struct PublicKey {
    pub hi: u128,
    pub lo: u128,
}

impl Key for PublicKey {
    open spec fn rank(self) -> int {
        Pair(self.hi, self.lo).rank()
    }

    open spec fn bound() -> int {
        <Pair<u128, u128> as Key>::bound()
    }

    proof fn rank_in_bound(a: Self) {
        <Pair<u128, u128> as Key>::rank_in_bound(Pair(a.hi, a.lo));
    }

    proof fn rank_injective(a: Self, b: Self) {
        <Pair<u128, u128> as Key>::rank_injective(
            Pair(a.hi, a.lo),
            Pair(b.hi, b.lo),
        );
    }

    fn precedes(&self, other: &Self) -> (b: bool) {
        Pair(self.hi, self.lo).precedes(&Pair(other.hi, other.lo))
    }
}

/// A 32-byte event id: its high and its low half. The order is that of the bytes.
#[derive(Clone, Copy, Debug, PartialEq, Eq, Structural)]
pub struct EventId {
    pub hi: u128,
    pub lo: u128,
}

impl Key for EventId {
    open spec fn rank(self) -> int {
        Pair(self.hi, self.lo).rank()
    }

    open spec fn bound() -> int {
        <Pair<u128, u128> as Key>::bound()
    }

    proof fn rank_in_bound(a: Self) {
        <Pair<u128, u128> as Key>::rank_in_bound(Pair(a.hi, a.lo));
    }

    proof fn rank_injective(a: Self, b: Self) {
        <Pair<u128, u128> as Key>::rank_injective(
            Pair(a.hi, a.lo),
            Pair(b.hi, b.lo),
        );
    }

    fn precedes(&self, other: &Self) -> (b: bool) {
        Pair(self.hi, self.lo).precedes(&Pair(other.hi, other.lo))
    }
}

/// One transport session: a relay, and the identity that it authenticates as.
#[derive(Clone, Copy, Debug, PartialEq, Eq, Structural)]
pub struct RelaySessionKey {
    pub relay: Relay,
    pub authenticate_as: Option<PublicKey>,
}

impl Key for RelaySessionKey {
    open spec fn rank(self) -> int {
        Pair(self.relay, self.authenticate_as).rank()
    }

    open spec fn bound() -> int {
        <Pair<Relay, Option<PublicKey>> as Key>::bound()
    }

    proof fn rank_in_bound(a: Self) {
        <Pair<Relay, Option<PublicKey>> as Key>::rank_in_bound(Pair(a.relay, a.authenticate_as));
    }

    proof fn rank_injective(a: Self, b: Self) {
        <Pair<Relay, Option<PublicKey>> as Key>::rank_injective(
            Pair(a.relay, a.authenticate_as),
            Pair(b.relay, b.authenticate_as),
        );
    }

    fn precedes(&self, other: &Self) -> (b: bool) {
        Pair(self.relay, self.authenticate_as).precedes(&Pair(other.relay, other.authenticate_as))
    }
}

/// One wire subscription: its relay, its wire number and its identity.
#[derive(Clone, Copy, Debug, PartialEq, Eq, Structural)]
pub struct SubId(pub Relay, pub u64, pub Option<PublicKey>);

impl Key for SubId {
    open spec fn rank(self) -> int {
        Pair(Pair(self.0, self.1), self.2).rank()
    }

    open spec fn bound() -> int {
        <Pair<Pair<Relay, u64>, Option<PublicKey>> as Key>::bound()
    }

    proof fn rank_in_bound(a: Self) {
        <Pair<Pair<Relay, u64>, Option<PublicKey>> as Key>::rank_in_bound(Pair(Pair(a.0, a.1), a.2));
    }

    proof fn rank_injective(a: Self, b: Self) {
        <Pair<Pair<Relay, u64>, Option<PublicKey>> as Key>::rank_injective(
            Pair(Pair(a.0, a.1), a.2),
            Pair(Pair(b.0, b.1), b.2),
        );
    }

    fn precedes(&self, other: &Self) -> (b: bool) {
        Pair(Pair(self.0, self.1), self.2).precedes(&Pair(Pair(other.0, other.1), other.2))
    }
}

/// One wire subscription on one session.
#[derive(Clone, Copy, Debug, PartialEq, Eq, Structural)]
pub struct RequestKey {
    pub session: RelaySessionKey,
    pub sub_id: SubId,
}

impl Key for RequestKey {
    open spec fn rank(self) -> int {
        Pair(self.session, self.sub_id).rank()
    }

    open spec fn bound() -> int {
        <Pair<RelaySessionKey, SubId> as Key>::bound()
    }

    proof fn rank_in_bound(a: Self) {
        <Pair<RelaySessionKey, SubId> as Key>::rank_in_bound(Pair(a.session, a.sub_id));
    }

    proof fn rank_injective(a: Self, b: Self) {
        <Pair<RelaySessionKey, SubId> as Key>::rank_injective(
            Pair(a.session, a.sub_id),
            Pair(b.session, b.sub_id),
        );
    }

    fn precedes(&self, other: &Self) -> (b: bool) {
        Pair(self.session, self.sub_id).precedes(&Pair(other.session, other.sub_id))
    }
}

impl RelaySessionKey {
    pub fn new(relay: Relay, authenticate_as: Option<PublicKey>) -> (r: Self)
        ensures
            r.relay == relay,
            r.authenticate_as == authenticate_as,
    {
        RelaySessionKey { relay, authenticate_as }
    }

    /// The session of one relay that never authenticates.
    pub fn unauthenticated(relay: Relay) -> (r: Self)
        ensures
            r == (RelaySessionKey { relay, authenticate_as: None }),
    {
        RelaySessionKey { relay, authenticate_as: None }
    }
}

/// One transport connection: a slot and how often it has been reopened.
#[derive(Clone, Copy, Debug, PartialEq, Eq, Structural)]
pub struct TransportRelayHandle {
    pub slot: u32,
    pub generation: u64,
}

/// Sessions are ordered by their relays, those of one relay with the open session first
/// and then by their accounts.
pub proof fn sessions_follow_relay_and_account(a: RelaySessionKey, b: RelaySessionKey)
    ensures
        a.relay.0 < b.relay.0 ==> a.rank() < b.rank(),
        a.relay == b.relay && a.authenticate_as is None && b.authenticate_as is Some ==> a.rank() < b.rank(),
        a.relay == b.relay && a.authenticate_as is Some && b.authenticate_as is Some && {
            let x = a.authenticate_as->0;
            let y = b.authenticate_as->0;
            x.hi < y.hi || x.hi == y.hi && x.lo < y.lo
        } ==> a.rank() < b.rank(),
{
    lemma_pair_order(Pair(a.relay, a.authenticate_as), Pair(b.relay, b.authenticate_as));
    if a.authenticate_as is Some && b.authenticate_as is Some {
        let x = a.authenticate_as->0;
        let y = b.authenticate_as->0;
        lemma_pair_order(Pair(x.hi, x.lo), Pair(y.hi, y.lo));
    }
    if a.authenticate_as is None && b.authenticate_as is Some {
        <PublicKey as Key>::rank_in_bound(b.authenticate_as->0);
    }
}

/// Events are ordered by their identities as numbers, and requests by their sessions and
/// then by their subscriptions.
pub proof fn events_and_requests_follow_their_parts(a: EventId, b: EventId, x: RequestKey, y: RequestKey)
    ensures
        a.rank() < b.rank() <==> a.hi < b.hi || a.hi == b.hi && a.lo < b.lo,
        x.session.rank() < y.session.rank() ==> x.rank() < y.rank(),
        x.session == y.session ==> (x.rank() < y.rank() <==> x.sub_id.rank() < y.sub_id.rank()),
{
    lemma_pair_order(Pair(a.hi, a.lo), Pair(b.hi, b.lo));
    lemma_pair_order(Pair(x.session, x.sub_id), Pair(y.session, y.sub_id));
}

/// Identities that are numbers are ordered as those numbers.
pub proof fn numbers_give_the_order(
    relays: (Relay, Relay),
    receipts: (ReceiptId, ReceiptId),
    observations: (ObservationId, ObservationId),
    handles: (HandleId, HandleId),
    demands: (DemandKey, DemandKey),
    attempts: (RequestAttemptId, RequestAttemptId),
    intents: (IntentId, IntentId),
)
    ensures
        relays.0.rank() < relays.1.rank() <==> (relays.0).0 < (relays.1).0,
        receipts.0.rank() < receipts.1.rank() <==> (receipts.0).0 < (receipts.1).0,
        observations.0.rank() < observations.1.rank() <==> (observations.0).0 < (observations.1).0,
        handles.0.rank() < handles.1.rank() <==> (handles.0).0 < (handles.1).0,
        demands.0.rank() < demands.1.rank() <==> (demands.0).0 < (demands.1).0,
        attempts.0.rank() < attempts.1.rank() <==> (attempts.0).0 < (attempts.1).0,
        intents.0.rank() < intents.1.rank() <==> (intents.0).0 < (intents.1).0,
{
}

} // verus!
