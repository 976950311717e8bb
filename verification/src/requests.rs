//! The life of a wire request: sent, answered by the transport, streaming,
//! finished, replaced, abandoned.

use vstd::prelude::*;

use crate::ids::{
    CoverageKey, DemandKey, FilterHash, RelaySessionKey, RequestAttemptId, RequestKey, SubId,
    TransportRelayHandle,
};
use crate::key::{
    is_listing, lemma_listing_members, lemma_listing_of, lemma_push_contains, listing_of, same,
    Pair,
};
use crate::owner_index::MirrorFault;
use crate::plan_roles::{role_in, with_gain, RoleOf};
use crate::request_attempt::{
    capped, retry_session_mirror, session_mirror, AttemptFault, AttemptView, PendingRequestRetry,
    RequestAttemptState, RequestAttempts, RequestHandoffOutcome, RetryView,
};
use crate::request_replacements::{successors_on, RequestReplacement, RequestReplacements};
use crate::retry::backoff_secs;
use crate::reverse::{held_by, owners_of, ReverseIndex};
use crate::sorted::{SortedMap, SortedSet};
use crate::wire::ConcreteFilter;

verus! {

/// A span of time that has been read completely.
#[derive(Clone, Copy, Debug, PartialEq, Eq, Structural)]
pub struct CoverageInterval {
    pub from: u64,
    pub through: u64,
}

/// How far the stored events of a request have come.
#[derive(Clone, Copy, Debug, PartialEq, Eq, Structural)]
pub enum StoredEvents {
    Streaming { request_revision: u64, committed_interval: Option<CoverageInterval> },
    Finished { request_revision: u64, committed_interval: Option<CoverageInterval> },
}

/// A request that a relay has taken.
#[derive(Clone, Copy, Debug, PartialEq, Eq, Structural)]
pub struct LiveWireRequest {
    pub filter: ConcreteFilter,
    pub handle: TransportRelayHandle,
    pub stored_events: StoredEvents,
}

/// A request that awaits its hand-off result.
pub struct PendingRequestEvidence {
    pub attempt_id: RequestAttemptId,
    pub request_revision: u64,
    pub session: RelaySessionKey,
    pub sub_id: SubId,
    pub filter: ConcreteFilter,
    pub owner_demands: SortedSet<DemandKey>,
}

/// A request whose stored events are awaited.
pub struct ActiveRequestEvidence {
    pub request_revision: u64,
    pub session: RelaySessionKey,
    pub sub_id: SubId,
    pub owner_demands: SortedSet<DemandKey>,
    pub handle: TransportRelayHandle,
}

/// What the current plan says of one request.
pub struct PlanExecutionMetadata {
    pub filter: ConcreteFilter,
    pub coverage_claims: SortedSet<CoverageKey>,
    pub owner_demands: SortedSet<DemandKey>,
}

/// Claims added to a request after it finished, which still have to be written
/// down.
pub struct PendingRequestClaimTransfer {
    pub session: RelaySessionKey,
    pub sub_id: SubId,
    pub request_revision: u64,
    pub filter_hash: FilterHash,
    pub interval: CoverageInterval,
    pub claims: SortedSet<CoverageKey>,
    pub due: u64,
    pub failures: u32,
}

pub struct PendingView {
    pub attempt_id: RequestAttemptId,
    pub request_revision: u64,
    pub session: RelaySessionKey,
    pub sub_id: SubId,
    pub filter: ConcreteFilter,
    pub owner_demands: Set<DemandKey>,
}

pub struct ActiveView {
    pub request_revision: u64,
    pub session: RelaySessionKey,
    pub sub_id: SubId,
    pub owner_demands: Set<DemandKey>,
    pub handle: TransportRelayHandle,
}

pub struct MetadataView {
    pub filter: ConcreteFilter,
    pub coverage_claims: Set<CoverageKey>,
    pub owner_demands: Set<DemandKey>,
}

pub struct TransferView {
    pub session: RelaySessionKey,
    pub sub_id: SubId,
    pub request_revision: u64,
    pub filter_hash: FilterHash,
    pub interval: CoverageInterval,
    pub claims: Set<CoverageKey>,
    pub due: u64,
    pub failures: u32,
}

impl View for PendingRequestEvidence {
    type V = PendingView;

    open spec fn view(&self) -> PendingView {
        PendingView {
            attempt_id: self.attempt_id,
            request_revision: self.request_revision,
            session: self.session,
            sub_id: self.sub_id,
            filter: self.filter,
            owner_demands: self.owner_demands@,
        }
    }
}

impl View for ActiveRequestEvidence {
    type V = ActiveView;

    open spec fn view(&self) -> ActiveView {
        ActiveView {
            request_revision: self.request_revision,
            session: self.session,
            sub_id: self.sub_id,
            owner_demands: self.owner_demands@,
            handle: self.handle,
        }
    }
}

impl View for PlanExecutionMetadata {
    type V = MetadataView;

    open spec fn view(&self) -> MetadataView {
        MetadataView {
            filter: self.filter,
            coverage_claims: self.coverage_claims@,
            owner_demands: self.owner_demands@,
        }
    }
}

impl View for PendingRequestClaimTransfer {
    type V = TransferView;

    open spec fn view(&self) -> TransferView {
        TransferView {
            session: self.session,
            sub_id: self.sub_id,
            request_revision: self.request_revision,
            filter_hash: self.filter_hash,
            interval: self.interval,
            claims: self.claims@,
            due: self.due,
            failures: self.failures,
        }
    }
}

/// Everything known of the requests.
pub struct RequestsView {
    pub attempts: Map<RequestAttemptId, AttemptView>,
    pub retries: Map<RequestKey, RetryView>,
    pub next_id: Option<u64>,
    pub replacements: Map<SubId, RequestReplacement>,
    /// The requests that await their hand-off, in the order they were sent.
    pub pending: Map<RequestKey, Seq<PendingView>>,
    /// The requests whose stored events are awaited, by revision.
    pub active: Map<u64, ActiveView>,
    pub live: Map<RequestKey, LiveWireRequest>,
    pub metadata: Map<SubId, MetadataView>,
    pub transfers: Map<RequestKey, TransferView>,
}

/// The session that a subscription belongs to.
pub open spec fn home(sub_id: SubId) -> RelaySessionKey {
    RelaySessionKey { relay: sub_id.0, authenticate_as: sub_id.2 }
}

pub open spec fn home_key(sub_id: SubId) -> RequestKey {
    RequestKey { session: home(sub_id), sub_id }
}

pub fn home_of(sub_id: &SubId) -> (r: RelaySessionKey)
    ensures
        r == home(*sub_id),
{
    RelaySessionKey::new(sub_id.0, sub_id.2)
}

/// What the caller has to do besides.
#[derive(Clone, Copy, Debug, PartialEq, Eq, Structural)]
pub enum RequestOrder {
    /// Forget every send of a subscription.
    DiscardSub(SubId),
    /// Forget every send of a session.
    ClearSession(RelaySessionKey),
    /// Release the claims that a subscription's plan holds.
    ReleaseLiveClaims(SubId),
    /// Hold the claims that the plan names for a subscription.
    HoldPlannedClaims(SubId),
    /// Forget one send.
    DiscardSend { sub_id: SubId, revision: u64 },
    /// Forget the wire mapping of a subscription, unless a send is in flight.
    DropIdleMapping { session: RelaySessionKey, sub_id: SubId },
    /// Send a close.
    Close { session: RelaySessionKey, sub_id: SubId },
}

impl RequestsView {
    pub open spec fn abandon_sub(self, sub_id: SubId) -> RequestsView {
        let key = home_key(sub_id);
        RequestsView {
            attempts: self.attempts.remove_keys(
                Set::new(|id: RequestAttemptId| self.attempts.contains_key(id) && self.attempts[id].sub_id == sub_id),
            ),
            retries: self.retries.remove_keys(Set::new(|k: RequestKey| k.sub_id == sub_id)),
            transfers: self.transfers.remove(key),
            pending: self.pending.remove(key),
            active: self.active.remove_keys(
                Set::new(
                    |r: u64|
                        self.active.contains_key(r) && self.active[r].session == key.session
                            && self.active[r].sub_id == sub_id,
                ),
            ),
            live: self.live.remove(key),
            ..self
        }
    }

    pub open spec fn abandon_session(self, session: RelaySessionKey) -> RequestsView {
        RequestsView {
            attempts: self.attempts.remove_keys(
                Set::new(|id: RequestAttemptId| self.attempts.contains_key(id) && self.attempts[id].session == session),
            ),
            retries: self.retries.remove_keys(Set::new(|k: RequestKey| k.session == session)),
            pending: self.pending.remove_keys(Set::new(|k: RequestKey| k.session == session)),
            active: self.active.remove_keys(
                Set::new(|r: u64| self.active.contains_key(r) && self.active[r].session == session),
            ),
            live: self.live.remove_keys(Set::new(|k: RequestKey| k.session == session)),
            ..self
        }
    }

    pub open spec fn retire_metadata(self, sub_id: SubId) -> RequestsView {
        RequestsView { metadata: self.metadata.remove(sub_id), ..self }
    }

    pub open spec fn drop_transfer(self, key: RequestKey) -> RequestsView {
        RequestsView { transfers: self.transfers.remove(key), ..self }
    }

    pub open spec fn without_replacement(self, successor: SubId) -> RequestsView {
        RequestsView { replacements: self.replacements.remove(successor), ..self }
    }

    /// The successor of a replacement is given up.
    pub open spec fn cancel_successor(self, successor: SubId) -> RequestsView {
        self.abandon_sub(successor).retire_metadata(successor)
    }

    /// The predecessor of a replacement is given up.
    pub open spec fn retire_predecessor(self, replacement: RequestReplacement) -> RequestsView {
        self.abandon_sub(replacement.prior_sub_id).retire_metadata(
            replacement.prior_sub_id,
        ).drop_transfer(
            RequestKey { session: replacement.session, sub_id: replacement.prior_sub_id },
        )
    }

    /// The successor has been accepted: the predecessor goes.
    pub open spec fn complete_replacement(self, successor: SubId) -> RequestsView {
        if self.replacements.contains_key(successor) {
            self.without_replacement(successor).retire_predecessor(self.replacements[successor])
        } else {
            self
        }
    }

    /// Both sides of a replacement go.
    pub open spec fn cancel_replacement(self, successor: SubId) -> RequestsView {
        if self.replacements.contains_key(successor) {
            self.without_replacement(successor).cancel_successor(successor).retire_predecessor(
                self.replacements[successor],
            )
        } else {
            self
        }
    }

    /// One active request is taken off the books.
    pub open spec fn settle(self, revision: u64) -> RequestsView {
        RequestsView { active: self.active.remove(revision), ..self }
    }
}

/// What is ordered when a predecessor goes.
pub open spec fn orders_of_predecessor(replacement: RequestReplacement) -> Seq<RequestOrder> {
    seq![
        RequestOrder::DiscardSub(replacement.prior_sub_id),
        RequestOrder::ReleaseLiveClaims(replacement.prior_sub_id),
        RequestOrder::Close { session: replacement.session, sub_id: replacement.prior_sub_id },
    ]
}

/// What is ordered when a successor goes.
pub open spec fn orders_of_successor(successor: SubId) -> Seq<RequestOrder> {
    seq![RequestOrder::DiscardSub(successor), RequestOrder::ReleaseLiveClaims(successor)]
}

/// Every wire request.
pub struct Requests {
    attempts: RequestAttempts,
    replacements: RequestReplacements,
    pending: SortedMap<RequestKey, Vec<PendingRequestEvidence>>,
    active: SortedMap<u64, ActiveRequestEvidence>,
    revisions_by_sub: ReverseIndex<RequestKey, u64>,
    live: SortedMap<RequestKey, LiveWireRequest>,
    metadata: SortedMap<SubId, PlanExecutionMetadata>,
    transfers: SortedMap<RequestKey, PendingRequestClaimTransfer>,
}

/// What a queue of requests says.
pub open spec fn queue_view(q: Seq<PendingRequestEvidence>) -> Seq<PendingView> {
    Seq::new(q.len(), |i: int| q[i]@)
}

spec fn active_mirror(a: Map<u64, ActiveRequestEvidence>) -> Set<Pair<RequestKey, u64>> {
    Set::new(
        |e: Pair<RequestKey, u64>|
            a.contains_key(e.1) && a[e.1].session == e.0.session && a[e.1].sub_id == e.0.sub_id,
    )
}

impl View for Requests {
    type V = RequestsView;

    closed spec fn view(&self) -> RequestsView {
        RequestsView {
            attempts: self.attempts.attempts().map_values(|a: RequestAttemptState| a@),
            retries: self.attempts.retries().map_values(|r: PendingRequestRetry| r@),
            next_id: self.attempts.next_id(),
            replacements: self.replacements@,
            pending: self.pending@.map_values(|q: Vec<PendingRequestEvidence>| queue_view(q@)),
            active: self.active@.map_values(|a: ActiveRequestEvidence| a@),
            live: self.live@,
            metadata: self.metadata@.map_values(|m: PlanExecutionMetadata| m@),
            transfers: self.transfers@.map_values(|t: PendingRequestClaimTransfer| t@),
        }
    }
}

/// Every request stands under its own key and on its own session.
pub open spec fn filed(v: RequestsView) -> bool {
    &&& forall|id: RequestAttemptId| #[trigger]
        v.attempts.contains_key(id) ==> v.attempts[id].session == home(v.attempts[id].sub_id)
    &&& forall|k: RequestKey| #[trigger]
        v.retries.contains_key(k) ==> k == home_key(k.sub_id) && v.retries[k].attempt.session == k.session
            && v.retries[k].attempt.sub_id == k.sub_id
    &&& forall|k: RequestKey| #[trigger]
        v.pending.contains_key(k) ==> v.pending[k].len() > 0 && k == home_key(k.sub_id)
    &&& forall|k: RequestKey, i: int|
        v.pending.contains_key(k) && 0 <= i < v.pending[k].len() ==> (#[trigger] v.pending[k][i]).session
            == k.session && v.pending[k][i].sub_id == k.sub_id
    &&& forall|r: u64| #[trigger] v.active.contains_key(r) ==> v.active[r].request_revision == r
        && v.active[r].session == home(v.active[r].sub_id)
    &&& forall|k: RequestKey| #[trigger]
        v.transfers.contains_key(k) ==> v.transfers[k].session == k.session && v.transfers[k].sub_id
            == k.sub_id
}

impl Requests {
    /// The indexes mirror their maps.
    pub closed spec fn mirrored(&self) -> bool {
        &&& self.attempts.wf()
        &&& self.replacements.wf()
        &&& self.revisions_by_sub@ == active_mirror(self.active@)
    }

    pub open spec fn wf(&self) -> bool {
        self.mirrored() && filed(self@)
    }

    pub fn new() -> (r: Self)
        ensures
            r.wf(),
            r@ == (RequestsView {
                attempts: Map::empty(),
                retries: Map::empty(),
                next_id: Some(0u64),
                replacements: Map::empty(),
                pending: Map::empty(),
                active: Map::empty(),
                live: Map::empty(),
                metadata: Map::empty(),
                transfers: Map::empty(),
            }),
    {
        let r = Requests {
            attempts: RequestAttempts::new(),
            replacements: RequestReplacements::new(),
            pending: SortedMap::new(),
            active: SortedMap::new(),
            revisions_by_sub: ReverseIndex::new(),
            live: SortedMap::new(),
            metadata: SortedMap::new(),
            transfers: SortedMap::new(),
        };
        assert(r@.attempts =~= Map::<RequestAttemptId, AttemptView>::empty());
        assert(r@.retries =~= Map::<RequestKey, RetryView>::empty());
        assert(r@.pending =~= Map::<RequestKey, Seq<PendingView>>::empty());
        assert(r@.active =~= Map::<u64, ActiveView>::empty());
        assert(r@.metadata =~= Map::<SubId, MetadataView>::empty());
        assert(r@.transfers =~= Map::<RequestKey, TransferView>::empty());
        assert(r.revisions_by_sub@ =~= active_mirror(r.active@));
        r
    }

    /// Takes every active request of one subscription off the books.
    fn drop_active(&mut self, key: &RequestKey)
        requires
            old(self).mirrored(),
        ensures
            final(self).mirrored(),
            final(self)@ == (RequestsView {
                active: old(self)@.active.remove_keys(
                    Set::new(
                        |r: u64|
                            old(self)@.active.contains_key(r) && old(self)@.active[r].session
                                == key.session && old(self)@.active[r].sub_id == key.sub_id,
                    ),
                ),
                ..old(self)@
            }),
    {
        let ghost before = self.active@;
        let revisions = self.revisions_by_sub.take_owner(key);
        let list = revisions.list();
        let mut i: usize = 0;
        proof {
            lemma_listing_members(list@, revisions@);
            assert(before.remove_keys(list@.take(0).to_set()) =~= before);
        }
        while i < list.len()
            invariant
                i <= list@.len(),
                self.active@ == before.remove_keys(list@.take(i as int).to_set()),
                self.attempts == old(self).attempts,
                self.replacements == old(self).replacements,
                self.pending == old(self).pending,
                self.live == old(self).live,
                self.metadata == old(self).metadata,
                self.transfers == old(self).transfers,
                self.revisions_by_sub@ == crate::reverse::without_owner(active_mirror(before), *key),
            decreases list@.len() - i,
        {
            let revision = list[i];
            proof {
                let done = list@.take(i as int);
                let next = list@.take(i + 1);
                assert(next =~= done.push(revision));
                lemma_push_contains(done, revision);
                assert forall|r: u64| next.to_set().contains(r) <==> done.to_set().contains(r) || r
                    == revision by {
                    assert(next.contains(r) <==> done.contains(r) || r == revision);
                }
                assert(before.remove_keys(done.to_set()).remove(revision) =~= before.remove_keys(
                    next.to_set(),
                ));
            }
            self.active.remove(&revision);
            i = i + 1;
        }
        proof {
            assert(list@.take(i as int) =~= list@);
            let gone = Set::new(
                |r: u64|
                    old(self)@.active.contains_key(r) && old(self)@.active[r].session == key.session
                        && old(self)@.active[r].sub_id == key.sub_id,
            );
            assert forall|r: u64| revisions@.contains(r) <==> gone.contains(r) by {
                assert(held_by(active_mirror(before), *key).contains(r) <==> active_mirror(
                    before,
                ).contains(Pair(*key, r)));
            }
            assert(revisions@ =~= gone);
            assert(self@.active =~= old(self)@.active.remove_keys(gone));
            assert(self.revisions_by_sub@ =~= active_mirror(self.active@)) by {
                assert forall|e: Pair<RequestKey, u64>| self.revisions_by_sub@.contains(e)
                    <==> active_mirror(self.active@).contains(e) by {
                    if active_mirror(before).contains(e) {
                        assert(revisions@.contains(e.1) <==> active_mirror(before).contains(
                            Pair(*key, e.1),
                        ));
                    }
                }
            }
        }
    }

    /// Gives one subscription up: nothing of it stays.
    pub fn abandon_sub(&mut self, sub_id: &SubId, orders: &mut Vec<RequestOrder>)
        requires
            old(self).wf(),
        ensures
            final(self).wf(),
            final(self)@ == old(self)@.abandon_sub(*sub_id),
            final(orders)@ == old(orders)@.push(RequestOrder::DiscardSub(*sub_id)),
    {
        let session = home_of(sub_id);
        let key = RequestKey { session, sub_id: *sub_id };
        self.attempts.retire_for_sub(sub_id);
        orders.push(RequestOrder::DiscardSub(*sub_id));
        self.transfers.remove(&key);
        self.pending.remove(&key);
        self.live.remove(&key);
        proof {
            let want = old(self)@.abandon_sub(*sub_id);
            assert(self@.attempts =~= want.attempts);
            assert(self@.retries =~= want.retries);
            assert(self@.transfers =~= want.transfers);
            assert(self@.pending =~= want.pending);
            assert(self@.live =~= want.live);
            assert(self@.active =~= old(self)@.active);
        }
        self.drop_active(&key);
        proof {
            let want = old(self)@.abandon_sub(*sub_id);
            assert(self@ == want);
            assert(filed(old(self)@));
            lemma_abandon_sub_filed(old(self)@, *sub_id);
        }
    }
}

proof fn lemma_abandon_sub_filed(v: RequestsView, sub_id: SubId)
    requires
        filed(v),
    ensures
        filed(v.abandon_sub(sub_id)),
{
    let w = v.abandon_sub(sub_id);
    assert forall|id: RequestAttemptId| #[trigger] w.attempts.contains_key(id) implies w.attempts[id].session
        == home(w.attempts[id].sub_id) by {
        assert(v.attempts.contains_key(id));
    }
    assert forall|k: RequestKey| #[trigger] w.retries.contains_key(k) implies k == home_key(k.sub_id) by {
        assert(v.retries.contains_key(k));
    }
    assert forall|k: RequestKey| #[trigger] w.pending.contains_key(k) implies w.pending[k].len() > 0 && k
        == home_key(k.sub_id) by {
        assert(v.pending.contains_key(k));
    }
    assert forall|k: RequestKey, i: int|
        w.pending.contains_key(k) && 0 <= i < w.pending[k].len() implies (
    #[trigger] w.pending[k][i]).session == k.session && w.pending[k][i].sub_id == k.sub_id by {
        assert(v.pending[k][i].session == k.session);
    }
    assert forall|r: u64| #[trigger] w.active.contains_key(r) implies w.active[r].request_revision == r
        && w.active[r].session == home(w.active[r].sub_id) by {
        assert(v.active.contains_key(r));
    }
    assert forall|k: RequestKey| #[trigger] w.transfers.contains_key(k) implies w.transfers[k].session
        == k.session && w.transfers[k].sub_id == k.sub_id by {
        assert(v.transfers.contains_key(k));
    }
}

/// Why a request is sent.
pub struct RequestSend {
    pub session: RelaySessionKey,
    pub sub_id: SubId,
    pub filter: ConcreteFilter,
    pub coverage_claims: SortedSet<CoverageKey>,
    pub owner_demands: SortedSet<DemandKey>,
}

/// What a send says.
pub struct SendView {
    pub session: RelaySessionKey,
    pub sub_id: SubId,
    pub filter: ConcreteFilter,
    pub coverage_claims: Set<CoverageKey>,
    pub owner_demands: Set<DemandKey>,
}

impl View for RequestSend {
    type V = SendView;

    open spec fn view(&self) -> SendView {
        SendView {
            session: self.session,
            sub_id: self.sub_id,
            filter: self.filter,
            coverage_claims: self.coverage_claims@,
            owner_demands: self.owner_demands@,
        }
    }
}

/// What came of a hand-off.
pub struct HandoffResult {
    /// The demands whose evidence changed.
    pub evidence_demands: SortedSet<DemandKey>,
    pub orders: Vec<RequestOrder>,
}

/// The queue of one request.
pub open spec fn queue_at(pending: Map<RequestKey, Seq<PendingView>>, key: RequestKey) -> Seq<PendingView> {
    if pending.contains_key(key) {
        pending[key]
    } else {
        Seq::empty()
    }
}

/// The revision whose stored events a live request still streams.
pub open spec fn streaming(live: Map<RequestKey, LiveWireRequest>, key: RequestKey, hash: FilterHash) -> Option<u64> {
    if live.contains_key(key) && live[key].filter.hash == hash {
        match live[key].stored_events {
            StoredEvents::Streaming { request_revision, .. } => Some(request_revision),
            StoredEvents::Finished { .. } => None,
        }
    } else {
        None
    }
}

/// The demands of a request after some were added or taken away.
pub open spec fn edited(demands: Set<DemandKey>, change: Set<DemandKey>, add: bool) -> Set<DemandKey> {
    if add {
        demands.union(change)
    } else {
        demands.difference(change)
    }
}

/// The first place in a queue that awaits a given attempt.
pub open spec fn place_in(q: Seq<PendingView>, id: RequestAttemptId) -> Option<int>
    decreases q.len(),
{
    if q.len() == 0 {
        None
    } else {
        match place_in(q.drop_last(), id) {
            Some(i) => Some(i),
            None => if q.last().attempt_id == id {
                Some(q.len() - 1)
            } else {
                None
            },
        }
    }
}

proof fn lemma_place_in(q: Seq<PendingView>, id: RequestAttemptId)
    ensures
        place_in(q, id) matches Some(i) ==> 0 <= i < q.len() && q[i].attempt_id == id,
    decreases q.len(),
{
    if q.len() > 0 {
        lemma_place_in(q.drop_last(), id);
    }
}

impl RequestsView {
    /// A request is sent: it is a new attempt, last in its queue.
    pub open spec fn record(self, send: SendView, revision: u64) -> RequestsView {
        let id = RequestAttemptId(self.next_id->0);
        let key = RequestKey { session: send.session, sub_id: send.sub_id };
        RequestsView {
            attempts: self.attempts.insert(
                id,
                AttemptView {
                    session: send.session,
                    sub_id: send.sub_id,
                    filter: send.filter,
                    coverage_claims: send.coverage_claims,
                    owner_demands: send.owner_demands,
                    request_revision: Some(revision),
                    retry_failures: 0,
                },
            ),
            next_id: if id.0 == u64::MAX {
                None
            } else {
                Some((id.0 + 1) as u64)
            },
            pending: self.pending.insert(
                key,
                queue_at(self.pending, key).push(
                    PendingView {
                        attempt_id: id,
                        request_revision: revision,
                        session: send.session,
                        sub_id: send.sub_id,
                        filter: send.filter,
                        owner_demands: send.owner_demands,
                    },
                ),
            ),
            ..self
        }
    }

    /// The demands of the current request of one subscription change: of the
    /// one sent last, and of the one that streams.
    pub open spec fn edit_owners(self, key: RequestKey, hash: FilterHash, change: Set<DemandKey>, add: bool) -> RequestsView {
        let q = queue_at(self.pending, key);
        let revision = streaming(self.live, key, hash);
        RequestsView {
            pending: if q.len() > 0 && q.last().filter.hash == hash {
                self.pending.insert(
                    key,
                    q.drop_last().push(
                        PendingView {
                            owner_demands: edited(q.last().owner_demands, change, add),
                            ..q.last()
                        },
                    ),
                )
            } else {
                self.pending
            },
            active: if revision is Some && self.active.contains_key(revision->0) {
                self.active.insert(
                    revision->0,
                    ActiveView {
                        owner_demands: edited(self.active[revision->0].owner_demands, change, add),
                        ..self.active[revision->0]
                    },
                )
            } else {
                self.active
            },
            ..self
        }
    }

    /// The queued request that a hand-off speaks of, with its place.
    pub open spec fn handed_off(self, id: RequestAttemptId) -> Option<(RequestKey, int)> {
        if self.attempts.contains_key(id) {
            let key = RequestKey { session: self.attempts[id].session, sub_id: self.attempts[id].sub_id };
            match place_in(queue_at(self.pending, key), id) {
                Some(i) => Some((key, i)),
                None => None,
            }
        } else {
            None
        }
    }

    /// The request at one place of a queue is taken out of it.
    pub open spec fn dequeue(self, key: RequestKey, i: int) -> RequestsView {
        RequestsView {
            pending: if self.pending[key].len() == 1 {
                self.pending.remove(key)
            } else {
                self.pending.insert(key, self.pending[key].remove(i))
            },
            ..self
        }
    }

    pub open spec fn drop_attempt(self, id: RequestAttemptId) -> RequestsView {
        RequestsView { attempts: self.attempts.remove(id), ..self }
    }

    /// A relay has taken a request: it streams from now on.
    pub open spec fn go_live(self, p: PendingView, handle: TransportRelayHandle) -> RequestsView {
        let key = RequestKey { session: p.session, sub_id: p.sub_id };
        RequestsView {
            retries: self.retries.remove(key),
            live: self.live.insert(
                key,
                LiveWireRequest {
                    filter: p.filter,
                    handle,
                    stored_events: StoredEvents::Streaming {
                        request_revision: p.request_revision,
                        committed_interval: None,
                    },
                },
            ),
            active: self.active.insert(
                p.request_revision,
                ActiveView {
                    request_revision: p.request_revision,
                    session: p.session,
                    sub_id: p.sub_id,
                    owner_demands: p.owner_demands,
                    handle,
                },
            ),
            ..self
        }
    }

    /// A refused attempt waits for its deadline.
    pub open spec fn park(self, attempt: AttemptView, now: u64) -> RequestsView {
        let failures = capped(attempt.retry_failures + 1, u32::MAX as int) as u32;
        RequestsView {
            retries: self.retries.insert(
                RequestKey { session: attempt.session, sub_id: attempt.sub_id },
                RetryView {
                    attempt,
                    due: capped(now + backoff_secs(failures as nat), u64::MAX as int) as u64,
                    failures,
                },
            ),
            ..self
        }
    }

    /// The requests after a hand-off result.
    pub open spec fn handoff(self, outcome: RequestHandoffOutcome, now: u64) -> RequestsView {
        let id = outcome.spec_attempt_id();
        match self.handed_off(id) {
            None => self.drop_attempt(id),
            Some((key, i)) => {
                let p = self.pending[key][i];
                let base = self.drop_attempt(id).dequeue(key, i);
                match outcome {
                    RequestHandoffOutcome::Accepted { handle, .. } => base.go_live(
                        p,
                        handle,
                    ).complete_replacement(key.sub_id),
                    RequestHandoffOutcome::Refused { .. } => base.park(self.attempts[id], now),
                }
            },
        }
    }

    /// What a hand-off result orders.
    pub open spec fn handoff_orders(self, outcome: RequestHandoffOutcome) -> Seq<RequestOrder> {
        match self.handed_off(outcome.spec_attempt_id()) {
            None => Seq::empty(),
            Some((key, i)) => {
                let p = self.pending[key][i];
                match outcome {
                    RequestHandoffOutcome::Accepted { .. } => if self.replacements.contains_key(
                        key.sub_id,
                    ) {
                        orders_of_predecessor(self.replacements[key.sub_id])
                    } else {
                        Seq::empty()
                    },
                    RequestHandoffOutcome::Refused { .. } => if self.live.contains_key(key) {
                        seq![
                            RequestOrder::DiscardSend { sub_id: p.sub_id, revision: p.request_revision },
                        ]
                    } else {
                        seq![
                            RequestOrder::DiscardSend { sub_id: p.sub_id, revision: p.request_revision },
                            RequestOrder::DropIdleMapping { session: p.session, sub_id: p.sub_id },
                        ]
                    },
                }
            },
        }
    }

    /// The stored events of a request are complete.
    pub open spec fn finish_stored(self, a: ActiveView) -> RequestsView {
        let key = RequestKey { session: a.session, sub_id: a.sub_id };
        RequestsView {
            live: if self.live.contains_key(key) {
                match self.live[key].stored_events {
                    StoredEvents::Streaming { request_revision, committed_interval } => if request_revision
                        == a.request_revision {
                        self.live.insert(
                            key,
                            LiveWireRequest {
                                stored_events: StoredEvents::Finished {
                                    request_revision,
                                    committed_interval,
                                },
                                ..self.live[key]
                            },
                        )
                    } else {
                        self.live
                    },
                    StoredEvents::Finished { .. } => self.live,
                }
            } else {
                self.live
            },
            ..self
        }
    }

    /// The requests of one connection are closed.
    pub open spec fn close_session(self, session: RelaySessionKey, handle: TransportRelayHandle) -> RequestsView {
        RequestsView {
            live: self.live.remove_keys(
                Set::new(
                    |k: RequestKey|
                        self.live.contains_key(k) && k.session == session && self.live[k].handle == handle,
                ),
            ),
            active: self.active.remove_keys(
                Set::new(
                    |r: u64|
                        self.active.contains_key(r) && self.active[r].session == session
                            && self.active[r].handle == handle,
                ),
            ),
            ..self
        }
    }

    /// The requests of one subscription on one connection are closed.
    pub open spec fn close_sub(self, key: RequestKey, handle: TransportRelayHandle) -> RequestsView {
        RequestsView {
            live: if self.live.contains_key(key) && self.live[key].handle == handle {
                self.live.remove(key)
            } else {
                self.live
            },
            active: self.active.remove_keys(
                Set::new(
                    |r: u64|
                        self.active.contains_key(r) && self.active[r].session == key.session
                            && self.active[r].sub_id == key.sub_id && self.active[r].handle == handle,
                ),
            ),
            ..self
        }
    }
}

proof fn lemma_abandon_session_filed(v: RequestsView, session: RelaySessionKey)
    requires
        filed(v),
    ensures
        filed(v.abandon_session(session)),
{
    let w = v.abandon_session(session);
    assert forall|id: RequestAttemptId| #[trigger] w.attempts.contains_key(id) implies w.attempts[id].session
        == home(w.attempts[id].sub_id) by {
        assert(v.attempts.contains_key(id));
    }
    assert forall|k: RequestKey| #[trigger] w.retries.contains_key(k) implies k == home_key(k.sub_id) by {
        assert(v.retries.contains_key(k));
    }
    assert forall|k: RequestKey| #[trigger] w.pending.contains_key(k) implies w.pending[k].len() > 0 && k
        == home_key(k.sub_id) by {
        assert(v.pending.contains_key(k));
    }
    assert forall|k: RequestKey, i: int|
        w.pending.contains_key(k) && 0 <= i < w.pending[k].len() implies (
    #[trigger] w.pending[k][i]).session == k.session && w.pending[k][i].sub_id == k.sub_id by {
        assert(v.pending[k][i].session == k.session);
    }
    assert forall|r: u64| #[trigger] w.active.contains_key(r) implies w.active[r].request_revision == r
        && w.active[r].session == home(w.active[r].sub_id) by {
        assert(v.active.contains_key(r));
    }
}

impl Requests {
    /// Keeps only the pending queues and live requests of other sessions.
    fn drop_session_maps(&mut self, session: &RelaySessionKey)
        ensures
            final(self)@ == (RequestsView {
                pending: old(self)@.pending.remove_keys(Set::new(|k: RequestKey| k.session == *session)),
                live: old(self)@.live.remove_keys(Set::new(|k: RequestKey| k.session == *session)),
                ..old(self)@
            }),
            final(self).attempts == old(self).attempts,
            final(self).replacements == old(self).replacements,
            final(self).active == old(self).active,
            final(self).revisions_by_sub == old(self).revisions_by_sub,
    {
        let ghost p0 = self.pending@;
        let ghost l0 = self.live@;
        let ghost away = Set::new(|k: RequestKey| k.session == *session);
        let keys = self.pending.key_list();
        let mut i: usize = 0;
        while i < keys.len()
            invariant
                i <= keys@.len(),
                is_listing(keys@, p0.dom()),
                self.attempts == old(self).attempts,
                self.replacements == old(self).replacements,
                self.active == old(self).active,
                self.revisions_by_sub == old(self).revisions_by_sub,
                self.live == old(self).live,
                self.metadata == old(self).metadata,
                self.transfers == old(self).transfers,
                forall|k: RequestKey| #[trigger]
                    self.pending@.contains_key(k) <==> p0.contains_key(k) && !(k.session == *session
                        && keys@.take(i as int).contains(k)),
                forall|k: RequestKey| #[trigger] self.pending@.contains_key(k) ==> self.pending@[k] == p0[k],
            decreases keys@.len() - i,
        {
            let key = keys[i];
            proof {
                assert(keys@.take(i + 1) =~= keys@.take(i as int).push(key));
                lemma_push_contains(keys@.take(i as int), key);
            }
            if same(&key.session, session) {
                self.pending.remove(&key);
            }
            i = i + 1;
        }
        proof {
            assert(keys@.take(i as int) =~= keys@);
            lemma_listing_members(keys@, p0.dom());
            assert forall|k: RequestKey| self.pending@.contains_key(k) <==> p0.remove_keys(away).contains_key(
                k,
            ) by {
                if p0.contains_key(k) {
                    assert(keys@.contains(k));
                }
            }
            assert(self.pending@ =~= p0.remove_keys(away));
        }
        let live = self.live.key_list();
        let mut j: usize = 0;
        while j < live.len()
            invariant
                j <= live@.len(),
                is_listing(live@, l0.dom()),
                self.attempts == old(self).attempts,
                self.replacements == old(self).replacements,
                self.active == old(self).active,
                self.revisions_by_sub == old(self).revisions_by_sub,
                self.pending@ == p0.remove_keys(away),
                self.metadata == old(self).metadata,
                self.transfers == old(self).transfers,
                forall|k: RequestKey| #[trigger]
                    self.live@.contains_key(k) <==> l0.contains_key(k) && !(k.session == *session
                        && live@.take(j as int).contains(k)),
                forall|k: RequestKey| #[trigger] self.live@.contains_key(k) ==> self.live@[k] == l0[k],
            decreases live@.len() - j,
        {
            let key = live[j];
            proof {
                assert(live@.take(j + 1) =~= live@.take(j as int).push(key));
                lemma_push_contains(live@.take(j as int), key);
            }
            if same(&key.session, session) {
                self.live.remove(&key);
            }
            j = j + 1;
        }
        proof {
            assert(live@.take(j as int) =~= live@);
            lemma_listing_members(live@, l0.dom());
            assert forall|k: RequestKey| self.live@.contains_key(k) <==> l0.remove_keys(away).contains_key(k) by {
                if l0.contains_key(k) {
                    assert(live@.contains(k));
                }
            }
            assert(self.live@ =~= l0.remove_keys(away));
            assert(self@.pending =~= old(self)@.pending.remove_keys(away));
        }
    }

    /// Gives every subscription of one session up.
    pub fn abandon_session_subs(&mut self, session: &RelaySessionKey, orders: &mut Vec<RequestOrder>)
        requires
            old(self).wf(),
        ensures
            final(self).wf(),
            final(self)@ == old(self)@.abandon_session(*session),
            final(orders)@ == old(orders)@.push(RequestOrder::ClearSession(*session)),
    {
        let ghost v = self@;
        self.attempts.retire_for_session(session);
        orders.push(RequestOrder::ClearSession(*session));
        let ghost mid = self@;
        proof {
            assert(mid.attempts =~= v.abandon_session(*session).attempts);
            assert(mid.retries =~= v.abandon_session(*session).retries);
        }
        self.drop_session_maps(session);
        let ghost base = self@;
        let ghost start = self.active@;
        let revisions = self.active.key_list();
        let mut i: usize = 0;
        while i < revisions.len()
            invariant
                i <= revisions@.len(),
                is_listing(revisions@, start.dom()),
                self.attempts.wf(),
                self.replacements.wf(),
                self.revisions_by_sub@ == active_mirror(self.active@),
                self@ == (RequestsView { active: self@.active, ..base }),
                forall|r: u64| #[trigger]
                    self.active@.contains_key(r) <==> start.contains_key(r) && !(start[r].session
                        == *session && revisions@.take(i as int).contains(r)),
                forall|r: u64| #[trigger] self.active@.contains_key(r) ==> self.active@[r] == start[r],
            decreases revisions@.len() - i,
        {
            let revision = revisions[i];
            let ghost prior = self.active@;
            proof {
                assert(revisions@.take(i + 1) =~= revisions@.take(i as int).push(revision));
                lemma_push_contains(revisions@.take(i as int), revision);
            }
            let owner = match self.active.get(&revision) {
                Some(request) => if same(&request.session, session) {
                    Some(RequestKey { session: request.session, sub_id: request.sub_id })
                } else {
                    None
                },
                None => None,
            };
            if let Some(key) = owner {
                self.active.remove(&revision);
                self.revisions_by_sub.drop_edge(&key, &revision);
                assert(self.revisions_by_sub@ =~= active_mirror(self.active@));
            }
            i = i + 1;
        }
        proof {
            assert(revisions@.take(i as int) =~= revisions@);
            lemma_listing_members(revisions@, start.dom());
            let want = v.abandon_session(*session);
            assert forall|r: u64| self@.active.contains_key(r) <==> want.active.contains_key(r) by {
                if start.contains_key(r) {
                    assert(revisions@.contains(r));
                }
                assert(self@.active.contains_key(r) <==> self.active@.contains_key(r));
                assert(v.active.contains_key(r) <==> start.contains_key(r));
            }
            assert(self@.active =~= want.active);
            assert(self@.attempts =~= want.attempts);
            assert(self@.retries =~= want.retries);
            assert(self@.pending =~= want.pending);
            assert(self@.live =~= want.live);
            assert(self@ == want);
            lemma_abandon_session_filed(v, *session);
        }
    }

    /// Sends a request: mints its attempt and queues it. `revision` is the
    /// number that the send was given.
    pub fn record_observed_request(&mut self, request: RequestSend, revision: u64) -> (id: RequestAttemptId)
        requires
            old(self).wf(),
            old(self)@.next_id is Some,
            request.session == home(request.sub_id),
        ensures
            final(self).wf(),
            final(self)@ == old(self)@.record(request@, revision),
            Some(id.0) == old(self)@.next_id,
    {
        let ghost v = self@;
        let ghost send = request@;
        let key = RequestKey { session: request.session, sub_id: request.sub_id };
        let queued = request.owner_demands.copy();
        let state = RequestAttemptState {
            session: request.session,
            sub_id: request.sub_id,
            filter: request.filter,
            coverage_claims: request.coverage_claims,
            owner_demands: request.owner_demands,
            request_revision: Some(revision),
            retry_failures: 0,
        };
        let id = self.attempts.mint(state);
        let mut queue = match self.pending.remove(&key) {
            Some(queue) => queue,
            None => Vec::new(),
        };
        let ghost before = queue@;
        let entry = PendingRequestEvidence {
            attempt_id: id,
            request_revision: revision,
            session: request.session,
            sub_id: request.sub_id,
            filter: request.filter,
            owner_demands: queued,
        };
        queue.push(entry);
        assert(queue_view(queue@) =~= queue_view(before).push(entry@));
        self.pending.insert(key, queue);
        proof {
            let want = v.record(send, revision);
            assert(queue_view(before) =~= queue_at(v.pending, key));
            assert(self@.attempts =~= want.attempts);
            assert(self@.retries =~= want.retries);
            assert(self@.pending =~= want.pending);
            assert(self@ == want);
            assert forall|a: RequestAttemptId| #[trigger] want.attempts.contains_key(a) implies want.attempts[a].session
                == home(want.attempts[a].sub_id) by {
                if a != id {
                    assert(v.attempts.contains_key(a));
                }
            }
            assert forall|k: RequestKey| #[trigger] want.pending.contains_key(k) implies want.pending[k].len()
                > 0 && k == home_key(k.sub_id) by {
                if k != key {
                    assert(v.pending.contains_key(k));
                }
            }
            assert forall|k: RequestKey, i: int|
                want.pending.contains_key(k) && 0 <= i < want.pending[k].len() implies (
            #[trigger] want.pending[k][i]).session == k.session && want.pending[k][i].sub_id == k.sub_id by {
                if k != key {
                    assert(v.pending[k][i].session == k.session);
                } else if i < queue_at(v.pending, key).len() {
                    assert(want.pending[k][i] == queue_at(v.pending, key)[i]);
                    assert(v.pending[k][i].session == k.session);
                }
            }
            assert(filed(want));
        }
        id
    }

    /// Takes one active request off the books.
    fn take_active_request_evidence(&mut self, revision: u64) -> (r: Option<ActiveRequestEvidence>)
        requires
            old(self).wf(),
        ensures
            final(self).wf(),
            final(self)@ == old(self)@.settle(revision),
            match r {
                Some(a) => old(self)@.active.contains_key(revision) && a@ == old(self)@.active[revision],
                None => !old(self)@.active.contains_key(revision),
            },
    {
        let ghost v = self@;
        let r = self.active.remove(&revision);
        if let Some(request) = &r {
            let key = RequestKey { session: request.session, sub_id: request.sub_id };
            self.revisions_by_sub.drop_edge(&key, &revision);
        }
        proof {
            assert(self.revisions_by_sub@ =~= active_mirror(self.active@));
            assert(self@.active =~= v.settle(revision).active);
            assert(self@ == v.settle(revision));
            lemma_fewer_active_filed(v, self@.active);
        }
        r
    }
}

proof fn lemma_fewer_active_filed(v: RequestsView, active: Map<u64, ActiveView>)
    requires
        filed(v),
        active.submap_of(v.active),
    ensures
        filed(RequestsView { active, ..v }),
{
    let w = RequestsView { active, ..v };
    assert forall|r: u64| #[trigger] w.active.contains_key(r) implies w.active[r].request_revision == r
        && w.active[r].session == home(w.active[r].sub_id) by {
        assert(active.dom().contains(r));
        assert(v.active.contains_key(r));
    }
}

proof fn lemma_drop_transfer_filed(v: RequestsView, key: RequestKey)
    requires
        filed(v),
    ensures
        filed(v.drop_transfer(key)),
{
    let w = v.drop_transfer(key);
    assert forall|k: RequestKey| #[trigger] w.transfers.contains_key(k) implies w.transfers[k].session
        == k.session && w.transfers[k].sub_id == k.sub_id by {
        assert(v.transfers.contains_key(k));
    }
}

/// What is known of a request that was handed off.
/// An attempt that awaits its result stands in the queue of its own request.
pub proof fn lemma_handed_off(v: RequestsView, id: RequestAttemptId)
    requires
        filed(v),
    ensures
        v.handed_off(id) matches Some((key, i)) ==> {
            &&& v.pending.contains_key(key)
            &&& 0 <= i < v.pending[key].len()
            &&& v.pending[key][i].attempt_id == id
            &&& v.pending[key][i].session == key.session
            &&& v.pending[key][i].sub_id == key.sub_id
            &&& key == home_key(key.sub_id)
        },
{
    if v.attempts.contains_key(id) {
        let key = RequestKey { session: v.attempts[id].session, sub_id: v.attempts[id].sub_id };
        lemma_place_in(queue_at(v.pending, key), id);
        if let Some((k, i)) = v.handed_off(id) {
            assert(v.pending[k][i].session == k.session);
        }
    }
}

proof fn lemma_dequeue_filed(v: RequestsView, key: RequestKey, i: int)
    requires
        filed(v),
        v.pending.contains_key(key),
        0 <= i < v.pending[key].len(),
    ensures
        filed(v.dequeue(key, i)),
{
    let w = v.dequeue(key, i);
    assert forall|k: RequestKey| #[trigger] w.pending.contains_key(k) implies w.pending[k].len() > 0 && k
        == home_key(k.sub_id) by {
        assert(v.pending.contains_key(k));
    }
    assert forall|k: RequestKey, j: int|
        w.pending.contains_key(k) && 0 <= j < w.pending[k].len() implies (
    #[trigger] w.pending[k][j]).session == k.session && w.pending[k][j].sub_id == k.sub_id by {
        if k == key {
            let j0 = if j < i { j } else { j + 1 };
            assert(w.pending[k][j] == v.pending[k][j0]);
            assert(v.pending[k][j0].session == k.session);
        } else {
            assert(v.pending[k][j].session == k.session);
        }
    }
}

proof fn lemma_drop_attempt_filed(v: RequestsView, id: RequestAttemptId)
    requires
        filed(v),
    ensures
        filed(v.drop_attempt(id)),
{
    let w = v.drop_attempt(id);
    assert forall|a: RequestAttemptId| #[trigger] w.attempts.contains_key(a) implies w.attempts[a].session
        == home(w.attempts[a].sub_id) by {
        assert(v.attempts.contains_key(a));
    }
}

proof fn lemma_go_live_filed(v: RequestsView, p: PendingView, handle: TransportRelayHandle)
    requires
        filed(v),
        p.session == home(p.sub_id),
    ensures
        filed(v.go_live(p, handle)),
{
    let w = v.go_live(p, handle);
    assert forall|k: RequestKey| #[trigger] w.retries.contains_key(k) implies k == home_key(k.sub_id) by {
        assert(v.retries.contains_key(k));
    }
    assert forall|r: u64| #[trigger] w.active.contains_key(r) implies w.active[r].request_revision == r
        && w.active[r].session == home(w.active[r].sub_id) by {
        if r != p.request_revision {
            assert(v.active.contains_key(r));
        }
    }
}

proof fn lemma_park_filed(v: RequestsView, attempt: AttemptView, now: u64)
    requires
        filed(v),
        attempt.session == home(attempt.sub_id),
    ensures
        filed(v.park(attempt, now)),
{
    let w = v.park(attempt, now);
    assert forall|k: RequestKey| #[trigger] w.retries.contains_key(k) implies k == home_key(k.sub_id) by {
        if k != (RequestKey { session: attempt.session, sub_id: attempt.sub_id }) {
            assert(v.retries.contains_key(k));
        }
    }
}

impl Requests {
    /// Puts what the plan says of a request in place of what it said.
    pub fn install_plan_execution_metadata(&mut self, sub_id: SubId, metadata: PlanExecutionMetadata)
        requires
            old(self).wf(),
        ensures
            final(self).wf(),
            final(self)@ == (RequestsView {
                metadata: old(self)@.metadata.insert(sub_id, metadata@),
                ..old(self)@
            }),
    {
        self.metadata.insert(sub_id, metadata);
        assert(self@.metadata =~= old(self)@.metadata.insert(sub_id, metadata@));
    }

    pub fn retire_plan_execution_metadata(&mut self, sub_id: &SubId, orders: &mut Vec<RequestOrder>)
        requires
            old(self).wf(),
        ensures
            final(self).wf(),
            final(self)@ == old(self)@.retire_metadata(*sub_id),
            final(orders)@ == old(orders)@.push(RequestOrder::ReleaseLiveClaims(*sub_id)),
    {
        orders.push(RequestOrder::ReleaseLiveClaims(*sub_id));
        self.metadata.remove(sub_id);
        assert(self@.metadata =~= old(self)@.metadata.remove(*sub_id));
    }

    /// Drops the claims that wait for one request, unless the request goes on
    /// with the same filter.
    pub fn cancel_request_claim_transfers(&mut self, key: &RequestKey, replacement_filter: Option<FilterHash>)
        requires
            old(self).wf(),
        ensures
            final(self).wf(),
            final(self)@ == (if old(self)@.transfers.contains_key(*key) && replacement_filter == Some(
                old(self)@.transfers[*key].filter_hash,
            ) {
                old(self)@
            } else {
                old(self)@.drop_transfer(*key)
            }),
    {
        let keep = match (self.transfers.get(key), replacement_filter) {
            (Some(pending), Some(hash)) => pending.filter_hash == hash,
            _ => false,
        };
        if !keep {
            self.transfers.remove(key);
            proof {
                assert(self@.transfers =~= old(self)@.transfers.remove(*key));
                lemma_drop_transfer_filed(old(self)@, *key);
            }
        }
    }

    fn cancel_replacement_successor_work(&mut self, successor: &SubId, orders: &mut Vec<RequestOrder>)
        requires
            old(self).wf(),
        ensures
            final(self).wf(),
            final(self)@ == old(self)@.cancel_successor(*successor),
            final(orders)@ == old(orders)@ + orders_of_successor(*successor),
    {
        let session = home_of(successor);
        self.abandon_sub(successor, orders);
        self.retire_plan_execution_metadata(successor, orders);
        let key = RequestKey { session, sub_id: *successor };
        self.cancel_request_claim_transfers(&key, None);
        assert(self@.transfers =~= old(self)@.cancel_successor(*successor).transfers);
        assert(orders@ =~= old(orders)@ + orders_of_successor(*successor));
    }

    fn retire_replacement_predecessor(&mut self, replacement: RequestReplacement, orders: &mut Vec<RequestOrder>)
        requires
            old(self).wf(),
        ensures
            final(self).wf(),
            final(self)@ == old(self)@.retire_predecessor(replacement),
            final(orders)@ == old(orders)@ + orders_of_predecessor(replacement),
    {
        self.abandon_sub(&replacement.prior_sub_id, orders);
        self.retire_plan_execution_metadata(&replacement.prior_sub_id, orders);
        let key = RequestKey { session: replacement.session, sub_id: replacement.prior_sub_id };
        self.cancel_request_claim_transfers(&key, None);
        orders.push(
            RequestOrder::Close { session: replacement.session, sub_id: replacement.prior_sub_id },
        );
        assert(orders@ =~= old(orders)@ + orders_of_predecessor(replacement));
    }

    /// Takes one replacement off the books.
    fn take_request_replacement(&mut self, successor: &SubId) -> (r: Option<RequestReplacement>)
        requires
            old(self).wf(),
        ensures
            final(self).wf(),
            final(self)@ == old(self)@.without_replacement(*successor),
            match r {
                Some(v) => old(self)@.replacements.contains_key(*successor) && v
                    == old(self)@.replacements[*successor],
                None => !old(self)@.replacements.contains_key(*successor),
            },
    {
        self.replacements.take(successor)
    }

    /// The successor has been accepted: its predecessor is closed.
    pub fn complete_request_replacement(&mut self, successor: &SubId, orders: &mut Vec<RequestOrder>)
        requires
            old(self).wf(),
        ensures
            final(self).wf(),
            final(self)@ == old(self)@.complete_replacement(*successor),
            final(orders)@ == (if old(self)@.replacements.contains_key(*successor) {
                old(orders)@ + orders_of_predecessor(old(self)@.replacements[*successor])
            } else {
                old(orders)@
            }),
    {
        let taken = self.take_request_replacement(successor);
        match taken {
            Some(replacement) => {
                self.retire_replacement_predecessor(replacement, orders);
            },
            None => {
                assert(self@.replacements =~= old(self)@.replacements);
            },
        }
    }

    /// Both sides of a replacement are closed.
    pub fn cancel_request_replacement(&mut self, successor: &SubId, orders: &mut Vec<RequestOrder>)
        requires
            old(self).wf(),
        ensures
            final(self).wf(),
            final(self)@ == old(self)@.cancel_replacement(*successor),
            final(orders)@ == (if old(self)@.replacements.contains_key(*successor) {
                old(orders)@ + orders_of_successor(*successor) + orders_of_predecessor(
                    old(self)@.replacements[*successor],
                )
            } else {
                old(orders)@
            }),
    {
        let taken = self.take_request_replacement(successor);
        match taken {
            Some(replacement) => {
                self.cancel_replacement_successor_work(successor, orders);
                self.retire_replacement_predecessor(replacement, orders);
            },
            None => {
                assert(self@.replacements =~= old(self)@.replacements);
            },
        }
    }

    /// Whether a subscription waits to take the place of another.
    pub fn is_successor(&self, sub_id: &SubId) -> (b: bool)
        ensures
            b == self@.replacements.contains_key(*sub_id),
    {
        self.replacements.contains(sub_id)
    }

    /// Takes on one replacement under a successor that has none. Where its
    /// predecessor is itself a successor that still waits, that one is given
    /// up, and the new successor takes over from the first predecessor.
    pub fn begin_request_replacement(&mut self, replacement: RequestReplacement, orders: &mut Vec<RequestOrder>)
        requires
            old(self).wf(),
            !old(self)@.replacements.remove(replacement.prior_sub_id).contains_key(
                replacement.next_sub_id,
            ),
        ensures
            final(self).wf(),
            final(self)@ == old(self)@.begin_replacement(replacement),
            final(orders)@ == (if old(self)@.replacements.contains_key(replacement.prior_sub_id) {
                old(orders)@ + orders_of_successor(replacement.prior_sub_id)
            } else {
                old(orders)@
            }),
    {
        let mut next = replacement;
        let taken = self.take_request_replacement(&replacement.prior_sub_id);
        match taken {
            Some(inherited) => {
                self.cancel_replacement_successor_work(&replacement.prior_sub_id, orders);
                next.prior_sub_id = inherited.prior_sub_id;
            },
            None => {
                assert(self@.replacements =~= old(self)@.replacements);
            },
        }
        self.replacements.insert(next);
    }

    /// Applies a transport result to the request that it speaks of. A result
    /// for an attempt that is no longer awaited changes nothing else.
    pub fn consume_wire_request_handoff(&mut self, outcome: RequestHandoffOutcome, now: u64) -> (r: HandoffResult)
        requires
            old(self).wf(),
        ensures
            final(self).wf(),
            final(self)@ == old(self)@.handoff(outcome, now),
            r.orders@ == old(self)@.handoff_orders(outcome),
            r.evidence_demands@ == (match old(self)@.handed_off(outcome.spec_attempt_id()) {
                Some((key, i)) => old(self)@.pending[key][i].owner_demands,
                None => Set::<DemandKey>::empty(),
            }),
    {
        let ghost v = self@;
        let id = outcome.attempt_id();
        proof {
            lemma_handed_off(v, id);
        }
        let mut orders: Vec<RequestOrder> = Vec::new();
        let taken = self.attempts.take(&outcome);
        proof {
            assert(self@.attempts =~= v.drop_attempt(id).attempts);
            assert(self@.retries =~= v.retries);
            assert(self@ == v.drop_attempt(id));
            lemma_drop_attempt_filed(v, id);
        }
        let attempt = match taken {
            Some(attempt) => attempt,
            None => {
                return HandoffResult { evidence_demands: SortedSet::new(), orders };
            },
        };
        let key = RequestKey { session: attempt.session, sub_id: attempt.sub_id };
        let found = match self.pending.get(&key) {
            None => None,
            Some(queue) => find_attempt(queue, &id),
        };
        proof {
            assert(attempt@ == v.attempts[id]);
            match self.pending@.contains_key(key) {
                true => {
                    assert(v.pending[key] == queue_view(self.pending@[key]@));
                },
                false => {
                    assert(queue_at(v.pending, key) == Seq::<PendingView>::empty());
                },
            }
            assert(found is Some <==> v.handed_off(id) is Some);
        }
        let position = match found {
            Some(position) => position,
            None => {
                return HandoffResult { evidence_demands: SortedSet::new(), orders };
            },
        };
        let mut queue = match self.pending.remove(&key) {
            Some(queue) => queue,
            None => Vec::new(),
        };
        let ghost q = queue@;
        let request = queue.remove(position);
        let ghost p = request@;
        assert(queue_view(queue@) =~= queue_view(q).remove(position as int));
        if queue.len() > 0 {
            self.pending.insert(key, queue);
        }
        proof {
            let base = v.drop_attempt(id).dequeue(key, position as int);
            assert(self@.pending =~= base.pending);
            assert(self@ == base);
            lemma_dequeue_filed(v.drop_attempt(id), key, position as int);
            assert(p == v.pending[key][position as int]);
        }
        let evidence_demands = request.owner_demands.copy();
        match outcome {
            RequestHandoffOutcome::Accepted { handle, .. } => {
                let ghost base = self@;
                self.attempts.clear_retry_for_attempt(&attempt);
                self.live.insert(
                    key,
                    LiveWireRequest {
                        filter: request.filter,
                        handle,
                        stored_events: StoredEvents::Streaming {
                            request_revision: request.request_revision,
                            committed_interval: None,
                        },
                    },
                );
                let revision = request.request_revision;
                let ghost a0 = self.active@;
                let stale = match self.active.get(&revision) {
                    Some(prior) => Some(
                        RequestKey { session: prior.session, sub_id: prior.sub_id },
                    ),
                    None => None,
                };
                if let Some(owner) = stale {
                    self.revisions_by_sub.drop_edge(&owner, &revision);
                }
                self.revisions_by_sub.add_edge(key, revision);
                self.active.insert(
                    revision,
                    ActiveRequestEvidence {
                        request_revision: revision,
                        session: request.session,
                        sub_id: request.sub_id,
                        owner_demands: request.owner_demands,
                        handle,
                    },
                );
                proof {
                    let want = base.go_live(p, handle);
                    assert(self.revisions_by_sub@ =~= active_mirror(self.active@));
                    assert(self@.attempts =~= want.attempts);
                    assert(self@.retries =~= want.retries);
                    assert(self@.active =~= want.active);
                    assert(self@.live =~= want.live);
                    assert(self@ == want);
                    lemma_go_live_filed(base, p, handle);
                }
                self.complete_request_replacement(&attempt.sub_id, &mut orders);
                assert(orders@ =~= v.handoff_orders(outcome));
            },
            RequestHandoffOutcome::Refused { .. } => {
                let ghost base = self@;
                orders.push(
                    RequestOrder::DiscardSend {
                        sub_id: request.sub_id,
                        revision: request.request_revision,
                    },
                );
                if !self.live.contains(&key) {
                    orders.push(
                        RequestOrder::DropIdleMapping {
                            session: request.session,
                            sub_id: request.sub_id,
                        },
                    );
                }
                let ghost said = attempt@;
                proof {
                    assert(base.attempts == v.drop_attempt(id).attempts);
                    assert(v.attempts.contains_key(id));
                    assert forall|k: RequestKey| #[trigger]
                        self.attempts.retries().contains_key(k) && k.sub_id == attempt.sub_id implies k.session
                        == attempt.session by {
                        assert(base.retries.contains_key(k));
                    }
                }
                self.attempts.schedule_retry(attempt, now);
                proof {
                    let want = base.park(said, now);
                    assert(self@.retries =~= want.retries);
                    assert(self@.attempts =~= want.attempts);
                    assert(self@ == want);
                    lemma_park_filed(base, said, now);
                    assert(orders@ =~= v.handoff_orders(outcome));
                }
            },
        }
        HandoffResult { evidence_demands, orders }
    }
}

/// The place of an attempt in a queue.
fn find_attempt(queue: &Vec<PendingRequestEvidence>, id: &RequestAttemptId) -> (r: Option<usize>)
    ensures
        match r {
            Some(i) => i < queue@.len() && place_in(queue_view(queue@), *id) == Some(i as int),
            None => place_in(queue_view(queue@), *id) is None,
        },
{
    let ghost q = queue_view(queue@);
    let mut i: usize = 0;
    assert(q.take(0) =~= Seq::<PendingView>::empty());
    while i < queue.len()
        invariant
            i <= queue@.len(),
            q == queue_view(queue@),
            place_in(q.take(i as int), *id) is None,
        decreases queue@.len() - i,
    {
        proof {
            assert(q.take(i + 1).drop_last() =~= q.take(i as int));
            assert(q.take(i + 1).last() == queue@[i as int]@);
        }
        if same(&queue[i].attempt_id, id) {
            proof {
                lemma_place_found(q, *id, i + 1);
            }
            return Some(i);
        }
        i = i + 1;
    }
    assert(q.take(i as int) =~= q);
    None
}

proof fn lemma_place_found(q: Seq<PendingView>, id: RequestAttemptId, n: int)
    requires
        0 <= n <= q.len(),
        place_in(q.take(n), id) is Some,
    ensures
        place_in(q, id) == place_in(q.take(n), id),
    decreases q.len() - n,
{
    if n < q.len() {
        assert(q.take(n + 1).drop_last() =~= q.take(n));
        lemma_place_found(q, id, n + 1);
    } else {
        assert(q.take(n) =~= q);
    }
}

impl RequestsView {
    /// A new replacement is taken on. One that still waits to be replaced
    /// itself is given up in its favour.
    pub open spec fn begin_replacement(self, r: RequestReplacement) -> RequestsView {
        if self.replacements.contains_key(r.prior_sub_id) {
            let inherited = self.replacements[r.prior_sub_id];
            let base = self.without_replacement(r.prior_sub_id).cancel_successor(r.prior_sub_id);
            RequestsView {
                replacements: base.replacements.insert(
                    r.next_sub_id,
                    RequestReplacement { prior_sub_id: inherited.prior_sub_id, ..r },
                ),
                ..base
            }
        } else {
            RequestsView { replacements: self.replacements.insert(r.next_sub_id, r), ..self }
        }
    }
}

proof fn lemma_edit_owners_filed(v: RequestsView, key: RequestKey, hash: FilterHash, change: Set<DemandKey>, add: bool)
    requires
        filed(v),
    ensures
        filed(v.edit_owners(key, hash, change, add)),
{
    let w = v.edit_owners(key, hash, change, add);
    assert forall|k: RequestKey| #[trigger] w.pending.contains_key(k) implies w.pending[k].len() > 0 && k
        == home_key(k.sub_id) by {
        assert(v.pending.contains_key(k));
    }
    assert forall|k: RequestKey, i: int|
        w.pending.contains_key(k) && 0 <= i < w.pending[k].len() implies (
    #[trigger] w.pending[k][i]).session == k.session && w.pending[k][i].sub_id == k.sub_id by {
        assert(v.pending.contains_key(k));
        assert(v.pending[k][i].session == k.session);
    }
    assert forall|r: u64| #[trigger] w.active.contains_key(r) implies w.active[r].request_revision == r
        && w.active[r].session == home(w.active[r].sub_id) by {
        assert(v.active.contains_key(r));
    }
}

proof fn lemma_live_filed(v: RequestsView, live: Map<RequestKey, LiveWireRequest>)
    requires
        filed(v),
    ensures
        filed(RequestsView { live, ..v }),
{
}

/// The members of a set without those of another.
fn without(have: &SortedSet<DemandKey>, gone: &SortedSet<DemandKey>) -> (r: SortedSet<DemandKey>)
    ensures
        r@ == have@.difference(gone@),
{
    let list = have.list();
    let mut r: SortedSet<DemandKey> = SortedSet::new();
    let mut i: usize = 0;
    while i < list.len()
        invariant
            i <= list@.len(),
            forall|d: DemandKey| #[trigger]
                r@.contains(d) <==> list@.take(i as int).contains(d) && !gone@.contains(d),
        decreases list@.len() - i,
    {
        let d = list[i];
        proof {
            assert(list@.take(i + 1) =~= list@.take(i as int).push(d));
            lemma_push_contains(list@.take(i as int), d);
        }
        if !gone.contains(&d) {
            r.insert(d);
        }
        i = i + 1;
    }
    proof {
        assert(list@.take(i as int) =~= list@);
        lemma_listing_members(list@, have@);
        assert(r@ =~= have@.difference(gone@));
    }
    r
}

/// The members of a set of claims without those of another.
fn claims_without(have: &SortedSet<CoverageKey>, gone: &SortedSet<CoverageKey>) -> (r: SortedSet<CoverageKey>)
    ensures
        r@ == have@.difference(gone@),
{
    let list = have.list();
    let mut r: SortedSet<CoverageKey> = SortedSet::new();
    let mut i: usize = 0;
    while i < list.len()
        invariant
            i <= list@.len(),
            forall|d: CoverageKey| #[trigger]
                r@.contains(d) <==> list@.take(i as int).contains(d) && !gone@.contains(d),
        decreases list@.len() - i,
    {
        let d = list[i];
        proof {
            assert(list@.take(i + 1) =~= list@.take(i as int).push(d));
            lemma_push_contains(list@.take(i as int), d);
        }
        if !gone.contains(&d) {
            r.insert(d);
        }
        i = i + 1;
    }
    proof {
        assert(list@.take(i as int) =~= list@);
        lemma_listing_members(list@, have@);
        assert(r@ =~= have@.difference(gone@));
    }
    r
}

fn edit_demands(have: &SortedSet<DemandKey>, change: &SortedSet<DemandKey>, add: bool) -> (r: SortedSet<DemandKey>)
    ensures
        r@ == edited(have@, change@, add),
{
    if add {
        let mut r = have.copy();
        r.extend(change);
        r
    } else {
        without(have, change)
    }
}

impl Requests {
    fn edit_current_request_owner_demands(
        &mut self,
        key: &RequestKey,
        filter_hash: FilterHash,
        change: &SortedSet<DemandKey>,
        add: bool,
    )
        requires
            old(self).wf(),
        ensures
            final(self).wf(),
            final(self)@ == old(self)@.edit_owners(*key, filter_hash, change@, add),
    {
        let ghost v = self@;
        if let Some(mut queue) = self.pending.remove(key) {
            let ghost q = queue@;
            if let Some(last) = queue.pop() {
                let ghost said = last@;
                let demands = if last.filter.hash == filter_hash {
                    edit_demands(&last.owner_demands, change, add)
                } else {
                    last.owner_demands
                };
                let entry = PendingRequestEvidence {
                    attempt_id: last.attempt_id,
                    request_revision: last.request_revision,
                    session: last.session,
                    sub_id: last.sub_id,
                    filter: last.filter,
                    owner_demands: demands,
                };
                queue.push(entry);
                proof {
                    assert(queue_view(queue@) =~= queue_view(q).drop_last().push(entry@));
                    if said.filter.hash != filter_hash {
                        assert(queue_view(queue@) =~= queue_view(q));
                    }
                }
            }
            self.pending.insert(*key, queue);
        }
        assert(self@.pending =~= v.edit_owners(*key, filter_hash, change@, add).pending);
        let revision = match self.live.get(key) {
            Some(live) => if live.filter.hash == filter_hash {
                match live.stored_events {
                    StoredEvents::Streaming { request_revision, .. } => Some(request_revision),
                    StoredEvents::Finished { .. } => None,
                }
            } else {
                None
            },
            None => None,
        };
        let ghost a0 = self.active@;
        if let Some(revision) = revision {
            if let Some(request) = self.active.get_mut(&revision) {
                request.owner_demands = edit_demands(&request.owner_demands, change, add);
            }
        }
        proof {
            let want = v.edit_owners(*key, filter_hash, change@, add);
            assert(self@.active =~= want.active);
            assert(active_mirror(self.active@) =~= active_mirror(a0));
            assert(self@ == want);
            lemma_edit_owners_filed(v, *key, filter_hash, change@, add);
        }
    }

    pub fn extend_current_request_owner_demands(
        &mut self,
        key: &RequestKey,
        filter_hash: FilterHash,
        owner_demands: &SortedSet<DemandKey>,
    )
        requires
            old(self).wf(),
        ensures
            final(self).wf(),
            final(self)@ == old(self)@.edit_owners(*key, filter_hash, owner_demands@, true),
    {
        self.edit_current_request_owner_demands(key, filter_hash, owner_demands, true);
    }

    pub fn remove_current_request_owner_demands(
        &mut self,
        key: &RequestKey,
        filter_hash: FilterHash,
        owner_demands: &SortedSet<DemandKey>,
    )
        requires
            old(self).wf(),
        ensures
            final(self).wf(),
            final(self)@ == old(self)@.edit_owners(*key, filter_hash, owner_demands@, false),
    {
        self.edit_current_request_owner_demands(key, filter_hash, owner_demands, false);
    }

    /// The stored events of one send are complete, or given up: the request is
    /// no longer awaited, and where it still streams for this send it has
    /// finished. Gives back the session and the demands that it was for. An end
    /// of an earlier send never finishes a later one.
    pub fn settle_request(&mut self, revision: u64) -> (r: Option<(RelaySessionKey, SortedSet<DemandKey>)>)
        requires
            old(self).wf(),
        ensures
            final(self).wf(),
            match r {
                None => !old(self)@.active.contains_key(revision) && final(self)@ == old(self)@,
                Some((session, demands)) => {
                    let a = old(self)@.active[revision];
                    &&& old(self)@.active.contains_key(revision)
                    &&& session == a.session
                    &&& demands@ == a.owner_demands
                    &&& final(self)@ == old(self)@.settle(revision).finish_stored(a)
                },
            },
    {
        let ghost v = self@;
        match self.take_active_request_evidence(revision) {
            None => {
                assert(self@.active =~= v.active);
                None
            },
            Some(request) => {
                let ghost a = request@;
                let key = RequestKey { session: request.session, sub_id: request.sub_id };
                if let Some(live) = self.live.get_mut(&key) {
                    if let StoredEvents::Streaming { request_revision, committed_interval } =
                        live.stored_events {
                        if request_revision == request.request_revision {
                            live.stored_events = StoredEvents::Finished {
                                request_revision,
                                committed_interval,
                            };
                        }
                    }
                }
                assert(self@.live =~= v.settle(revision).finish_stored(a).live);
                Some((request.session, request.owner_demands))
            },
        }
    }

    /// The live requests whose stored events are complete.
    pub fn finished_stored_events(&self) -> (r: SortedSet<RequestKey>)
        ensures
            r@ == Set::new(
                |k: RequestKey| self@.live.contains_key(k) && self@.live[k].stored_events is Finished,
            ),
    {
        let n = self.live.len();
        let ghost q = self.live.keys();
        let mut r: SortedSet<RequestKey> = SortedSet::new();
        let mut i: usize = 0;
        while i < n
            invariant
                i <= n,
                n == q.len(),
                q == self.live.keys(),
                is_listing(q, self.live@.dom()),
                forall|k: RequestKey| #[trigger]
                    r@.contains(k) <==> q.take(i as int).contains(k) && self.live@[k].stored_events is Finished,
            decreases n - i,
        {
            let key = self.live.key_at(i);
            proof {
                assert(q.take(i + 1) =~= q.take(i as int).push(key));
                lemma_push_contains(q.take(i as int), key);
            }
            if let StoredEvents::Finished { .. } = self.live.value_at(i).stored_events {
                r.insert(key);
            }
            i = i + 1;
        }
        proof {
            assert(q.take(i as int) =~= q);
            lemma_listing_members(q, self.live@.dom());
            assert(r@ =~= Set::new(
                |k: RequestKey| self@.live.contains_key(k) && self@.live[k].stored_events is Finished,
            ));
        }
        r
    }

    /// Every request that a relay has taken, in rising order.
    pub fn placed_request_keys(&self) -> (q: Vec<RequestKey>)
        ensures
            is_listing(q@, self@.live.dom()),
    {
        self.live.key_list()
    }

    /// Every request that awaits its end.
    pub fn awaiting_request_keys(&self) -> (r: SortedSet<RequestKey>)
        requires
            self.wf(),
        ensures
            r@ == Set::new(
                |k: RequestKey|
                    self@.retries.contains_key(k) || exists|id: RequestAttemptId| #[trigger]
                        self@.attempts.contains_key(id) && self@.attempts[id].session == k.session
                            && self@.attempts[id].sub_id == k.sub_id,
            ),
    {
        let r = self.attempts.awaiting_evidence_keys();
        proof {
            let want = Set::new(
                |k: RequestKey|
                    self@.retries.contains_key(k) || exists|id: RequestAttemptId| #[trigger]
                        self@.attempts.contains_key(id) && self@.attempts[id].session == k.session
                            && self@.attempts[id].sub_id == k.sub_id,
            );
            assert forall|k: RequestKey| self.attempts.awaiting().contains(k) <==> want.contains(k) by {
                if exists|id: RequestAttemptId| #[trigger]
                    self.attempts.attempts().contains_key(id) && self.attempts.attempts()[id].key() == k {
                    let id = choose|id: RequestAttemptId| #[trigger]
                        self.attempts.attempts().contains_key(id) && self.attempts.attempts()[id].key()
                            == k;
                    assert(self@.attempts.contains_key(id));
                }
                if exists|id: RequestAttemptId| #[trigger]
                    self@.attempts.contains_key(id) && self@.attempts[id].session == k.session
                        && self@.attempts[id].sub_id == k.sub_id {
                    let id = choose|id: RequestAttemptId| #[trigger]
                        self@.attempts.contains_key(id) && self@.attempts[id].session == k.session
                            && self@.attempts[id].sub_id == k.sub_id;
                    assert(self.attempts.attempts().contains_key(id));
                    assert(self.attempts.attempts()[id].key() == k);
                }
            }
            assert(r@ =~= want);
        }
        r
    }

    /// Whether exactly this request is live on exactly this connection.
    pub fn wire_request_is_live(
        &self,
        key: &RequestKey,
        filter: &ConcreteFilter,
        handle: TransportRelayHandle,
    ) -> (b: bool)
        ensures
            b == (self@.live.contains_key(*key) && self@.live[*key].filter == *filter
                && self@.live[*key].handle == handle),
    {
        match self.live.get(key) {
            Some(live) => live.filter == *filter && live.handle == handle,
            None => false,
        }
    }

    /// Whether any request of a session is live on a connection.
    pub fn session_has_live_generation(&self, session: &RelaySessionKey, handle: TransportRelayHandle) -> (b: bool)
        ensures
            b == exists|k: RequestKey| #[trigger]
                self@.live.contains_key(k) && k.session == *session && self@.live[k].handle == handle,
    {
        let n = self.live.len();
        let ghost q = self.live.keys();
        let mut i: usize = 0;
        while i < n
            invariant
                i <= n,
                n == q.len(),
                q == self.live.keys(),
                is_listing(q, self.live@.dom()),
                forall|j: int|
                    0 <= j < i ==> !((#[trigger] q[j]).session == *session && self.live@[q[j]].handle == handle),
            decreases n - i,
        {
            let key = self.live.key_at(i);
            if same(&key.session, session) && self.live.value_at(i).handle == handle {
                assert(self@.live.contains_key(key));
                return true;
            }
            i = i + 1;
        }
        assert forall|k: RequestKey| #[trigger] self@.live.contains_key(k) implies !(k.session == *session
            && self@.live[k].handle == handle) by {
            assert(self.live@.dom().contains(k));
            let j = choose|j: int| 0 <= j < q.len() && q[j] == k;
            assert(q[j].session == k.session);
        }
        false
    }

    /// Takes the active requests that `pick` lists off the books.
    fn settle_all(&mut self, revisions: &Vec<u64>)
        requires
            old(self).wf(),
        ensures
            final(self).wf(),
            final(self)@ == (RequestsView {
                active: old(self)@.active.remove_keys(revisions@.to_set()),
                ..old(self)@
            }),
    {
        let ghost v = self@;
        let mut i: usize = 0;
        assert(v.active.remove_keys(revisions@.take(0).to_set()) =~= v.active);
        while i < revisions.len()
            invariant
                i <= revisions@.len(),
                self.wf(),
                self@ == (RequestsView {
                    active: v.active.remove_keys(revisions@.take(i as int).to_set()),
                    ..v
                }),
            decreases revisions@.len() - i,
        {
            let revision = revisions[i];
            proof {
                let done = revisions@.take(i as int);
                let next = revisions@.take(i + 1);
                assert(next =~= done.push(revision));
                lemma_push_contains(done, revision);
                assert forall|r: u64| next.to_set().contains(r) <==> done.to_set().contains(r) || r
                    == revision by {
                    assert(next.contains(r) <==> done.contains(r) || r == revision);
                }
                assert(v.active.remove_keys(done.to_set()).remove(revision) =~= v.active.remove_keys(
                    next.to_set(),
                ));
            }
            let _settled = self.take_active_request_evidence(revision);
            i = i + 1;
        }
        assert(revisions@.take(i as int) =~= revisions@);
    }

    /// Closes every request of one connection.
    pub fn close_requests_for_session(&mut self, session: &RelaySessionKey, handle: TransportRelayHandle)
        requires
            old(self).wf(),
        ensures
            final(self).wf(),
            final(self)@ == old(self)@.close_session(*session, handle),
    {
        let ghost v = self@;
        let ghost l0 = self.live@;
        let keys = self.live.key_list();
        let mut i: usize = 0;
        while i < keys.len()
            invariant
                i <= keys@.len(),
                is_listing(keys@, l0.dom()),
                self.wf(),
                self@ == (RequestsView { live: self.live@, ..v }),
                self.active == old(self).active,
                forall|k: RequestKey| #[trigger]
                    self.live@.contains_key(k) <==> l0.contains_key(k) && !(k.session == *session
                        && l0[k].handle == handle && keys@.take(i as int).contains(k)),
                forall|k: RequestKey| #[trigger] self.live@.contains_key(k) ==> self.live@[k] == l0[k],
            decreases keys@.len() - i,
        {
            let key = keys[i];
            let ghost before = self@;
            proof {
                assert(keys@.take(i + 1) =~= keys@.take(i as int).push(key));
                lemma_push_contains(keys@.take(i as int), key);
            }
            let mine = match self.live.get(&key) {
                Some(live) => same(&key.session, session) && live.handle == handle,
                None => false,
            };
            if mine {
                self.live.remove(&key);
                proof {
                    lemma_live_filed(before, self.live@);
                    assert(self@ == (RequestsView { live: self.live@, ..before }));
                }
            }
            i = i + 1;
        }
        proof {
            assert(keys@.take(i as int) =~= keys@);
            lemma_listing_members(keys@, l0.dom());
            let away = Set::new(
                |k: RequestKey| v.live.contains_key(k) && k.session == *session && v.live[k].handle == handle,
            );
            assert forall|k: RequestKey| self.live@.contains_key(k) <==> l0.remove_keys(away).contains_key(k) by {
                if l0.contains_key(k) {
                    assert(keys@.contains(k));
                }
            }
            assert(self.live@ =~= l0.remove_keys(away));
        }
        let n = self.active.len();
        let ghost q = self.active.keys();
        let mut picked: Vec<u64> = Vec::new();
        let mut j: usize = 0;
        while j < n
            invariant
                j <= n,
                n == q.len(),
                q == self.active.keys(),
                is_listing(q, self.active@.dom()),
                forall|r: u64| #[trigger]
                    picked@.contains(r) <==> q.take(j as int).contains(r) && self.active@[r].session
                        == *session && self.active@[r].handle == handle,
            decreases n - j,
        {
            let revision = self.active.key_at(j);
            let request = self.active.value_at(j);
            proof {
                assert(q.take(j + 1) =~= q.take(j as int).push(revision));
                lemma_push_contains(q.take(j as int), revision);
                lemma_push_contains(picked@, revision);
            }
            if same(&request.session, session) && request.handle == handle {
                picked.push(revision);
            }
            j = j + 1;
        }
        let ghost mid = self@;
        self.settle_all(&picked);
        proof {
            assert(q.take(j as int) =~= q);
            lemma_listing_members(q, old(self).active@.dom());
            let want = v.close_session(*session, handle);
            assert forall|r: u64| self@.active.contains_key(r) <==> want.active.contains_key(r) by {
                assert(picked@.to_set().contains(r) <==> picked@.contains(r));
                assert(mid.active.contains_key(r) <==> old(self).active@.contains_key(r));
                if old(self).active@.contains_key(r) {
                    assert(q.contains(r));
                }
            }
            assert(self@.active =~= want.active);
            assert(self@.live =~= want.live);
            assert(self@ == want);
        }
    }

    /// Closes the requests of one subscription on one connection.
    pub fn close_requests_for_sub(&mut self, key: &RequestKey, handle: TransportRelayHandle)
        requires
            old(self).wf(),
        ensures
            final(self).wf(),
            final(self)@ == old(self)@.close_sub(*key, handle),
    {
        let ghost v = self@;
        let mine = match self.live.get(key) {
            Some(live) => live.handle == handle,
            None => false,
        };
        if mine {
            self.live.remove(key);
        }
        assert(filed(self@)) by {
            assert(filed(v));
        }
        let revisions = self.revisions_by_sub.held(key);
        let list = revisions.list();
        let mut picked: Vec<u64> = Vec::new();
        let mut j: usize = 0;
        while j < list.len()
            invariant
                j <= list@.len(),
                is_listing(list@, revisions@),
                self.mirrored(),
                revisions@ == held_by(self.revisions_by_sub@, *key),
                forall|r: u64| #[trigger]
                    picked@.contains(r) <==> list@.take(j as int).contains(r) && self.active@.contains_key(r)
                        && self.active@[r].handle == handle,
            decreases list@.len() - j,
        {
            let revision = list[j];
            proof {
                assert(list@.take(j + 1) =~= list@.take(j as int).push(revision));
                lemma_push_contains(list@.take(j as int), revision);
                lemma_push_contains(picked@, revision);
            }
            let stale = match self.active.get(&revision) {
                Some(request) => request.handle == handle,
                None => false,
            };
            if stale {
                picked.push(revision);
            }
            j = j + 1;
        }
        let ghost mid = self@;
        let ghost mirror = active_mirror(self.active@);
        self.settle_all(&picked);
        proof {
            assert(list@.take(j as int) =~= list@);
            lemma_listing_members(list@, revisions@);
            let want = v.close_sub(*key, handle);
            assert forall|r: u64| self@.active.contains_key(r) <==> want.active.contains_key(r) by {
                assert(picked@.to_set().contains(r) <==> picked@.contains(r));
                assert(mid.active.contains_key(r) <==> old(self).active@.contains_key(r));
                assert(revisions@.contains(r) <==> mirror.contains(Pair(*key, r)));
                assert(list@.contains(r) <==> revisions@.contains(r));
            }
            assert(self@.active =~= want.active);
            assert(self@.live =~= want.live);
            assert(self@ == want);
        }
    }
}

/// What a plan change adds to one request.
pub struct RequestMetadataUpdate {
    pub session: RelaySessionKey,
    pub sub_id: SubId,
    pub filter_hash: FilterHash,
    pub added_coverage_claims: SortedSet<CoverageKey>,
    pub added_owner_demands: SortedSet<DemandKey>,
}

/// What a plan change takes from one request.
pub struct RequestMetadataRemoval {
    pub session: RelaySessionKey,
    pub sub_id: SubId,
    pub filter_hash: FilterHash,
    pub removed_coverage_claims: SortedSet<CoverageKey>,
    pub removed_owner_demands: SortedSet<DemandKey>,
}

/// One claim of a completed request.
#[derive(Clone, Copy, Debug, PartialEq, Eq, Structural)]
pub struct CompletedCoverageClaim {
    pub key: CoverageKey,
    pub interval: CoverageInterval,
}

/// What came of the end of a send.
pub struct CompletionEnd {
    /// The claims that stand written down. None where the end proves nothing.
    pub committed: Option<SortedSet<CoverageKey>>,
    /// Claims that waited before, and that the request now holds.
    pub retained: Option<SortedSet<CoverageKey>>,
}

/// The keys of a list of completed claims.
pub open spec fn claim_keys(q: Seq<CompletedCoverageClaim>) -> Set<CoverageKey> {
    Set::new(|k: CoverageKey| exists|i: int| 0 <= i < q.len() && (#[trigger] q[i]).key == k)
}

/// The keys that stand written down after a send has ended: none can be told where
/// the send is not to be believed, or where its claims could not be written down.
pub open spec fn committed(claims: Option<Vec<CompletedCoverageClaim>>, written: bool) -> Option<Set<CoverageKey>> {
    match claims {
        None => None,
        Some(q) => if q@.len() > 0 && !written {
            None
        } else {
            Some(claim_keys(q@))
        },
    }
}

/// What a set of keys holds, where there is one.
pub open spec fn committed_view(keys: Option<SortedSet<CoverageKey>>) -> Option<Set<CoverageKey>> {
    match keys {
        Some(k) => Some(k@),
        None => None,
    }
}

/// The keys that stand written down after a send has ended.
pub fn committed_keys(claims: &Option<Vec<CompletedCoverageClaim>>, written: bool) -> (r: Option<
    SortedSet<CoverageKey>,
>)
    ensures
        r is None <==> (claims is None || (claims->0@.len() > 0 && !written)),
        r matches Some(keys) ==> keys@ == claim_keys(claims->0@),
        committed_view(r) == committed(*claims, written),
{
    match claims {
        None => None,
        Some(q) => {
            if q.len() > 0 && !written {
                return None;
            }
            let mut keys: SortedSet<CoverageKey> = SortedSet::new();
            let mut i: usize = 0;
            while i < q.len()
                invariant
                    i <= q@.len(),
                    forall|k: CoverageKey| #[trigger]
                        keys@.contains(k) <==> exists|j: int| 0 <= j < i && (#[trigger] q@[j]).key == k,
                decreases q@.len() - i,
            {
                let ghost before = keys@;
                keys.insert(q[i].key);
                assert forall|k: CoverageKey| #[trigger] keys@.contains(k) <==> exists|j: int|
                    0 <= j < i + 1 && (#[trigger] q@[j]).key == k by {
                    if before.contains(k) {
                        let j = choose|j: int| 0 <= j < i && (#[trigger] q@[j]).key == k;
                        assert(q@[j].key == k);
                    } else if keys@.contains(k) {
                        assert(q@[i as int].key == k);
                    }
                }
                i = i + 1;
            }
            assert(keys@ =~= claim_keys(q@));
            Some(keys)
        },
    }
}

/// One claim as it is written down: for the session that has proved it.
#[derive(Clone, Copy, Debug, PartialEq, Eq, Structural)]
pub struct CoverageEntry {
    pub key: CoverageKey,
    pub session: RelaySessionKey,
    pub interval: CoverageInterval,
}

/// What is to be written down, all of it together, when a send has ended. A claim
/// is filed under the session of the subscription, identity and all. A send that is
/// not to be believed has nothing written down.
pub fn completion_batch(sub_id: &SubId, claims: &Option<Vec<CompletedCoverageClaim>>) -> (r: Vec<CoverageEntry>)
    ensures
        r@ == (match claims {
            None => Seq::<CoverageEntry>::empty(),
            Some(q) => Seq::new(
                q@.len(),
                |i: int|
                    CoverageEntry { key: q@[i].key, session: home(*sub_id), interval: q@[i].interval },
            ),
        }),
{
    let mut r: Vec<CoverageEntry> = Vec::new();
    if let Some(q) = claims {
        let mut i: usize = 0;
        while i < q.len()
            invariant
                i <= q@.len(),
                r@.len() == i,
                forall|j: int|
                    0 <= j < i ==> (#[trigger] r@[j]) == (CoverageEntry {
                        key: q@[j].key,
                        session: home(*sub_id),
                        interval: q@[j].interval,
                    }),
            decreases q@.len() - i,
        {
            r.push(CoverageEntry { key: q[i].key, session: home_of(sub_id), interval: q[i].interval });
            i = i + 1;
        }
        assert(r@ =~= Seq::new(
            q@.len(),
            |i: int| CoverageEntry { key: q@[i].key, session: home(*sub_id), interval: q@[i].interval },
        ));
    }
    r
}

/// Some completed claim covers all that one waiting claim is about.
pub open spec fn covered(q: Seq<CompletedCoverageClaim>, key: CoverageKey, interval: CoverageInterval) -> bool {
    exists|i: int|
        0 <= i < q.len() && (#[trigger] q[i]).key == key && q[i].interval.from <= interval.from
            && q[i].interval.through >= interval.through
}

impl RequestsView {
    /// The plan says more of a request, where it still has the same filter.
    pub open spec fn extend_metadata(
        self,
        sub_id: SubId,
        hash: FilterHash,
        claims: Set<CoverageKey>,
        demands: Set<DemandKey>,
    ) -> RequestsView {
        if self.metadata.contains_key(sub_id) && self.metadata[sub_id].filter.hash == hash {
            RequestsView {
                metadata: self.metadata.insert(
                    sub_id,
                    MetadataView {
                        coverage_claims: self.metadata[sub_id].coverage_claims.union(claims),
                        owner_demands: self.metadata[sub_id].owner_demands.union(demands),
                        ..self.metadata[sub_id]
                    },
                ),
                ..self
            }
        } else {
            self
        }
    }

    /// The plan says less of a request, where it still has the same filter.
    pub open spec fn reduce_metadata(
        self,
        sub_id: SubId,
        hash: FilterHash,
        claims: Set<CoverageKey>,
        demands: Set<DemandKey>,
    ) -> RequestsView {
        if self.metadata.contains_key(sub_id) && self.metadata[sub_id].filter.hash == hash {
            RequestsView {
                metadata: self.metadata.insert(
                    sub_id,
                    MetadataView {
                        coverage_claims: self.metadata[sub_id].coverage_claims.difference(claims),
                        owner_demands: self.metadata[sub_id].owner_demands.difference(demands),
                        ..self.metadata[sub_id]
                    },
                ),
                ..self
            }
        } else {
            self
        }
    }

    /// The finished send of a live request with a given unlimited filter, and
    /// the span that was written down for it.
    pub open spec fn finished_span(self, key: RequestKey, hash: FilterHash) -> Option<(u64, CoverageInterval)> {
        if self.live.contains_key(key) && self.live[key].filter.hash == hash
            && self.live[key].filter.limit is None {
            match self.live[key].stored_events {
                StoredEvents::Finished { request_revision, committed_interval: Some(interval) } => Some(
                    (request_revision, interval),
                ),
                _ => None,
            }
        } else {
            None
        }
    }

    /// Whether claims that were added to a request can still be written down
    /// for its finished send.
    pub open spec fn transferable(
        self,
        key: RequestKey,
        hash: FilterHash,
        had_previous: bool,
        added: Set<CoverageKey>,
        shaped: bool,
    ) -> bool {
        &&& had_previous
        &&& added != Set::<CoverageKey>::empty()
        &&& self.finished_span(key, hash) is Some
        &&& shaped
        &&& self.transfers.contains_key(key) ==> self.transfers[key].filter_hash == hash
    }

    /// Claims added to a finished request wait to be written down, together
    /// with those that already wait.
    pub open spec fn offer_transfer(
        self,
        key: RequestKey,
        hash: FilterHash,
        had_previous: bool,
        added: Set<CoverageKey>,
        shaped: bool,
        now: u64,
    ) -> RequestsView {
        if self.transferable(key, hash, had_previous, added, shaped) {
            let (revision, interval) = self.finished_span(key, hash)->0;
            RequestsView {
                transfers: self.transfers.insert(
                    key,
                    if self.transfers.contains_key(key) {
                        TransferView {
                            request_revision: revision,
                            interval,
                            claims: self.transfers[key].claims.union(added),
                            ..self.transfers[key]
                        }
                    } else {
                        TransferView {
                            session: key.session,
                            sub_id: key.sub_id,
                            request_revision: revision,
                            filter_hash: hash,
                            interval,
                            claims: added,
                            due: now,
                            failures: 0,
                        }
                    },
                ),
                ..self
            }
        } else {
            self
        }
    }

    /// A failed write waits for its next turn.
    pub open spec fn transfer_failed(self, key: RequestKey, now: u64) -> RequestsView {
        if self.transfers.contains_key(key) {
            let t = self.transfers[key];
            let failures = capped(t.failures + 1, u32::MAX as int) as u32;
            RequestsView {
                transfers: self.transfers.insert(
                    key,
                    TransferView {
                        failures,
                        due: capped(now + backoff_secs(failures as nat), u64::MAX as int) as u64,
                        ..t
                    },
                ),
                ..self
            }
        } else {
            self
        }
    }

    /// The request that claims wait for still stands as it did.
    pub open spec fn transfer_current(self, key: RequestKey) -> bool {
        let t = self.transfers[key];
        &&& self.transfers.contains_key(key)
        &&& self.live.contains_key(key)
        &&& self.live[key].filter.hash == t.filter_hash
        &&& self.live[key].stored_events matches StoredEvents::Finished { request_revision, .. }
            && request_revision == t.request_revision
    }

    /// A later send of the same filter covers all that waits.
    pub open spec fn superseded(
        self,
        key: RequestKey,
        revision: u64,
        hash: FilterHash,
        claims: Seq<CompletedCoverageClaim>,
    ) -> bool {
        let t = self.transfers[key];
        &&& self.transfers.contains_key(key)
        &&& t.filter_hash == hash
        &&& revision > t.request_revision
        &&& forall|c: CoverageKey| #[trigger] t.claims.contains(c) ==> covered(claims, c, t.interval)
    }

    /// What a send has completed has been written down. A send that completes no
    /// claim leaves everything as it is.
    pub open spec fn complete_send(
        self,
        key: RequestKey,
        revision: u64,
        hash: FilterHash,
        interval: Option<CoverageInterval>,
        claims: Seq<CompletedCoverageClaim>,
    ) -> RequestsView {
        if claims.len() == 0 {
            self
        } else {
            self.keep_completion(key, revision, hash, interval, claims)
        }
    }

    /// Claims that waited for an earlier send of the same filter and that are
    /// covered now no longer wait, and the live request remembers the span.
    pub open spec fn keep_completion(
        self,
        key: RequestKey,
        revision: u64,
        hash: FilterHash,
        interval: Option<CoverageInterval>,
        claims: Seq<CompletedCoverageClaim>,
    ) -> RequestsView {
        RequestsView {
            transfers: if self.superseded(key, revision, hash, claims) {
                self.transfers.remove(key)
            } else {
                self.transfers
            },
            live: if self.live.contains_key(key) {
                match self.live[key].stored_events {
                    StoredEvents::Streaming { request_revision, .. } => if request_revision == revision {
                        self.live.insert(
                            key,
                            LiveWireRequest {
                                stored_events: StoredEvents::Streaming {
                                    request_revision,
                                    committed_interval: interval,
                                },
                                ..self.live[key]
                            },
                        )
                    } else {
                        self.live
                    },
                    StoredEvents::Finished { .. } => self.live,
                }
            } else {
                self.live
            },
            ..self
        }
    }
}

proof fn lemma_transfers_filed(v: RequestsView, key: RequestKey, t: TransferView)
    requires
        filed(v),
        t.session == key.session,
        t.sub_id == key.sub_id,
    ensures
        filed(RequestsView { transfers: v.transfers.insert(key, t), ..v }),
{
    let w = RequestsView { transfers: v.transfers.insert(key, t), ..v };
    assert forall|k: RequestKey| #[trigger] w.transfers.contains_key(k) implies w.transfers[k].session
        == k.session && w.transfers[k].sub_id == k.sub_id by {
        if k != key {
            assert(v.transfers.contains_key(k));
        }
    }
}

/// Whether a completed claim covers all that one waiting claim is about.
fn is_covered(q: &Vec<CompletedCoverageClaim>, key: &CoverageKey, interval: CoverageInterval) -> (b: bool)
    ensures
        b == covered(q@, *key, interval),
{
    let mut i: usize = 0;
    while i < q.len()
        invariant
            i <= q@.len(),
            forall|j: int|
                0 <= j < i ==> !((#[trigger] q@[j]).key == *key && q@[j].interval.from <= interval.from
                    && q@[j].interval.through >= interval.through),
        decreases q@.len() - i,
    {
        let claim = q[i];
        if same(&claim.key, key) && claim.interval.from <= interval.from && claim.interval.through
            >= interval.through {
            assert(q@[i as int].key == *key);
            return true;
        }
        i = i + 1;
    }
    false
}

impl Requests {
    /// Takes on what a plan change adds to a request.
    pub fn extend_plan_execution_metadata(&mut self, update: &RequestMetadataUpdate)
        requires
            old(self).wf(),
        ensures
            final(self).wf(),
            final(self)@ == old(self)@.extend_metadata(
                update.sub_id,
                update.filter_hash,
                update.added_coverage_claims@,
                update.added_owner_demands@,
            ),
    {
        if let Some(metadata) = self.metadata.get_mut(&update.sub_id) {
            if metadata.filter.hash == update.filter_hash {
                metadata.coverage_claims.extend(&update.added_coverage_claims);
                metadata.owner_demands.extend(&update.added_owner_demands);
            }
        }
        proof {
            let want = old(self)@.extend_metadata(
                update.sub_id,
                update.filter_hash,
                update.added_coverage_claims@,
                update.added_owner_demands@,
            );
            assert(self@.metadata =~= want.metadata);
            assert(self@ == want);
            assert(filed(old(self)@));
        }
    }

    /// Takes on what a plan change adds to a request: its plan record, and the
    /// current request's demands. The claims of its current send are extended
    /// by the caller.
    pub fn apply_request_metadata_update(&mut self, update: &RequestMetadataUpdate)
        requires
            old(self).wf(),
        ensures
            final(self).wf(),
            final(self)@ == old(self)@.extend_metadata(
                update.sub_id,
                update.filter_hash,
                update.added_coverage_claims@,
                update.added_owner_demands@,
            ).edit_owners(
                RequestKey { session: update.session, sub_id: update.sub_id },
                update.filter_hash,
                update.added_owner_demands@,
                true,
            ),
    {
        self.extend_plan_execution_metadata(update);
        let key = RequestKey { session: update.session, sub_id: update.sub_id };
        self.extend_current_request_owner_demands(&key, update.filter_hash, &update.added_owner_demands);
    }

    /// Takes away what a plan change takes from a request. `physical` are the
    /// claims that the relay still serves for it; the others are given back, to
    /// be released.
    pub fn apply_request_metadata_removal(
        &mut self,
        removal: &RequestMetadataRemoval,
        physical: &SortedSet<CoverageKey>,
    ) -> (detachable: SortedSet<CoverageKey>)
        requires
            old(self).wf(),
        ensures
            final(self).wf(),
            detachable@ == removal.removed_coverage_claims@.difference(physical@),
            final(self)@ == old(self)@.reduce_metadata(
                removal.sub_id,
                removal.filter_hash,
                removal.removed_coverage_claims@,
                removal.removed_owner_demands@,
            ).edit_owners(
                RequestKey { session: removal.session, sub_id: removal.sub_id },
                removal.filter_hash,
                removal.removed_owner_demands@,
                false,
            ),
    {
        let detachable = claims_without(&removal.removed_coverage_claims, physical);
        if let Some(metadata) = self.metadata.get_mut(&removal.sub_id) {
            if metadata.filter.hash == removal.filter_hash {
                metadata.coverage_claims = claims_without(
                    &metadata.coverage_claims,
                    &removal.removed_coverage_claims,
                );
                metadata.owner_demands = without(
                    &metadata.owner_demands,
                    &removal.removed_owner_demands,
                );
            }
        }
        proof {
            let want = old(self)@.reduce_metadata(
                removal.sub_id,
                removal.filter_hash,
                removal.removed_coverage_claims@,
                removal.removed_owner_demands@,
            );
            assert(self@.metadata =~= want.metadata);
            assert(self@ == want);
            assert(filed(old(self)@));
        }
        let key = RequestKey { session: removal.session, sub_id: removal.sub_id };
        self.remove_current_request_owner_demands(
            &key,
            removal.filter_hash,
            &removal.removed_owner_demands,
        );
        detachable
    }

    /// Claims were added to a request that has no current send: where its last
    /// send has finished, they wait to be written down for it. `shaped` says
    /// whether the caller knows what every added claim stands for. Says whether
    /// the write is due now.
    pub fn transfer_finished_request_claims(
        &mut self,
        key: &RequestKey,
        filter_hash: FilterHash,
        had_previous_claims: bool,
        added: &SortedSet<CoverageKey>,
        shaped: bool,
        now: u64,
    ) -> (due: bool)
        requires
            old(self).wf(),
        ensures
            final(self).wf(),
            final(self)@ == old(self)@.offer_transfer(
                *key,
                filter_hash,
                had_previous_claims,
                added@,
                shaped,
                now,
            ),
            due == (old(self)@.transferable(*key, filter_hash, had_previous_claims, added@, shaped)
                && final(self)@.transfers[*key].due <= now),
    {
        let ghost v = self@;
        if !had_previous_claims || added.is_empty() {
            return false;
        }
        let (request_revision, interval) = match self.live.get(key) {
            None => {
                return false;
            },
            Some(live) => {
                if live.filter.hash != filter_hash || live.filter.limit.is_some() {
                    return false;
                }
                match live.stored_events {
                    StoredEvents::Finished { request_revision, committed_interval: Some(interval) } => (
                        request_revision,
                        interval,
                    ),
                    _ => {
                        return false;
                    },
                }
            },
        };
        if !shaped {
            return false;
        }
        let ghost want = v.offer_transfer(*key, filter_hash, had_previous_claims, added@, shaped, now);
        match self.transfers.remove(key) {
            Some(pending) => {
                if pending.filter_hash != filter_hash {
                    self.transfers.insert(*key, pending);
                    proof {
                        assert(self@.transfers =~= v.transfers);
                        assert(self@ == v);
                    }
                    return false;
                }
                let ghost t = pending@;
                let due = pending.due;
                let mut claims = pending.claims;
                claims.extend(added);
                self.transfers.insert(
                    *key,
                    PendingRequestClaimTransfer {
                        session: pending.session,
                        sub_id: pending.sub_id,
                        request_revision,
                        filter_hash: pending.filter_hash,
                        interval,
                        claims,
                        due,
                        failures: pending.failures,
                    },
                );
                proof {
                    assert(v.transfers.contains_key(*key));
                    assert(self@.transfers =~= want.transfers);
                    assert(self@ == want);
                    lemma_transfers_filed(v, *key, want.transfers[*key]);
                }
                due <= now
            },
            None => {
                self.transfers.insert(
                    *key,
                    PendingRequestClaimTransfer {
                        session: key.session,
                        sub_id: key.sub_id,
                        request_revision,
                        filter_hash,
                        interval,
                        claims: added.copy(),
                        due: now,
                        failures: 0,
                    },
                );
                proof {
                    assert(self@.transfers =~= want.transfers);
                    assert(self@ == want);
                    lemma_transfers_filed(v, *key, want.transfers[*key]);
                }
                true
            },
        }
    }

    /// What is to be written down for the claims that wait for one request.
    pub fn claim_transfer_batch(&self, key: &RequestKey) -> (r: Option<(SortedSet<CoverageKey>, CoverageInterval)>)
        ensures
            match r {
                Some((claims, interval)) => self@.transfers.contains_key(*key) && claims@
                    == self@.transfers[*key].claims && interval == self@.transfers[*key].interval,
                None => !self@.transfers.contains_key(*key),
            },
    {
        match self.transfers.get(key) {
            Some(pending) => Some((pending.claims.copy(), pending.interval)),
            None => None,
        }
    }

    /// The claims that wait for one request could not be written down: they
    /// wait for their next turn.
    pub fn claim_transfer_failed(&mut self, key: &RequestKey, now: u64)
        requires
            old(self).wf(),
        ensures
            final(self).wf(),
            final(self)@ == old(self)@.transfer_failed(*key, now),
    {
        let ghost v = self@;
        if let Some(pending) = self.transfers.get_mut(key) {
            let failures = pending.failures.saturating_add(1);
            pending.failures = failures;
            pending.due = now.saturating_add(crate::retry::unjittered_retry_delay_secs(failures));
        }
        proof {
            let want = v.transfer_failed(*key, now);
            assert(self@.transfers =~= want.transfers);
            assert(self@ == want);
            if v.transfers.contains_key(*key) {
                lemma_transfers_filed(v, *key, want.transfers[*key]);
            }
        }
    }

    /// The claims that wait for one request have been written down. Gives back
    /// the claims, and whether the request still stands, so that it now holds
    /// them.
    pub fn claim_transfer_committed(&mut self, key: &RequestKey) -> (r: (SortedSet<CoverageKey>, bool))
        requires
            old(self).wf(),
        ensures
            final(self).wf(),
            final(self)@ == old(self)@.drop_transfer(*key),
            r.0@ == (if old(self)@.transfers.contains_key(*key) {
                old(self)@.transfers[*key].claims
            } else {
                Set::<CoverageKey>::empty()
            }),
            r.1 == old(self)@.transfer_current(*key),
    {
        let ghost v = self@;
        let taken = self.transfers.remove(key);
        proof {
            assert(self@.transfers =~= v.drop_transfer(*key).transfers);
            assert(self@ == v.drop_transfer(*key));
            lemma_drop_transfer_filed(v, *key);
        }
        match taken {
            None => (SortedSet::new(), false),
            Some(pending) => {
                let current = match self.live.get(key) {
                    Some(live) => live.filter.hash == pending.filter_hash && match live.stored_events {
                        StoredEvents::Finished { request_revision, .. } => request_revision
                            == pending.request_revision,
                        StoredEvents::Streaming { .. } => false,
                    },
                    None => false,
                };
                (pending.claims, current)
            },
        }
    }

    /// The requests whose waiting claims are due, in rising order.
    pub fn due_claim_transfers(&self, now: u64) -> (out: Vec<RequestKey>)
        ensures
            is_listing(
                out@,
                Set::new(
                    |k: RequestKey| self@.transfers.contains_key(k) && self@.transfers[k].due <= now,
                ),
            ),
    {
        let n = self.transfers.len();
        let ghost q = self.transfers.keys();
        let mut r: SortedSet<RequestKey> = SortedSet::new();
        let mut i: usize = 0;
        while i < n
            invariant
                i <= n,
                n == q.len(),
                q == self.transfers.keys(),
                is_listing(q, self.transfers@.dom()),
                forall|k: RequestKey| #[trigger]
                    r@.contains(k) <==> q.take(i as int).contains(k) && self.transfers@[k].due <= now,
            decreases n - i,
        {
            let key = self.transfers.key_at(i);
            proof {
                assert(q.take(i + 1) =~= q.take(i as int).push(key));
                lemma_push_contains(q.take(i as int), key);
            }
            if self.transfers.value_at(i).due <= now {
                r.insert(key);
            }
            i = i + 1;
        }
        proof {
            assert(q.take(i as int) =~= q);
            lemma_listing_members(q, self.transfers@.dom());
            let want = Set::new(
                |k: RequestKey| self@.transfers.contains_key(k) && self@.transfers[k].due <= now,
            );
            assert forall|k: RequestKey| r@.contains(k) <==> want.contains(k) by {
                assert(self@.transfers.contains_key(k) <==> self.transfers@.contains_key(k));
            }
            assert(r@ =~= want);
        }
        r.list()
    }

    /// A send has ended. `claims` are those that it has completed, or none where it
    /// is not to be believed; `written` says whether they have been written down,
    /// all of them together, which is asked only where there are any. Nothing
    /// changes, and no claim is told, before they have been. Gives back the claims
    /// that stand written down, or none where the end proves nothing. Gives back
    /// besides the claims that waited for an earlier send and are covered now, where
    /// the request still streams for this send, so that it now holds them.
    pub fn persist_attributed_completion(
        &mut self,
        sub_id: &SubId,
        revision: u64,
        filter_hash: FilterHash,
        committed_interval: Option<CoverageInterval>,
        claims: &Option<Vec<CompletedCoverageClaim>>,
        written: bool,
    ) -> (r: CompletionEnd)
        requires
            old(self).wf(),
        ensures
            final(self).wf(),
            committed_view(r.committed) == committed(*claims, written),
            match claims {
                Some(q) if q@.len() > 0 && written => {
                    &&& final(self)@ == old(self)@.complete_send(
                        home_key(*sub_id),
                        revision,
                        filter_hash,
                        committed_interval,
                        q@,
                    )
                    &&& match r.retained {
                        Some(held) => {
                            &&& old(self)@.superseded(home_key(*sub_id), revision, filter_hash, q@)
                            &&& streaming(old(self)@.live, home_key(*sub_id), filter_hash) == Some(revision)
                            &&& held@ == old(self)@.transfers[home_key(*sub_id)].claims
                        },
                        None => !(old(self)@.superseded(home_key(*sub_id), revision, filter_hash, q@)
                            && streaming(old(self)@.live, home_key(*sub_id), filter_hash) == Some(revision)),
                    }
                },
                _ => final(self)@ == old(self)@ && r.retained is None,
            },
    {
        let told = committed_keys(claims, written);
        let retained = match claims {
            Some(q) => if q.len() > 0 && written {
                self.keep_completed(sub_id, revision, filter_hash, committed_interval, q)
            } else {
                None
            },
            None => None,
        };
        CompletionEnd { committed: told, retained }
    }

    fn keep_completed(
        &mut self,
        sub_id: &SubId,
        revision: u64,
        filter_hash: FilterHash,
        committed_interval: Option<CoverageInterval>,
        claims: &Vec<CompletedCoverageClaim>,
    ) -> (retained: Option<SortedSet<CoverageKey>>)
        requires
            old(self).wf(),
        ensures
            final(self).wf(),
            final(self)@ == old(self)@.keep_completion(
                home_key(*sub_id),
                revision,
                filter_hash,
                committed_interval,
                claims@,
            ),
            match retained {
                Some(held) => {
                    &&& old(self)@.superseded(home_key(*sub_id), revision, filter_hash, claims@)
                    &&& streaming(old(self)@.live, home_key(*sub_id), filter_hash) == Some(revision)
                    &&& held@ == old(self)@.transfers[home_key(*sub_id)].claims
                },
                None => !(old(self)@.superseded(home_key(*sub_id), revision, filter_hash, claims@)
                    && streaming(old(self)@.live, home_key(*sub_id), filter_hash) == Some(revision)),
            },
    {
        let ghost v = self@;
        let key = RequestKey { session: home_of(sub_id), sub_id: *sub_id };
        let covers = match self.transfers.get(&key) {
            None => false,
            Some(pending) => {
                let all = all_covered(&pending.claims, pending.interval, claims);
                proof {
                    let t = v.transfers[key];
                    assert(t == pending@);
                    assert(t.claims == pending.claims@ && t.interval == pending.interval);
                    if all {
                        assert forall|c: CoverageKey| #[trigger] t.claims.contains(c) implies covered(
                            claims@,
                            c,
                            t.interval,
                        ) by {
                            assert(pending.claims@.contains(c));
                        }
                    } else {
                        let c = choose|c: CoverageKey| #[trigger]
                            pending.claims@.contains(c) && !covered(claims@, c, pending.interval);
                        assert(t.claims.contains(c) && !covered(claims@, c, t.interval));
                    }
                }
                all && pending.filter_hash == filter_hash && revision > pending.request_revision
            },
        };
        proof {
            assert(v.transfers.contains_key(key) == self.transfers@.contains_key(key));
            assert(covers == v.superseded(key, revision, filter_hash, claims@));
        }
        let mut retained: Option<SortedSet<CoverageKey>> = None;
        if covers {
            let taken = self.transfers.remove(&key);
            let current = match self.live.get(&key) {
                Some(live) => live.filter.hash == filter_hash && match live.stored_events {
                    StoredEvents::Streaming { request_revision, .. } => request_revision == revision,
                    StoredEvents::Finished { .. } => false,
                },
                None => false,
            };
            if current {
                if let Some(pending) = taken {
                    retained = Some(pending.claims);
                }
            }
        }
        if let Some(live) = self.live.get_mut(&key) {
            if let StoredEvents::Streaming { request_revision, .. } = live.stored_events {
                if request_revision == revision {
                    live.stored_events = StoredEvents::Streaming { request_revision, committed_interval };
                }
            }
        }
        proof {
            let want = v.keep_completion(key, revision, filter_hash, committed_interval, claims@);
            assert(self@.transfers =~= want.transfers);
            assert(self@.live =~= want.live);
            assert(self@ == want);
            lemma_drop_transfer_filed(v, key);
        }
        retained
    }

    /// A retry that is due and still wanted, with what its plan has gained
    /// meanwhile. A retry that is no longer wanted is dropped. `roles` says which
    /// subscriptions play a part for the plan of another.
    pub fn take_due_retry(&mut self, key: &RequestKey, roles: &SortedMap<SubId, RoleOf>) -> (r: Option<
        PendingRequestRetry,
    >)
        requires
            old(self).wf(),
        ensures
            final(self).wf(),
            final(self)@ == (RequestsView {
                retries: old(self)@.retries.remove(*key),
                ..old(self)@
            }),
            match r {
                Some(retry) => {
                    &&& old(self)@.retries.contains_key(*key)
                    &&& retry@ == (RetryView {
                        attempt: old(self)@.due_attempt(roles@, *key),
                        ..old(self)@.retries[*key]
                    })
                    &&& old(self)@.retry_is_current(roles@, *key)
                    &&& retry.attempt.key() == *key
                },
                None => !(old(self)@.retries.contains_key(*key) && old(self)@.retry_is_current(
                    roles@,
                    *key,
                )),
            },
    {
        let ghost v = self@;
        let taken = self.attempts.take_retry(key);
        proof {
            assert(self@.retries =~= v.retries.remove(*key));
            assert(self@.attempts =~= v.attempts);
            let w = RequestsView { retries: v.retries.remove(*key), ..v };
            assert(self@ == w);
            assert forall|k: RequestKey| #[trigger] w.retries.contains_key(k) implies k == home_key(k.sub_id) by {
                assert(v.retries.contains_key(k));
            }
        }
        match taken {
            None => None,
            Some(retry) => {
                assert(old(self).attempts.retries().contains_key(*key));
                let ghost parked = retry@;
                assert(parked == v.retries[*key]);
                let mut retry = retry;
                let role = match roles.get(&retry.attempt.sub_id) {
                    Some(role) => *role,
                    None => RoleOf {
                        plan: retry.attempt.sub_id,
                        filter: Some(retry.attempt.filter),
                        follows: true,
                    },
                };
                assert(role == role_in(roles@, parked.attempt));
                match self.metadata.get(&role.plan) {
                    None => None,
                    Some(metadata) => {
                        assert(v.metadata.contains_key(role.plan));
                        let current = match role.filter {
                            Some(filter) => metadata.filter == filter,
                            None => true,
                        };
                        if !current {
                            return None;
                        }
                        if role.follows {
                            retry.attempt.coverage_claims.extend(&metadata.coverage_claims);
                            retry.attempt.owner_demands.extend(&metadata.owner_demands);
                        }
                        assert(retry@.attempt == v.due_attempt(roles@, *key));
                        Some(retry)
                    },
                }
            },
        }
    }

    /// Sends a due retry again, under a new attempt that carries its failures.
    pub fn resend(&mut self, retry: PendingRequestRetry, revision: u64) -> (id: RequestAttemptId)
        requires
            old(self).wf(),
            old(self)@.next_id is Some,
            retry.attempt.session == home(retry.attempt.sub_id),
        ensures
            final(self).wf(),
            Some(id.0) == old(self)@.next_id,
            ({
                let sent = old(self)@.record(
                    SendView {
                        session: retry.attempt.session,
                        sub_id: retry.attempt.sub_id,
                        filter: retry.attempt.filter,
                        coverage_claims: retry.attempt.coverage_claims@,
                        owner_demands: retry.attempt.owner_demands@,
                    },
                    revision,
                );
                final(self)@ == (RequestsView {
                    attempts: sent.attempts.insert(
                        id,
                        AttemptView { retry_failures: retry.failures, ..sent.attempts[id] },
                    ),
                    ..sent
                })
            }),
    {
        let attempt = retry.attempt;
        let id = self.record_observed_request(
            RequestSend {
                session: attempt.session,
                sub_id: attempt.sub_id,
                filter: attempt.filter,
                coverage_claims: attempt.coverage_claims,
                owner_demands: attempt.owner_demands,
            },
            revision,
        );
        let ghost sent = self@;
        proof {
            assert(sent.attempts.contains_key(id));
            assert(self.attempts.attempts().contains_key(id));
        }
        self.attempts.set_retry_failures(&id, retry.failures);
        proof {
            let want = RequestsView {
                attempts: sent.attempts.insert(
                    id,
                    AttemptView { retry_failures: retry.failures, ..sent.attempts[id] },
                ),
                ..sent
            };
            assert(self@.attempts =~= want.attempts);
            assert(self@.retries =~= want.retries);
            assert(self@ == want);
            assert forall|a: RequestAttemptId| #[trigger] want.attempts.contains_key(a) implies want.attempts[a].session
                == home(want.attempts[a].sub_id) by {
                assert(sent.attempts.contains_key(a));
            }
        }
        id
    }

    /// The number of the next attempt. None once every number is spent.
    pub fn next_attempt(&self) -> (r: Option<u64>)
        ensures
            r == self@.next_id,
    {
        self.attempts.next_attempt()
    }

    /// The retries that are due, in rising order.
    pub fn due_retry_keys(&self, now: u64) -> (out: Vec<RequestKey>)
        ensures
            is_listing(
                out@,
                Set::new(|k: RequestKey| self@.retries.contains_key(k) && self@.retries[k].due <= now),
            ),
    {
        let out = self.attempts.due_retry_keys(now);
        assert(self.attempts.due_at(now) =~= Set::new(
            |k: RequestKey| self@.retries.contains_key(k) && self@.retries[k].due <= now,
        ));
        out
    }

    /// The earliest time at which a retry is due.
    pub fn next_retry_due(&self) -> (r: Option<u64>)
        ensures
            match r {
                Some(due) => {
                    &&& exists|k: RequestKey| #[trigger]
                        self@.retries.contains_key(k) && self@.retries[k].due == due
                    &&& forall|k: RequestKey| #[trigger]
                        self@.retries.contains_key(k) ==> due <= self@.retries[k].due
                },
                None => self@.retries == Map::<RequestKey, RetryView>::empty(),
            },
    {
        let r = self.attempts.next_retry_due();
        proof {
            match r {
                Some(due) => {
                    let k = choose|k: RequestKey| #[trigger]
                        self.attempts.retries().contains_key(k) && self.attempts.retries()[k].due == due;
                    assert(self@.retries.contains_key(k));
                    assert forall|k: RequestKey| #[trigger] self@.retries.contains_key(k) implies due
                        <= self@.retries[k].due by {
                        assert(self.attempts.retries().contains_key(k));
                    }
                },
                None => {
                    assert(self@.retries =~= Map::<RequestKey, RetryView>::empty());
                },
            }
        }
        r
    }
}

impl RequestsView {
    /// The plan that a parked retry is for still stands, with the filter that it
    /// had.
    pub open spec fn retry_is_current(self, roles: Map<SubId, RoleOf>, key: RequestKey) -> bool {
        let role = role_in(roles, self.retries[key].attempt);
        self.metadata.contains_key(role.plan) && (role.filter matches Some(f) ==> self.metadata[role.plan].filter
            == f)
    }

    /// What a parked retry asks for once it is due: what it had, and what its plan
    /// has gained meanwhile, where it follows the plan.
    pub open spec fn due_attempt(self, roles: Map<SubId, RoleOf>, key: RequestKey) -> AttemptView {
        let a = self.retries[key].attempt;
        let role = role_in(roles, a);
        with_gain(a, self.metadata[role.plan], role.follows)
    }
}

/// Whether every waiting claim is covered by a completed one.
fn all_covered(
    claims: &SortedSet<CoverageKey>,
    interval: CoverageInterval,
    completed: &Vec<CompletedCoverageClaim>,
) -> (b: bool)
    ensures
        b == forall|c: CoverageKey| #[trigger] claims@.contains(c) ==> covered(completed@, c, interval),
{
    let list = claims.list();
    let mut i: usize = 0;
    while i < list.len()
        invariant
            i <= list@.len(),
            is_listing(list@, claims@),
            forall|j: int| 0 <= j < i ==> covered(completed@, #[trigger] list@[j], interval),
        decreases list@.len() - i,
    {
        let claim = list[i];
        if !is_covered(completed, &claim, interval) {
            assert(claims@.contains(list@[i as int]));
            return false;
        }
        i = i + 1;
    }
    assert forall|c: CoverageKey| #[trigger] claims@.contains(c) implies covered(completed@, c, interval) by {
        let j = choose|j: int| 0 <= j < list@.len() && list@[j] == c;
        assert(list@.contains(c));
        assert(covered(completed@, list@[j], interval));
    }
    true
}

/// The attempt that was sent last with one filter.
pub open spec fn latest_attempt(q: Seq<PendingView>, hash: FilterHash) -> Option<RequestAttemptId>
    decreases q.len(),
{
    if q.len() == 0 {
        None
    } else if q.last().filter.hash == hash {
        Some(q.last().attempt_id)
    } else {
        latest_attempt(q.drop_last(), hash)
    }
}

impl RequestsView {
    /// The replacements of one session are given up, one after the other: what
    /// is kept for their predecessors goes.
    pub open spec fn give_up_predecessors(self, session: RelaySessionKey, priors: Seq<SubId>) -> RequestsView
        decreases priors.len(),
    {
        if priors.len() == 0 {
            self
        } else {
            let before = self.give_up_predecessors(session, priors.drop_last());
            before.retire_metadata(priors.last()).drop_transfer(
                RequestKey { session, sub_id: priors.last() },
            )
        }
    }

    /// The predecessors of the replacements of one session, in the order of the
    /// successors.
    pub open spec fn predecessors_on(self, session: RelaySessionKey) -> Seq<SubId> {
        let successors = listing_of(successors_on(self.replacements, session));
        Seq::new(successors.len(), |i: int| self.replacements[successors[i]].prior_sub_id)
    }

    pub open spec fn abandon_replacements(self, session: RelaySessionKey) -> RequestsView {
        RequestsView {
            replacements: self.replacements.remove_keys(successors_on(self.replacements, session)),
            ..self
        }.give_up_predecessors(session, self.predecessors_on(session))
    }
}

/// How much is kept of the requests.
#[derive(Clone, Copy, Debug, PartialEq, Eq, Structural)]
pub struct RequestCounts {
    pub awaiting_handoff: usize,
    pub awaiting_stored_events: usize,
    pub live: usize,
    pub replacements: usize,
    pub claim_transfers: usize,
}

impl Requests {
    /// The attempt that a request on the wire belongs to: the last one sent with
    /// its filter that awaits its result.
    pub fn attempt_for(&self, key: &RequestKey, hash: FilterHash) -> (r: Option<RequestAttemptId>)
        ensures
            r == latest_attempt(queue_at(self@.pending, *key), hash),
    {
        match self.pending.get(key) {
            None => None,
            Some(queue) => {
                let ghost all = queue_view(queue@);
                assert(all == queue_at(self@.pending, *key));
                let mut i: usize = queue.len();
                assert(all.take(i as int) =~= all);
                while i > 0
                    invariant
                        i <= queue@.len(),
                        all == queue_view(queue@),
                        all == queue_at(self@.pending, *key),
                        latest_attempt(all, hash) == latest_attempt(all.take(i as int), hash),
                    decreases i,
                {
                    i = i - 1;
                    proof {
                        assert(all.take(i + 1).drop_last() =~= all.take(i as int));
                        assert(all.take(i + 1).last() == queue@[i as int]@);
                    }
                    if queue[i].filter.hash == hash {
                        return Some(queue[i].attempt_id);
                    }
                }
                None
            },
        }
    }

    /// The earliest time at which claims that wait are due.
    pub fn next_transfer_due(&self) -> (r: Option<u64>)
        ensures
            match r {
                Some(due) => {
                    &&& exists|k: RequestKey| #[trigger]
                        self@.transfers.contains_key(k) && self@.transfers[k].due == due
                    &&& forall|k: RequestKey| #[trigger]
                        self@.transfers.contains_key(k) ==> due <= self@.transfers[k].due
                },
                None => self@.transfers == Map::<RequestKey, TransferView>::empty(),
            },
    {
        let n = self.transfers.len();
        let ghost q = self.transfers.keys();
        let mut r: Option<u64> = None;
        let mut i: usize = 0;
        while i < n
            invariant
                i <= n,
                n == q.len(),
                q == self.transfers.keys(),
                is_listing(q, self.transfers@.dom()),
                r is None <==> i == 0,
                r matches Some(due) ==> exists|j: int|
                    0 <= j < i && self.transfers@[#[trigger] q[j]].due == due,
                r matches Some(due) ==> forall|j: int|
                    0 <= j < i ==> due <= self.transfers@[#[trigger] q[j]].due,
            decreases n - i,
        {
            let due = self.transfers.value_at(i).due;
            assert(due == self.transfers@[q[i as int]].due);
            let ghost prior = r;
            match r {
                Some(best) if best <= due => {},
                _ => {
                    r = Some(due);
                },
            }
            i = i + 1;
        }
        proof {
            lemma_listing_members(q, self.transfers@.dom());
            assert forall|k: RequestKey| self@.transfers.contains_key(k) <==> #[trigger]
                self.transfers@.contains_key(k) by {}
            match r {
                Some(due) => {
                    let j = choose|j: int| 0 <= j < n && self.transfers@[#[trigger] q[j]].due == due;
                    assert(q.contains(q[j]));
                    assert(self@.transfers.contains_key(q[j]));
                    assert forall|k: RequestKey| #[trigger] self@.transfers.contains_key(k) implies due
                        <= self@.transfers[k].due by {
                        assert(q.contains(k));
                        let j = choose|j: int| 0 <= j < q.len() && q[j] == k;
                        assert(due <= self.transfers@[q[j]].due);
                    }
                },
                None => {
                    assert(self@.transfers =~= Map::<RequestKey, TransferView>::empty());
                },
            }
        }
        r
    }

    /// Gives up every replacement of one session. What is kept for the
    /// predecessors goes with them; the requests themselves are left to the
    /// teardown of the session.
    pub fn abandon_request_replacements_for_session(
        &mut self,
        session: &RelaySessionKey,
        orders: &mut Vec<RequestOrder>,
    )
        requires
            old(self).wf(),
        ensures
            final(self).wf(),
            final(self)@ == old(self)@.abandon_replacements(*session),
            final(orders)@ == old(orders)@ + old(self)@.predecessors_on(*session).map_values(
                |s: SubId| RequestOrder::ReleaseLiveClaims(s),
            ),
    {
        let ghost v = self@;
        let ghost priors = v.predecessors_on(*session);
        let ghost told = priors.map_values(|s: SubId| RequestOrder::ReleaseLiveClaims(s));
        let ghost start = RequestsView {
            replacements: v.replacements.remove_keys(successors_on(v.replacements, *session)),
            ..v
        };
        let taken = self.replacements.take_for_session(session);
        proof {
            let keys = Seq::new(taken@.len(), |i: int| taken@[i].0);
            lemma_listing_of(keys, successors_on(v.replacements, *session));
            assert(self@ == start);
            assert(priors.take(0) =~= Seq::<SubId>::empty());
            assert(told.take(0) =~= Seq::<RequestOrder>::empty());
            assert(old(orders)@ + told.take(0) =~= old(orders)@);
            assert(priors.len() == taken@.len());
            assert forall|i: int| 0 <= i < taken@.len() implies (#[trigger] taken@[i]).1.prior_sub_id
                == priors[i] by {
                assert(keys[i] == taken@[i].0);
            }
        }
        let mut i: usize = 0;
        while i < taken.len()
            invariant
                i <= taken@.len(),
                priors.len() == taken@.len(),
                told == priors.map_values(|s: SubId| RequestOrder::ReleaseLiveClaims(s)),
                forall|j: int|
                    0 <= j < taken@.len() ==> (#[trigger] taken@[j]).1.prior_sub_id == priors[j],
                self.wf(),
                self@ == start.give_up_predecessors(*session, priors.take(i as int)),
                orders@ == old(orders)@ + told.take(i as int),
            decreases taken@.len() - i,
        {
            let prior = taken[i].1.prior_sub_id;
            proof {
                assert(prior == priors[i as int]);
                assert(priors.take(i + 1).drop_last() =~= priors.take(i as int));
                assert(priors.take(i + 1).last() == prior);
                assert(told.take(i + 1) =~= told.take(i as int).push(
                    RequestOrder::ReleaseLiveClaims(prior),
                ));
            }
            self.retire_plan_execution_metadata(&prior, orders);
            let key = RequestKey { session: *session, sub_id: prior };
            self.cancel_request_claim_transfers(&key, None);
            assert(orders@ =~= old(orders)@ + told.take(i + 1));
            i = i + 1;
        }
        assert(priors.take(i as int) =~= priors);
        assert(told.take(i as int) =~= told);
    }

    /// How much is kept.
    pub fn counts(&self) -> (r: RequestCounts)
        ensures
            r.awaiting_handoff == self@.pending.len(),
            r.awaiting_stored_events == self@.active.len(),
            r.live == self@.live.len(),
            r.replacements == self@.replacements.len(),
            r.claim_transfers == self@.transfers.len(),
    {
        assert(self@.pending.dom() =~= self.pending@.dom());
        assert(self@.active.dom() =~= self.active@.dom());
        assert(self@.transfers.dom() =~= self.transfers@.dom());
        RequestCounts {
            awaiting_handoff: self.pending.len(),
            awaiting_stored_events: self.active.len(),
            live: self.live.len(),
            replacements: self.replacements.len(),
            claim_transfers: self.transfers.len(),
        }
    }
}

/// How many requests await their hand-off under the keys of a list.
pub open spec fn awaiting_over(q: Seq<RequestKey>, pending: Map<RequestKey, Seq<PendingView>>) -> nat
    decreases q.len(),
{
    if q.len() == 0 {
        0
    } else {
        awaiting_over(q.drop_last(), pending) + pending[q.last()].len()
    }
}

proof fn lemma_awaiting_prefix(q: Seq<RequestKey>, pending: Map<RequestKey, Seq<PendingView>>, n: int)
    requires
        0 <= n <= q.len(),
    ensures
        awaiting_over(q.take(n), pending) <= awaiting_over(q, pending),
    decreases q.len() - n,
{
    if n < q.len() {
        assert(q.take(n + 1).drop_last() =~= q.take(n));
        lemma_awaiting_prefix(q, pending, n + 1);
    } else {
        assert(q.take(n) =~= q);
    }
}

/// How the indexes of the requests can disagree with their records.
#[derive(Clone, Copy, Debug)]
pub enum RequestFault {
    Replacement(MirrorFault<RelaySessionKey, SubId>),
    Attempt(AttemptFault),
}

impl Requests {
    /// How many requests await their hand-off.
    pub fn awaiting_total(&self) -> (n: usize)
        requires
            awaiting_over(listing_of(self@.pending.dom()), self@.pending) <= usize::MAX,
        ensures
            n == awaiting_over(listing_of(self@.pending.dom()), self@.pending),
    {
        let count = self.pending.len();
        let ghost q = self.pending.keys();
        let ghost pending = self@.pending;
        proof {
            assert(pending.dom() =~= self.pending@.dom());
            lemma_listing_of(q, pending.dom());
            assert(q.take(0) =~= Seq::<RequestKey>::empty());
        }
        let mut n: usize = 0;
        let mut i: usize = 0;
        while i < count
            invariant
                i <= count,
                count == q.len(),
                q == self.pending.keys(),
                is_listing(q, self.pending@.dom()),
                pending == self@.pending,
                awaiting_over(q, pending) <= usize::MAX,
                n == awaiting_over(q.take(i as int), pending),
            decreases count - i,
        {
            let queue = self.pending.value_at(i);
            proof {
                assert(q.take(i + 1).drop_last() =~= q.take(i as int));
                assert(q.take(i + 1).last() == q[i as int]);
                assert(self.pending@.dom().contains(q[i as int]));
                assert(pending[q[i as int]] == queue_view(queue@));
                lemma_awaiting_prefix(q, pending, i + 1);
            }
            n = n + queue.len();
            i = i + 1;
        }
        assert(q.take(i as int) =~= q);
        n
    }

    /// The index of the replacements mirrors them.
    pub closed spec fn replacements_mirrored(&self) -> bool {
        self.replacements.mirrored()
    }

    /// The indexes of the attempts mirror them.
    pub closed spec fn attempts_mirrored(&self) -> bool {
        self.attempts.mirrored()
    }

    /// The index of the replacements has this fault, and none that is looked for
    /// before it.
    pub closed spec fn replacement_fault(&self, f: MirrorFault<RelaySessionKey, SubId>) -> bool {
        self.replacements.first_fault(f)
    }

    /// The indexes of the attempts have this fault.
    pub closed spec fn attempt_fault(&self, f: AttemptFault) -> bool {
        self.attempts.has_fault(f)
    }

    /// Compares the indexes of the replacements, and those of the attempts, with
    /// what they mirror, and names a fault where they disagree.
    pub fn assert_consistent(&self) -> (r: Result<(), RequestFault>)
        ensures
            match r {
                Ok(()) => self.replacements_mirrored() && self.attempts_mirrored(),
                Err(RequestFault::Replacement(f)) => !self.replacements_mirrored()
                    && self.replacement_fault(f),
                Err(RequestFault::Attempt(f)) => self.replacements_mirrored() && !self.attempts_mirrored()
                    && self.attempt_fault(f),
            },
    {
        match self.replacements.assert_consistent() {
            Err(fault) => Err(RequestFault::Replacement(fault)),
            Ok(()) => match self.attempts.assert_consistent() {
                Err(fault) => Err(RequestFault::Attempt(fault)),
                Ok(()) => Ok(()),
            },
        }
    }
}

impl RequestsView {
    /// What a plan change takes from one request goes.
    pub open spec fn without_removed(self, r: RequestMetadataRemoval) -> RequestsView {
        self.reduce_metadata(
            r.sub_id,
            r.filter_hash,
            r.removed_coverage_claims@,
            r.removed_owner_demands@,
        ).edit_owners(
            RequestKey { session: r.session, sub_id: r.sub_id },
            r.filter_hash,
            r.removed_owner_demands@,
            false,
        )
    }

    pub open spec fn without_all_removed(self, q: Seq<RequestMetadataRemoval>) -> RequestsView
        decreases q.len(),
    {
        if q.len() == 0 {
            self
        } else {
            self.without_all_removed(q.drop_last()).without_removed(q.last())
        }
    }
}

impl Requests {
    /// Takes away what a plan change takes from several requests. `physical` are,
    /// at the same places, the claims that the relay still serves for each. Gives
    /// back, at the same places, the claims to be released.
    pub fn apply_request_metadata_removals(
        &mut self,
        removals: &Vec<RequestMetadataRemoval>,
        physical: &Vec<SortedSet<CoverageKey>>,
    ) -> (detachable: Vec<SortedSet<CoverageKey>>)
        requires
            old(self).wf(),
            removals@.len() == physical@.len(),
        ensures
            final(self).wf(),
            final(self)@ == old(self)@.without_all_removed(removals@),
            detachable@.len() == removals@.len(),
            forall|i: int|
                0 <= i < removals@.len() ==> (#[trigger] detachable@[i])@
                    == removals@[i].removed_coverage_claims@.difference(physical@[i]@),
    {
        let mut detachable: Vec<SortedSet<CoverageKey>> = Vec::new();
        let ghost v = self@;
        let ghost q = removals@;
        assert(q.take(0) =~= Seq::<RequestMetadataRemoval>::empty());
        let mut i: usize = 0;
        while i < removals.len()
            invariant
                i <= q.len(),
                q == removals@,
                q.len() == physical@.len(),
                self.wf(),
                self@ == v.without_all_removed(q.take(i as int)),
                detachable@.len() == i,
                forall|j: int|
                    0 <= j < i ==> (#[trigger] detachable@[j])@
                        == q[j].removed_coverage_claims@.difference(physical@[j]@),
            decreases q.len() - i,
        {
            proof {
                assert(q.take(i + 1).drop_last() =~= q.take(i as int));
                assert(q.take(i + 1).last() == q[i as int]);
            }
            let released = self.apply_request_metadata_removal(&removals[i], &physical[i]);
            detachable.push(released);
            i = i + 1;
        }
        assert(q.take(i as int) =~= q);
        detachable
    }
}

impl Requests {
    /// Whether a subscription is on record with one filter.
    pub fn plans(&self, sub_id: &SubId, hash: FilterHash) -> (b: bool)
        ensures
            b == self@.plans(*sub_id, hash),
    {
        match self.metadata.get(sub_id) {
            Some(metadata) => metadata.filter.hash == hash,
            None => false,
        }
    }

    /// What a plan gains reaches the current request of one of its roles.
    pub fn follow_plan(&mut self, key: &RequestKey, demands: &SortedSet<DemandKey>)
        requires
            old(self).wf(),
        ensures
            final(self).wf(),
            final(self)@ == old(self)@.follow(*key, demands@),
    {
        let last = match self.pending.get(key) {
            None => None,
            Some(queue) => {
                assert(queue_at(self@.pending, *key) == queue_view(queue@));
                if queue.len() > 0 {
                    Some(queue[queue.len() - 1].filter.hash)
                } else {
                    None
                }
            },
        };
        if let Some(hash) = last {
            self.extend_current_request_owner_demands(key, hash, demands);
        }
        let live = match self.live.get(key) {
            Some(live) => Some(live.filter.hash),
            None => None,
        };
        if let Some(hash) = live {
            self.extend_current_request_owner_demands(key, hash, demands);
        }
    }

    /// One attempt that awaits its result.
    pub fn attempt(&self, id: &RequestAttemptId) -> (r: Option<&RequestAttemptState>)
        ensures
            match r {
                Some(a) => self@.attempts.contains_key(*id) && a@ == self@.attempts[*id],
                None => !self@.attempts.contains_key(*id),
            },
    {
        self.attempts.get(id)
    }

    /// The demands that the request sent last under one key is for.
    pub fn awaited_demands(&self, key: &RequestKey) -> (r: Option<&SortedSet<DemandKey>>)
        ensures
            match r {
                Some(d) => queue_at(self@.pending, *key).len() > 0 && d@ == queue_at(
                    self@.pending,
                    *key,
                ).last().owner_demands,
                None => queue_at(self@.pending, *key).len() == 0,
            },
    {
        match self.pending.get(key) {
            None => None,
            Some(queue) => {
                assert(queue_at(self@.pending, *key) == queue_view(queue@));
                if queue.len() > 0 {
                    Some(&queue[queue.len() - 1].owner_demands)
                } else {
                    None
                }
            },
        }
    }

    /// How many plans are on record.
    pub fn plan_count(&self) -> (n: usize)
        ensures
            n == self@.metadata.len(),
    {
        assert(self@.metadata.dom() =~= self.metadata@.dom());
        self.metadata.len()
    }
}

/// The sessions that attempts wait on.
pub open spec fn attempt_sessions(a: Map<RequestAttemptId, AttemptView>) -> Set<RelaySessionKey> {
    Set::new(
        |s: RelaySessionKey|
            exists|id: RequestAttemptId| #[trigger] a.contains_key(id) && a[id].session == s,
    )
}

/// The sessions that parked retries are for.
pub open spec fn retry_sessions(r: Map<RequestKey, RetryView>) -> Set<RelaySessionKey> {
    Set::new(
        |s: RelaySessionKey| exists|k: RequestKey| #[trigger] r.contains_key(k) && r[k].attempt.session == s,
    )
}

/// How much is kept of attempts and retries.
#[derive(Clone, Copy, Debug, PartialEq, Eq, Structural)]
pub struct AttemptCensus {
    pub attempts: usize,
    pub session_keys: usize,
    pub retry_jobs: usize,
    pub retry_session_keys: usize,
}

impl Requests {
    /// How much is kept of attempts and retries.
    pub fn attempt_census(&self) -> (r: AttemptCensus)
        requires
            self.wf(),
        ensures
            r.attempts == self@.attempts.len(),
            r.session_keys == attempt_sessions(self@.attempts).len(),
            r.retry_jobs == self@.retries.len(),
            r.retry_session_keys == retry_sessions(self@.retries).len(),
    {
        let counts = self.attempts.counts();
        proof {
            let a = self.attempts.attempts();
            let r = self.attempts.retries();
            assert(self@.attempts.dom() =~= a.dom());
            assert(self@.retries.dom() =~= r.dom());
            let waiting = owners_of(session_mirror(a));
            assert forall|s: RelaySessionKey| waiting.contains(s) <==> attempt_sessions(
                self@.attempts,
            ).contains(s) by {
                if waiting.contains(s) {
                    let id = choose|id: RequestAttemptId| #[trigger] session_mirror(a).contains(Pair(s, id));
                    assert(self@.attempts.contains_key(id));
                }
                if attempt_sessions(self@.attempts).contains(s) {
                    let id = choose|id: RequestAttemptId| #[trigger]
                        self@.attempts.contains_key(id) && self@.attempts[id].session == s;
                    assert(session_mirror(a).contains(Pair(s, id)));
                }
            }
            assert(waiting =~= attempt_sessions(self@.attempts));
            let parked = owners_of(retry_session_mirror(r));
            assert forall|s: RelaySessionKey| parked.contains(s) <==> retry_sessions(self@.retries).contains(
                s,
            ) by {
                if parked.contains(s) {
                    let k = choose|k: RequestKey| #[trigger] retry_session_mirror(r).contains(Pair(s, k));
                    assert(self@.retries.contains_key(k));
                }
                if retry_sessions(self@.retries).contains(s) {
                    let k = choose|k: RequestKey| #[trigger]
                        self@.retries.contains_key(k) && self@.retries[k].attempt.session == s;
                    assert(retry_session_mirror(r).contains(Pair(s, k)));
                }
            }
            assert(parked =~= retry_sessions(self@.retries));
        }
        AttemptCensus {
            attempts: counts.attempts,
            session_keys: counts.session_keys,
            retry_jobs: counts.retry_jobs,
            retry_session_keys: counts.retry_session_keys,
        }
    }
}

} // verus!
