//! What becomes of one request on its way over the wire.

use vstd::prelude::*;

use crate::ids::{
    CoverageKey, DemandKey, FilterHash, RelaySessionKey, RequestAttemptId, RequestKey, SubId,
    TransportRelayHandle,
};
use crate::key::{lemma_listing_exists, lemma_listing_members, lemma_push_contains};
use crate::request_attempt::RequestHandoffOutcome;
use crate::request_replacements::{successors_on, RequestReplacement};
use crate::requests::{
    committed, covered, filed, home_key, latest_attempt, lemma_handed_off, place_in,
    CompletedCoverageClaim, CoverageInterval, LiveWireRequest, PendingView, RequestMetadataRemoval,
    RequestOrder, RequestsView, SendView, StoredEvents,
};
use crate::plan_roles::RoleOf;
use crate::retry::backoff_secs;

verus! {

/// Sending a request makes it an attempt of its own, under the next free number, that
/// asks for exactly what is sent and has not failed yet. It is the last to await its
/// hand-off. Nothing else changes: no other attempt, no other queue, no live request.
pub proof fn sending_adds_one_attempt(v: RequestsView, send: SendView, revision: u64)
    requires
        v.next_id is Some,
    ensures
        ({
            let id = RequestAttemptId(v.next_id->0);
            let key = RequestKey { session: send.session, sub_id: send.sub_id };
            let w = v.record(send, revision);
            &&& w.attempts.contains_key(id)
            &&& w.attempts[id].session == send.session
            &&& w.attempts[id].sub_id == send.sub_id
            &&& w.attempts[id].filter == send.filter
            &&& w.attempts[id].coverage_claims == send.coverage_claims
            &&& w.attempts[id].owner_demands == send.owner_demands
            &&& w.attempts[id].request_revision == Some(revision)
            &&& w.attempts[id].retry_failures == 0
            &&& forall|other: RequestAttemptId|
                other != id ==> (#[trigger] w.attempts.contains_key(other) <==> v.attempts.contains_key(
                    other,
                ))
            &&& forall|other: RequestAttemptId| #[trigger]
                v.attempts.contains_key(other) && other != id ==> w.attempts[other] == v.attempts[other]
            &&& v.next_id->0 < u64::MAX ==> w.next_id == Some((v.next_id->0 + 1) as u64)
            &&& v.next_id->0 == u64::MAX ==> w.next_id is None
            &&& w.pending.contains_key(key)
            &&& w.pending[key].len() == (if v.pending.contains_key(key) {
                v.pending[key].len() + 1
            } else {
                1
            })
            &&& v.pending.contains_key(key) ==> forall|i: int|
                0 <= i < v.pending[key].len() ==> w.pending[key][i] == #[trigger] v.pending[key][i]
            &&& w.pending[key].last() == (PendingView {
                attempt_id: id,
                request_revision: revision,
                session: send.session,
                sub_id: send.sub_id,
                filter: send.filter,
                owner_demands: send.owner_demands,
            })
            &&& w.pending.remove(key) == v.pending.remove(key)
            &&& w.live == v.live
            &&& w.active == v.active
            &&& w.retries == v.retries
            &&& w.replacements == v.replacements
            &&& w.metadata == v.metadata
            &&& w.transfers == v.transfers
        }),
{
    let key = RequestKey { session: send.session, sub_id: send.sub_id };
    let w = v.record(send, revision);
    assert(w.pending.remove(key) =~= v.pending.remove(key));
}

proof fn lemma_first_place(q: Seq<PendingView>, id: RequestAttemptId, i: int)
    requires
        0 <= i < q.len(),
        q[i].attempt_id == id,
        forall|j: int| 0 <= j < i ==> (#[trigger] q[j]).attempt_id != id,
    ensures
        place_in(q, id) == Some(i),
    decreases q.len(),
{
    let rest = q.drop_last();
    if i < rest.len() {
        assert forall|j: int| 0 <= j < i implies (#[trigger] rest[j]).attempt_id != id by {
            assert(q[j].attempt_id != id);
        }
        lemma_first_place(rest, id, i);
    } else {
        lemma_no_place(rest, id);
    }
}

proof fn lemma_no_place(q: Seq<PendingView>, id: RequestAttemptId)
    requires
        forall|j: int| 0 <= j < q.len() ==> (#[trigger] q[j]).attempt_id != id,
    ensures
        place_in(q, id) is None,
    decreases q.len(),
{
    if q.len() > 0 {
        let rest = q.drop_last();
        assert forall|j: int| 0 <= j < rest.len() implies (#[trigger] rest[j]).attempt_id != id by {
            assert(q[j].attempt_id != id);
        }
        assert(q.last() == q[q.len() - 1]);
        lemma_no_place(rest, id);
    }
}

/// One queued request is the first of its queue that awaits a given attempt.
pub open spec fn awaits_first(v: RequestsView, id: RequestAttemptId, key: RequestKey, i: int) -> bool {
    &&& v.attempts.contains_key(id)
    &&& key.session == v.attempts[id].session
    &&& key.sub_id == v.attempts[id].sub_id
    &&& v.pending.contains_key(key)
    &&& 0 <= i < v.pending[key].len()
    &&& v.pending[key][i].attempt_id == id
    &&& forall|j: int| 0 <= j < i ==> (#[trigger] v.pending[key][j]).attempt_id != id
}

/// A relay has taken a request: it is live on the connection that took it and streams
/// its stored events under its own number, with no span written down yet; it awaits
/// those events for the demands that it was sent for. It awaits no hand-off any more,
/// the requests queued behind it keep their order, and no retry of it is parked.
pub proof fn accepted_request_streams(
    v: RequestsView,
    id: RequestAttemptId,
    handle: TransportRelayHandle,
    now: u64,
    key: RequestKey,
    i: int,
)
    requires
        filed(v),
        awaits_first(v, id, key, i),
        !v.replacements.contains_key(key.sub_id),
    ensures
        ({
            let w = v.handoff(RequestHandoffOutcome::Accepted { attempt_id: id, handle }, now);
            let p = v.pending[key][i];
            &&& w.live.contains_key(key)
            &&& w.live[key] == (LiveWireRequest {
                filter: p.filter,
                handle,
                stored_events: StoredEvents::Streaming {
                    request_revision: p.request_revision,
                    committed_interval: None,
                },
            })
            &&& w.live.remove(key) == v.live.remove(key)
            &&& w.active.contains_key(p.request_revision)
            &&& w.active[p.request_revision].request_revision == p.request_revision
            &&& w.active[p.request_revision].session == key.session
            &&& w.active[p.request_revision].sub_id == key.sub_id
            &&& w.active[p.request_revision].owner_demands == p.owner_demands
            &&& w.active[p.request_revision].handle == handle
            &&& w.active.remove(p.request_revision) == v.active.remove(p.request_revision)
            &&& w.attempts == v.attempts.remove(id)
            &&& w.retries == v.retries.remove(key)
            &&& w.pending.remove(key) == v.pending.remove(key)
            &&& w.pending.contains_key(key) <==> v.pending[key].len() > 1
            &&& v.pending[key].len() > 1 ==> w.pending[key] == v.pending[key].remove(i)
            &&& w.metadata == v.metadata
            &&& w.transfers == v.transfers
            &&& w.replacements == v.replacements
            &&& w.next_id == v.next_id
            &&& v.handoff_orders(RequestHandoffOutcome::Accepted { attempt_id: id, handle }).len() == 0
        }),
{
    let outcome = RequestHandoffOutcome::Accepted { attempt_id: id, handle };
    lemma_first_place(v.pending[key], id, i);
    assert(v.handed_off(id) == Some((key, i)));
    let w = v.handoff(outcome, now);
    let p = v.pending[key][i];
    assert(p.session == key.session && p.sub_id == key.sub_id);
    assert(w.live.remove(key) =~= v.live.remove(key));
    assert(w.active.remove(p.request_revision) =~= v.active.remove(p.request_revision));
    assert(w.pending.remove(key) =~= v.pending.remove(key));
}

/// A request was refused here: it awaits no hand-off any more and is parked, as it was
/// sent, with one failure more, for as long as that many failures make it wait. Nothing
/// that a relay has taken changes. Its send is forgotten, and its wire mapping too
/// exactly where nothing of it is live.
pub proof fn refused_request_waits_its_turn(
    v: RequestsView,
    outcome: RequestHandoffOutcome,
    id: RequestAttemptId,
    now: u64,
    key: RequestKey,
    i: int,
)
    requires
        filed(v),
        awaits_first(v, id, key, i),
        outcome matches RequestHandoffOutcome::Refused { attempt_id, .. } && attempt_id == id,
        v.attempts[id].retry_failures < u32::MAX,
        now + 300 <= u64::MAX,
    ensures
        ({
            let w = v.handoff(outcome, now);
            let p = v.pending[key][i];
            let orders = v.handoff_orders(outcome);
            &&& w.retries.contains_key(key)
            &&& w.retries[key].attempt == v.attempts[id]
            &&& w.retries[key].failures == v.attempts[id].retry_failures + 1
            &&& w.retries[key].due == now + backoff_secs((v.attempts[id].retry_failures + 1) as nat)
            &&& w.retries.remove(key) == v.retries.remove(key)
            &&& w.attempts == v.attempts.remove(id)
            &&& w.pending.remove(key) == v.pending.remove(key)
            &&& w.pending.contains_key(key) <==> v.pending[key].len() > 1
            &&& v.pending[key].len() > 1 ==> w.pending[key] == v.pending[key].remove(i)
            &&& w.live == v.live
            &&& w.active == v.active
            &&& w.metadata == v.metadata
            &&& w.transfers == v.transfers
            &&& w.replacements == v.replacements
            &&& w.next_id == v.next_id
            &&& orders.len() == (if v.live.contains_key(key) {
                1int
            } else {
                2int
            })
            &&& orders[0] == (RequestOrder::DiscardSend {
                sub_id: key.sub_id,
                revision: p.request_revision,
            })
            &&& !v.live.contains_key(key) ==> orders[1] == (RequestOrder::DropIdleMapping {
                session: key.session,
                sub_id: key.sub_id,
            })
        }),
{
    lemma_first_place(v.pending[key], id, i);
    assert(v.handed_off(id) == Some((key, i)));
    let w = v.handoff(outcome, now);
    crate::retry::backoff_is_bounded((v.attempts[id].retry_failures + 1) as nat);
    assert(crate::retry::RETRY_MAX_SECS == 300);
    assert(w.retries.remove(key) =~= v.retries.remove(key));
    assert(w.pending.remove(key) =~= v.pending.remove(key));
}

/// When a successor is accepted its predecessor goes: what was sent, awaited or parked
/// for it, its plan, and the claims that wait for it. Its sends are forgotten, its
/// claims released, and it is closed on the relay, in this order.
pub proof fn accepted_successor_retires_its_predecessor(
    v: RequestsView,
    id: RequestAttemptId,
    handle: TransportRelayHandle,
    now: u64,
    key: RequestKey,
    i: int,
)
    requires
        filed(v),
        awaits_first(v, id, key, i),
        v.replacements.contains_key(key.sub_id),
        v.replacements[key.sub_id].prior_sub_id != key.sub_id,
        v.replacements[key.sub_id].session == home_key(v.replacements[key.sub_id].prior_sub_id).session,
    ensures
        ({
            let outcome = RequestHandoffOutcome::Accepted { attempt_id: id, handle };
            let w = v.handoff(outcome, now);
            let r = v.replacements[key.sub_id];
            let prior = RequestKey { session: r.session, sub_id: r.prior_sub_id };
            let orders = v.handoff_orders(outcome);
            &&& w.live.contains_key(key)
            &&& !w.live.contains_key(prior)
            &&& !w.metadata.contains_key(r.prior_sub_id)
            &&& w.metadata.remove(r.prior_sub_id) == v.metadata.remove(r.prior_sub_id)
            &&& !w.transfers.contains_key(prior)
            &&& !w.pending.contains_key(prior)
            &&& !w.retries.contains_key(prior)
            &&& w.replacements == v.replacements.remove(key.sub_id)
            &&& forall|a: RequestAttemptId| #[trigger]
                w.attempts.contains_key(a) ==> w.attempts[a].sub_id != r.prior_sub_id
            &&& orders.len() == 3
            &&& orders[0] == RequestOrder::DiscardSub(r.prior_sub_id)
            &&& orders[1] == RequestOrder::ReleaseLiveClaims(r.prior_sub_id)
            &&& orders[2] == (RequestOrder::Close { session: r.session, sub_id: r.prior_sub_id })
        }),
{
    let outcome = RequestHandoffOutcome::Accepted { attempt_id: id, handle };
    lemma_first_place(v.pending[key], id, i);
    assert(v.handed_off(id) == Some((key, i)));
    lemma_handed_off(v, id);
    let w = v.handoff(outcome, now);
    let r = v.replacements[key.sub_id];
    assert(w.metadata.remove(r.prior_sub_id) =~= v.metadata.remove(r.prior_sub_id));
    assert(w.replacements =~= v.replacements.remove(key.sub_id));
}

/// The stored events of a request are complete: it is finished, with the span that was
/// written down for it, exactly where it still streams for that send. Nothing else
/// changes.
pub proof fn finished_request_keeps_its_span(v: RequestsView, revision: u64, other: RequestKey)
    requires
        v.active.contains_key(revision),
    ensures
        ({
            let a = v.active[revision];
            let key = RequestKey { session: a.session, sub_id: a.sub_id };
            let w = v.settle(revision).finish_stored(a);
            &&& w.active == v.active.remove(revision)
            &&& w.live.dom() == v.live.dom()
            &&& other != key && v.live.contains_key(other) ==> w.live[other] == v.live[other]
            &&& v.live.contains_key(key) ==> w.live[key].filter == v.live[key].filter
                && w.live[key].handle == v.live[key].handle
            &&& v.live.contains_key(key) ==> match v.live[key].stored_events {
                StoredEvents::Streaming { request_revision, committed_interval } => if request_revision
                    == a.request_revision {
                    w.live[key].stored_events == (StoredEvents::Finished {
                        request_revision: a.request_revision,
                        committed_interval,
                    })
                } else {
                    w.live[key].stored_events == v.live[key].stored_events
                },
                _ => w.live[key].stored_events == v.live[key].stored_events,
            }
            &&& w.attempts == v.attempts
            &&& w.retries == v.retries
            &&& w.pending == v.pending
            &&& w.metadata == v.metadata
            &&& w.transfers == v.transfers
            &&& w.replacements == v.replacements
        }),
{
    let a = v.active[revision];
    let w = v.settle(revision).finish_stored(a);
    assert(w.live.dom() =~= v.live.dom());
}

/// A connection that closes takes exactly what it carried: a request stops being live,
/// or being awaited, if and only if it is of that session and went over that
/// connection. What is queued, parked, planned or claimed stays.
pub proof fn closing_takes_what_the_connection_carried(
    v: RequestsView,
    session: RelaySessionKey,
    handle: TransportRelayHandle,
    key: RequestKey,
    revision: u64,
)
    ensures
        ({
            let w = v.close_session(session, handle);
            &&& w.live.contains_key(key) <==> v.live.contains_key(key) && !(key.session == session
                && v.live[key].handle == handle)
            &&& w.live.contains_key(key) ==> w.live[key] == v.live[key]
            &&& w.active.contains_key(revision) <==> v.active.contains_key(revision) && !(
            v.active[revision].session == session && v.active[revision].handle == handle)
            &&& w.active.contains_key(revision) ==> w.active[revision] == v.active[revision]
            &&& w.pending == v.pending
            &&& w.attempts == v.attempts
            &&& w.retries == v.retries
            &&& w.metadata == v.metadata
            &&& w.transfers == v.transfers
            &&& w.replacements == v.replacements
            &&& w.next_id == v.next_id
        }),
{
}

/// A relay that closes one subscription takes exactly that subscription, and only as
/// far as the connection carried it.
pub proof fn closing_a_subscription_takes_it_alone(
    v: RequestsView,
    closed: RequestKey,
    handle: TransportRelayHandle,
    key: RequestKey,
    revision: u64,
)
    ensures
        ({
            let w = v.close_sub(closed, handle);
            &&& w.live.contains_key(key) <==> v.live.contains_key(key) && !(key == closed
                && v.live[key].handle == handle)
            &&& w.live.contains_key(key) ==> w.live[key] == v.live[key]
            &&& w.active.contains_key(revision) <==> v.active.contains_key(revision) && !(
            v.active[revision].session == closed.session && v.active[revision].sub_id == closed.sub_id
                && v.active[revision].handle == handle)
            &&& w.active.contains_key(revision) ==> w.active[revision] == v.active[revision]
            &&& w.pending == v.pending
            &&& w.attempts == v.attempts
            &&& w.retries == v.retries
            &&& w.metadata == v.metadata
            &&& w.transfers == v.transfers
            &&& w.replacements == v.replacements
            &&& w.next_id == v.next_id
        }),
{
}

/// Giving a subscription up leaves every other as it is, and what the plan says of it.
pub proof fn abandonment_keeps_other_subscriptions(
    v: RequestsView,
    sub_id: SubId,
    id: RequestAttemptId,
    other: RequestKey,
    revision: u64,
)
    requires
        filed(v),
        other.sub_id != sub_id,
    ensures
        ({
            let w = v.abandon_sub(sub_id);
            &&& v.attempts.contains_key(id) && v.attempts[id].sub_id != sub_id ==> w.attempts.contains_key(id)
                && w.attempts[id] == v.attempts[id]
            &&& w.retries.contains_key(other) == v.retries.contains_key(other)
            &&& v.retries.contains_key(other) ==> w.retries[other] == v.retries[other]
            &&& w.pending.contains_key(other) == v.pending.contains_key(other)
            &&& v.pending.contains_key(other) ==> w.pending[other] == v.pending[other]
            &&& w.live.contains_key(other) == v.live.contains_key(other)
            &&& v.live.contains_key(other) ==> w.live[other] == v.live[other]
            &&& w.transfers.contains_key(other) == v.transfers.contains_key(other)
            &&& v.transfers.contains_key(other) ==> w.transfers[other] == v.transfers[other]
            &&& v.active.contains_key(revision) && v.active[revision].sub_id != sub_id
                ==> w.active.contains_key(revision) && w.active[revision] == v.active[revision]
            &&& w.metadata == v.metadata
            &&& w.replacements == v.replacements
            &&& w.next_id == v.next_id
        }),
{
}

/// Giving a session up leaves the attempts and the awaited events of every other as
/// they are, and what is planned, claimed or to be replaced.
pub proof fn abandoned_session_takes_nothing_else(
    v: RequestsView,
    session: RelaySessionKey,
    id: RequestAttemptId,
    other: RequestKey,
    revision: u64,
)
    ensures
        ({
            let w = v.abandon_session(session);
            &&& v.attempts.contains_key(id) && v.attempts[id].session != session ==> w.attempts.contains_key(id)
                && w.attempts[id] == v.attempts[id]
            &&& v.active.contains_key(revision) && v.active[revision].session != session
                ==> w.active.contains_key(revision) && w.active[revision] == v.active[revision]
            &&& other.session != session && v.retries.contains_key(other) ==> w.retries[other]
                == v.retries[other]
            &&& other.session != session && v.pending.contains_key(other) ==> w.pending[other]
                == v.pending[other]
            &&& w.metadata == v.metadata
            &&& w.transfers == v.transfers
            &&& w.replacements == v.replacements
            &&& w.next_id == v.next_id
        }),
{
}

/// Demands that join or leave a subscription join or leave the request that was sent
/// last and the one that streams, each exactly where it still has the filter that is
/// meant. Requests queued before stay as they are, and so does every other
/// subscription.
pub proof fn demands_join_the_current_request(
    v: RequestsView,
    key: RequestKey,
    hash: FilterHash,
    change: Set<DemandKey>,
    add: bool,
    demand: DemandKey,
    revision: u64,
)
    ensures
        ({
            let w = v.edit_owners(key, hash, change, add);
            let sent = v.pending.contains_key(key) && v.pending[key].len() > 0 && v.pending[key].last().filter.hash
                == hash;
            let streams = v.live.contains_key(key) && v.live[key].filter.hash == hash
                && (v.live[key].stored_events matches StoredEvents::Streaming { request_revision, .. }
                && request_revision == revision);
            &&& w.pending.remove(key) == v.pending.remove(key)
            &&& w.pending.contains_key(key) == v.pending.contains_key(key)
            &&& v.pending.contains_key(key) ==> w.pending[key].len() == v.pending[key].len()
            &&& v.pending.contains_key(key) ==> forall|i: int|
                0 <= i < v.pending[key].len() - 1 ==> w.pending[key][i] == #[trigger] v.pending[key][i]
            &&& sent ==> (w.pending[key].last().owner_demands.contains(demand) <==> (if add {
                v.pending[key].last().owner_demands.contains(demand) || change.contains(demand)
            } else {
                v.pending[key].last().owner_demands.contains(demand) && !change.contains(demand)
            }))
            &&& sent ==> w.pending[key].last().attempt_id == v.pending[key].last().attempt_id
                && w.pending[key].last().filter == v.pending[key].last().filter
                && w.pending[key].last().request_revision == v.pending[key].last().request_revision
            &&& !sent ==> w.pending == v.pending
            &&& w.active.dom() == v.active.dom()
            &&& v.active.contains_key(revision) && streams ==> (w.active[revision].owner_demands.contains(
                demand,
            ) <==> (if add {
                v.active[revision].owner_demands.contains(demand) || change.contains(demand)
            } else {
                v.active[revision].owner_demands.contains(demand) && !change.contains(demand)
            }))
            &&& v.active.contains_key(revision) ==> w.active[revision].session == v.active[revision].session
                && w.active[revision].sub_id == v.active[revision].sub_id && w.active[revision].handle
                == v.active[revision].handle
            &&& v.active.contains_key(revision) && !streams ==> w.active[revision] == v.active[revision]
            &&& w.live == v.live
            &&& w.attempts == v.attempts
            &&& w.retries == v.retries
            &&& w.metadata == v.metadata
            &&& w.transfers == v.transfers
        }),
{
    let w = v.edit_owners(key, hash, change, add);
    assert(w.pending.remove(key) =~= v.pending.remove(key));
    assert(w.active.dom() =~= v.active.dom());
}

/// What a plan gains or loses for one subscription changes what is on record for it by
/// exactly that, and only where the plan still has the filter that is meant.
pub proof fn plan_record_changes_by_what_is_meant(
    v: RequestsView,
    sub_id: SubId,
    hash: FilterHash,
    claims: Set<CoverageKey>,
    demands: Set<DemandKey>,
    claim: CoverageKey,
    demand: DemandKey,
)
    ensures
        ({
            let more = v.extend_metadata(sub_id, hash, claims, demands);
            let less = v.reduce_metadata(sub_id, hash, claims, demands);
            let meant = v.metadata.contains_key(sub_id) && v.metadata[sub_id].filter.hash == hash;
            let was = v.metadata[sub_id];
            &&& !meant ==> more == v && less == v
            &&& meant ==> {
                &&& more.metadata.remove(sub_id) == v.metadata.remove(sub_id)
                &&& less.metadata.remove(sub_id) == v.metadata.remove(sub_id)
                &&& more.metadata.contains_key(sub_id)
                &&& less.metadata.contains_key(sub_id)
                &&& more.metadata[sub_id].filter == was.filter
                &&& less.metadata[sub_id].filter == was.filter
                &&& more.metadata[sub_id].coverage_claims.contains(claim) <==> was.coverage_claims.contains(
                    claim,
                ) || claims.contains(claim)
                &&& more.metadata[sub_id].owner_demands.contains(demand) <==> was.owner_demands.contains(
                    demand,
                ) || demands.contains(demand)
                &&& less.metadata[sub_id].coverage_claims.contains(claim) <==> was.coverage_claims.contains(
                    claim,
                ) && !claims.contains(claim)
                &&& less.metadata[sub_id].owner_demands.contains(demand) <==> was.owner_demands.contains(
                    demand,
                ) && !demands.contains(demand)
            }
            &&& more.pending == v.pending && less.pending == v.pending
            &&& more.live == v.live && less.live == v.live
            &&& more.active == v.active && less.active == v.active
            &&& more.retries == v.retries && less.retries == v.retries
            &&& more.transfers == v.transfers && less.transfers == v.transfers
        }),
{
    let more = v.extend_metadata(sub_id, hash, claims, demands);
    let less = v.reduce_metadata(sub_id, hash, claims, demands);
    assert(more.metadata.remove(sub_id) =~= v.metadata.remove(sub_id));
    assert(less.metadata.remove(sub_id) =~= v.metadata.remove(sub_id));
}

/// A removal takes its claims and its demands off the record of the plan that it is
/// meant for, and its demands off the request that was sent last for it.
pub proof fn removal_takes_its_demands_off(v: RequestsView, r: RequestMetadataRemoval, demand: DemandKey)
    requires
        r.removed_owner_demands@.contains(demand),
    ensures
        ({
            let w = v.without_removed(r);
            let key = RequestKey { session: r.session, sub_id: r.sub_id };
            &&& v.metadata.contains_key(r.sub_id) && v.metadata[r.sub_id].filter.hash == r.filter_hash
                ==> !w.metadata[r.sub_id].owner_demands.contains(demand)
            &&& v.pending.contains_key(key) && v.pending[key].len() > 0 && v.pending[key].last().filter.hash
                == r.filter_hash ==> !w.pending[key].last().owner_demands.contains(demand)
            &&& w.live == v.live
            &&& w.attempts == v.attempts
            &&& w.metadata.dom() == v.metadata.dom()
        }),
{
    let w = v.without_removed(r);
    assert(w.metadata.dom() =~= v.metadata.dom());
}

/// Several removals are taken one after the other.
pub proof fn removals_follow_one_another(v: RequestsView, a: Seq<RequestMetadataRemoval>, b: Seq<RequestMetadataRemoval>)
    ensures
        v.without_all_removed(a + b) == v.without_all_removed(a).without_all_removed(b),
        a.len() == 1 ==> v.without_all_removed(a) == v.without_removed(a[0]),
        a.len() == 0 ==> v.without_all_removed(a) == v,
    decreases b.len(),
{
    if b.len() == 0 {
        assert(a + b =~= a);
    } else {
        assert((a + b).drop_last() =~= a + b.drop_last());
        assert((a + b).last() == b.last());
        removals_follow_one_another(v, a, b.drop_last());
    }
    if a.len() == 1 {
        assert(a.drop_last().len() == 0);
        assert(v.without_all_removed(a.drop_last()) == v);
    }
}

/// Claims that are added to a request wait to be written down if and only if there are
/// any, the request had an earlier send, it is finished for a span that was written
/// down, with this very filter and no limit, they are known by their shape, and nothing
/// waits for it under another filter. They then wait, with those that wait already, for
/// that span; what waited already keeps its turn. Otherwise nothing changes.
pub proof fn added_claims_wait_for_a_finished_request(
    v: RequestsView,
    key: RequestKey,
    hash: FilterHash,
    had_previous: bool,
    added: Set<CoverageKey>,
    shaped: bool,
    now: u64,
    claim: CoverageKey,
)
    requires
        added.contains(claim),
    ensures
        ({
            let w = v.offer_transfer(key, hash, had_previous, added, shaped, now);
            let finished = v.live.contains_key(key) && v.live[key].filter.hash == hash
                && v.live[key].filter.limit is None && (v.live[key].stored_events matches StoredEvents::Finished {
                committed_interval,
                ..
            } && committed_interval is Some);
            let owed = had_previous && finished && shaped && (v.transfers.contains_key(key)
                ==> v.transfers[key].filter_hash == hash);
            &&& owed <==> v.transferable(key, hash, had_previous, added, shaped)
            &&& !owed ==> w == v
            &&& owed ==> {
                let t = w.transfers[key];
                &&& w.transfers.contains_key(key)
                &&& v.live[key].stored_events == (StoredEvents::Finished {
                    request_revision: t.request_revision,
                    committed_interval: Some(t.interval),
                })
                &&& t.filter_hash == hash
                &&& forall|c: CoverageKey| #[trigger]
                    t.claims.contains(c) <==> added.contains(c) || (v.transfers.contains_key(key)
                        && v.transfers[key].claims.contains(c))
                &&& t.due == (if v.transfers.contains_key(key) {
                    v.transfers[key].due
                } else {
                    now
                })
                &&& t.failures == (if v.transfers.contains_key(key) {
                    v.transfers[key].failures
                } else {
                    0
                })
                &&& !v.transfers.contains_key(key) ==> t.session == key.session && t.sub_id == key.sub_id
                &&& w.transfers.remove(key) == v.transfers.remove(key)
            }
            &&& w.live == v.live
            &&& w.pending == v.pending
            &&& w.active == v.active
            &&& w.attempts == v.attempts
            &&& w.metadata == v.metadata
        }),
{
    let w = v.offer_transfer(key, hash, had_previous, added, shaped, now);
    assert(added != Set::<CoverageKey>::empty());
    assert(w.transfers.remove(key) =~= v.transfers.remove(key));
}

/// Claims that could not be written down wait exactly as long as one failure more
/// makes them wait.
pub proof fn failed_claims_back_off(v: RequestsView, key: RequestKey, now: u64)
    requires
        v.transfers.contains_key(key),
        v.transfers[key].failures < u32::MAX,
        now + 300 <= u64::MAX,
    ensures
        ({
            let was = v.transfers[key];
            let t = v.transfer_failed(key, now).transfers[key];
            &&& t.failures == was.failures + 1
            &&& t.due == now + backoff_secs((was.failures + 1) as nat)
            &&& t.filter_hash == was.filter_hash
            &&& t.request_revision == was.request_revision
            &&& t.session == was.session
            &&& t.sub_id == was.sub_id
            &&& v.transfer_failed(key, now).transfers.remove(key) == v.transfers.remove(key)
            &&& v.transfer_failed(key, now).live == v.live
        }),
{
    crate::retry::backoff_is_bounded((v.transfers[key].failures + 1) as nat);
    assert(crate::retry::RETRY_MAX_SECS == 300);
    assert(v.transfer_failed(key, now).transfers.remove(key) =~= v.transfers.remove(key));
}

/// A request still holds the claims that wait for it if and only if it is live with
/// the same filter and finished by the same send.
pub proof fn waiting_claims_belong_to_one_finished_send(v: RequestsView, key: RequestKey)
    requires
        v.transfers.contains_key(key),
    ensures
        v.transfer_current(key) <==> v.live.contains_key(key) && v.live[key].filter.hash
            == v.transfers[key].filter_hash && (v.live[key].stored_events matches StoredEvents::Finished {
            request_revision,
            ..
        } && request_revision == v.transfers[key].request_revision),
{
}

/// What has been completed and written down retires the claims that wait for an earlier
/// send of the same filter if and only if a completed claim of the same key spans each
/// of them. The request remembers the span that was written down exactly where it still
/// streams for that send.
pub proof fn completion_retires_what_it_spans(
    v: RequestsView,
    key: RequestKey,
    revision: u64,
    hash: FilterHash,
    interval: Option<CoverageInterval>,
    claims: Seq<CompletedCoverageClaim>,
    other: RequestKey,
)
    requires
        claims.len() > 0,
    ensures
        ({
            let w = v.complete_send(key, revision, hash, interval, claims);
            let t = v.transfers[key];
            let spanned = v.transfers.contains_key(key) && t.filter_hash == hash && revision > t.request_revision
                && forall|c: CoverageKey| #[trigger]
                t.claims.contains(c) ==> exists|i: int|
                    0 <= i < claims.len() && (#[trigger] claims[i]).key == c && claims[i].interval.from
                        <= t.interval.from && t.interval.through <= claims[i].interval.through;
            &&& w.transfers.contains_key(key) <==> v.transfers.contains_key(key) && !spanned
            &&& w.transfers.contains_key(key) ==> w.transfers[key] == t
            &&& w.transfers.remove(key) == v.transfers.remove(key)
            &&& w.live.dom() == v.live.dom()
            &&& other != key && v.live.contains_key(other) ==> w.live[other] == v.live[other]
            &&& v.live.contains_key(key) ==> match v.live[key].stored_events {
                StoredEvents::Streaming { request_revision, .. } => if request_revision == revision {
                    w.live[key] == (LiveWireRequest {
                        filter: v.live[key].filter,
                        handle: v.live[key].handle,
                        stored_events: StoredEvents::Streaming {
                            request_revision: revision,
                            committed_interval: interval,
                        },
                    })
                } else {
                    w.live[key] == v.live[key]
                },
                _ => w.live[key] == v.live[key],
            }
            &&& w.attempts == v.attempts
            &&& w.pending == v.pending
            &&& w.active == v.active
            &&& w.metadata == v.metadata
        }),
{
    let w = v.complete_send(key, revision, hash, interval, claims);
    let t = v.transfers[key];
    assert forall|c: CoverageKey| #[trigger] t.claims.contains(c) implies (covered(claims, c, t.interval)
        <==> exists|i: int|
        0 <= i < claims.len() && (#[trigger] claims[i]).key == c && claims[i].interval.from
            <= t.interval.from && t.interval.through <= claims[i].interval.through) by {}
    assert(w.transfers.remove(key) =~= v.transfers.remove(key));
    assert(w.live.dom() =~= v.live.dom());
}

/// A send that completes nothing leaves everything as it is.
pub proof fn empty_completion_changes_nothing(
    v: RequestsView,
    key: RequestKey,
    revision: u64,
    hash: FilterHash,
    interval: Option<CoverageInterval>,
)
    ensures
        v.complete_send(key, revision, hash, interval, Seq::empty()) == v,
{
}

/// No claim is told before it is written down: where claims are told, the send is to be
/// believed and, where it has any, they are written; and then exactly they are told.
pub proof fn claims_are_told_once_written(
    claims: Option<Vec<CompletedCoverageClaim>>,
    written: bool,
    key: CoverageKey,
)
    ensures
        committed(claims, written) is Some <==> claims is Some && (claims->0@.len() == 0 || written),
        committed(claims, written) matches Some(told) ==> (told.contains(key) <==> exists|i: int|
            0 <= i < claims->0@.len() && (#[trigger] claims->0@[i]).key == key),
{
}

/// The attempt that was sent last with a filter is the last of the queue that has it.
pub proof fn latest_attempt_is_the_last_sent(q: Seq<PendingView>, hash: FilterHash)
    ensures
        latest_attempt(q, hash) is None <==> forall|i: int|
            0 <= i < q.len() ==> (#[trigger] q[i]).filter.hash != hash,
        latest_attempt(q, hash) matches Some(id) ==> exists|i: int|
            0 <= i < q.len() && (#[trigger] q[i]).filter.hash == hash && q[i].attempt_id == id && forall|j: int|
                i < j < q.len() ==> (#[trigger] q[j]).filter.hash != hash,
    decreases q.len(),
{
    if q.len() > 0 {
        let rest = q.drop_last();
        let n = rest.len() as int;
        latest_attempt_is_the_last_sent(rest, hash);
        assert(q.last() == q[n]);
        assert forall|i: int| 0 <= i < n implies #[trigger] rest[i] == q[i] by {}
        if q.last().filter.hash != hash {
            if latest_attempt(rest, hash) is Some {
                let id = latest_attempt(rest, hash)->0;
                let i = choose|i: int|
                    0 <= i < rest.len() && (#[trigger] rest[i]).filter.hash == hash && rest[i].attempt_id
                        == id && forall|j: int|
                        i < j < rest.len() ==> (#[trigger] rest[j]).filter.hash != hash;
                assert(q[i].filter.hash == hash);
                assert forall|j: int| i < j < q.len() implies (#[trigger] q[j]).filter.hash != hash by {
                    if j < n {
                        assert(rest[j].filter.hash != hash);
                    }
                }
            } else {
                assert forall|i: int| 0 <= i < q.len() implies (#[trigger] q[i]).filter.hash != hash by {
                    if i < n {
                        assert(rest[i].filter.hash != hash);
                    }
                }
            }
        }
    }
}

/// A replacement is taken on: its successor waits, for the request that is replaced or,
/// where that one still waits itself, for the one that it waits for; the one in between
/// is given up, with what was sent and planned for it. Every other replacement stays.
pub proof fn replacement_waits_for_what_is_open(v: RequestsView, r: RequestReplacement, other: SubId)
    requires
        r.prior_sub_id != r.next_sub_id,
        other != r.prior_sub_id,
        other != r.next_sub_id,
    ensures
        ({
            let w = v.begin_replacement(r);
            &&& w.replacements.contains_key(r.next_sub_id)
            &&& w.replacements[r.next_sub_id].session == r.session
            &&& w.replacements[r.next_sub_id].next_sub_id == r.next_sub_id
            &&& w.replacements[r.next_sub_id].prior_sub_id == (if v.replacements.contains_key(
                r.prior_sub_id,
            ) {
                v.replacements[r.prior_sub_id].prior_sub_id
            } else {
                r.prior_sub_id
            })
            &&& !w.replacements.contains_key(r.prior_sub_id)
            &&& w.replacements.contains_key(other) == v.replacements.contains_key(other)
            &&& v.replacements.contains_key(other) ==> w.replacements[other] == v.replacements[other]
            &&& !v.replacements.contains_key(r.prior_sub_id) ==> w == (RequestsView {
                replacements: w.replacements,
                ..v
            })
            &&& v.replacements.contains_key(r.prior_sub_id) ==> {
                &&& !w.metadata.contains_key(r.prior_sub_id)
                &&& !w.live.contains_key(home_key(r.prior_sub_id))
                &&& !w.pending.contains_key(home_key(r.prior_sub_id))
                &&& w.metadata.remove(r.prior_sub_id) == v.metadata.remove(r.prior_sub_id)
                &&& w.live.remove(home_key(r.prior_sub_id)) == v.live.remove(home_key(r.prior_sub_id))
            }
        }),
{
    let w = v.begin_replacement(r);
    let k = home_key(r.prior_sub_id);
    if v.replacements.contains_key(r.prior_sub_id) {
        assert(w.metadata.remove(r.prior_sub_id) =~= v.metadata.remove(r.prior_sub_id));
        assert(w.live.remove(k) =~= v.live.remove(k));
    }
}

proof fn lemma_given_up(v: RequestsView, session: RelaySessionKey, priors: Seq<SubId>)
    ensures
        ({
            let w = v.give_up_predecessors(session, priors);
            &&& w.replacements == v.replacements
            &&& w.live == v.live
            &&& w.pending == v.pending
            &&& w.attempts == v.attempts
            &&& w.active == v.active
            &&& w.retries == v.retries
            &&& forall|s: SubId| #[trigger]
                w.metadata.contains_key(s) <==> v.metadata.contains_key(s) && !priors.contains(s)
            &&& forall|s: SubId| #[trigger] w.metadata.contains_key(s) ==> w.metadata[s] == v.metadata[s]
            &&& forall|k: RequestKey| #[trigger]
                w.transfers.contains_key(k) <==> v.transfers.contains_key(k) && !(k.session == session
                    && priors.contains(k.sub_id))
            &&& forall|k: RequestKey| #[trigger]
                w.transfers.contains_key(k) ==> w.transfers[k] == v.transfers[k]
        }),
    decreases priors.len(),
{
    if priors.len() > 0 {
        let rest = priors.drop_last();
        lemma_given_up(v, session, rest);
        assert(priors =~= rest.push(priors.last()));
        lemma_push_contains(rest, priors.last());
    }
}

/// Giving the replacements of a session up takes exactly those of the session, and of
/// each the plan of the request that it would have replaced and the claims that wait
/// for that request. No request is closed by it.
pub proof fn session_gives_its_replacements_up(v: RequestsView, session: RelaySessionKey, s: SubId)
    requires
        v.replacements.dom().finite(),
    ensures
        ({
            let w = v.abandon_replacements(session);
            let given_up = exists|n: SubId| #[trigger]
                v.replacements.contains_key(n) && v.replacements[n].session == session
                    && v.replacements[n].prior_sub_id == s;
            &&& w.replacements.contains_key(s) <==> v.replacements.contains_key(s)
                && v.replacements[s].session != session
            &&& w.replacements.contains_key(s) ==> w.replacements[s] == v.replacements[s]
            &&& w.metadata.contains_key(s) <==> v.metadata.contains_key(s) && !given_up
            &&& w.metadata.contains_key(s) ==> w.metadata[s] == v.metadata[s]
            &&& w.transfers.contains_key(RequestKey { session, sub_id: s }) <==> v.transfers.contains_key(
                RequestKey { session, sub_id: s },
            ) && !given_up
            &&& w.live == v.live
            &&& w.pending == v.pending
            &&& w.attempts == v.attempts
            &&& w.active == v.active
            &&& w.retries == v.retries
        }),
{
    let own = successors_on(v.replacements, session);
    assert(own.subset_of(v.replacements.dom()));
    vstd::set_lib::lemma_set_subset_finite(v.replacements.dom(), own);
    lemma_listing_exists(own);
    let q = crate::key::listing_of(own);
    lemma_listing_members(q, own);
    let priors = v.predecessors_on(session);
    let base = RequestsView { replacements: v.replacements.remove_keys(own), ..v };
    lemma_given_up(base, session, priors);
    let given_up = exists|n: SubId| #[trigger]
        v.replacements.contains_key(n) && v.replacements[n].session == session
            && v.replacements[n].prior_sub_id == s;
    assert(priors.contains(s) <==> given_up) by {
        if priors.contains(s) {
            let i = choose|i: int| 0 <= i < priors.len() && priors[i] == s;
            assert(own.contains(q[i]));
            assert(v.replacements.contains_key(q[i]));
        }
        if given_up {
            let n = choose|n: SubId| #[trigger]
                v.replacements.contains_key(n) && v.replacements[n].session == session
                    && v.replacements[n].prior_sub_id == s;
            assert(own.contains(n));
            assert(q.contains(n));
            let i = choose|i: int| 0 <= i < q.len() && q[i] == n;
            assert(priors[i] == s);
        }
    }
}

/// A parked retry is still current if and only if the plan that it is for is on record
/// and, where it goes by a filter, has that filter. A retry that plays no part for
/// another plan is for its own, with its own filter, and asks for what that plan has
/// gained; one that plays a part goes by that part.
pub proof fn retry_follows_its_plan(v: RequestsView, roles: Map<SubId, RoleOf>, key: RequestKey)
    requires
        v.retries.contains_key(key),
    ensures
        ({
            let a = v.retries[key].attempt;
            let due = v.due_attempt(roles, key);
            &&& !roles.contains_key(a.sub_id) ==> {
                let m = v.metadata[a.sub_id];
                &&& v.retry_is_current(roles, key) <==> v.metadata.contains_key(a.sub_id) && m.filter
                    == a.filter
                &&& forall|c: CoverageKey| #[trigger]
                    due.coverage_claims.contains(c) <==> a.coverage_claims.contains(c)
                        || m.coverage_claims.contains(c)
                &&& forall|d: DemandKey| #[trigger]
                    due.owner_demands.contains(d) <==> a.owner_demands.contains(d) || m.owner_demands.contains(
                        d,
                    )
            }
            &&& roles.contains_key(a.sub_id) ==> {
                let role = roles[a.sub_id];
                let m = v.metadata[role.plan];
                &&& v.retry_is_current(roles, key) <==> v.metadata.contains_key(role.plan) && (
                role.filter matches Some(f) ==> m.filter == f)
                &&& role.follows ==> forall|c: CoverageKey| #[trigger]
                    due.coverage_claims.contains(c) <==> a.coverage_claims.contains(c)
                        || m.coverage_claims.contains(c)
                &&& role.follows ==> forall|d: DemandKey| #[trigger]
                    due.owner_demands.contains(d) <==> a.owner_demands.contains(d) || m.owner_demands.contains(
                        d,
                    )
                &&& !role.follows ==> due == a
            }
            &&& due.session == a.session
            &&& due.sub_id == a.sub_id
            &&& due.filter == a.filter
            &&& due.retry_failures == a.retry_failures
        }),
{
}

/// A subscription is sent on the session that its own id names: its relay and the
/// account that it reads as.
pub proof fn subscription_names_its_session(sub_id: SubId)
    ensures
        home_key(sub_id).session.relay == sub_id.0,
        home_key(sub_id).session.authenticate_as == sub_id.2,
        home_key(sub_id).sub_id == sub_id,
{
}

} // verus!
