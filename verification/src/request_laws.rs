//! What holds of wire requests, whatever the order of events.

use vstd::prelude::*;

use crate::ids::{RelaySessionKey, RequestAttemptId, RequestKey, SubId, TransportRelayHandle};
use crate::plan_delta::{
    describe_orders, described, plan_pass, priors_of, reconciled, replacement_orders, wired, with_replacements,
    PlanStepView, WirePass,
};
use crate::request_attempt::RequestHandoffOutcome;
use crate::request_replacements::RequestReplacement;
use crate::requests::{
    filed, home_key, lemma_handed_off, orders_of_predecessor, RequestsView, StoredEvents,
};
use crate::wire::WireOp;

verus! {

/// A refused hand-off is a fact about this process: nothing that a relay has
/// taken changes, and no close is sent.
pub proof fn refusal_leaves_live_requests_alone(v: RequestsView, outcome: RequestHandoffOutcome, now: u64)
    requires
        outcome is Refused,
    ensures
        v.handoff(outcome, now).live == v.live,
        v.handoff(outcome, now).active == v.active,
        v.handoff(outcome, now).metadata == v.metadata,
        v.handoff(outcome, now).replacements == v.replacements,
        forall|i: int|
            0 <= i < v.handoff_orders(outcome).len() ==> !(
            #[trigger] v.handoff_orders(outcome)[i] is Close),
{
}

/// A result for an attempt that is not awaited changes nothing, and orders
/// nothing.
pub proof fn unknown_result_is_ignored(v: RequestsView, outcome: RequestHandoffOutcome, now: u64)
    requires
        !v.attempts.contains_key(outcome.spec_attempt_id()),
    ensures
        v.handoff(outcome, now) == v,
        v.handoff_orders(outcome).len() == 0,
{
    assert(v.attempts.remove(outcome.spec_attempt_id()) =~= v.attempts);
}

/// When a successor is accepted, its predecessor is closed, exactly once, and is
/// no longer live; the successor is.
pub proof fn acceptance_closes_the_predecessor(v: RequestsView, outcome: RequestHandoffOutcome, now: u64)
    requires
        filed(v),
        outcome is Accepted,
        v.handed_off(outcome.spec_attempt_id()) matches Some((key, _)) && v.replacements.contains_key(
            key.sub_id,
        ) && v.replacements[key.sub_id].prior_sub_id != key.sub_id,
    ensures
        ({
            let key = (v.handed_off(outcome.spec_attempt_id())->0).0;
            let r = v.replacements[key.sub_id];
            let after = v.handoff(outcome, now);
            &&& v.handoff_orders(outcome) == orders_of_predecessor(r)
            &&& after.live.contains_key(key)
            &&& !after.live.contains_key(home_key(r.prior_sub_id))
            &&& !after.metadata.contains_key(r.prior_sub_id)
            &&& !after.replacements.contains_key(key.sub_id)
        }),
{
    lemma_handed_off(v, outcome.spec_attempt_id());
}

/// The end of one send never finishes a later send of the same subscription.
pub proof fn stale_end_leaves_a_later_send_streaming(v: RequestsView, revision: u64)
    requires
        v.active.contains_key(revision),
        ({
            let a = v.active[revision];
            let key = RequestKey { session: a.session, sub_id: a.sub_id };
            v.live.contains_key(key) ==> !(v.live[key].stored_events matches StoredEvents::Streaming {
                request_revision,
                ..
            } && request_revision == a.request_revision)
        }),
    ensures
        v.settle(revision).finish_stored(v.active[revision]).live == v.live,
{
}

/// Giving a subscription up leaves nothing of it: no attempt, no retry, no
/// queue, no live request, no claim that waits.
pub proof fn nothing_of_an_abandoned_subscription_stays(v: RequestsView, sub_id: SubId)
    requires
        filed(v),
    ensures
        ({
            let after = v.abandon_sub(sub_id);
            let key = home_key(sub_id);
            &&& forall|id: RequestAttemptId| #[trigger]
                after.attempts.contains_key(id) ==> after.attempts[id].sub_id != sub_id
            &&& !after.retries.contains_key(key)
            &&& !after.pending.contains_key(key)
            &&& !after.live.contains_key(key)
            &&& !after.transfers.contains_key(key)
            &&& forall|r: u64| #[trigger] after.active.contains_key(r) ==> after.active[r].sub_id != sub_id
        }),
{
    let after = v.abandon_sub(sub_id);
    assert forall|r: u64| #[trigger] after.active.contains_key(r) implies after.active[r].sub_id != sub_id by {
        assert(v.active.contains_key(r));
    }
}

/// Giving a subscription up twice is the same as once.
pub proof fn abandonment_is_idempotent(v: RequestsView, sub_id: SubId)
    ensures
        v.abandon_sub(sub_id).abandon_sub(sub_id) == v.abandon_sub(sub_id),
{
    let once = v.abandon_sub(sub_id);
    let twice = once.abandon_sub(sub_id);
    assert(twice.attempts =~= once.attempts);
    assert(twice.retries =~= once.retries);
    assert(twice.transfers =~= once.transfers);
    assert(twice.pending =~= once.pending);
    assert(twice.active =~= once.active);
    assert(twice.live =~= once.live);
}

proof fn lemma_predecessors_stay_open(p: WirePass, q: Seq<PlanStepView>, priors: Set<RequestKey>)
    requires
        forall|i: int|
            0 <= i < p.sent.len() ==> ((#[trigger] p.sent[i]).op matches WireOp::Close(s)
                ==> !priors.contains(RequestKey { session: p.sent[i].session, sub_id: s })),
    ensures
        forall|i: int|
            0 <= i < wired(p, q, priors).sent.len() ==> ((#[trigger] wired(p, q, priors).sent[i]).op
                matches WireOp::Close(s) ==> !priors.contains(
                RequestKey { session: wired(p, q, priors).sent[i].session, sub_id: s },
            )),
    decreases q.len(),
{
    if q.len() > 0 {
        lemma_predecessors_stay_open(p, q.drop_last(), priors);
        let before = wired(p, q.drop_last(), priors);
        let after = wired(p, q, priors);
        assert forall|i: int| 0 <= i < after.sent.len() implies ((#[trigger] after.sent[i]).op
            matches WireOp::Close(s) ==> !priors.contains(
            RequestKey { session: after.sent[i].session, sub_id: s },
        )) by {
            if i < before.sent.len() {
                assert(after.sent[i] == before.sent[i]);
            }
        }
    }
}

/// A request that is being replaced is not closed by the plan that replaces it:
/// it stays open until its successor is accepted.
pub proof fn plan_keeps_the_predecessor_open(
    v: RequestsView,
    replacements: Seq<RequestReplacement>,
    q: Seq<PlanStepView>,
)
    ensures
        ({
            let sent = plan_pass(v, replacements, q).sent;
            forall|i: int|
                0 <= i < sent.len() ==> ((#[trigger] sent[i]).op matches WireOp::Close(s) ==> !priors_of(
                    replacements,
                ).contains(RequestKey { session: sent[i].session, sub_id: s }))
        }),
{
    let priors = priors_of(replacements);
    let ready = described(reconciled(with_replacements(v, replacements), q, priors), q, priors);
    lemma_predecessors_stay_open(
        WirePass {
            v: ready,
            orders: replacement_orders(v, replacements) + describe_orders(q, priors),
            sent: Seq::empty(),
        },
        q,
        priors,
    );
}

proof fn lemma_sent_with_attempts(p: WirePass, q: Seq<PlanStepView>, priors: Set<RequestKey>)
    requires
        forall|i: int| 0 <= i < p.sent.len() ==> ((#[trigger] p.sent[i]).op is Req <==> p.sent[i].attempt is Some),
    ensures
        forall|i: int|
            0 <= i < wired(p, q, priors).sent.len() ==> ((#[trigger] wired(p, q, priors).sent[i]).op is Req
                <==> wired(p, q, priors).sent[i].attempt is Some),
    decreases q.len(),
{
    if q.len() > 0 {
        lemma_sent_with_attempts(p, q.drop_last(), priors);
        let before = wired(p, q.drop_last(), priors);
        let after = wired(p, q, priors);
        assert forall|i: int| 0 <= i < after.sent.len() implies ((#[trigger] after.sent[i]).op is Req
            <==> after.sent[i].attempt is Some) by {
            if i < before.sent.len() {
                assert(after.sent[i] == before.sent[i]);
            }
        }
    }
}

/// Every request that a plan sends is an attempt of its own; a close is none.
pub proof fn every_sent_request_is_an_attempt(
    v: RequestsView,
    replacements: Seq<RequestReplacement>,
    q: Seq<PlanStepView>,
)
    ensures
        ({
            let sent = plan_pass(v, replacements, q).sent;
            forall|i: int| 0 <= i < sent.len() ==> ((#[trigger] sent[i]).op is Req <==> sent[i].attempt is Some)
        }),
{
    let priors = priors_of(replacements);
    let ready = described(reconciled(with_replacements(v, replacements), q, priors), q, priors);
    lemma_sent_with_attempts(
        WirePass {
            v: ready,
            orders: replacement_orders(v, replacements) + describe_orders(q, priors),
            sent: Seq::empty(),
        },
        q,
        priors,
    );
}

/// A hand-off result concerns the request that it is for, and the predecessor
/// that the request replaces. Every other live request stays as it is.
pub proof fn handoff_leaves_other_requests_alone(
    v: RequestsView,
    outcome: RequestHandoffOutcome,
    now: u64,
    other: RequestKey,
)
    requires
        filed(v),
        v.handed_off(outcome.spec_attempt_id()) matches Some((key, _)) ==> {
            &&& other != key
            &&& v.replacements.contains_key(key.sub_id) ==> other != home_key(
                v.replacements[key.sub_id].prior_sub_id,
            )
        },
    ensures
        v.handoff(outcome, now).live.contains_key(other) <==> v.live.contains_key(other),
        v.live.contains_key(other) ==> v.handoff(outcome, now).live[other] == v.live[other],
{
    lemma_handed_off(v, outcome.spec_attempt_id());
}

/// A refused request waits, exactly once, for a deadline that has not passed,
/// and counts one failure more, as far as failures can be counted.
pub proof fn refusal_parks_one_retry(v: RequestsView, outcome: RequestHandoffOutcome, now: u64)
    requires
        outcome is Refused,
        v.handed_off(outcome.spec_attempt_id()) is Some,
    ensures
        ({
            let a = v.attempts[outcome.spec_attempt_id()];
            let key = RequestKey { session: a.session, sub_id: a.sub_id };
            let after = v.handoff(outcome, now);
            &&& after.retries.contains_key(key)
            &&& after.retries.remove(key) == v.retries.remove(key)
            &&& after.retries[key].attempt == a
            &&& after.retries[key].due >= now
            &&& after.retries[key].failures >= a.retry_failures
            &&& a.retry_failures < u32::MAX ==> after.retries[key].failures == a.retry_failures + 1
            &&& !after.attempts.contains_key(outcome.spec_attempt_id())
        }),
{
    let a = v.attempts[outcome.spec_attempt_id()];
    let key = RequestKey { session: a.session, sub_id: a.sub_id };
    let after = v.handoff(outcome, now);
    assert(after.retries.remove(key) =~= v.retries.remove(key));
}

/// Giving a session up leaves nothing of it: no attempt, no retry, no queue, no
/// live request. A retry can therefore never cross to a later connection of the
/// session.
pub proof fn nothing_of_an_abandoned_session_stays(v: RequestsView, session: RelaySessionKey)
    ensures
        ({
            let after = v.abandon_session(session);
            &&& forall|id: RequestAttemptId| #[trigger]
                after.attempts.contains_key(id) ==> after.attempts[id].session != session
            &&& forall|k: RequestKey| #[trigger] after.retries.contains_key(k) ==> k.session != session
            &&& forall|k: RequestKey| #[trigger] after.pending.contains_key(k) ==> k.session != session
            &&& forall|k: RequestKey| #[trigger] after.live.contains_key(k) ==> k.session != session
            &&& forall|r: u64| #[trigger] after.active.contains_key(r) ==> after.active[r].session != session
        }),
{
}

/// Giving a session up leaves every other session as it is.
pub proof fn abandonment_keeps_other_sessions(v: RequestsView, session: RelaySessionKey, other: RequestKey)
    requires
        other.session != session,
    ensures
        ({
            let after = v.abandon_session(session);
            &&& after.retries.contains_key(other) <==> v.retries.contains_key(other)
            &&& after.pending.contains_key(other) <==> v.pending.contains_key(other)
            &&& after.live.contains_key(other) <==> v.live.contains_key(other)
            &&& v.live.contains_key(other) ==> after.live[other] == v.live[other]
        }),
{
}

/// Claims that could not be written down are not lost: they wait, with one
/// failure more, for a deadline that has not passed.
pub proof fn failed_claims_keep_waiting(v: RequestsView, key: RequestKey, now: u64)
    requires
        v.transfers.contains_key(key),
    ensures
        ({
            let after = v.transfer_failed(key, now);
            &&& after.transfers.contains_key(key)
            &&& after.transfers[key].claims == v.transfers[key].claims
            &&& after.transfers[key].interval == v.transfers[key].interval
            &&& after.transfers[key].due >= now
            &&& after.transfers[key].failures >= v.transfers[key].failures
        }),
{
}

/// A connection that closes takes only what went over it: a live request of a
/// later connection of the same session stays.
pub proof fn closing_keeps_a_later_connection(
    v: RequestsView,
    session: RelaySessionKey,
    handle: TransportRelayHandle,
    key: RequestKey,
)
    requires
        v.live.contains_key(key),
        v.live[key].handle != handle,
    ensures
        v.close_session(session, handle).live.contains_key(key),
        v.close_session(session, handle).live[key] == v.live[key],
        v.close_sub(key, handle).live == v.live,
{
}

} // verus!
