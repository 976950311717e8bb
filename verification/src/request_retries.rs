//! Sending again what was refused, and writing down again what could not be
//! written.

use vstd::prelude::*;

use crate::core_state::CoreState;
use crate::ids::{CoverageKey, DemandKey, RelaySessionKey, RequestAttemptId, RequestKey, SubId};
use crate::key::{is_listing, lemma_listing_exists, lemma_listing_members, lemma_listing_of, listing_of};
use crate::plan_delta::{
    apply_router_plan_delta, plan_pass, plannable, steps_view, touched_by, PlanEffects, PlanStep, SentOp,
};
use crate::plan_roles::{role_in, RoleOf};
use crate::planned_reads::{awaits_auth, entering, PlanDeltaMode};
use crate::request_attempt::AttemptView;
use crate::request_replacements::RequestReplacement;
use crate::requests::{filed, queue_at, PendingView, RequestMetadataUpdate, Requests, RequestsView, SendView};
use crate::sorted::{SortedMap, SortedSet};
use crate::wire::WireOp;

verus! {

/// The requests after some retries, and what went over the wire.
pub struct RetryPass {
    pub v: RequestsView,
    pub sent: Seq<SentOp>,
}

impl RequestsView {
    /// The retries that are due.
    pub open spec fn due_retries(self, now: u64) -> Set<RequestKey> {
        Set::new(|k: RequestKey| self.retries.contains_key(k) && self.retries[k].due <= now)
    }

    /// A parked retry is sent again, as a new attempt that remembers how often it
    /// has failed. It asks for what it had when it was parked and, where it follows
    /// a plan, for what the plan has gained meanwhile.
    pub open spec fn sent_again(self, roles: Map<SubId, RoleOf>, key: RequestKey, revision: u64) -> RequestsView {
        let retry = self.retries[key];
        let due = self.due_attempt(roles, key);
        let id = RequestAttemptId(self.next_id->0);
        let sent = RequestsView { retries: self.retries.remove(key), ..self }.record(
            SendView {
                session: due.session,
                sub_id: due.sub_id,
                filter: due.filter,
                coverage_claims: due.coverage_claims,
                owner_demands: due.owner_demands,
            },
            revision,
        );
        RequestsView {
            attempts: sent.attempts.insert(
                id,
                AttemptView { retry_failures: retry.failures, ..sent.attempts[id] },
            ),
            ..sent
        }
    }
}

/// One parked retry comes due: it is sent again where the plan still asks for
/// it, and is dropped otherwise.
pub open spec fn retry_step(
    p: RetryPass,
    roles: Map<SubId, RoleOf>,
    key: RequestKey,
    revisions: Seq<u64>,
) -> RetryPass {
    if p.v.retries.contains_key(key) && p.v.retry_is_current(roles, key) {
        RetryPass {
            v: p.v.sent_again(roles, key, revisions[p.sent.len() as int]),
            sent: p.sent.push(
                SentOp {
                    session: p.v.retries[key].attempt.session,
                    op: WireOp::Req(
                        p.v.retries[key].attempt.sub_id,
                        p.v.retries[key].attempt.filter,
                    ),
                    attempt: Some(RequestAttemptId(p.v.next_id->0)),
                },
            ),
        }
    } else {
        RetryPass { v: RequestsView { retries: p.v.retries.remove(key), ..p.v }, ..p }
    }
}

pub open spec fn retry_pass(
    v: RequestsView,
    roles: Map<SubId, RoleOf>,
    keys: Seq<RequestKey>,
    revisions: Seq<u64>,
) -> RetryPass
    decreases keys.len(),
{
    if keys.len() == 0 {
        RetryPass { v, sent: Seq::empty() }
    } else {
        retry_step(retry_pass(v, roles, keys.drop_last(), revisions), roles, keys.last(), revisions)
    }
}

/// Every retry sends at most one request and spends at most one number.
proof fn lemma_retry_pass(v: RequestsView, roles: Map<SubId, RoleOf>, keys: Seq<RequestKey>, revisions: Seq<u64>)
    requires
        v.next_id matches Some(n) && n + keys.len() <= u64::MAX,
    ensures
        retry_pass(v, roles, keys, revisions).sent.len() <= keys.len(),
        retry_pass(v, roles, keys, revisions).v.next_id matches Some(n) && n <= v.next_id->0 + keys.len(),
    decreases keys.len(),
{
    if keys.len() > 0 {
        lemma_retry_pass(v, roles, keys.drop_last(), revisions);
    }
}

impl Requests {
    /// Sends every retry again that is due and that the plan still asks for.
    /// `revisions` are the numbers that the new sends are known by, one for each
    /// in order, and `roles` says which subscriptions play a part for the plan of
    /// another.
    pub fn retry_due_request_attempts(
        &mut self,
        now: u64,
        revisions: &Vec<u64>,
        roles: &SortedMap<SubId, RoleOf>,
    ) -> (sent: Vec<SentOp>)
        requires
            old(self).wf(),
            old(self)@.due_retries(now).len() <= revisions@.len(),
            old(self)@.next_id matches Some(n) && n + old(self)@.due_retries(now).len() <= u64::MAX,
        ensures
            final(self).wf(),
            final(self)@ == retry_pass(
                old(self)@,
                roles@,
                listing_of(old(self)@.due_retries(now)),
                revisions@,
            ).v,
            sent@ == retry_pass(
                old(self)@,
                roles@,
                listing_of(old(self)@.due_retries(now)),
                revisions@,
            ).sent,
    {
        let ghost v = self@;
        let keys = self.due_retry_keys(now);
        let ghost q = keys@;
        let ghost r = revisions@;
        proof {
            assert(v.due_retries(now) =~= Set::new(
                |k: RequestKey| v.retries.contains_key(k) && v.retries[k].due <= now,
            ));
            lemma_listing_of(q, v.due_retries(now));
            assert(q.take(0) =~= Seq::<RequestKey>::empty());
        }
        let mut sent: Vec<SentOp> = Vec::new();
        let mut i: usize = 0;
        while i < keys.len()
            invariant
                i <= q.len(),
                q == keys@,
                r == revisions@,
                q.len() <= r.len(),
                v.next_id matches Some(n) && n + q.len() <= u64::MAX,
                self.wf(),
                self@ == retry_pass(v, roles@, q.take(i as int), r).v,
                sent@ == retry_pass(v, roles@, q.take(i as int), r).sent,
            decreases q.len() - i,
        {
            let key = keys[i];
            let ghost before = self@;
            proof {
                assert(q.take(i + 1).drop_last() =~= q.take(i as int));
                assert(q.take(i + 1).last() == key);
                lemma_retry_pass(v, roles@, q.take(i as int), r);
            }
            if let Some(retry) = self.take_due_retry(&key, roles) {
                let session = retry.attempt.session;
                let sub_id = retry.attempt.sub_id;
                let filter = retry.attempt.filter;
                let revision = revisions[sent.len()];
                assert(before.retries.contains_key(key));
                let id = self.resend(retry, revision);
                sent.push(SentOp { session, op: WireOp::Req(sub_id, filter), attempt: Some(id) });
            }
            i = i + 1;
        }
        assert(q.take(i as int) =~= q);
        sent
    }

    /// The outcome of writing down the claims that wait for one request. Where
    /// they could not be written they wait for their next turn. Gives back the
    /// claims that are written down now, and whether the request still stands and
    /// holds them.
    pub fn attempt_request_claim_transfer(&mut self, key: &RequestKey, written: bool, now: u64) -> (r: (
        SortedSet<CoverageKey>,
        bool,
    ))
        requires
            old(self).wf(),
        ensures
            final(self).wf(),
            if written {
                &&& final(self)@ == old(self)@.drop_transfer(*key)
                &&& r.0@ == (if old(self)@.transfers.contains_key(*key) {
                    old(self)@.transfers[*key].claims
                } else {
                    Set::<CoverageKey>::empty()
                })
                &&& r.1 == old(self)@.transfer_current(*key)
            } else {
                &&& final(self)@ == old(self)@.transfer_failed(*key, now)
                &&& r.0@ == Set::<CoverageKey>::empty()
                &&& !r.1
            },
    {
        if written {
            self.claim_transfer_committed(key)
        } else {
            self.claim_transfer_failed(key, now);
            (SortedSet::new(), false)
        }
    }
}

impl CoreState {
    /// Puts a new plan in force. `planned` are the sessions that it reads from.
    pub fn apply_router_plan_delta(
        &mut self,
        replacements: &Vec<RequestReplacement>,
        steps: &Vec<PlanStep>,
        mode: PlanDeltaMode,
        planned: &SortedSet<RelaySessionKey>,
    ) -> (r: PlanEffects)
        requires
            old(self).requests.wf(),
            old(self).reads.wf(),
            plannable(old(self).requests@, replacements@, steps_view(steps@)),
        ensures
            final(self).requests.wf(),
            final(self).reads.wf(),
            *final(self) == (CoreState {
                requests: final(self).requests,
                reads: final(self).reads,
                ..*old(self)
            }),
            ({
                let pass = plan_pass(old(self).requests@, replacements@, steps_view(steps@));
                let ready = old(self).sessions.auth_ready_sessions@.dom();
                &&& final(self).requests@ == pass.v
                &&& r.orders@ == pass.orders
                &&& r.sent@ == pass.sent
                &&& r.diagnostics == (mode is Full)
                &&& match mode {
                    PlanDeltaMode::Full => {
                        &&& final(self).reads@ == old(self).reads@.replan(planned@)
                        &&& is_listing(
                            r.ensure_read@,
                            Set::new(|s: RelaySessionKey| planned@.contains(s) && awaits_auth(ready, s)),
                        )
                    },
                    PlanDeltaMode::Incremental => {
                        let q = listing_of(touched_by(steps_view(steps@)));
                        &&& final(self).reads@ == old(self).reads@.touch_all(planned@, q)
                        &&& r.ensure_read@ == entering(old(self).reads@, planned@, ready, q)
                    },
                }
            }),
    {
        let ready = self.sessions.ready_sessions();
        apply_router_plan_delta(
            &mut self.requests,
            &mut self.reads,
            replacements,
            steps,
            mode,
            planned,
            &ready,
        )
    }
}

/// A retry that the plan no longer asks for is dropped: nothing is sent for it.
pub proof fn stale_retry_is_dropped(
    p: RetryPass,
    roles: Map<SubId, RoleOf>,
    key: RequestKey,
    revisions: Seq<u64>,
)
    requires
        !p.v.retry_is_current(roles, key),
    ensures
        retry_step(p, roles, key, revisions).sent == p.sent,
        !retry_step(p, roles, key, revisions).v.retries.contains_key(key),
{
}

/// A retry that is sent again is a new attempt with a number of its own, and is
/// no longer parked.
pub proof fn retry_is_a_new_attempt(v: RequestsView, roles: Map<SubId, RoleOf>, key: RequestKey, revision: u64)
    requires
        v.retries.contains_key(key),
        v.next_id is Some,
        !v.attempts.contains_key(RequestAttemptId(v.next_id->0)),
    ensures
        ({
            let after = v.sent_again(roles, key, revision);
            let id = RequestAttemptId(v.next_id->0);
            &&& !after.retries.contains_key(key)
            &&& after.attempts.contains_key(id)
            &&& after.attempts[id].retry_failures == v.retries[key].failures
            &&& after.attempts[id].filter == v.retries[key].attempt.filter
            &&& after.next_id != v.next_id
        }),
{
}

/// What a plan gains while a request of it is parked goes out when the request is
/// sent again: the new attempt, and the record of what is awaited, carry the claims
/// and the demands that the request had and those that the plan has gained.
pub proof fn resent_request_carries_the_gain(
    v: RequestsView,
    roles: Map<SubId, RoleOf>,
    key: RequestKey,
    update: RequestMetadataUpdate,
    followers: Set<SubId>,
    revision: u64,
)
    requires
        v.retries.contains_key(key),
        v.next_id is Some,
        v.plans(update.sub_id, update.filter_hash),
        role_in(roles, v.retries[key].attempt).plan == update.sub_id,
        role_in(roles, v.retries[key].attempt).follows,
    ensures
        ({
            let a = v.retries[key].attempt;
            let after = v.update_plan(update, followers).sent_again(roles, key, revision);
            let sent = after.attempts[RequestAttemptId(v.next_id->0)];
            let q = queue_at(after.pending, RequestKey { session: a.session, sub_id: a.sub_id });
            &&& a.coverage_claims.union(update.added_coverage_claims@).subset_of(sent.coverage_claims)
            &&& a.owner_demands.union(update.added_owner_demands@).subset_of(sent.owner_demands)
            &&& q.len() > 0
            &&& q.last().owner_demands == sent.owner_demands
            &&& sent.filter == a.filter
            &&& !after.retries.contains_key(key)
        }),
{
    let w = v.update_plan(update, followers);
    let own = v.extend_metadata(
        update.sub_id,
        update.filter_hash,
        update.added_coverage_claims@,
        update.added_owner_demands@,
    ).edit_owners(
        RequestKey { session: update.session, sub_id: update.sub_id },
        update.filter_hash,
        update.added_owner_demands@,
        true,
    );
    lemma_follow_all_keeps(own, listing_of(followers.remove(update.sub_id)), update.added_owner_demands@);
    assert(w.retries == v.retries);
    assert(w.next_id == v.next_id);
    assert(w.metadata == own.metadata);
}

proof fn lemma_follow_all_keeps(v: RequestsView, q: Seq<SubId>, demands: Set<DemandKey>)
    ensures
        v.follow_all(q, demands).retries == v.retries,
        v.follow_all(q, demands).next_id == v.next_id,
        v.follow_all(q, demands).metadata == v.metadata,
        v.follow_all(q, demands).attempts == v.attempts,
    decreases q.len(),
{
    if q.len() > 0 {
        lemma_follow_all_keeps(v, q.drop_last(), demands);
    }
}

/// A retry that does not follow its plan, such as a fetch of missing ids, is sent
/// again exactly as it was parked, whatever the plan has gained.
pub proof fn missing_id_retry_gains_nothing(
    v: RequestsView,
    roles: Map<SubId, RoleOf>,
    key: RequestKey,
    revision: u64,
)
    requires
        v.retries.contains_key(key),
        v.next_id is Some,
        !role_in(roles, v.retries[key].attempt).follows,
    ensures
        ({
            let a = v.retries[key].attempt;
            let sent = v.sent_again(roles, key, revision).attempts[RequestAttemptId(v.next_id->0)];
            &&& sent.coverage_claims == a.coverage_claims
            &&& sent.owner_demands == a.owner_demands
        }),
{
}

/// Every retry is parked under the key of the request that it is for.
pub open spec fn parked_by_key(v: RequestsView) -> bool {
    forall|k: RequestKey| #[trigger]
        v.retries.contains_key(k) ==> v.retries[k].attempt.session == k.session && v.retries[k].attempt.sub_id
            == k.sub_id
}

/// An operation that asks one request of a relay.
pub open spec fn asks(sent: SentOp, key: RequestKey) -> bool {
    sent.session == key.session && (sent.op matches WireOp::Req(sub_id, _) && sub_id == key.sub_id)
}

/// One send of a pass asks again for what an attempt is due to ask for, as an
/// attempt of its own with the next free number. The attempt on record and the last
/// entry of the request's queue say the same.
pub open spec fn resent(
    p: RetryPass,
    first: u64,
    revisions: Seq<u64>,
    key: RequestKey,
    due: AttemptView,
    failures: u32,
    i: int,
) -> bool {
    let id = RequestAttemptId((first + i) as u64);
    let q = queue_at(p.v.pending, key);
    &&& 0 <= i < p.sent.len()
    &&& first + i < u64::MAX
    &&& p.sent[i] == (SentOp {
        session: due.session,
        op: WireOp::Req(due.sub_id, due.filter),
        attempt: Some(id),
    })
    &&& p.v.attempts.contains_key(id)
    &&& p.v.attempts[id] == (AttemptView {
        request_revision: Some(revisions[i]),
        retry_failures: failures,
        ..due
    })
    &&& q.len() > 0
    &&& q.last() == (PendingView {
        attempt_id: id,
        request_revision: revisions[i],
        session: due.session,
        sub_id: due.sub_id,
        filter: due.filter,
        owner_demands: due.owner_demands,
    })
}

/// What a pass leaves as it was, and which retries it sends.
proof fn lemma_retry_pass_frame(
    v: RequestsView,
    roles: Map<SubId, RoleOf>,
    keys: Seq<RequestKey>,
    revisions: Seq<u64>,
)
    requires
        parked_by_key(v),
        v.next_id matches Some(n) && n + keys.len() <= u64::MAX,
        keys.no_duplicates(),
    ensures
        ({
            let p = retry_pass(v, roles, keys, revisions);
            &&& p.sent.len() <= keys.len()
            &&& p.v.next_id == Some((v.next_id->0 + p.sent.len()) as u64)
            &&& p.v.metadata == v.metadata
            &&& forall|k: RequestKey| #[trigger]
                p.v.retries.contains_key(k) <==> v.retries.contains_key(k) && !keys.contains(k)
            &&& forall|k: RequestKey| #[trigger]
                p.v.retries.contains_key(k) ==> p.v.retries[k] == v.retries[k]
            &&& forall|i: int|
                0 <= i < p.sent.len() ==> ((#[trigger] p.sent[i]).op matches WireOp::Req(sub_id, _) && {
                    let k = RequestKey { session: p.sent[i].session, sub_id };
                    keys.contains(k) && v.retries.contains_key(k) && v.retry_is_current(roles, k)
                })
        }),
    decreases keys.len(),
{
    if keys.len() > 0 {
        let rest = keys.drop_last();
        let key = keys.last();
        assert forall|k: RequestKey| #[trigger] keys.contains(k) <==> rest.contains(k) || k == key by {
            if keys.contains(k) {
                let i = choose|i: int| 0 <= i < keys.len() && keys[i] == k;
                if i < rest.len() {
                    assert(rest[i] == k);
                }
            }
            if rest.contains(k) {
                let i = choose|i: int| 0 <= i < rest.len() && rest[i] == k;
                assert(keys[i] == k);
            }
            assert(keys[keys.len() - 1] == key);
        }
        assert(!rest.contains(key)) by {
            if rest.contains(key) {
                let i = choose|i: int| 0 <= i < rest.len() && rest[i] == key;
                assert(keys[i] == keys[keys.len() - 1]);
            }
        }
        lemma_retry_pass_frame(v, roles, rest, revisions);
        let before = retry_pass(v, roles, rest, revisions);
        let p = retry_pass(v, roles, keys, revisions);
        assert(p == retry_step(before, roles, key, revisions));
        if before.v.retries.contains_key(key) && before.v.retry_is_current(roles, key) {
            assert(before.v.retries[key] == v.retries[key]);
            assert(p.sent.drop_last() =~= before.sent);
        }
    }
}

/// A current retry among those of a pass is sent by it.
proof fn lemma_resent(
    v: RequestsView,
    roles: Map<SubId, RoleOf>,
    keys: Seq<RequestKey>,
    revisions: Seq<u64>,
    key: RequestKey,
) -> (i: int)
    requires
        parked_by_key(v),
        v.next_id matches Some(n) && n + keys.len() <= u64::MAX,
        keys.no_duplicates(),
        keys.contains(key),
        v.retries.contains_key(key),
        v.retry_is_current(roles, key),
    ensures
        ({
            let p = retry_pass(v, roles, keys, revisions);
            &&& resent(
                p,
                v.next_id->0,
                revisions,
                key,
                v.due_attempt(roles, key),
                v.retries[key].failures,
                i,
            )
            &&& forall|j: int| 0 <= j < p.sent.len() && j != i ==> !asks(#[trigger] p.sent[j], key)
        }),
    decreases keys.len(),
{
    let rest = keys.drop_last();
    let last = keys.last();
    let before = retry_pass(v, roles, rest, revisions);
    let p = retry_pass(v, roles, keys, revisions);
    let at = choose|at: int| 0 <= at < keys.len() && keys[at] == key;
    lemma_retry_pass_frame(v, roles, rest, revisions);
    assert(p == retry_step(before, roles, last, revisions));
    if last == key {
        assert(!rest.contains(key)) by {
            if rest.contains(key) {
                let j = choose|j: int| 0 <= j < rest.len() && rest[j] == key;
                assert(keys[j] == keys[keys.len() - 1]);
            }
        }
        assert(before.v.retries.contains_key(key));
        assert(before.v.retries[key] == v.retries[key]);
        let i = before.sent.len() as int;
        assert forall|j: int| 0 <= j < p.sent.len() && j != i implies !asks(#[trigger] p.sent[j], key) by {
            assert(p.sent[j] == before.sent[j]);
        }
        i
    } else {
        assert(rest[at] == key);
        let i = lemma_resent(v, roles, rest, revisions, key);
        if before.v.retries.contains_key(last) && before.v.retry_is_current(roles, last) {
            assert(before.v.retries[last] == v.retries[last]);
            assert(p.sent[i] == before.sent[i]);
            assert forall|j: int| 0 <= j < p.sent.len() && j != i implies !asks(#[trigger] p.sent[j], key) by {
                if j < before.sent.len() {
                    assert(p.sent[j] == before.sent[j]);
                }
            }
        }
        i
    }
}

/// However many retries are due at once, each that its plan still asks for is sent
/// again exactly once: with the filter that it had, as an attempt of its own with a
/// number that was free, remembering how often it has failed, and with what its
/// plan has gained. None of those that were due stays parked.
pub proof fn due_retries_are_sent_once(
    v: RequestsView,
    roles: Map<SubId, RoleOf>,
    now: u64,
    revisions: Seq<u64>,
    key: RequestKey,
)
    requires
        filed(v),
        v.due_retries(now).finite(),
        v.next_id matches Some(n) && n + v.due_retries(now).len() <= u64::MAX,
        v.due_retries(now).contains(key),
    ensures
        ({
            let p = retry_pass(v, roles, listing_of(v.due_retries(now)), revisions);
            &&& !p.v.retries.contains_key(key)
            &&& v.retry_is_current(roles, key) ==> exists|i: int|
                {
                    &&& #[trigger] resent(
                        p,
                        v.next_id->0,
                        revisions,
                        key,
                        v.due_attempt(roles, key),
                        v.retries[key].failures,
                        i,
                    )
                    &&& forall|j: int| 0 <= j < p.sent.len() && j != i ==> !asks(#[trigger] p.sent[j], key)
                }
            &&& !v.retry_is_current(roles, key) ==> forall|j: int|
                0 <= j < p.sent.len() ==> !asks(#[trigger] p.sent[j], key)
        }),
{
    let keys = listing_of(v.due_retries(now));
    lemma_listing_exists(v.due_retries(now));
    lemma_listing_members(keys, v.due_retries(now));
    lemma_retry_pass_frame(v, roles, keys, revisions);
    assert(keys.contains(key));
    if v.retry_is_current(roles, key) {
        let i = lemma_resent(v, roles, keys, revisions, key);
    }
}

/// What a plan gains while requests of it are parked goes out when they are due,
/// however many are due at once: each is sent again with the claims and the demands
/// that it had, those of its plan, and those that the plan has gained.
pub proof fn due_retries_carry_the_gain(
    v: RequestsView,
    roles: Map<SubId, RoleOf>,
    update: RequestMetadataUpdate,
    followers: Set<SubId>,
    now: u64,
    revisions: Seq<u64>,
    key: RequestKey,
)
    requires
        filed(v),
        v.due_retries(now).finite(),
        v.next_id matches Some(n) && n + v.due_retries(now).len() <= u64::MAX,
        v.due_retries(now).contains(key),
        v.retry_is_current(roles, key),
        v.plans(update.sub_id, update.filter_hash),
        role_in(roles, v.retries[key].attempt).plan == update.sub_id,
        role_in(roles, v.retries[key].attempt).follows,
    ensures
        ({
            let a = v.retries[key].attempt;
            let m = v.metadata[update.sub_id];
            let w = v.update_plan(update, followers);
            let p = retry_pass(w, roles, listing_of(w.due_retries(now)), revisions);
            let due = AttemptView {
                coverage_claims: a.coverage_claims.union(m.coverage_claims).union(update.added_coverage_claims@),
                owner_demands: a.owner_demands.union(m.owner_demands).union(update.added_owner_demands@),
                ..a
            };
            &&& !p.v.retries.contains_key(key)
            &&& exists|i: int|
                {
                    &&& #[trigger] resent(p, v.next_id->0, revisions, key, due, v.retries[key].failures, i)
                    &&& forall|j: int| 0 <= j < p.sent.len() && j != i ==> !asks(#[trigger] p.sent[j], key)
                }
        }),
{
    let a = v.retries[key].attempt;
    let m = v.metadata[update.sub_id];
    let w = v.update_plan(update, followers);
    let own = v.extend_metadata(
        update.sub_id,
        update.filter_hash,
        update.added_coverage_claims@,
        update.added_owner_demands@,
    ).edit_owners(
        RequestKey { session: update.session, sub_id: update.sub_id },
        update.filter_hash,
        update.added_owner_demands@,
        true,
    );
    lemma_follow_all_keeps(own, listing_of(followers.remove(update.sub_id)), update.added_owner_demands@);
    assert(w.retries == v.retries);
    assert(w.next_id == v.next_id);
    assert(w.metadata == own.metadata);
    assert(w.due_retries(now) =~= v.due_retries(now));
    let due = AttemptView {
        coverage_claims: a.coverage_claims.union(m.coverage_claims).union(update.added_coverage_claims@),
        owner_demands: a.owner_demands.union(m.owner_demands).union(update.added_owner_demands@),
        ..a
    };
    assert(w.due_attempt(roles, key).coverage_claims =~= due.coverage_claims);
    assert(w.due_attempt(roles, key).owner_demands =~= due.owner_demands);
    assert(w.due_attempt(roles, key) == due);
    let keys = listing_of(w.due_retries(now));
    lemma_listing_exists(w.due_retries(now));
    lemma_listing_members(keys, w.due_retries(now));
    assert(keys.contains(key));
    lemma_retry_pass_frame(w, roles, keys, revisions);
    let i = lemma_resent(w, roles, keys, revisions, key);
}

} // verus!
