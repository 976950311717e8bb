//! What a plan that is put in force sends, closes and keeps.

use vstd::prelude::*;

use crate::ids::{RelaySessionKey, RequestAttemptId, RequestKey, SubId};
use crate::key::listing_of;
use crate::plan_delta::{
    describe_orders, describe_step, described, plan_pass, priors_of, reconcile_step, reconciled, replacement_orders,
    touched_by, wire_step, wired, with_replacements, PlanStepView, PlannedOpView, SentOp, WirePass,
};
use crate::planned_reads::{entering, incremental_plan_opens_what_enters, ReadsView};
use crate::request_replacements::RequestReplacement;
use crate::requests::{home_key, RequestOrder, RequestsView};
use crate::wire::WireOp;
use crate::request_attempt::AttemptView;

verus! {

/// A plan asks for a request at one of its steps.
pub open spec fn asks_at(q: Seq<PlanStepView>, i: int) -> bool {
    0 <= i < q.len() && q[i].op is Req
}

/// The plan closes a subscription at one of its steps, and no replacement of the plan
/// keeps that subscription open.
pub open spec fn closes_at(q: Seq<PlanStepView>, replacements: Seq<RequestReplacement>, i: int, s: SubId) -> bool {
    &&& 0 <= i < q.len()
    &&& q[i].op == PlannedOpView::Close(s)
    &&& forall|j: int|
        0 <= j < replacements.len() ==> !((#[trigger] replacements[j]).session == q[i].session
            && replacements[j].prior_sub_id == s)
}

/// A plan opens a worker in incremental mode for a session if and only if one of its
/// steps is on the session, it reads from the session now and did not before, and the
/// session names an account that it has not authenticated as yet; for each once.
pub proof fn plan_opens_the_sessions_that_enter(
    reads: ReadsView,
    planned: Set<RelaySessionKey>,
    ready: Set<RelaySessionKey>,
    q: Seq<PlanStepView>,
    s: RelaySessionKey,
)
    ensures
        ({
            let opened = entering(reads, planned, ready, listing_of(touched_by(q)));
            &&& opened.contains(s) <==> (exists|i: int| 0 <= i < q.len() && (#[trigger] q[i]).session == s)
                && planned.contains(s) && !reads.sessions.contains(s) && s.authenticate_as is Some
                && !ready.contains(s)
            &&& opened.no_duplicates()
        }),
{
    let all = q.map_values(|step: PlanStepView| step.session);
    vstd::seq_lib::seq_to_set_is_finite(all);
    assert(touched_by(q).subset_of(all.to_set())) by {
        assert forall|x: RelaySessionKey| touched_by(q).contains(x) implies all.to_set().contains(x) by {
            let i = choose|i: int| 0 <= i < q.len() && (#[trigger] q[i]).session == x;
            assert(all[i] == x);
        }
    }
    vstd::set_lib::lemma_set_subset_finite(all.to_set(), touched_by(q));
    incremental_plan_opens_what_enters(reads, planned, ready, touched_by(q));
}

/// How the numbers of the attempts go on, and which requests are sent.
proof fn lemma_wired(p: WirePass, q: Seq<PlanStepView>, priors: Set<RequestKey>, n: u64)
    requires
        p.v.next_id == Some(n),
        n + q.len() <= u64::MAX,
    ensures
        ({
            let w = wired(p, q, priors);
            &&& w.v.next_id matches Some(m) && n <= m <= n + q.len()
            &&& w.sent.len() >= p.sent.len()
            &&& forall|k: int| 0 <= k < p.sent.len() ==> #[trigger] w.sent[k] == p.sent[k]
            &&& w.orders.len() >= p.orders.len()
            &&& forall|k: int| 0 <= k < p.orders.len() ==> #[trigger] w.orders[k] == p.orders[k]
            &&& forall|k: int|
                p.sent.len() <= k < w.sent.len() ==> (match (#[trigger] w.sent[k]).op {
                    WireOp::Req(sub_id, filter) => w.sent[k].attempt matches Some(id) && n <= id.0
                        < w.v.next_id->0,
                    WireOp::Close(_) => w.sent[k].attempt is None,
                })
            &&& forall|k: int, l: int|
                p.sent.len() <= k < l < w.sent.len() && (#[trigger] w.sent[k]).op is Req && (
                #[trigger] w.sent[l]).op is Req ==> (w.sent[k].attempt->0).0 < (w.sent[l].attempt->0).0
        }),
    decreases q.len(),
{
    if q.len() > 0 {
        let rest = q.drop_last();
        lemma_wired(p, rest, priors, n);
        let b = wired(p, rest, priors);
        let w = wired(p, q, priors);
        assert(w == wire_step(b, q.last(), priors));
        assert forall|k: int| 0 <= k < b.sent.len() implies #[trigger] w.sent[k] == b.sent[k] by {}
        assert forall|k: int| 0 <= k < b.orders.len() implies #[trigger] w.orders[k] == b.orders[k] by {}
    }
}

/// Which step each operation that is sent comes from.
proof fn lemma_sent_from(p: WirePass, q: Seq<PlanStepView>, priors: Set<RequestKey>, k: int)
    requires
        p.sent.len() <= k < wired(p, q, priors).sent.len(),
    ensures
        ({
            let op = wired(p, q, priors).sent[k];
            exists|i: int|
                0 <= i < q.len() && (#[trigger] q[i]).session == op.session && match q[i].op {
                    PlannedOpView::Req(sub_id, filter, _, _, _) => op.op == WireOp::Req(sub_id, filter),
                    PlannedOpView::Close(sub_id) => op.op == WireOp::Close(sub_id) && !priors.contains(
                        RequestKey { session: q[i].session, sub_id },
                    ),
                }
        }),
    decreases q.len(),
{
    let rest = q.drop_last();
    if q.len() > 0 {
        let b = wired(p, rest, priors);
        let w = wired(p, q, priors);
        assert(w == wire_step(b, q.last(), priors));
        assert(q.last() == q[q.len() - 1]);
        if k < b.sent.len() {
            assert(w.sent[k] == b.sent[k]);
            lemma_sent_from(p, rest, priors, k);
            let op = b.sent[k];
            let i = choose|i: int|
                0 <= i < rest.len() && (#[trigger] rest[i]).session == op.session && match rest[i].op {
                    PlannedOpView::Req(sub_id, filter, _, _, _) => op.op == WireOp::Req(sub_id, filter),
                    PlannedOpView::Close(sub_id) => op.op == WireOp::Close(sub_id) && !priors.contains(
                        RequestKey { session: rest[i].session, sub_id },
                    ),
                };
            assert(q[i] == rest[i]);
        }
    }
}

/// Where the operation of one step is sent.
proof fn lemma_step_is_sent(p: WirePass, q: Seq<PlanStepView>, priors: Set<RequestKey>, i: int) -> (k: int)
    requires
        0 <= i < q.len(),
        match q[i].op {
            PlannedOpView::Req(_, _, _, _, _) => true,
            PlannedOpView::Close(sub_id) => !priors.contains(RequestKey { session: q[i].session, sub_id })
                && !p.v.replacements.contains_key(sub_id),
        },
    ensures
        ({
            let w = wired(p, q, priors);
            &&& p.sent.len() <= k < w.sent.len()
            &&& w.sent[k].session == q[i].session
            &&& w.sent[k].op == (match q[i].op {
                PlannedOpView::Req(sub_id, filter, _, _, _) => WireOp::Req(sub_id, filter),
                PlannedOpView::Close(sub_id) => WireOp::Close(sub_id),
            })
        }),
        forall|s: SubId| #[trigger]
            wired(p, q, priors).v.replacements.contains_key(s) ==> p.v.replacements.contains_key(s),
    decreases q.len(),
{
    let rest = q.drop_last();
    let b = wired(p, rest, priors);
    let w = wired(p, q, priors);
    assert(w == wire_step(b, q.last(), priors));
    lemma_replacements_only_go(p, rest, priors);
    lemma_replacements_only_go(p, q, priors);
    lemma_sent_grows(p, rest, priors);
    if i < rest.len() {
        assert(rest[i] == q[i]);
        let k = lemma_step_is_sent(p, rest, priors, i);
        assert(w.sent[k] == b.sent[k]);
        k
    } else {
        assert(q.last() == q[i]);
        b.sent.len() as int
    }
}

proof fn lemma_sent_grows(p: WirePass, q: Seq<PlanStepView>, priors: Set<RequestKey>)
    ensures
        wired(p, q, priors).sent.len() >= p.sent.len(),
    decreases q.len(),
{
    if q.len() > 0 {
        lemma_sent_grows(p, q.drop_last(), priors);
    }
}

proof fn lemma_replacements_only_go(p: WirePass, q: Seq<PlanStepView>, priors: Set<RequestKey>)
    ensures
        forall|s: SubId| #[trigger]
            wired(p, q, priors).v.replacements.contains_key(s) ==> p.v.replacements.contains_key(s),
    decreases q.len(),
{
    if q.len() > 0 {
        lemma_replacements_only_go(p, q.drop_last(), priors);
    }
}

proof fn lemma_ready_keeps(v: RequestsView, q: Seq<PlanStepView>, priors: Set<RequestKey>)
    ensures
        described(v, q, priors).next_id == v.next_id,
        described(v, q, priors).replacements == v.replacements,
        described(v, q, priors).attempts == v.attempts,
        described(v, q, priors).pending == v.pending,
        described(v, q, priors).live == v.live,
        described(v, q, priors).active == v.active,
        described(v, q, priors).retries == v.retries,
        described(v, q, priors).transfers == v.transfers,
        reconciled(v, q, priors).next_id == v.next_id,
        reconciled(v, q, priors).replacements == v.replacements,
        reconciled(v, q, priors).attempts == v.attempts,
        reconciled(v, q, priors).pending == v.pending,
        reconciled(v, q, priors).live == v.live,
        reconciled(v, q, priors).active == v.active,
        reconciled(v, q, priors).retries == v.retries,
        reconciled(v, q, priors).metadata == v.metadata,
    decreases q.len(),
{
    if q.len() > 0 {
        lemma_ready_keeps(v, q.drop_last(), priors);
    }
}

proof fn lemma_taken_on(v: RequestsView, rs: Seq<RequestReplacement>, s: SubId)
    ensures
        with_replacements(v, rs).next_id == v.next_id,
        with_replacements(v, rs).replacements.contains_key(s) ==> v.replacements.contains_key(s) || exists|
            j: int,
        | 0 <= j < rs.len() && (#[trigger] rs[j]).next_sub_id == s,
    decreases rs.len(),
{
    if rs.len() > 0 {
        let rest = rs.drop_last();
        lemma_taken_on(v, rest, s);
        assert(rs.last() == rs[rs.len() - 1]);
        if with_replacements(v, rest).replacements.contains_key(s) && !v.replacements.contains_key(s) {
            let j = choose|j: int| 0 <= j < rest.len() && (#[trigger] rest[j]).next_sub_id == s;
            assert(rs[j].next_sub_id == s);
        }
    }
}

/// A plan sends nothing that it does not ask for: every request that is sent is asked
/// for by a step, on the session of the step and with its filter, and every close that
/// is sent is asked for by a step whose subscription no replacement of the plan keeps
/// open.
pub proof fn plan_sends_nothing_else(
    v: RequestsView,
    rs: Seq<RequestReplacement>,
    q: Seq<PlanStepView>,
    k: int,
)
    requires
        0 <= k < plan_pass(v, rs, q).sent.len(),
    ensures
        ({
            let op = plan_pass(v, rs, q).sent[k];
            match op.op {
                WireOp::Req(sub_id, filter) => exists|i: int|
                    #[trigger] asks_at(q, i) && q[i].session == op.session && q[i].op->Req_0 == sub_id
                        && q[i].op->Req_1 == filter,
                WireOp::Close(sub_id) => exists|i: int|
                    #[trigger] closes_at(q, rs, i, sub_id) && q[i].session == op.session,
            }
        }),
{
    let priors = priors_of(rs);
    let ready = described(reconciled(with_replacements(v, rs), q, priors), q, priors);
    let p = WirePass {
        v: ready,
        orders: replacement_orders(v, rs) + describe_orders(q, priors),
        sent: Seq::empty(),
    };
    lemma_sent_from(p, q, priors, k);
    let op = plan_pass(v, rs, q).sent[k];
    let i = choose|i: int|
        0 <= i < q.len() && (#[trigger] q[i]).session == op.session && match q[i].op {
            PlannedOpView::Req(sub_id, filter, _, _, _) => op.op == WireOp::Req(sub_id, filter),
            PlannedOpView::Close(sub_id) => op.op == WireOp::Close(sub_id) && !priors.contains(
                RequestKey { session: q[i].session, sub_id },
            ),
        };
    match op.op {
        WireOp::Req(sub_id, filter) => {
            assert(asks_at(q, i));
        },
        WireOp::Close(sub_id) => {
            assert forall|j: int| 0 <= j < rs.len() implies !((#[trigger] rs[j]).session == q[i].session
                && rs[j].prior_sub_id == sub_id) by {
                if rs[j].session == q[i].session && rs[j].prior_sub_id == sub_id {
                    assert(priors.contains(RequestKey { session: q[i].session, sub_id }));
                }
            }
            assert(closes_at(q, rs, i, sub_id));
        },
    }
}

/// A plan sends every request that it asks for, each as an attempt of its own under a
/// number that was free, and every close that it asks for, but for a subscription that
/// a replacement keeps open and for one that waits to replace another.
pub proof fn plan_sends_what_it_asks_for(
    v: RequestsView,
    rs: Seq<RequestReplacement>,
    q: Seq<PlanStepView>,
    i: int,
)
    requires
        v.next_id matches Some(n) && n + q.len() <= u64::MAX,
        0 <= i < q.len(),
    ensures
        ({
            let sent = plan_pass(v, rs, q).sent;
            match q[i].op {
                PlannedOpView::Req(sub_id, filter, _, _, _) => exists|k: int|
                    0 <= k < sent.len() && (#[trigger] sent[k]).session == q[i].session && sent[k].op
                        == WireOp::Req(sub_id, filter) && (sent[k].attempt matches Some(id) && id.0
                        >= v.next_id->0),
                PlannedOpView::Close(sub_id) => closes_at(q, rs, i, sub_id) && !v.replacements.contains_key(
                    sub_id,
                ) && (forall|j: int| 0 <= j < rs.len() ==> (#[trigger] rs[j]).next_sub_id != sub_id)
                    ==> exists|k: int|
                    0 <= k < sent.len() && (#[trigger] sent[k]).session == q[i].session && sent[k].op
                        == WireOp::Close(sub_id),
            }
        }),
        forall|k: int, l: int| #![trigger plan_pass(v, rs, q).sent[k], plan_pass(v, rs, q).sent[l]]
            0 <= k < l < plan_pass(v, rs, q).sent.len() && plan_pass(v, rs, q).sent[k].op is Req && plan_pass(
                v,
                rs,
                q,
            ).sent[l].op is Req ==> (plan_pass(v, rs, q).sent[k].attempt->0).0 < (plan_pass(
                v,
                rs,
                q,
            ).sent[l].attempt->0).0,
{
    let priors = priors_of(rs);
    let base = with_replacements(v, rs);
    let ready = described(reconciled(base, q, priors), q, priors);
    let p = WirePass {
        v: ready,
        orders: replacement_orders(v, rs) + describe_orders(q, priors),
        sent: Seq::empty(),
    };
    lemma_ready_keeps(base, q, priors);
    lemma_ready_keeps(reconciled(base, q, priors), q, priors);
    match q[i].op {
        PlannedOpView::Req(sub_id, filter, _, _, _) => {
            lemma_taken_on(v, rs, sub_id);
            lemma_wired(p, q, priors, v.next_id->0);
            let k = lemma_step_is_sent(p, q, priors, i);
        },
        PlannedOpView::Close(sub_id) => {
            lemma_taken_on(v, rs, sub_id);
            lemma_wired(p, q, priors, v.next_id->0);
            if closes_at(q, rs, i, sub_id) && !v.replacements.contains_key(sub_id) && (forall|j: int|
                0 <= j < rs.len() ==> (#[trigger] rs[j]).next_sub_id != sub_id) {
                assert(!priors.contains(RequestKey { session: q[i].session, sub_id }));
                let k = lemma_step_is_sent(p, q, priors, i);
            }
        },
    }
}

/// What the plan says of a subscription stays as its last request says it, where no
/// step closes anything.
proof fn lemma_described(v: RequestsView, q: Seq<PlanStepView>, priors: Set<RequestKey>, i: int)
    requires
        asks_at(q, i),
        forall|j: int| i < j < q.len() ==> !((#[trigger] q[j]).op is Close) && q[j].op->Req_0
            != q[i].op->Req_0,
    ensures
        ({
            let s = q[i].op->Req_0;
            let w = described(v, q, priors);
            &&& w.metadata.contains_key(s)
            &&& w.metadata[s].filter == q[i].op->Req_1
            &&& w.metadata[s].coverage_claims == q[i].op->Req_2
            &&& w.metadata[s].owner_demands == q[i].op->Req_3
        }),
    decreases q.len(),
{
    let rest = q.drop_last();
    if i < rest.len() {
        assert(rest[i] == q[i]);
        assert forall|j: int| i < j < rest.len() implies !((#[trigger] rest[j]).op is Close)
            && rest[j].op->Req_0 != rest[i].op->Req_0 by {
            assert(rest[j] == q[j]);
        }
        lemma_described(v, rest, priors, i);
        assert(!(q[q.len() - 1].op is Close));
    }
}

proof fn lemma_opened(p: WirePass, q: Seq<PlanStepView>, priors: Set<RequestKey>, n: u64, i: int)
    requires
        p.v.next_id == Some(n),
        n + q.len() <= u64::MAX,
        0 <= i < q.len(),
        forall|j: int| 0 <= j < q.len() ==> (#[trigger] q[j]).op is Req,
    ensures
        ({
            let w = wired(p, q, priors);
            let id = RequestAttemptId((n + i) as u64);
            &&& w.v.next_id == Some((n + q.len()) as u64)
            &&& w.sent.len() == p.sent.len() + q.len()
            &&& w.sent[p.sent.len() + i] == (SentOp {
                session: q[i].session,
                op: WireOp::Req(q[i].op->Req_0, q[i].op->Req_1),
                attempt: Some(id),
            })
            &&& w.v.attempts.contains_key(id)
            &&& w.v.attempts[id] == (AttemptView {
                session: q[i].session,
                sub_id: q[i].op->Req_0,
                filter: q[i].op->Req_1,
                coverage_claims: q[i].op->Req_2,
                owner_demands: q[i].op->Req_3,
                request_revision: Some(q[i].op->Req_4),
                retry_failures: 0,
            })
            &&& w.v.metadata == p.v.metadata
            &&& w.v.live == p.v.live
            &&& w.v.active == p.v.active
            &&& w.v.replacements == p.v.replacements
            &&& w.orders == p.orders
        }),
    decreases q.len(),
{
    let rest = q.drop_last();
    let b = wired(p, rest, priors);
    let w = wired(p, q, priors);
    assert(w == wire_step(b, q.last(), priors));
    assert(q.last() == q[q.len() - 1]);
    assert forall|j: int| 0 <= j < rest.len() implies (#[trigger] rest[j]).op is Req by {
        assert(rest[j] == q[j]);
    }
    if i < rest.len() {
        assert(rest[i] == q[i]);
        lemma_opened(p, rest, priors, n, i);
    } else if rest.len() > 0 {
        lemma_opened(p, rest, priors, n, 0);
    } else {
        assert(b == p);
    }
}

/// A plan that only opens requests, and replaces none, sends exactly them, in order,
/// under the numbers that follow the last one. Each attempt asks for what its step
/// asks for; what the plan says of a subscription is what its last step says; its
/// planned claims are held; and what is live stays live.
pub proof fn opening_plan_sends_each_request_once(v: RequestsView, q: Seq<PlanStepView>, i: int)
    requires
        v.next_id matches Some(n) && n + q.len() <= u64::MAX,
        0 <= i < q.len(),
        forall|j: int| 0 <= j < q.len() ==> (#[trigger] q[j]).op is Req,
    ensures
        ({
            let p = plan_pass(v, Seq::empty(), q);
            let id = RequestAttemptId((v.next_id->0 + i) as u64);
            &&& p.sent.len() == q.len()
            &&& p.sent[i] == (SentOp {
                session: q[i].session,
                op: WireOp::Req(q[i].op->Req_0, q[i].op->Req_1),
                attempt: Some(id),
            })
            &&& p.v.attempts.contains_key(id)
            &&& p.v.attempts[id].session == q[i].session
            &&& p.v.attempts[id].sub_id == q[i].op->Req_0
            &&& p.v.attempts[id].filter == q[i].op->Req_1
            &&& p.v.attempts[id].coverage_claims == q[i].op->Req_2
            &&& p.v.attempts[id].owner_demands == q[i].op->Req_3
            &&& p.v.attempts[id].request_revision == Some(q[i].op->Req_4)
            &&& (forall|j: int| i < j < q.len() ==> (#[trigger] q[j]).op->Req_0 != q[i].op->Req_0) ==> {
                let m = p.v.metadata[q[i].op->Req_0];
                &&& p.v.metadata.contains_key(q[i].op->Req_0)
                &&& m.filter == q[i].op->Req_1
                &&& m.coverage_claims == q[i].op->Req_2
                &&& m.owner_demands == q[i].op->Req_3
            }
            &&& p.v.live == v.live
            &&& p.v.active == v.active
            &&& p.v.replacements == v.replacements
            &&& p.orders.len() == q.len()
            &&& p.orders[i] == RequestOrder::HoldPlannedClaims(q[i].op->Req_0)
        }),
{
    let rs = Seq::<RequestReplacement>::empty();
    let priors = priors_of(rs);
    let ready = described(reconciled(v, q, priors), q, priors);
    let p = WirePass {
        v: ready,
        orders: replacement_orders(v, rs) + describe_orders(q, priors),
        sent: Seq::empty(),
    };
    lemma_ready_keeps(v, q, priors);
    lemma_ready_keeps(reconciled(v, q, priors), q, priors);
    assert(with_replacements(v, rs) == v);
    lemma_opened(p, q, priors, v.next_id->0, i);
    if forall|j: int| i < j < q.len() ==> (#[trigger] q[j]).op->Req_0 != q[i].op->Req_0 {
        lemma_described(reconciled(v, q, priors), q, priors, i);
    }
    lemma_holds(q, priors, i);
    assert(p.orders =~= describe_orders(q, priors));
}

proof fn lemma_holds(q: Seq<PlanStepView>, priors: Set<RequestKey>, i: int)
    requires
        0 <= i < q.len(),
        forall|j: int| 0 <= j < q.len() ==> (#[trigger] q[j]).op is Req,
    ensures
        describe_orders(q, priors).len() == q.len(),
        describe_orders(q, priors)[i] == RequestOrder::HoldPlannedClaims(q[i].op->Req_0),
    decreases q.len(),
{
    let rest = q.drop_last();
    assert(q.last() == q[q.len() - 1]);
    assert forall|j: int| 0 <= j < rest.len() implies (#[trigger] rest[j]).op is Req by {
        assert(rest[j] == q[j]);
    }
    if i < rest.len() {
        assert(rest[i] == q[i]);
        lemma_holds(rest, priors, i);
    } else if rest.len() > 0 {
        lemma_holds(rest, priors, 0);
    } else {
        assert(describe_orders(rest, priors).len() == 0);
    }
}

proof fn lemma_described_orders(q: Seq<PlanStepView>, priors: Set<RequestKey>, s: SubId)
    ensures
        describe_orders(q, priors).contains(RequestOrder::HoldPlannedClaims(s)) <==> exists|i: int|
            #[trigger] asks_at(q, i) && q[i].op->Req_0 == s,
        describe_orders(q, priors).contains(RequestOrder::ReleaseLiveClaims(s)) <==> exists|i: int|
            0 <= i < q.len() && (#[trigger] q[i]).op == PlannedOpView::Close(s) && !priors.contains(
                RequestKey { session: q[i].session, sub_id: s },
            ),
    decreases q.len(),
{
    if q.len() > 0 {
        let rest = q.drop_last();
        let n = rest.len() as int;
        lemma_described_orders(rest, priors, s);
        assert(q.last() == q[n]);
        assert forall|i: int| 0 <= i < n implies #[trigger] rest[i] == q[i] by {}
        let before = describe_orders(rest, priors);
        let now = describe_orders(q, priors);
        crate::key::lemma_push_contains(before, RequestOrder::HoldPlannedClaims(q.last().op->Req_0));
        crate::key::lemma_push_contains(before, RequestOrder::ReleaseLiveClaims(q.last().op->Close_0));
        if exists|i: int| #[trigger] asks_at(rest, i) && rest[i].op->Req_0 == s {
            let i = choose|i: int| #[trigger] asks_at(rest, i) && rest[i].op->Req_0 == s;
            assert(asks_at(q, i) && q[i].op->Req_0 == s);
        }
        if exists|i: int| #[trigger] asks_at(q, i) && q[i].op->Req_0 == s {
            let i = choose|i: int| #[trigger] asks_at(q, i) && q[i].op->Req_0 == s;
            if i < n {
                assert(asks_at(rest, i) && rest[i].op->Req_0 == s);
            }
        }
        if q.last().op is Req && q.last().op->Req_0 == s {
            assert(asks_at(q, n));
        }
        if exists|i: int|
            0 <= i < rest.len() && (#[trigger] rest[i]).op == PlannedOpView::Close(s) && !priors.contains(
                RequestKey { session: rest[i].session, sub_id: s },
            ) {
            let i = choose|i: int|
                0 <= i < rest.len() && (#[trigger] rest[i]).op == PlannedOpView::Close(s) && !priors.contains(
                    RequestKey { session: rest[i].session, sub_id: s },
                );
            assert(q[i].op == PlannedOpView::Close(s));
        }
        if exists|i: int|
            0 <= i < q.len() && (#[trigger] q[i]).op == PlannedOpView::Close(s) && !priors.contains(
                RequestKey { session: q[i].session, sub_id: s },
            ) {
            let i = choose|i: int|
                0 <= i < q.len() && (#[trigger] q[i]).op == PlannedOpView::Close(s) && !priors.contains(
                    RequestKey { session: q[i].session, sub_id: s },
                );
            if i < n {
                assert(rest[i].op == PlannedOpView::Close(s));
            }
        }
    }
}

/// A plan orders the planned claims of every request that it asks for to be held, and
/// the live claims of every subscription that it closes, and that no replacement keeps
/// open, to be released.
pub proof fn plan_orders_follow_its_steps(
    v: RequestsView,
    rs: Seq<RequestReplacement>,
    q: Seq<PlanStepView>,
    i: int,
)
    requires
        v.next_id matches Some(n) && n + q.len() <= u64::MAX,
        0 <= i < q.len(),
    ensures
        ({
            let orders = plan_pass(v, rs, q).orders;
            match q[i].op {
                PlannedOpView::Req(sub_id, _, _, _, _) => orders.contains(
                    RequestOrder::HoldPlannedClaims(sub_id),
                ),
                PlannedOpView::Close(sub_id) => closes_at(q, rs, i, sub_id) ==> orders.contains(
                    RequestOrder::ReleaseLiveClaims(sub_id),
                ),
            }
        }),
{
    let priors = priors_of(rs);
    let base = with_replacements(v, rs);
    let ready = described(reconciled(base, q, priors), q, priors);
    let first = replacement_orders(v, rs);
    let second = describe_orders(q, priors);
    let p = WirePass { v: ready, orders: first + second, sent: Seq::empty() };
    lemma_ready_keeps(base, q, priors);
    lemma_ready_keeps(reconciled(base, q, priors), q, priors);
    let s = match q[i].op {
        PlannedOpView::Req(sub_id, _, _, _, _) => sub_id,
        PlannedOpView::Close(sub_id) => sub_id,
    };
    lemma_taken_on(v, rs, s);
    lemma_wired(p, q, priors, v.next_id->0);
    lemma_described_orders(q, priors, s);
    let orders = plan_pass(v, rs, q).orders;
    if q[i].op is Req {
        assert(asks_at(q, i));
        let want = RequestOrder::HoldPlannedClaims(s);
        let k = choose|k: int| 0 <= k < second.len() && second[k] == want;
        assert(p.orders[first.len() + k] == want);
        assert(orders[first.len() + k] == want);
    } else if closes_at(q, rs, i, s) {
        assert(!priors.contains(RequestKey { session: q[i].session, sub_id: s }));
        let want = RequestOrder::ReleaseLiveClaims(s);
        let k = choose|k: int| 0 <= k < second.len() && second[k] == want;
        assert(p.orders[first.len() + k] == want);
        assert(orders[first.len() + k] == want);
    }
}

/// A close of a subscription that a replacement keeps open changes nothing yet: it is
/// not sent, not ordered, and what the plan says of the subscription and the claims
/// that wait for it stay.
pub proof fn close_of_a_predecessor_waits(p: WirePass, s: PlanStepView, priors: Set<RequestKey>)
    requires
        s.op matches PlannedOpView::Close(sub_id) && priors.contains(
            RequestKey { session: s.session, sub_id },
        ),
    ensures
        wire_step(p, s, priors) == p,
        describe_step(p.v, s, priors) == p.v,
        reconcile_step(p.v, s, priors) == p.v,
{
}

/// The requests that a plan's replacements keep open are exactly those that one of them
/// names as the one to be replaced, on its session.
pub proof fn replaced_requests_are_kept_open(rs: Seq<RequestReplacement>, key: RequestKey)
    ensures
        priors_of(rs).contains(key) <==> exists|j: int|
            0 <= j < rs.len() && (#[trigger] rs[j]).session == key.session && rs[j].prior_sub_id
                == key.sub_id,
{
}

/// A close of a subscription that waits to replace another closes both sides instead:
/// no close of the successor is sent, which no relay knows; the predecessor is closed;
/// and nothing of either is kept.
pub proof fn close_of_a_waiting_successor_closes_both(p: WirePass, s: PlanStepView, priors: Set<RequestKey>)
    requires
        s.op is Close,
        !priors.contains(RequestKey { session: s.session, sub_id: s.op->Close_0 }),
        p.v.replacements.contains_key(s.op->Close_0),
    ensures
        ({
            let w = wire_step(p, s, priors);
            let sub_id = s.op->Close_0;
            let r = p.v.replacements[sub_id];
            let n = p.orders.len() as int;
            &&& w.sent == p.sent
            &&& w.orders.len() == n + 5
            &&& w.orders.take(n) == p.orders
            &&& w.orders[n] == RequestOrder::DiscardSub(sub_id)
            &&& w.orders[n + 1] == RequestOrder::ReleaseLiveClaims(sub_id)
            &&& w.orders[n + 2] == RequestOrder::DiscardSub(r.prior_sub_id)
            &&& w.orders[n + 3] == RequestOrder::ReleaseLiveClaims(r.prior_sub_id)
            &&& w.orders[n + 4] == (RequestOrder::Close { session: r.session, sub_id: r.prior_sub_id })
            &&& w.v.replacements == p.v.replacements.remove(sub_id)
            &&& !w.v.metadata.contains_key(sub_id)
            &&& !w.v.metadata.contains_key(r.prior_sub_id)
            &&& !w.v.live.contains_key(home_key(sub_id))
            &&& !w.v.live.contains_key(home_key(r.prior_sub_id))
            &&& !w.v.pending.contains_key(home_key(sub_id))
            &&& !w.v.pending.contains_key(home_key(r.prior_sub_id))
            &&& !w.v.transfers.contains_key(RequestKey { session: r.session, sub_id: r.prior_sub_id })
        }),
{
    let w = wire_step(p, s, priors);
    assert(w.orders.take(p.orders.len() as int) =~= p.orders);
}

/// A close of any other subscription is sent, its sends are forgotten, and nothing of
/// it stays live or awaited.
pub proof fn close_of_a_subscription_is_sent(p: WirePass, s: PlanStepView, priors: Set<RequestKey>)
    requires
        s.op is Close,
        !priors.contains(RequestKey { session: s.session, sub_id: s.op->Close_0 }),
        !p.v.replacements.contains_key(s.op->Close_0),
    ensures
        ({
            let w = wire_step(p, s, priors);
            let sub_id = s.op->Close_0;
            &&& w.sent.len() == p.sent.len() + 1
            &&& w.sent.last().session == s.session
            &&& w.sent.last().op == WireOp::Close(sub_id)
            &&& w.sent.last().attempt is None
            &&& w.orders.len() == p.orders.len() + 1
            &&& w.orders.last() == RequestOrder::DiscardSub(sub_id)
            &&& !w.v.live.contains_key(home_key(sub_id))
            &&& !w.v.pending.contains_key(home_key(sub_id))
            &&& w.v.replacements == p.v.replacements
            &&& !describe_step(p.v, s, priors).metadata.contains_key(sub_id)
            &&& describe_step(p.v, s, priors).metadata.remove(sub_id) == p.v.metadata.remove(sub_id)
            &&& !reconcile_step(p.v, s, priors).transfers.contains_key(
                RequestKey { session: s.session, sub_id },
            )
        }),
{
    let sub_id = s.op->Close_0;
    assert(describe_step(p.v, s, priors).metadata.remove(sub_id) =~= p.v.metadata.remove(sub_id));
}

/// A request that is sent again keeps the claims that wait for it exactly where it
/// still has their filter, and no other request's claims change.
pub proof fn new_filter_drops_the_claims_that_wait(
    v: RequestsView,
    s: PlanStepView,
    priors: Set<RequestKey>,
    other: RequestKey,
)
    requires
        s.op is Req,
    ensures
        ({
            let key = RequestKey { session: s.session, sub_id: s.op->Req_0 };
            let w = reconcile_step(v, s, priors);
            &&& w.transfers.contains_key(key) <==> v.transfers.contains_key(key)
                && v.transfers[key].filter_hash == (s.op->Req_1).hash
            &&& w.transfers.contains_key(key) ==> w.transfers[key] == v.transfers[key]
            &&& other != key ==> (w.transfers.contains_key(other) <==> v.transfers.contains_key(other))
            &&& other != key && v.transfers.contains_key(other) ==> w.transfers[other] == v.transfers[other]
        }),
{
}

/// Taking replacements on orders the sends of a successor that is given up on the way
/// to be forgotten and its claims to be released, and nothing where none is given up.
pub proof fn replaced_successor_is_forgotten(v: RequestsView, rs: Seq<RequestReplacement>, r: RequestReplacement)
    ensures
        ({
            let before = replacement_orders(v, rs);
            let after = replacement_orders(v, rs.push(r));
            if with_replacements(v, rs).replacements.contains_key(r.prior_sub_id) {
                &&& after.len() == before.len() + 2
                &&& after.take(before.len() as int) == before
                &&& after[before.len() as int] == RequestOrder::DiscardSub(r.prior_sub_id)
                &&& after[before.len() as int + 1] == RequestOrder::ReleaseLiveClaims(r.prior_sub_id)
            } else {
                after == before
            }
        }),
        replacement_orders(v, Seq::empty()).len() == 0,
        with_replacements(v, rs.push(r)) == with_replacements(v, rs).begin_replacement(r),
        with_replacements(v, Seq::empty()) == v,
{
    assert(rs.push(r).drop_last() =~= rs);
    let before = replacement_orders(v, rs);
    let after = replacement_orders(v, rs.push(r));
    if with_replacements(v, rs).replacements.contains_key(r.prior_sub_id) {
        assert(after.take(before.len() as int) =~= before);
    }
}

} // verus!
