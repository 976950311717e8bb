//! How a new plan of the router becomes wire requests.

use vstd::prelude::*;

use crate::ids::{CoverageKey, DemandKey, RelaySessionKey, RequestAttemptId, RequestKey, SubId};
use crate::planned_reads::{awaits_auth, entering, PlanDeltaMode, PlannedReads};
use crate::request_replacements::RequestReplacement;
use crate::requests::{
    home, home_of, orders_of_predecessor, orders_of_successor, MetadataView, PlanExecutionMetadata, RequestOrder,
    RequestSend, Requests, RequestsView, SendView,
};
use crate::key::{is_listing, listing_of, same};
use crate::sorted::{SortedMap, SortedSet};
use crate::wire::{ConcreteFilter, WireOp};

verus! {

/// One operation of a plan. A request comes with what the router says of it,
/// and with the revision that its send was given.
pub enum PlannedOp {
    Req {
        sub_id: SubId,
        filter: ConcreteFilter,
        coverage_claims: SortedSet<CoverageKey>,
        owner_demands: SortedSet<DemandKey>,
        revision: u64,
    },
    Close(SubId),
}

/// One operation of a plan on one session.
pub struct PlanStep {
    pub session: RelaySessionKey,
    pub op: PlannedOp,
}

/// What an operation says.
pub enum PlannedOpView {
    Req(SubId, ConcreteFilter, Set<CoverageKey>, Set<DemandKey>, u64),
    Close(SubId),
}

pub struct PlanStepView {
    pub session: RelaySessionKey,
    pub op: PlannedOpView,
}

impl View for PlanStep {
    type V = PlanStepView;

    open spec fn view(&self) -> PlanStepView {
        PlanStepView {
            session: self.session,
            op: match self.op {
                PlannedOp::Req { sub_id, filter, coverage_claims, owner_demands, revision } => PlannedOpView::Req(
                    sub_id,
                    filter,
                    coverage_claims@,
                    owner_demands@,
                    revision,
                ),
                PlannedOp::Close(sub_id) => PlannedOpView::Close(sub_id),
            },
        }
    }
}

pub open spec fn steps_view(q: Seq<PlanStep>) -> Seq<PlanStepView> {
    Seq::new(q.len(), |i: int| q[i]@)
}

/// One operation that goes over the wire, with the attempt of a request.
#[derive(Clone, Copy, Debug, PartialEq, Eq, Structural)]
pub struct SentOp {
    pub session: RelaySessionKey,
    pub op: WireOp,
    pub attempt: Option<RequestAttemptId>,
}

/// The requests that stay open until their successors are accepted.
pub open spec fn priors_of(q: Seq<RequestReplacement>) -> Set<RequestKey> {
    Set::new(
        |k: RequestKey|
            exists|i: int|
                0 <= i < q.len() && (#[trigger] q[i]).session == k.session && q[i].prior_sub_id == k.sub_id,
    )
}

/// The replacements are taken on, one after the other.
pub open spec fn with_replacements(v: RequestsView, q: Seq<RequestReplacement>) -> RequestsView
    decreases q.len(),
{
    if q.len() == 0 {
        v
    } else {
        with_replacements(v, q.drop_last()).begin_replacement(q.last())
    }
}

/// What taking the replacements on orders.
pub open spec fn replacement_orders(v: RequestsView, q: Seq<RequestReplacement>) -> Seq<RequestOrder>
    decreases q.len(),
{
    if q.len() == 0 {
        Seq::empty()
    } else {
        let before = with_replacements(v, q.drop_last());
        let rest = replacement_orders(v, q.drop_last());
        if before.replacements.contains_key(q.last().prior_sub_id) {
            rest + orders_of_successor(q.last().prior_sub_id)
        } else {
            rest
        }
    }
}

/// Claims that wait for a request are dropped where it is sent with another
/// filter, or closed for good.
pub open spec fn reconcile_step(v: RequestsView, s: PlanStepView, priors: Set<RequestKey>) -> RequestsView {
    match s.op {
        PlannedOpView::Req(sub_id, filter, _, _, _) => {
            let key = RequestKey { session: s.session, sub_id };
            if v.transfers.contains_key(key) && v.transfers[key].filter_hash == filter.hash {
                v
            } else {
                v.drop_transfer(key)
            }
        },
        PlannedOpView::Close(sub_id) => {
            let key = RequestKey { session: s.session, sub_id };
            if priors.contains(key) {
                v
            } else {
                v.drop_transfer(key)
            }
        },
    }
}

pub open spec fn reconciled(v: RequestsView, q: Seq<PlanStepView>, priors: Set<RequestKey>) -> RequestsView
    decreases q.len(),
{
    if q.len() == 0 {
        v
    } else {
        reconcile_step(reconciled(v, q.drop_last(), priors), q.last(), priors)
    }
}

/// What the plan says of a request is put down when it is sent, and forgotten
/// when it is closed for good.
pub open spec fn describe_step(v: RequestsView, s: PlanStepView, priors: Set<RequestKey>) -> RequestsView {
    match s.op {
        PlannedOpView::Req(sub_id, filter, claims, demands, _) => RequestsView {
            metadata: v.metadata.insert(
                sub_id,
                MetadataView { filter, coverage_claims: claims, owner_demands: demands },
            ),
            ..v
        },
        PlannedOpView::Close(sub_id) => if priors.contains(RequestKey { session: s.session, sub_id }) {
            v
        } else {
            v.retire_metadata(sub_id)
        },
    }
}

pub open spec fn described(v: RequestsView, q: Seq<PlanStepView>, priors: Set<RequestKey>) -> RequestsView
    decreases q.len(),
{
    if q.len() == 0 {
        v
    } else {
        describe_step(described(v, q.drop_last(), priors), q.last(), priors)
    }
}

pub open spec fn describe_orders(q: Seq<PlanStepView>, priors: Set<RequestKey>) -> Seq<RequestOrder>
    decreases q.len(),
{
    if q.len() == 0 {
        Seq::empty()
    } else {
        let rest = describe_orders(q.drop_last(), priors);
        match q.last().op {
            PlannedOpView::Req(sub_id, _, _, _, _) => rest.push(RequestOrder::HoldPlannedClaims(sub_id)),
            PlannedOpView::Close(sub_id) => if priors.contains(
                RequestKey { session: q.last().session, sub_id },
            ) {
                rest
            } else {
                rest.push(RequestOrder::ReleaseLiveClaims(sub_id))
            },
        }
    }
}

/// The requests, with what was ordered and sent so far.
pub struct WirePass {
    pub v: RequestsView,
    pub orders: Seq<RequestOrder>,
    pub sent: Seq<SentOp>,
}

/// One operation goes over the wire: a request is a new attempt; a close of a
/// request that is being replaced waits; a close of a successor that still
/// waits closes both sides of its replacement.
pub open spec fn wire_step(p: WirePass, s: PlanStepView, priors: Set<RequestKey>) -> WirePass {
    match s.op {
        PlannedOpView::Req(sub_id, filter, claims, demands, revision) => WirePass {
            v: p.v.record(
                SendView {
                    session: s.session,
                    sub_id,
                    filter,
                    coverage_claims: claims,
                    owner_demands: demands,
                },
                revision,
            ),
            sent: p.sent.push(
                SentOp {
                    session: s.session,
                    op: WireOp::Req(sub_id, filter),
                    attempt: Some(RequestAttemptId(p.v.next_id->0)),
                },
            ),
            ..p
        },
        PlannedOpView::Close(sub_id) => if priors.contains(RequestKey { session: s.session, sub_id }) {
            p
        } else if p.v.replacements.contains_key(sub_id) {
            WirePass {
                v: p.v.cancel_replacement(sub_id),
                orders: p.orders + orders_of_successor(sub_id) + orders_of_predecessor(
                    p.v.replacements[sub_id],
                ),
                ..p
            }
        } else {
            WirePass {
                v: p.v.abandon_sub(sub_id),
                orders: p.orders.push(RequestOrder::DiscardSub(sub_id)),
                sent: p.sent.push(
                    SentOp { session: s.session, op: WireOp::Close(sub_id), attempt: None },
                ),
            }
        },
    }
}

pub open spec fn wired(p: WirePass, q: Seq<PlanStepView>, priors: Set<RequestKey>) -> WirePass
    decreases q.len(),
{
    if q.len() == 0 {
        p
    } else {
        wire_step(wired(p, q.drop_last(), priors), q.last(), priors)
    }
}

/// What a new plan makes of the requests, orders and sends.
pub open spec fn plan_pass(v: RequestsView, replacements: Seq<RequestReplacement>, q: Seq<PlanStepView>) -> WirePass {
    let priors = priors_of(replacements);
    let ready = described(reconciled(with_replacements(v, replacements), q, priors), q, priors);
    wired(
        WirePass {
            v: ready,
            orders: replacement_orders(v, replacements) + describe_orders(q, priors),
            sent: Seq::empty(),
        },
        q,
        priors,
    )
}

/// What a new plan asks of the caller.
pub struct PlanEffects {
    /// Sessions that have to be opened to authenticate.
    pub ensure_read: Vec<RelaySessionKey>,
    /// Whether the diagnostics are to be sent.
    pub diagnostics: bool,
    pub orders: Vec<RequestOrder>,
    pub sent: Vec<SentOp>,
}

/// Whether a plan can be put in force: no successor of a replacement waits when its
/// turn comes, save one that the same replacement takes over; every request is on
/// its own session; and there are numbers left for every attempt.
pub open spec fn plannable(v: RequestsView, replacements: Seq<RequestReplacement>, q: Seq<PlanStepView>) -> bool {
    &&& forall|i: int|
        0 <= i < replacements.len() ==> !with_replacements(v, replacements.take(i)).replacements.remove(
            (#[trigger] replacements[i]).prior_sub_id,
        ).contains_key(replacements[i].next_sub_id)
    &&& forall|i: int|
        0 <= i < q.len() ==> ((#[trigger] q[i]).op matches PlannedOpView::Req(sub_id, _, _, _, _)
            ==> q[i].session == home(sub_id))
    &&& v.next_id matches Some(n) && n + q.len() <= u64::MAX
}

/// The sessions that a plan touches.
pub open spec fn touched_by(q: Seq<PlanStepView>) -> Set<RelaySessionKey> {
    Set::new(|s: RelaySessionKey| exists|i: int| 0 <= i < q.len() && (#[trigger] q[i]).session == s)
}

fn collect_priors(q: &Vec<RequestReplacement>) -> (r: SortedSet<RequestKey>)
    ensures
        r@ == priors_of(q@),
{
    let mut r: SortedSet<RequestKey> = SortedSet::new();
    let mut i: usize = 0;
    while i < q.len()
        invariant
            i <= q@.len(),
            forall|k: RequestKey| #[trigger]
                r@.contains(k) <==> exists|j: int|
                    0 <= j < i && (#[trigger] q@[j]).session == k.session && q@[j].prior_sub_id == k.sub_id,
        decreases q@.len() - i,
    {
        let key = RequestKey { session: q[i].session, sub_id: q[i].prior_sub_id };
        let ghost prior = r@;
        r.insert(key);
        assert forall|k: RequestKey| #[trigger] r@.contains(k) <==> exists|j: int|
            0 <= j < i + 1 && (#[trigger] q@[j]).session == k.session && q@[j].prior_sub_id == k.sub_id by {
            if prior.contains(k) {
                let j = choose|j: int|
                    0 <= j < i && (#[trigger] q@[j]).session == k.session && q@[j].prior_sub_id == k.sub_id;
                assert(q@[j].session == k.session);
            }
            if k == key {
                assert(q@[i as int].session == k.session);
            }
        }
        i = i + 1;
    }
    assert(r@ =~= priors_of(q@));
    r
}

fn collect_touched(q: &Vec<PlanStep>) -> (r: SortedSet<RelaySessionKey>)
    ensures
        r@ == touched_by(steps_view(q@)),
{
    let mut r: SortedSet<RelaySessionKey> = SortedSet::new();
    let ghost t = steps_view(q@);
    let mut i: usize = 0;
    while i < q.len()
        invariant
            i <= q@.len(),
            t == steps_view(q@),
            forall|s: RelaySessionKey| #[trigger]
                r@.contains(s) <==> exists|j: int| 0 <= j < i && (#[trigger] t[j]).session == s,
        decreases q@.len() - i,
    {
        let session = q[i].session;
        let ghost prior = r@;
        r.insert(session);
        assert forall|s: RelaySessionKey| #[trigger] r@.contains(s) <==> exists|j: int|
            0 <= j < i + 1 && (#[trigger] t[j]).session == s by {
            if prior.contains(s) {
                let j = choose|j: int| 0 <= j < i && (#[trigger] t[j]).session == s;
                assert(t[j].session == s);
            }
            if s == session {
                assert(t[i as int].session == s);
            }
        }
        i = i + 1;
    }
    assert(r@ =~= touched_by(t));
    r
}

proof fn lemma_replacement_numbers(v: RequestsView, q: Seq<RequestReplacement>)
    ensures
        with_replacements(v, q).next_id == v.next_id,
    decreases q.len(),
{
    if q.len() > 0 {
        lemma_replacement_numbers(v, q.drop_last());
    }
}

/// Puts a new plan in force.
pub fn apply_router_plan_delta(
    requests: &mut Requests,
    reads: &mut PlannedReads,
    replacements: &Vec<RequestReplacement>,
    steps: &Vec<PlanStep>,
    mode: PlanDeltaMode,
    planned: &SortedSet<RelaySessionKey>,
    ready: &SortedSet<RelaySessionKey>,
) -> (r: PlanEffects)
    requires
        old(requests).wf(),
        old(reads).wf(),
        plannable(old(requests)@, replacements@, steps_view(steps@)),
    ensures
        final(requests).wf(),
        final(reads).wf(),
        final(requests)@ == plan_pass(old(requests)@, replacements@, steps_view(steps@)).v,
        r.orders@ == plan_pass(old(requests)@, replacements@, steps_view(steps@)).orders,
        r.sent@ == plan_pass(old(requests)@, replacements@, steps_view(steps@)).sent,
        r.diagnostics == (mode is Full),
        match mode {
            PlanDeltaMode::Full => {
                &&& final(reads)@ == old(reads)@.replan(planned@)
                &&& is_listing(
                    r.ensure_read@,
                    Set::new(|s: RelaySessionKey| planned@.contains(s) && awaits_auth(ready@, s)),
                )
            },
            PlanDeltaMode::Incremental => {
                let q = listing_of(touched_by(steps_view(steps@)));
                &&& final(reads)@ == old(reads)@.touch_all(planned@, q)
                &&& r.ensure_read@ == entering(old(reads)@, planned@, ready@, q)
            },
        },
{
    let ghost v = requests@;
    let ghost t = steps_view(steps@);
    let ghost rs = replacements@;
    let mut orders: Vec<RequestOrder> = Vec::new();
    let mut i: usize = 0;
    assert(rs.take(0) =~= Seq::<RequestReplacement>::empty());
    while i < replacements.len()
        invariant
            i <= rs.len(),
            rs == replacements@,
            requests.wf(),
            plannable(v, rs, t),
            requests@ == with_replacements(v, rs.take(i as int)),
            orders@ == replacement_orders(v, rs.take(i as int)),
        decreases rs.len() - i,
    {
        let replacement = replacements[i];
        proof {
            assert(rs.take(i + 1).drop_last() =~= rs.take(i as int));
            assert(rs.take(i + 1).last() == replacement);
            assert(rs[i as int] == replacement);
        }
        requests.begin_request_replacement(replacement, &mut orders);
        i = i + 1;
    }
    assert(rs.take(i as int) =~= rs);
    proof {
        lemma_replacement_numbers(v, rs);
    }
    let priors = collect_priors(replacements);
    let ghost v1 = requests@;
    let ghost o1 = orders@;
    let mut k: usize = 0;
    assert(t.take(0) =~= Seq::<PlanStepView>::empty());
    while k < steps.len()
        invariant
            k <= t.len(),
            t == steps_view(steps@),
            requests.wf(),
            priors@ == priors_of(rs),
            requests@ == reconciled(v1, t.take(k as int), priors@),
            requests@.next_id == v1.next_id,
        decreases t.len() - k,
    {
        let step = &steps[k];
        proof {
            assert(t.take(k + 1).drop_last() =~= t.take(k as int));
            assert(t.take(k + 1).last() == step@);
        }
        match &step.op {
            PlannedOp::Req { sub_id, filter, .. } => {
                let key = RequestKey { session: step.session, sub_id: *sub_id };
                requests.cancel_request_claim_transfers(&key, Some(filter.hash));
            },
            PlannedOp::Close(sub_id) => {
                let key = RequestKey { session: step.session, sub_id: *sub_id };
                if !priors.contains(&key) {
                    requests.cancel_request_claim_transfers(&key, None);
                }
            },
        }
        k = k + 1;
    }
    assert(t.take(k as int) =~= t);
    let ensure_read = match mode {
        PlanDeltaMode::Full => reads.apply_full(planned, ready),
        PlanDeltaMode::Incremental => {
            let touched = collect_touched(steps);
            reads.apply_incremental(planned, &touched, ready)
        },
    };
    let ghost v2 = requests@;
    k = 0;
    assert(o1 + describe_orders(t.take(0), priors@) =~= o1);
    while k < steps.len()
        invariant
            k <= t.len(),
            t == steps_view(steps@),
            requests.wf(),
            priors@ == priors_of(rs),
            requests@ == described(v2, t.take(k as int), priors@),
            requests@.next_id == v2.next_id,
            orders@ == o1 + describe_orders(t.take(k as int), priors@),
        decreases t.len() - k,
    {
        let step = &steps[k];
        let ghost prior = orders@;
        proof {
            assert(t.take(k + 1).drop_last() =~= t.take(k as int));
            assert(t.take(k + 1).last() == step@);
        }
        match &step.op {
            PlannedOp::Req { sub_id, filter, coverage_claims, owner_demands, .. } => {
                requests.install_plan_execution_metadata(
                    *sub_id,
                    PlanExecutionMetadata {
                        filter: *filter,
                        coverage_claims: coverage_claims.copy(),
                        owner_demands: owner_demands.copy(),
                    },
                );
                orders.push(RequestOrder::HoldPlannedClaims(*sub_id));
            },
            PlannedOp::Close(sub_id) => {
                let key = RequestKey { session: step.session, sub_id: *sub_id };
                if !priors.contains(&key) {
                    requests.retire_plan_execution_metadata(sub_id, &mut orders);
                }
            },
        }
        assert(orders@ =~= o1 + describe_orders(t.take(k + 1), priors@));
        k = k + 1;
    }
    assert(t.take(k as int) =~= t);
    let ghost v3 = requests@;
    let ghost start = WirePass { v: v3, orders: orders@, sent: Seq::<SentOp>::empty() };
    let mut sent: Vec<SentOp> = Vec::new();
    k = 0;
    while k < steps.len()
        invariant
            k <= t.len(),
            t == steps_view(steps@),
            plannable(v, rs, t),
            v3.next_id == v.next_id,
            requests.wf(),
            priors@ == priors_of(rs),
            (WirePass { v: requests@, orders: orders@, sent: sent@ }) == wired(
                start,
                t.take(k as int),
                priors@,
            ),
            requests@.next_id matches Some(n) && n <= v.next_id->0 + k,
        decreases t.len() - k,
    {
        let step = &steps[k];
        let ghost before = requests@;
        let ghost o = orders@;
        let ghost s0 = sent@;
        proof {
            assert(t.take(k + 1).drop_last() =~= t.take(k as int));
            assert(t.take(k + 1).last() == step@);
            assert(t[k as int] == step@);
        }
        match &step.op {
            PlannedOp::Req { sub_id, filter, coverage_claims, owner_demands, revision } => {
                let id = requests.record_observed_request(
                    RequestSend {
                        session: step.session,
                        sub_id: *sub_id,
                        filter: *filter,
                        coverage_claims: coverage_claims.copy(),
                        owner_demands: owner_demands.copy(),
                    },
                    *revision,
                );
                sent.push(
                    SentOp {
                        session: step.session,
                        op: WireOp::Req(*sub_id, *filter),
                        attempt: Some(id),
                    },
                );
            },
            PlannedOp::Close(sub_id) => {
                let key = RequestKey { session: step.session, sub_id: *sub_id };
                if !priors.contains(&key) {
                    if requests.is_successor(sub_id) {
                        requests.cancel_request_replacement(sub_id, &mut orders);
                        assert(orders@ == o + orders_of_successor(*sub_id) + orders_of_predecessor(
                            before.replacements[*sub_id],
                        ));
                    } else {
                        requests.abandon_sub(sub_id, &mut orders);
                        sent.push(
                            SentOp {
                                session: step.session,
                                op: WireOp::Close(*sub_id),
                                attempt: None,
                            },
                        );
                    }
                }
            },
        }
        k = k + 1;
    }
    assert(t.take(k as int) =~= t);
    PlanEffects {
        ensure_read,
        diagnostics: match mode {
            PlanDeltaMode::Full => true,
            PlanDeltaMode::Incremental => false,
        },
        orders,
        sent,
    }
}

/// The subscriptions that wait to take over once some of the replacements are
/// taken on.
#[verifier::opaque]
spec fn waiting_after(v: RequestsView, rs: Seq<RequestReplacement>, i: int) -> Set<SubId> {
    with_replacements(v, rs.take(i)).replacements.dom()
}

/// One more replacement: its successor waits, and so do those that waited before,
/// but for the one that is replaced.
proof fn lemma_one_more_replacement(v: RequestsView, rs: Seq<RequestReplacement>, i: int)
    requires
        0 <= i < rs.len(),
    ensures
        waiting_after(v, rs, i + 1) == waiting_after(v, rs, i).remove(rs[i].prior_sub_id).insert(
            rs[i].next_sub_id,
        ),
{
    reveal(waiting_after);
    assert(rs.take(i + 1).drop_last() =~= rs.take(i));
    assert(rs.take(i + 1).last() == rs[i]);
    assert(waiting_after(v, rs, i + 1) =~= waiting_after(v, rs, i).remove(rs[i].prior_sub_id).insert(
        rs[i].next_sub_id,
    ));
}

/// Whether a replacement's successor waits already.
proof fn lemma_waiting_after(v: RequestsView, rs: Seq<RequestReplacement>, i: int)
    requires
        0 <= i < rs.len(),
    ensures
        waiting_after(v, rs, i).remove(rs[i].prior_sub_id).contains(rs[i].next_sub_id) == with_replacements(
            v,
            rs.take(i),
        ).replacements.remove(rs[i].prior_sub_id).contains_key(rs[i].next_sub_id),
{
    reveal(waiting_after);
}

/// Whether no replacement of a plan names a successor that waits already.
fn replacements_fit(requests: &Requests, replacements: &Vec<RequestReplacement>) -> (b: bool)
    ensures
        b == forall|j: int|
            0 <= j < replacements@.len() ==> !waiting_after(requests@, replacements@, j).remove(
                (#[trigger] replacements@[j]).prior_sub_id,
            ).contains(replacements@[j].next_sub_id),
{
    let ghost v = requests@;
    let ghost rs = replacements@;
    let mut waits: SortedMap<SubId, bool> = SortedMap::new();
    let mut i: usize = 0;
    proof {
        reveal(waiting_after);
        assert(rs.take(0) =~= Seq::<RequestReplacement>::empty());
    }
    while i < replacements.len()
        invariant
            i <= rs.len(),
            rs == replacements@,
            v == requests@,
            forall|s: SubId| #[trigger]
                waiting_after(v, rs, i as int).contains(s) == (if waits@.contains_key(s) {
                    waits@[s]
                } else {
                    v.replacements.contains_key(s)
                }),
            forall|j: int|
                0 <= j < i ==> !waiting_after(v, rs, j).remove((#[trigger] rs[j]).prior_sub_id).contains(
                    rs[j].next_sub_id,
                ),
        decreases rs.len() - i,
    {
        let replacement = replacements[i];
        let prior = replacement.prior_sub_id;
        let successor = replacement.next_sub_id;
        let ghost before = waiting_after(v, rs, i as int);
        proof {
            assert(rs[i as int] == replacement);
            lemma_one_more_replacement(v, rs, i as int);
            assert(before.contains(successor) == (if waits@.contains_key(successor) {
                waits@[successor]
            } else {
                v.replacements.contains_key(successor)
            }));
        }
        let ghost known = waits@;
        waits.insert(prior, false);
        let waiting = match waits.get(&successor) {
            Some(b) => *b,
            None => requests.is_successor(&successor),
        };
        assert(waiting == before.remove(prior).contains(successor));
        if waiting {
            return false;
        }
        waits.insert(successor, true);
        assert forall|s: SubId| #[trigger]
            waiting_after(v, rs, i + 1).contains(s) == (if waits@.contains_key(s) {
                waits@[s]
            } else {
                v.replacements.contains_key(s)
            }) by {
            assert(before.contains(s) == (if known.contains_key(s) {
                known[s]
            } else {
                v.replacements.contains_key(s)
            }));
        }
        i = i + 1;
    }
    true
}

/// Whether a plan can be put in force.
pub fn plan_fits(requests: &Requests, replacements: &Vec<RequestReplacement>, steps: &Vec<PlanStep>) -> (b: bool)
    ensures
        b == plannable(requests@, replacements@, steps_view(steps@)),
{
    let ghost v = requests@;
    let ghost rs = replacements@;
    let ghost q = steps_view(steps@);
    proof {
        assert forall|j: int| 0 <= j < rs.len() implies waiting_after(v, rs, j).remove(
            (#[trigger] rs[j]).prior_sub_id,
        ).contains(rs[j].next_sub_id) == with_replacements(v, rs.take(j)).replacements.remove(
            rs[j].prior_sub_id,
        ).contains_key(rs[j].next_sub_id) by {
            lemma_waiting_after(v, rs, j);
        }
    }
    if !replacements_fit(requests, replacements) {
        return false;
    }
    let mut k: usize = 0;
    while k < steps.len()
        invariant
            k <= steps@.len(),
            q == steps_view(steps@),
            v == requests@,
            rs == replacements@,
            forall|j: int|
                0 <= j < k ==> ((#[trigger] q[j]).op matches PlannedOpView::Req(sub_id, _, _, _, _)
                    ==> q[j].session == home(sub_id)),
        decreases steps@.len() - k,
    {
        assert(q[k as int] == steps@[k as int]@);
        if let PlannedOp::Req { sub_id, .. } = &steps[k].op {
            if !same(&steps[k].session, &home_of(sub_id)) {
                return false;
            }
        }
        k = k + 1;
    }
    match requests.next_attempt() {
        None => false,
        Some(n) => steps.len() as u64 <= u64::MAX - n,
    }
}

} // verus!
