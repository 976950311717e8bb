//! What the reducer asks of its executor.

use vstd::prelude::*;

use crate::auth::AuthEffect;
use crate::evidence::AcquisitionEvidence;
use crate::ids::{
    EventId, ObservationId, PublicKey, ReceiptId, Relay, RelaySessionKey, RequestAttemptId, RequestKey,
    TransportRelayHandle,
};
use crate::key::Pair;
use crate::outside::UnsignedEvent;
use crate::plan_delta::{PlanEffects, SentOp};
use crate::receipts::{PublishError, ReceiptReplayPage, WriteFact};
use crate::request_effects::{sent_key, AttemptedReplay, AttemptedWireDelta, SentKey, SessionOp};
use crate::requests::RequestOrder;
use crate::rows::RowDelta;
use crate::sorted::{SortedMap, SortedSet};
use crate::wire::WireOp;

verus! {

/// One thing that the executor is asked to do or to tell.
pub enum Effect {
    ArmWireAdmission,
    UpdateCommittedObservations { invalidated: Vec<EventId>, published: Vec<u64> },
    AuthorRouteNeedsChanged(SortedSet<PublicKey>),
    Wire(AttemptedWireDelta),
    Replay(RelaySessionKey, AttemptedReplay),
    FetchRelayInformation(Relay),
    ReleaseInitialRead(TransportRelayHandle),
    EmitRows(ObservationId, Vec<RowDelta>, Vec<AcquisitionEvidence>),
    RequestSettled(ObservationId, Relay),
    EmitHistory(u64),
    HistoryLoadResult(u64, bool),
    EmitDiagnostics,
    DiagnosticsChanged,
    EmitReceipt(ReceiptId, WriteFact),
    WriteAccepted(ReceiptId, EventId),
    ReplayReceipt(ReceiptId, ReceiptReplayPage),
    PublishFailed(PublishError),
    RequestSign(ReceiptId, u64, UnsignedEvent),
    RelayAuth(AuthEffect),
    RearmSignerIfAvailable(PublicKey),
    PublishEvent(RelaySessionKey, EventId, u64),
    EnsureReadRelay(RelaySessionKey),
    EnsureWriteRelay(RelaySessionKey),
}

/// The effects that go over the wire.
pub open spec fn wire_part(q: Seq<Effect>) -> Seq<Effect>
    decreases q.len(),
{
    if q.len() == 0 {
        Seq::empty()
    } else if q.last() is Wire {
        wire_part(q.drop_last()).push(q.last())
    } else {
        wire_part(q.drop_last())
    }
}

/// The effects that do not.
pub open spec fn told_part(q: Seq<Effect>) -> Seq<Effect>
    decreases q.len(),
{
    if q.len() == 0 {
        Seq::empty()
    } else if q.last() is Wire {
        told_part(q.drop_last())
    } else {
        told_part(q.drop_last()).push(q.last())
    }
}

/// Parts the effects that go over the wire from those that do not, each in their
/// order.
pub fn part_wire_effects(effects: Vec<Effect>) -> (r: (Vec<Effect>, Vec<Effect>))
    ensures
        r.0@ == told_part(effects@),
        r.1@ == wire_part(effects@),
{
    let ghost q = effects@;
    let mut left = effects;
    let mut told: Vec<Effect> = Vec::new();
    let mut wire: Vec<Effect> = Vec::new();
    let ghost mut done: int = 0;
    proof {
        assert(q.take(0) =~= Seq::<Effect>::empty());
        assert(q.skip(0) =~= q);
    }
    while left.len() > 0
        invariant
            0 <= done <= q.len(),
            left@ == q.skip(done),
            told@ == told_part(q.take(done)),
            wire@ == wire_part(q.take(done)),
        decreases left@.len(),
    {
        let effect = left.remove(0);
        proof {
            assert(effect == q[done]);
            assert(left@ =~= q.skip(done + 1));
            assert(q.take(done + 1).drop_last() =~= q.take(done));
            assert(q.take(done + 1).last() == effect);
            done = done + 1;
        }
        match &effect {
            Effect::Wire(_) => {
                wire.push(effect);
            },
            _ => {
                told.push(effect);
            },
        }
    }
    assert(q.take(done) =~= q);
    (told, wire)
}

/// The operations of a list, without their attempts.
pub open spec fn bare_ops(q: Seq<SentOp>) -> Seq<SessionOp> {
    Seq::new(q.len(), |i: int| SessionOp { session: q[i].session, op: q[i].op })
}

/// The attempts of a list of operations, each under its request: a later one
/// takes the place of an earlier one with the same filter.
pub open spec fn sent_attempts(q: Seq<SentOp>) -> Map<SentKey, RequestAttemptId>
    decreases q.len(),
{
    if q.len() == 0 {
        Map::empty()
    } else {
        let before = sent_attempts(q.drop_last());
        match (q.last().op, q.last().attempt) {
            (WireOp::Req(sub_id, filter), Some(id)) => before.insert(
                sent_key(q.last().session, sub_id, filter.hash),
                id,
            ),
            _ => before,
        }
    }
}

/// The delta of a list of operations.
pub fn delta_of(sent: &Vec<SentOp>) -> (r: AttemptedWireDelta)
    ensures
        r.operations() == bare_ops(sent@),
        r.attempts() == sent_attempts(sent@),
{
    let ghost q = sent@;
    let mut ops: Vec<SessionOp> = Vec::new();
    let mut attempts: SortedMap<SentKey, RequestAttemptId> = SortedMap::new();
    assert(q.take(0) =~= Seq::<SentOp>::empty());
    let mut i: usize = 0;
    while i < sent.len()
        invariant
            i <= q.len(),
            q == sent@,
            ops@.len() == i,
            forall|j: int|
                0 <= j < i ==> (#[trigger] ops@[j]) == (SessionOp { session: q[j].session, op: q[j].op }),
            attempts@ == sent_attempts(q.take(i as int)),
        decreases q.len() - i,
    {
        let op = sent[i];
        proof {
            assert(q.take(i + 1).drop_last() =~= q.take(i as int));
            assert(q.take(i + 1).last() == op);
        }
        ops.push(SessionOp { session: op.session, op: op.op });
        match (op.op, op.attempt) {
            (WireOp::Req(sub_id, filter), Some(id)) => {
                attempts.insert(Pair(RequestKey { session: op.session, sub_id }, filter.hash), id);
            },
            _ => {},
        }
        i = i + 1;
    }
    proof {
        assert(q.take(i as int) =~= q);
        assert(ops@ =~= bare_ops(q));
    }
    AttemptedWireDelta::new(ops, attempts)
}

/// The closes that a list of orders holds, in order.
pub open spec fn closes_of(q: Seq<RequestOrder>) -> Seq<SentOp>
    decreases q.len(),
{
    if q.len() == 0 {
        Seq::empty()
    } else {
        match q.last() {
            RequestOrder::Close { session, sub_id } => closes_of(q.drop_last()).push(
                SentOp { session, op: WireOp::Close(sub_id), attempt: None },
            ),
            _ => closes_of(q.drop_last()),
        }
    }
}

fn close_list(orders: &Vec<RequestOrder>) -> (r: Vec<SentOp>)
    ensures
        r@ == closes_of(orders@),
{
    let ghost q = orders@;
    let mut r: Vec<SentOp> = Vec::new();
    assert(q.take(0) =~= Seq::<RequestOrder>::empty());
    let mut i: usize = 0;
    while i < orders.len()
        invariant
            i <= q.len(),
            q == orders@,
            r@ == closes_of(q.take(i as int)),
        decreases q.len() - i,
    {
        let order = orders[i];
        proof {
            assert(q.take(i + 1).drop_last() =~= q.take(i as int));
            assert(q.take(i + 1).last() == order);
        }
        match order {
            RequestOrder::Close { session, sub_id } => {
                r.push(SentOp { session, op: WireOp::Close(sub_id), attempt: None });
            },
            _ => {},
        }
        i = i + 1;
    }
    assert(q.take(i as int) =~= q);
    r
}

/// Whether an effect sends exactly one list of operations.
pub open spec fn sends(effect: Effect, ops: Seq<SentOp>) -> bool {
    effect matches Effect::Wire(delta) && delta.operations() == bare_ops(ops) && delta.attempts()
        == sent_attempts(ops)
}

/// How many effects a plan has that do not go over the wire.
pub open spec fn told_count(plan: PlanEffects) -> int {
    plan.ensure_read@.len() + if plan.diagnostics {
        1int
    } else {
        0int
    }
}

/// Whether a list of effects is that of a plan: the sessions to open, the
/// diagnostics, each close of a request whose replacement was cancelled, and
/// what the plan sends.
pub open spec fn effects_of(effects: Seq<Effect>, plan: PlanEffects) -> bool {
    let closes = closes_of(plan.orders@);
    let n = told_count(plan);
    &&& effects.len() == n + closes.len() + (if plan.sent@.len() > 0 {
        1int
    } else {
        0int
    })
    &&& forall|i: int|
        0 <= i < plan.ensure_read@.len() ==> (#[trigger] effects[i]) == Effect::EnsureReadRelay(
            plan.ensure_read@[i],
        )
    &&& plan.diagnostics ==> effects[plan.ensure_read@.len() as int] == Effect::EmitDiagnostics
    &&& forall|i: int| 0 <= i < closes.len() ==> sends(#[trigger] effects[n + i], seq![closes[i]])
    &&& plan.sent@.len() > 0 ==> sends(effects.last(), plan.sent@)
}

/// The effects of a plan, in order.
pub fn effects_of_plan(plan: &PlanEffects) -> (r: Vec<Effect>)
    ensures
        effects_of(r@, *plan),
{
    let mut r: Vec<Effect> = Vec::new();
    let mut i: usize = 0;
    while i < plan.ensure_read.len()
        invariant
            i <= plan.ensure_read@.len(),
            r@.len() == i,
            forall|j: int|
                0 <= j < i ==> (#[trigger] r@[j]) == Effect::EnsureReadRelay(plan.ensure_read@[j]),
        decreases plan.ensure_read@.len() - i,
    {
        r.push(Effect::EnsureReadRelay(plan.ensure_read[i]));
        i = i + 1;
    }
    if plan.diagnostics {
        r.push(Effect::EmitDiagnostics);
    }
    let ghost first = r@;
    let closes = close_list(&plan.orders);
    let mut k: usize = 0;
    while k < closes.len()
        invariant
            k <= closes@.len(),
            closes@ == closes_of(plan.orders@),
            first.len() == told_count(*plan),
            r@.len() == first.len() + k,
            forall|j: int| 0 <= j < first.len() ==> (#[trigger] r@[j]) == first[j],
            forall|j: int| 0 <= j < k ==> sends(#[trigger] r@[first.len() + j], seq![closes@[j]]),
        decreases closes@.len() - k,
    {
        let mut one: Vec<SentOp> = Vec::new();
        one.push(closes[k]);
        assert(one@ =~= seq![closes@[k as int]]);
        let ghost before = r@;
        r.push(Effect::Wire(delta_of(&one)));
        assert forall|j: int| 0 <= j < k + 1 implies sends(#[trigger] r@[first.len() + j], seq![closes@[j]]) by {
            if j < k {
                assert(r@[first.len() + j] == before[first.len() + j]);
            }
        }
        k = k + 1;
    }
    let ghost before = r@;
    if plan.sent.len() > 0 {
        r.push(Effect::Wire(delta_of(&plan.sent)));
        assert forall|j: int| 0 <= j < closes@.len() implies sends(
            #[trigger] r@[first.len() + j],
            seq![closes@[j]],
        ) by {
            assert(r@[first.len() + j] == before[first.len() + j]);
        }
    }
    r
}

/// What is told when a request has delivered all its stored events.
pub fn settled_effects(observers: &Vec<ObservationId>, relay: Relay) -> (r: Vec<Effect>)
    ensures
        r@ == observers@.map_values(|o: ObservationId| Effect::RequestSettled(o, relay)),
{
    let mut r: Vec<Effect> = Vec::new();
    let mut i: usize = 0;
    while i < observers.len()
        invariant
            i <= observers@.len(),
            r@.len() == i,
            forall|j: int|
                0 <= j < i ==> (#[trigger] r@[j]) == Effect::RequestSettled(observers@[j], relay),
        decreases observers@.len() - i,
    {
        r.push(Effect::RequestSettled(observers[i], relay));
        i = i + 1;
    }
    assert(r@ =~= observers@.map_values(|o: ObservationId| Effect::RequestSettled(o, relay)));
    r
}

/// What is told of events that a change has removed.
pub fn invalidation_effect(invalidated: Vec<EventId>) -> (r: Effect)
    ensures
        r matches Effect::UpdateCommittedObservations { invalidated: told, published } && told == invalidated
            && published@ == Seq::<u64>::empty(),
{
    Effect::UpdateCommittedObservations { invalidated, published: Vec::new() }
}

/// Parting effects loses none and invents none.
pub proof fn parting_keeps_every_effect(q: Seq<Effect>)
    ensures
        told_part(q).len() + wire_part(q).len() == q.len(),
        forall|i: int| 0 <= i < told_part(q).len() ==> !((#[trigger] told_part(q)[i]) is Wire),
        forall|i: int| 0 <= i < wire_part(q).len() ==> (#[trigger] wire_part(q)[i]) is Wire,
    decreases q.len(),
{
    if q.len() > 0 {
        parting_keeps_every_effect(q.drop_last());
    }
}

/// Parted effects keep their order: what goes over the wire is, in order, every effect
/// that sends, and what is told is, in order, every other.
pub proof fn parting_keeps_the_order(q: Seq<Effect>)
    ensures
        wire_part(q) == q.filter(|e: Effect| e is Wire),
        told_part(q) == q.filter(|e: Effect| !(e is Wire)),
    decreases q.len(),
{
    reveal(Seq::filter);
    if q.len() > 0 {
        parting_keeps_the_order(q.drop_last());
    }
    assert(wire_part(q) =~= q.filter(|e: Effect| e is Wire));
    assert(told_part(q) =~= q.filter(|e: Effect| !(e is Wire)));
}

/// Every close that is ordered is sent, on its session, as no attempt; nothing else is
/// sent for an order.
pub proof fn ordered_closes_are_sent(q: Seq<RequestOrder>)
    ensures
        closes_of(q) == q.filter(|o: RequestOrder| o is Close).map_values(
            |o: RequestOrder|
                SentOp {
                    session: o->Close_session,
                    op: WireOp::Close(o->Close_sub_id),
                    attempt: None,
                },
        ),
    decreases q.len(),
{
    reveal(Seq::filter);
    let is = |o: RequestOrder| o is Close;
    let sent = |o: RequestOrder|
        SentOp { session: o->Close_session, op: WireOp::Close(o->Close_sub_id), attempt: None };
    if q.len() > 0 {
        ordered_closes_are_sent(q.drop_last());
        let rest = q.drop_last().filter(is);
        if is(q.last()) {
            assert(rest.push(q.last()).map_values(sent) =~= rest.map_values(sent).push(sent(q.last())));
        }
    }
    assert(closes_of(q) =~= q.filter(is).map_values(sent));
}

/// A delta carries for a request the attempt that the request is sent with last.
pub proof fn delta_carries_the_last_attempt(q: Seq<SentOp>, i: int, key: SentKey)
    requires
        sent_at(q, i, key),
        forall|j: int| i < j < q.len() ==> !(#[trigger] sent_at(q, j, key)),
    ensures
        sent_attempts(q).contains_key(key),
        sent_attempts(q)[key] == q[i].attempt->0,
    decreases q.len(),
{
    let rest = q.drop_last();
    let n = rest.len() as int;
    assert(q.last() == q[n]);
    if i < n {
        assert(!sent_at(q, n, key));
        assert(rest[i] == q[i]);
        assert(sent_at(rest, i, key));
        assert forall|j: int| i < j < rest.len() implies !(#[trigger] sent_at(rest, j, key)) by {
            assert(!sent_at(q, j, key));
            assert(rest[j] == q[j]);
        }
        delta_carries_the_last_attempt(rest, i, key);
        match (q.last().op, q.last().attempt) {
            (WireOp::Req(sub_id, filter), Some(id)) => {
                let other = sent_key(q.last().session, sub_id, filter.hash);
                if other == key {
                    assert(sent_at(q, n, key));
                }
            },
            _ => {},
        }
    } else {
        let sub_id = q[n].op->Req_0;
        let filter = q[n].op->Req_1;
        assert(sent_key(q[n].session, sub_id, filter.hash) == key);
    }
}

/// A delta carries an attempt for nothing that is not sent with one.
pub proof fn delta_carries_no_other_attempt(q: Seq<SentOp>, key: SentKey)
    requires
        forall|j: int| 0 <= j < q.len() ==> !(#[trigger] sent_at(q, j, key)),
    ensures
        !sent_attempts(q).contains_key(key),
    decreases q.len(),
{
    if q.len() > 0 {
        let rest = q.drop_last();
        let n = rest.len() as int;
        assert(q.last() == q[n]);
        assert(!sent_at(q, n, key));
        assert forall|j: int| 0 <= j < rest.len() implies !(#[trigger] sent_at(rest, j, key)) by {
            assert(!sent_at(q, j, key));
            assert(rest[j] == q[j]);
        }
        delta_carries_no_other_attempt(rest, key);
    }
}

/// One operation of a list is a request of a given session, subscription and filter,
/// sent with an attempt.
pub open spec fn sent_at(q: Seq<SentOp>, i: int, key: SentKey) -> bool {
    &&& 0 <= i < q.len()
    &&& q[i].attempt is Some
    &&& q[i].op matches WireOp::Req(sub_id, filter) && key.0.session == q[i].session && key.0.sub_id
        == sub_id && key.1 == filter.hash
}

/// What a plan asks for is told in full: a worker for every session that has to be
/// opened, the diagnostics where they are to be sent, every ordered close as a delta of
/// its own, and, last, everything that the plan sends in one delta.
pub proof fn plan_effects_are_complete(effects: Seq<Effect>, plan: PlanEffects)
    requires
        effects_of(effects, plan),
    ensures
        forall|i: int|
            0 <= i < plan.ensure_read@.len() ==> effects.contains(
                Effect::EnsureReadRelay(#[trigger] plan.ensure_read@[i]),
            ),
        plan.diagnostics ==> effects.contains(Effect::EmitDiagnostics),
        plan.sent@.len() > 0 ==> effects.len() > 0 && (effects.last() matches Effect::Wire(delta)
            && delta.operations().len() == plan.sent@.len() && forall|i: int|
            0 <= i < plan.sent@.len() ==> (#[trigger] delta.operations()[i]).session == plan.sent@[i].session
                && delta.operations()[i].op == plan.sent@[i].op),
        effects.len() == plan.ensure_read@.len() + (if plan.diagnostics {
            1int
        } else {
            0int
        }) + closes_of(plan.orders@).len() + (if plan.sent@.len() > 0 {
            1int
        } else {
            0int
        }),
{
    assert forall|i: int| 0 <= i < plan.ensure_read@.len() implies effects.contains(
        Effect::EnsureReadRelay(#[trigger] plan.ensure_read@[i]),
    ) by {
        assert(effects[i] == Effect::EnsureReadRelay(plan.ensure_read@[i]));
    }
    if plan.diagnostics {
        assert(effects[plan.ensure_read@.len() as int] == Effect::EmitDiagnostics);
    }
}

} // verus!
