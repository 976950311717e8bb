//! Opening an observation, all of it or nothing.
//!
//! Branches are opened one by one, their freshness is decided one by one, the
//! rows are read, and the evidence is read. Each of these can fail. Until the
//! last has come back nothing is delivered and nothing goes over the wire, and a
//! failure takes back whatever was taken on before it.

use vstd::prelude::*;

use crate::evidence::{evidence_view, AcquisitionEvidence, HandleAcquisition};
use crate::ids::{EventId, HandleId, ObservationId};
use crate::key::{lemma_listing_exists, lemma_listing_members, listing_of};
use crate::observation_registry::Observations;
use crate::observations::{last_evidence_view, remembered, BranchState, ObservationState, RowsSeed};
use crate::projection::{bodies_text, diff, diff_over, gone_from, lemma_bodies_text};
use crate::rows::{deltas_view, RememberedView, Row, RowDeltaView, RowView, RowsView};
use crate::sorted::SortedMap;
use crate::text::join_text;

verus! {

/// A branch that the resolver has opened.
#[derive(Clone, Copy, Debug, PartialEq, Eq, Structural)]
pub struct OpenedBranch {
    pub handle: HandleId,
    /// Whether only rows seen on the branch's own relays count.
    pub strict: bool,
}

/// How far an opening has come.
pub enum Opening {
    /// Branches are being opened.
    Subscribing { total: usize, limit: Option<usize>, opened: Vec<OpenedBranch> },
    /// The freshness of the open branches is being decided.
    Deciding { limit: Option<usize>, opened: Vec<OpenedBranch>, decided: Vec<HandleAcquisition> },
    /// The observation is on the books and its rows are being read.
    Reading { id: ObservationId },
    /// The rows are read and the evidence is being read.
    Proving { id: ObservationId, rows: SortedMap<EventId, Row> },
    /// The opening is over.
    Closed,
}

/// What came back.
pub enum OpeningEvent {
    Subscribed(OpenedBranch),
    SubscribeRefused(String),
    Decided(HandleAcquisition),
    DecisionFailed(String),
    RowsRead(SortedMap<EventId, Row>),
    RowsFailed(String),
    EvidenceRead(Vec<AcquisitionEvidence>),
    EvidenceFailed(String),
}

/// What is to be done next.
pub enum OpeningAction {
    /// Open the branch of the query at this place.
    SubscribeBranch(usize),
    DecideFreshness(HandleId),
    ReadRows(ObservationId),
    /// Declare what each branch asks for, and read the evidence.
    ReconcileAndReadEvidence(ObservationId),
    /// The opening is over.
    Finish(ObservationOpen<ObservationId, RowsSeed>),
}

/// How an opening ended.
pub enum ObservationOpen<Id, Seed> {
    /// It is open: its branches are to be attached to the wire, and this is its
    /// first delivery.
    Opened { id: Id, seed: Seed },
    /// It is refused: these branches are to be released.
    Refused { reason: String, branches: Vec<HandleId> },
}

/// The handles of a list of branches.
pub open spec fn handles_of(q: Seq<OpenedBranch>) -> Seq<HandleId> {
    Seq::new(q.len(), |i: int| q[i].handle)
}

fn handle_list(q: &Vec<OpenedBranch>) -> (r: Vec<HandleId>)
    ensures
        r@ == handles_of(q@),
{
    let mut r: Vec<HandleId> = Vec::new();
    let mut i: usize = 0;
    while i < q.len()
        invariant
            i <= q@.len(),
            r@.len() == i,
            forall|j: int| 0 <= j < i ==> (#[trigger] r@[j]) == q@[j].handle,
        decreases q@.len() - i,
    {
        r.push(q[i].handle);
        i = i + 1;
    }
    assert(r@ =~= handles_of(q@));
    r
}

fn strict_list(q: &Vec<OpenedBranch>) -> (r: Vec<bool>)
    ensures
        r@.len() == q@.len(),
        forall|j: int| 0 <= j < q@.len() ==> (#[trigger] r@[j]) == q@[j].strict,
{
    let mut r: Vec<bool> = Vec::new();
    let mut i: usize = 0;
    while i < q.len()
        invariant
            i <= q@.len(),
            r@.len() == i,
            forall|j: int| 0 <= j < i ==> (#[trigger] r@[j]) == q@[j].strict,
        decreases q@.len() - i,
    {
        r.push(q[i].strict);
        i = i + 1;
    }
    r
}

/// An observation that is on the books and has delivered nothing.
pub open spec fn undelivered(state: ObservationState) -> bool {
    &&& state.last_rows@ == Map::<EventId, RememberedView>::empty()
    &&& state.last_evidence is None
    &&& !state.projection_complete
    &&& state.next_sequence == 0
}

/// Whether one registry is another with a new observation taken on.
pub open spec fn registers(
    before: Observations,
    after: Observations,
    id: ObservationId,
    opened: Seq<OpenedBranch>,
    decided: Seq<HandleAcquisition>,
    limit: Option<usize>,
) -> bool {
    let state = after.observations@[id];
    &&& id.0 == before.next_observation_id
    &&& after.next_observation_id == (if id.0 == u64::MAX {
        0
    } else {
        (id.0 + 1) as u64
    })
    &&& after.observations@ == before.observations@.insert(id, state)
    &&& state.branches@ == handles_of(opened)
    &&& state.aggregate_result_limit == limit
    &&& undelivered(state)
    &&& forall|h: HandleId| #[trigger]
        after.handles@.contains_key(h) <==> before.handles@.contains_key(h) || handles_of(opened).contains(h)
    &&& forall|i: int|
        0 <= i < opened.len() ==> after.handles@[(#[trigger] opened[i]).handle] == (BranchState {
            acquisition: decided[i],
            observation: id,
            strict: opened[i].strict,
        })
    &&& forall|h: HandleId|
        before.handles@.contains_key(h) && !handles_of(opened).contains(h) ==> (#[trigger] after.handles@[h])
            == before.handles@[h]
}

/// Whether one registry is another with an observation and its branches taken
/// off the books.
pub open spec fn releases(before: Observations, after: Observations, id: ObservationId) -> bool {
    &&& after.next_observation_id == before.next_observation_id
    &&& after.observations@ == before.observations@.remove(id)
    &&& after.handles@ == before.handles@.remove_keys(before.observations@[id].branches@.to_set())
}

/// Whether an opening and a registry belong together.
pub open spec fn in_step(registry: Observations, opening: Opening) -> bool {
    match opening {
        Opening::Subscribing { total, opened, .. } => opened@.len() < total && handles_of(
            opened@,
        ).no_duplicates(),
        Opening::Deciding { opened, decided, .. } => decided@.len() < opened@.len() && handles_of(
            opened@,
        ).no_duplicates(),
        Opening::Reading { id } => registry.observations@.contains_key(id) && undelivered(
            registry.observations@[id],
        ),
        Opening::Proving { id, .. } => registry.observations@.contains_key(id) && undelivered(
            registry.observations@[id],
        ),
        Opening::Closed => true,
    }
}

/// Whether an event is an answer to what the opening asked for.
pub open spec fn answers(opening: Opening, event: OpeningEvent) -> bool {
    match opening {
        Opening::Subscribing { opened, .. } => match event {
            OpeningEvent::Subscribed(branch) => !handles_of(opened@).contains(branch.handle),
            OpeningEvent::SubscribeRefused(_) => true,
            _ => false,
        },
        Opening::Deciding { .. } => event is Decided || event is DecisionFailed,
        Opening::Reading { .. } => event is RowsRead || event is RowsFailed,
        Opening::Proving { .. } => event is EvidenceRead || event is EvidenceFailed,
        Opening::Closed => false,
    }
}

/// Whether a step refuses the opening, for one reason.
pub open spec fn refuses(
    next: Opening,
    action: OpeningAction,
    branches: Seq<HandleId>,
    reason: Seq<char>,
    error: Seq<char>,
) -> bool {
    &&& next is Closed
    &&& action matches OpeningAction::Finish(ObservationOpen::Refused { reason: t, branches: b }) && b@
        == branches && t@ == reason + error
}

/// What one step of an opening does to the registry, and what it leads to.
pub open spec fn opening_step(
    before: Observations,
    opening: Opening,
    event: OpeningEvent,
    after: Observations,
    next_opening: Opening,
    action: OpeningAction,
) -> bool {
    match (opening, event) {
        (Opening::Subscribing { total, limit, opened }, OpeningEvent::Subscribed(branch)) => {
            let now = opened@.push(branch);
            &&& after == before
            &&& if now.len() < total {
                &&& next_opening matches Opening::Subscribing { total: t, limit: l, opened: o } && t == total
                    && l == limit && o@ == now
                &&& action == OpeningAction::SubscribeBranch(now.len() as usize)
            } else {
                &&& next_opening matches Opening::Deciding { limit: l, opened: o, decided: d } && l == limit
                    && o@ == now && d@ == Seq::<HandleAcquisition>::empty()
                &&& action == OpeningAction::DecideFreshness(now[0].handle)
            }
        },
        (Opening::Subscribing { opened, .. }, OpeningEvent::SubscribeRefused(error)) => {
            &&& after == before
            &&& refuses(
                next_opening,
                action,
                handles_of(opened@),
                "canonical query resolution failed: "@,
                error@,
            )
        },
        (Opening::Deciding { limit, opened, decided }, OpeningEvent::Decided(acquisition)) => {
            let now = decided@.push(acquisition);
            if now.len() < opened@.len() {
                &&& after == before
                &&& next_opening matches Opening::Deciding { limit: l, opened: o, decided: d } && l == limit
                    && o@ == opened@ && d@ == now
                &&& action == OpeningAction::DecideFreshness(opened@[now.len() as int].handle)
            } else {
                let id = ObservationId(before.next_observation_id);
                &&& registers(before, after, id, opened@, now, limit)
                &&& next_opening == (Opening::Reading { id })
                &&& action == OpeningAction::ReadRows(id)
            }
        },
        (Opening::Deciding { opened, .. }, OpeningEvent::DecisionFailed(error)) => {
            &&& after == before
            &&& refuses(
                next_opening,
                action,
                handles_of(opened@),
                "query freshness decision failed: "@,
                error@,
            )
        },
        (Opening::Reading { id }, OpeningEvent::RowsRead(rows)) => {
            &&& after == before
            &&& next_opening == (Opening::Proving { id, rows })
            &&& action == OpeningAction::ReconcileAndReadEvidence(id)
        },
        (Opening::Reading { id }, OpeningEvent::RowsFailed(error)) => {
            &&& releases(before, after, id)
            &&& refuses(
                next_opening,
                action,
                before.observations@[id].branches@,
                "canonical row projection failed: "@,
                error@,
            )
        },
        (Opening::Proving { id, rows }, OpeningEvent::EvidenceRead(evidence)) => {
            let state = before.observations@[id];
            let next = after.observations@[id];
            &&& after.handles == before.handles
            &&& after.next_observation_id == before.next_observation_id
            &&& after.observations@ == before.observations@.insert(id, next)
            &&& next == (ObservationState {
                projection_complete: true,
                last_rows: next.last_rows,
                last_evidence: next.last_evidence,
                ..state
            })
            &&& next.last_rows@ == remembered(bodies_text(rows@))
            &&& last_evidence_view(next.last_evidence) == Some(evidence_view(evidence@))
            &&& next_opening is Closed
            &&& action matches OpeningAction::Finish(ObservationOpen::Opened { id: told, seed }) && told
                == id && deltas_view(seed.deltas@) == diff(
                Map::empty(),
                remembered(bodies_text(rows@)),
                bodies_text(rows@),
            ) && evidence_view(seed.evidence@) == evidence_view(evidence@)
        },
        (Opening::Proving { id, .. }, OpeningEvent::EvidenceFailed(error)) => {
            &&& releases(before, after, id)
            &&& refuses(
                next_opening,
                action,
                before.observations@[id].branches@,
                "acquisition evidence projection failed: "@,
                error@,
            )
        },
        _ => false,
    }
}

impl Observations {
    /// Starts to open a query of so many branches.
    pub fn begin_opening(&mut self, total: usize, limit: Option<usize>) -> (r: (Opening, OpeningAction))
        ensures
            in_step(*final(self), r.0),
            if total > 0 {
                &&& *final(self) == *old(self)
                &&& r.0 matches Opening::Subscribing { total: t, limit: l, opened } && t == total && l
                    == limit && opened@ == Seq::<OpenedBranch>::empty()
                &&& r.1 == OpeningAction::SubscribeBranch(0)
            } else {
                let id = ObservationId(old(self).next_observation_id);
                &&& registers(*old(self), *final(self), id, Seq::empty(), Seq::empty(), limit)
                &&& r.0 == (Opening::Reading { id })
                &&& r.1 == OpeningAction::ReadRows(id)
            },
    {
        if total > 0 {
            return (
                Opening::Subscribing { total, limit, opened: Vec::new() },
                OpeningAction::SubscribeBranch(0),
            );
        }
        self.register(Vec::new(), Vec::new(), limit)
    }

    fn register(
        &mut self,
        opened: Vec<OpenedBranch>,
        decided: Vec<HandleAcquisition>,
        limit: Option<usize>,
    ) -> (r: (Opening, OpeningAction))
        requires
            opened@.len() == decided@.len(),
            handles_of(opened@).no_duplicates(),
        ensures
            in_step(*final(self), r.0),
            registers(
                *old(self),
                *final(self),
                ObservationId(old(self).next_observation_id),
                opened@,
                decided@,
                limit,
            ),
            r.0 == (Opening::Reading { id: ObservationId(old(self).next_observation_id) }),
            r.1 == OpeningAction::ReadRows(ObservationId(old(self).next_observation_id)),
    {
        let branches = handle_list(&opened);
        let strict = strict_list(&opened);
        let ghost given = decided@;
        let id = self.take_on(branches, decided, &strict, limit);
        proof {
            assert forall|i: int| 0 <= i < opened@.len() implies self.handles@[(#[trigger] opened@[i]).handle]
                == (BranchState {
                acquisition: given[i],
                observation: id,
                strict: opened@[i].strict,
            }) by {
                assert(handles_of(opened@)[i] == opened@[i].handle);
            }
        }
        (Opening::Reading { id }, OpeningAction::ReadRows(id))
    }

    /// Takes an observation that was never delivered off the books again.
    fn take_back(&mut self, id: &ObservationId) -> (branches: Vec<HandleId>)
        requires
            old(self).observations@.contains_key(*id),
        ensures
            releases(*old(self), *final(self), *id),
            branches@ == old(self).observations@[*id].branches@,
    {
        match self.withdraw(id) {
            Some((branches, _)) => branches,
            None => Vec::new(),
        }
    }

    /// Goes one step further in an opening.
    pub fn open_observation(&mut self, opening: Opening, event: OpeningEvent) -> (r: (Opening, OpeningAction))
        requires
            in_step(*old(self), opening),
            answers(opening, event),
        ensures
            in_step(*final(self), r.0),
            opening_step(*old(self), opening, event, *final(self), r.0, r.1),
    {
        match (opening, event) {
            (Opening::Subscribing { total, limit, opened }, OpeningEvent::Subscribed(branch)) => {
                let mut opened = opened;
                let ghost before = opened@;
                opened.push(branch);
                proof {
                    let a = handles_of(before);
                    let b = handles_of(opened@);
                    assert forall|i: int, j: int| 0 <= i < b.len() && 0 <= j < b.len() && i != j implies b[i]
                        != b[j] by {
                        if i < before.len() && j < before.len() {
                            assert(a[i] == b[i] && a[j] == b[j]);
                        } else if i < before.len() {
                            assert(a[i] == b[i]);
                            assert(a.contains(a[i]));
                        } else {
                            assert(a[j] == b[j]);
                            assert(a.contains(a[j]));
                        }
                    }
                }
                let n = opened.len();
                if n < total {
                    (Opening::Subscribing { total, limit, opened }, OpeningAction::SubscribeBranch(n))
                } else {
                    let first = opened[0].handle;
                    (
                        Opening::Deciding { limit, opened, decided: Vec::new() },
                        OpeningAction::DecideFreshness(first),
                    )
                }
            },
            (Opening::Subscribing { opened, .. }, OpeningEvent::SubscribeRefused(error)) => {
                let branches = handle_list(&opened);
                let reason = join_text("canonical query resolution failed: ", error.as_str());
                (Opening::Closed, OpeningAction::Finish(ObservationOpen::Refused { reason, branches }))
            },
            (Opening::Deciding { limit, opened, decided }, OpeningEvent::Decided(acquisition)) => {
                let mut decided = decided;
                decided.push(acquisition);
                let n = decided.len();
                if n < opened.len() {
                    let next = opened[n].handle;
                    (
                        Opening::Deciding { limit, opened, decided },
                        OpeningAction::DecideFreshness(next),
                    )
                } else {
                    self.register(opened, decided, limit)
                }
            },
            (Opening::Deciding { opened, .. }, OpeningEvent::DecisionFailed(error)) => {
                let branches = handle_list(&opened);
                let reason = join_text("query freshness decision failed: ", error.as_str());
                (Opening::Closed, OpeningAction::Finish(ObservationOpen::Refused { reason, branches }))
            },
            (Opening::Reading { id }, OpeningEvent::RowsRead(rows)) => (
                Opening::Proving { id, rows },
                OpeningAction::ReconcileAndReadEvidence(id),
            ),
            (Opening::Reading { id }, OpeningEvent::RowsFailed(error)) => {
                let branches = self.take_back(&id);
                let reason = join_text("canonical row projection failed: ", error.as_str());
                (Opening::Closed, OpeningAction::Finish(ObservationOpen::Refused { reason, branches }))
            },
            (Opening::Proving { id, rows }, OpeningEvent::EvidenceRead(evidence)) => {
                match self.refresh_observation(&id, rows, evidence) {
                    Some(seed) => (
                        Opening::Closed,
                        OpeningAction::Finish(ObservationOpen::Opened { id, seed }),
                    ),
                    None => (Opening::Closed, OpeningAction::ReadRows(id)),
                }
            },
            (Opening::Proving { id, .. }, OpeningEvent::EvidenceFailed(error)) => {
                let branches = self.take_back(&id);
                let reason = join_text("acquisition evidence projection failed: ", error.as_str());
                (Opening::Closed, OpeningAction::Finish(ObservationOpen::Refused { reason, branches }))
            },
            _ => (Opening::Closed, OpeningAction::SubscribeBranch(0)),
        }
    }
}

/// A refused opening leaves nothing behind: no observation, no branch. Only the
/// number that the observation would have had is spent.
pub proof fn refused_opening_leaves_nothing(
    before: Observations,
    registered: Observations,
    refused: Observations,
    id: ObservationId,
    opened: Seq<OpenedBranch>,
    decided: Seq<HandleAcquisition>,
    limit: Option<usize>,
)
    requires
        registers(before, registered, id, opened, decided, limit),
        releases(registered, refused, id),
        !before.observations@.contains_key(id),
        forall|i: int|
            0 <= i < opened.len() ==> !before.handles@.contains_key((#[trigger] opened[i]).handle),
    ensures
        refused.observations@ == before.observations@,
        refused.handles@ == before.handles@,
{
    assert(registered.observations@ =~= registered.observations@.insert(id, registered.observations@[id]));
    withdrawn_observation_leaves_nothing(before, registered, registered, refused, id, opened, decided, limit);
}

/// An observation that was opened and is withdrawn leaves nothing behind either,
/// whatever it has delivered in between.
pub proof fn withdrawn_observation_leaves_nothing(
    before: Observations,
    registered: Observations,
    delivered: Observations,
    after: Observations,
    id: ObservationId,
    opened: Seq<OpenedBranch>,
    decided: Seq<HandleAcquisition>,
    limit: Option<usize>,
)
    requires
        registers(before, registered, id, opened, decided, limit),
        delivered.handles@ == registered.handles@,
        delivered.observations@ == registered.observations@.insert(id, delivered.observations@[id]),
        delivered.observations@[id].branches@ == handles_of(opened),
        releases(delivered, after, id),
        !before.observations@.contains_key(id),
        forall|i: int|
            0 <= i < opened.len() ==> !before.handles@.contains_key((#[trigger] opened[i]).handle),
    ensures
        after.observations@ == before.observations@,
        after.handles@ == before.handles@,
{
    let branches = handles_of(opened);
    assert(after.observations@ =~= before.observations@);
    assert forall|h: HandleId| branches.contains(h) implies !before.handles@.contains_key(h) by {
        let i = choose|i: int| 0 <= i < branches.len() && branches[i] == h;
        assert(opened[i].handle == h);
    }
    assert forall|h: HandleId| after.handles@.contains_key(h) <==> before.handles@.contains_key(h) by {
        assert(branches.to_set().contains(h) <==> branches.contains(h));
        assert(registered.handles@.contains_key(h) <==> before.handles@.contains_key(h)
            || branches.contains(h));
    }
    assert forall|h: HandleId| after.handles@.contains_key(h) implies after.handles@[h]
        == before.handles@[h] by {
        assert(registered.handles@[h] == before.handles@[h]);
    }
    assert(after.handles@ =~= before.handles@);
}

/// A new observation is on the books under the next number, with the branches that were
/// opened, in their order, and the limit that was asked for, and has delivered nothing.
/// Each branch belongs to it, with its own decision and its own pin. No other
/// observation and no other branch changes.
pub proof fn registered_observation_owns_its_branches(
    before: Observations,
    after: Observations,
    id: ObservationId,
    opened: Seq<OpenedBranch>,
    decided: Seq<HandleAcquisition>,
    limit: Option<usize>,
    i: int,
    other: ObservationId,
    h: HandleId,
)
    requires
        registers(before, after, id, opened, decided, limit),
        0 <= i < opened.len(),
        other != id,
        forall|j: int| 0 <= j < opened.len() ==> (#[trigger] opened[j]).handle != h,
    ensures
        id.0 == before.next_observation_id,
        before.next_observation_id < u64::MAX ==> after.next_observation_id == before.next_observation_id + 1,
        after.observations@.contains_key(id),
        after.observations@[id].branches@.len() == opened.len(),
        after.observations@[id].branches@[i] == opened[i].handle,
        after.observations@[id].aggregate_result_limit == limit,
        !after.observations@[id].projection_complete,
        after.observations@[id].last_evidence is None,
        after.observations@[id].last_rows@.dom() == Set::<EventId>::empty(),
        after.observations@[id].next_sequence == 0,
        after.handles@.contains_key(opened[i].handle),
        after.handles@[opened[i].handle].observation == id,
        after.handles@[opened[i].handle].strict == opened[i].strict,
        after.handles@[opened[i].handle].acquisition == decided[i],
        after.observations@.contains_key(other) == before.observations@.contains_key(other),
        before.observations@.contains_key(other) ==> after.observations@[other] == before.observations@[other],
        after.handles@.contains_key(h) == before.handles@.contains_key(h),
        before.handles@.contains_key(h) ==> after.handles@[h] == before.handles@[h],
{
    let q = handles_of(opened);
    assert(q[i] == opened[i].handle);
    assert(q.contains(opened[i].handle));
    assert(after.observations@[id].last_rows@.dom() =~= Set::<EventId>::empty());
    assert(!q.contains(h)) by {
        if q.contains(h) {
            let j = choose|j: int| 0 <= j < q.len() && q[j] == h;
            assert(opened[j].handle == h);
        }
    }
}

/// An observation that is withdrawn goes with exactly its own branches.
pub proof fn released_observation_takes_its_branches(
    before: Observations,
    after: Observations,
    id: ObservationId,
    other: ObservationId,
    h: HandleId,
)
    requires
        releases(before, after, id),
        other != id,
    ensures
        !after.observations@.contains_key(id),
        after.observations@.contains_key(other) == before.observations@.contains_key(other),
        before.observations@.contains_key(other) ==> after.observations@[other] == before.observations@[other],
        after.handles@.contains_key(h) <==> before.handles@.contains_key(h)
            && !before.observations@[id].branches@.contains(h),
        after.handles@.contains_key(h) ==> after.handles@[h] == before.handles@[h],
        after.next_observation_id == before.next_observation_id,
{
}

/// How an opening goes on. Every branch of the query is asked for, one after the other
/// and from the first; then the freshness of each is decided in the same order; only
/// when all are decided is the observation on the books; then its rows are read, then
/// its evidence; and only then is it open. Nothing but the last two steps and the
/// registration touches the registry.
pub proof fn opening_goes_step_by_step(
    before: Observations,
    opening: Opening,
    event: OpeningEvent,
    after: Observations,
    next_opening: Opening,
    action: OpeningAction,
)
    requires
        opening_step(before, opening, event, after, next_opening, action),
    ensures
        action matches OpeningAction::SubscribeBranch(place) ==> opening is Subscribing && event is Subscribed
            && place == opening->Subscribing_opened@.len() + 1 && place < opening->Subscribing_total && after
            == before,
        action is ReadRows ==> opening is Deciding && event is Decided && opening->Deciding_decided@.len() + 1
            >= opening->Deciding_opened@.len(),
        action is ReconcileAndReadEvidence ==> opening is Reading && event is RowsRead && after == before,
        action matches OpeningAction::Finish(ObservationOpen::Opened { id, .. }) ==> (opening
            matches Opening::Proving { id: proven, .. } && proven == id) && event is EvidenceRead
            && after.observations@[id].projection_complete && after.observations@[id].last_evidence is Some,
        action matches OpeningAction::Finish(ObservationOpen::Refused { .. }) ==> next_opening is Closed && (
        event is SubscribeRefused || event is DecisionFailed || event is RowsFailed || event is EvidenceFailed),
        opening is Subscribing ==> after == before,
        after.handles != before.handles ==> opening is Deciding || event is RowsFailed || event is EvidenceFailed,
{
}

/// A refused opening hands back every branch that it has opened so far, and says why in
/// the words of what failed.
pub proof fn refused_opening_hands_its_branches_back(
    before: Observations,
    opening: Opening,
    event: OpeningEvent,
    after: Observations,
    next_opening: Opening,
    action: OpeningAction,
)
    requires
        opening_step(before, opening, event, after, next_opening, action),
        action is Finish,
        action->Finish_0 is Refused,
    ensures
        opening matches Opening::Subscribing { opened, .. } ==> action->Finish_0->Refused_branches@.len()
            == opened@.len() && forall|i: int|
            0 <= i < opened@.len() ==> #[trigger] action->Finish_0->Refused_branches@[i] == opened@[i].handle,
        opening matches Opening::Deciding { opened, .. } ==> action->Finish_0->Refused_branches@.len()
            == opened@.len() && forall|i: int|
            0 <= i < opened@.len() ==> #[trigger] action->Finish_0->Refused_branches@[i] == opened@[i].handle,
        opening matches Opening::Reading { id } ==> action->Finish_0->Refused_branches@
            == before.observations@[id].branches@ && !after.observations@.contains_key(id),
        opening matches Opening::Proving { id, .. } ==> action->Finish_0->Refused_branches@
            == before.observations@[id].branches@ && !after.observations@.contains_key(id),
        event matches OpeningEvent::SubscribeRefused(why) ==> action->Finish_0->reason@
            == "canonical query resolution failed: "@ + why@,
        event matches OpeningEvent::DecisionFailed(why) ==> action->Finish_0->reason@
            == "query freshness decision failed: "@ + why@,
        event matches OpeningEvent::RowsFailed(why) ==> action->Finish_0->reason@
            == "canonical row projection failed: "@ + why@,
        event matches OpeningEvent::EvidenceFailed(why) ==> action->Finish_0->reason@
            == "acquisition evidence projection failed: "@ + why@,
{
}

/// A branch that was opened is added at the end of those before it, and the next one is
/// asked for; after the last one the freshness of the first is asked for, with nothing
/// decided yet. A decision is added in the same way, and the next branch is asked about;
/// after the last one the observation is read. The limit stays what it was.
pub proof fn opening_moves_on(
    before: Observations,
    opening: Opening,
    event: OpeningEvent,
    after: Observations,
    next_opening: Opening,
    action: OpeningAction,
)
    requires
        opening_step(before, opening, event, after, next_opening, action),
        in_step(before, opening),
    ensures
        event matches OpeningEvent::Subscribed(branch) ==> {
            let all = match next_opening {
                Opening::Subscribing { opened, .. } => opened@,
                Opening::Deciding { opened, .. } => opened@,
                _ => Seq::empty(),
            };
            let limit = match next_opening {
                Opening::Subscribing { limit, .. } => limit,
                Opening::Deciding { limit, .. } => limit,
                _ => None,
            };
            &&& all.len() == opening->Subscribing_opened@.len() + 1
            &&& all.last() == branch
            &&& all.drop_last() == opening->Subscribing_opened@
            &&& limit == opening->Subscribing_limit
            &&& next_opening is Subscribing <==> all.len() < opening->Subscribing_total
            &&& next_opening is Subscribing ==> action == OpeningAction::SubscribeBranch(all.len() as usize)
                && next_opening->Subscribing_total == opening->Subscribing_total
            &&& next_opening is Deciding ==> action == OpeningAction::DecideFreshness(all[0].handle)
                && next_opening->Deciding_decided@.len() == 0
        },
        event matches OpeningEvent::Decided(acquisition) ==> {
            let n = opening->Deciding_decided@.len() as int + 1;
            let opened = opening->Deciding_opened@;
            &&& next_opening is Deciding <==> n < opened.len()
            &&& next_opening is Deciding ==> {
                &&& next_opening->Deciding_decided@.len() == n
                &&& next_opening->Deciding_decided@.last() == acquisition
                &&& next_opening->Deciding_decided@.drop_last() == opening->Deciding_decided@
                &&& next_opening->Deciding_opened@ == opened
                &&& next_opening->Deciding_limit == opening->Deciding_limit
                &&& action == OpeningAction::DecideFreshness(opened[n].handle)
                &&& after == before
            }
            &&& !(next_opening is Deciding) ==> {
                &&& action is ReadRows
                &&& next_opening == (Opening::Reading { id: action->ReadRows_0 })
                &&& after.observations@[action->ReadRows_0].branches@.len() == opened.len()
                &&& after.observations@[action->ReadRows_0].aggregate_result_limit == opening->Deciding_limit
                &&& after.handles@[opened.last().handle].acquisition == acquisition
            }
        },
        event matches OpeningEvent::RowsRead(rows) ==> next_opening == (Opening::Proving {
            id: opening->Reading_id,
            rows,
        }) && action == OpeningAction::ReconcileAndReadEvidence(opening->Reading_id),
{
    if event is Subscribed {
        let old_list = opening->Subscribing_opened@;
        assert(old_list.push(event->Subscribed_0).drop_last() =~= old_list);
    }
    if event is Decided {
        let old_list = opening->Deciding_decided@;
        let opened = opening->Deciding_opened@;
        assert(old_list.push(event->Decided_0).drop_last() =~= old_list);
        if old_list.len() + 1 >= opened.len() {
            let q = handles_of(opened);
            assert(q[opened.len() - 1] == opened.last().handle);
        }
    }
}

proof fn lemma_everything_is_new(q: Seq<EventId>, cur: RowsView, body: Map<EventId, RowView>)
    ensures
        diff_over(q, Map::empty(), cur, body) == Seq::new(q.len(), |i: int| RowDeltaView::Added(body[q[i]])),
    decreases q.len(),
{
    let all = Seq::new(q.len(), |i: int| RowDeltaView::Added(body[q[i]]));
    if q.len() > 0 {
        lemma_everything_is_new(q.drop_last(), cur, body);
        assert(all =~= diff_over(q, Map::empty(), cur, body));
    } else {
        assert(all =~= diff_over(q, Map::empty(), cur, body));
    }
}

/// An observation that has just been opened is told every row that was read, once and as
/// new, and nothing else, with the evidence that was read; and that is what it remembers.
pub proof fn opened_observation_shows_everything(
    before: Observations,
    opening: Opening,
    event: OpeningEvent,
    after: Observations,
    next_opening: Opening,
    action: OpeningAction,
    id: EventId,
)
    requires
        opening_step(before, opening, event, after, next_opening, action),
        opening is Proving,
        event is EvidenceRead,
        opening->Proving_rows@.dom().finite(),
    ensures
        ({
            let rows = opening->Proving_rows@;
            let seed = action->Finish_0->seed;
            let told = deltas_view(seed.deltas@);
            let state = after.observations@[opening->Proving_id];
            &&& action is Finish
            &&& action->Finish_0 is Opened
            &&& action->Finish_0->id == opening->Proving_id
            &&& next_opening is Closed
            &&& told.len() == rows.dom().len()
            &&& rows.contains_key(id) ==> told.contains(RowDeltaView::Added(rows[id]@))
            &&& forall|i: int|
                0 <= i < told.len() ==> exists|x: EventId| #[trigger]
                    rows.contains_key(x) && #[trigger] told[i] == RowDeltaView::Added(rows[x]@)
            &&& evidence_view(seed.evidence@) == evidence_view(event->EvidenceRead_0@)
            &&& last_evidence_view(state.last_evidence) == Some(evidence_view(event->EvidenceRead_0@))
            &&& state.last_rows@.contains_key(id) <==> rows.contains_key(id)
            &&& state.branches == before.observations@[opening->Proving_id].branches
            &&& after.handles == before.handles
        }),
{
    let rows = opening->Proving_rows@;
    let body = bodies_text(rows);
    let cur = remembered(body);
    lemma_bodies_text(rows);
    assert(cur.dom() =~= rows.dom());
    lemma_listing_exists(cur.dom());
    let q = listing_of(cur.dom());
    lemma_listing_members(q, cur.dom());
    lemma_everything_is_new(q, cur, body);
    let gone = gone_from(Map::<EventId, RememberedView>::empty(), cur);
    assert(gone =~= Set::<EventId>::empty());
    lemma_listing_exists(gone);
    assert(listing_of(gone).len() == 0);
    let told = deltas_view(action->Finish_0->seed.deltas@);
    assert(told =~= Seq::new(q.len(), |i: int| RowDeltaView::Added(body[q[i]])));
    if rows.contains_key(id) {
        assert(cur.dom().contains(id));
        assert(q.contains(id));
        let i = choose|i: int| 0 <= i < q.len() && q[i] == id;
        assert(told[i] == RowDeltaView::Added(rows[id]@));
    }
    assert forall|i: int| 0 <= i < told.len() implies exists|x: EventId| #[trigger]
        rows.contains_key(x) && #[trigger] told[i] == RowDeltaView::Added(rows[x]@) by {
        assert(q.contains(q[i]));
        assert(cur.dom().contains(q[i]));
        assert(rows.contains_key(q[i]) && told[i] == RowDeltaView::Added(rows[q[i]]@));
    }
}

} // verus!
