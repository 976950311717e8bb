//! Live observations: what each has delivered, and how a new read or a
//! committed change is delivered.

use vstd::prelude::*;

use crate::evidence::{
    copy_evidence, evidence_view, same_evidence, AcquisitionEvidence, EvidenceView, HandleAcquisition,
};
use crate::ids::{EventId, HandleId, ObservationId, Relay};
use crate::key::{is_listing, lemma_listing_members, lemma_push_contains, Key};
use crate::projection::{
    applied, apply_bounded, apply_unbounded, bodies_text, completed, diff, diff_rows, lemma_bodies_text,
    told_in_full, told_of, with_sources, ChangesView, MatchedChanges,
};
use crate::rows::{
    deltas_view, newest, newest_ids, newest_rows, remember, row_from_stored_event, RememberedRows,
    Row, RowDelta, RowDeltaView, RowView, RowsView, SigState, SignedEvent,
};
use crate::sorted::{SortedMap, SortedSet};
use crate::wire::ConcreteFilter;

verus! {

/// One concrete filter that a branch's root has resolved to, with its text.
#[derive(Debug)]
pub struct RootAtom {
    pub filter: ConcreteFilter,
    pub text: String,
}

/// The largest row limit of a list of filters, where any has one.
pub open spec fn largest_limit(q: Seq<RootAtom>) -> Option<usize>
    decreases q.len(),
{
    if q.len() == 0 {
        None
    } else {
        match (largest_limit(q.drop_last()), q.last().filter.limit) {
            (Some(a), Some(b)) => Some(
                if a >= b {
                    a
                } else {
                    b
                },
            ),
            (Some(a), None) => Some(a),
            (None, b) => b,
        }
    }
}

/// How many rows a branch delivers at most.
pub fn effective_row_limit(root_atoms: &Vec<RootAtom>) -> (r: Option<usize>)
    ensures
        r == largest_limit(root_atoms@),
{
    let mut r: Option<usize> = None;
    let mut i: usize = 0;
    assert(root_atoms@.take(0) =~= Seq::<RootAtom>::empty());
    while i < root_atoms.len()
        invariant
            i <= root_atoms@.len(),
            r == largest_limit(root_atoms@.take(i as int)),
        decreases root_atoms@.len() - i,
    {
        proof {
            assert(root_atoms@.take(i + 1).drop_last() =~= root_atoms@.take(i as int));
            assert(root_atoms@.take(i + 1).last() == root_atoms@[i as int]);
        }
        r = match (r, root_atoms[i].filter.limit) {
            (Some(a), Some(b)) => if a >= b {
                Some(a)
            } else {
                Some(b)
            },
            (Some(a), None) => Some(a),
            (None, b) => b,
        };
        i = i + 1;
    }
    assert(root_atoms@.take(i as int) =~= root_atoms@);
    r
}

/// One event as a store read gives it.
#[derive(Debug)]
pub struct StoredRow {
    pub event: SignedEvent,
    /// The signature state of a locally accepted event; none for an event that
    /// only relays have given.
    pub local: Option<SigState>,
    pub seen: SortedSet<Relay>,
    /// Whether the event's provenance makes it visible under the branch's pin.
    pub visible_under_pin: bool,
}

/// The row of a stored event: an event that only relays have given is signed.
pub open spec fn stored_view(row: StoredRow) -> RowView {
    RowView {
        id: row.event.id,
        created_at: row.event.created_at,
        text: row.event.text@,
        signature: crate::rows::signature_of(
            row.event.sig,
            match row.local {
                Some(state) => state,
                None => SigState::Signed,
            },
        ),
        sources: row.seen@,
    }
}

/// The rows of one read added to those of earlier ones: of two rows with one
/// id the earlier counts, and under a pin only visible rows count.
pub open spec fn read_rows(have: Map<EventId, RowView>, q: Seq<StoredRow>, pinned: bool) -> Map<
    EventId,
    RowView,
>
    decreases q.len(),
{
    if q.len() == 0 {
        have
    } else {
        let before = read_rows(have, q.drop_last(), pinned);
        let row = q.last();
        if (pinned && !row.visible_under_pin) || before.contains_key(row.event.id) {
            before
        } else {
            before.insert(row.event.id, stored_view(row))
        }
    }
}

/// The rows of several reads.
pub open spec fn all_read(reads: Seq<Vec<StoredRow>>, pinned: bool) -> Map<EventId, RowView>
    decreases reads.len(),
{
    if reads.len() == 0 {
        Map::empty()
    } else {
        read_rows(all_read(reads.drop_last(), pinned), reads.last()@, pinned)
    }
}

/// The dates of a set of rows.
pub open spec fn row_dates(rows: Map<EventId, RowView>) -> Map<EventId, u64> {
    rows.map_values(|r: RowView| r.created_at)
}

/// The newest of a set of rows, where there is a limit.
pub open spec fn limited(rows: Map<EventId, RowView>, limit: Option<usize>) -> Map<EventId, RowView> {
    match limit {
        Some(n) => rows.restrict(newest(row_dates(rows), n as nat)),
        None => rows,
    }
}

proof fn lemma_bodies_insert(m: Map<EventId, Row>, id: EventId, row: Row)
    ensures
        bodies_text(m.insert(id, row)) == bodies_text(m).insert(id, row@),
        bodies_text(m.remove(id)) == bodies_text(m).remove(id),
        bodies_text(Map::<EventId, Row>::empty()) == Map::<EventId, RowView>::empty(),
{
    lemma_bodies_text(m);
    lemma_bodies_text(m.insert(id, row));
    lemma_bodies_text(m.remove(id));
    lemma_bodies_text(Map::<EventId, Row>::empty());
    assert forall|x: EventId| m.insert(id, row).contains_key(x) implies bodies_text(m.insert(id, row))[x]
        == bodies_text(m).insert(id, row@)[x] by {
        if x != id {
            assert(m.contains_key(x));
        }
    }
    assert(bodies_text(m.insert(id, row)) =~= bodies_text(m).insert(id, row@));
    assert forall|x: EventId| m.remove(id).contains_key(x) implies bodies_text(m.remove(id))[x]
        == bodies_text(m).remove(id)[x] by {
        assert(m.contains_key(x));
    }
    assert(bodies_text(m.remove(id)) =~= bodies_text(m).remove(id));
    assert(bodies_text(Map::<EventId, Row>::empty()) =~= Map::<EventId, RowView>::empty());
}

/// Keeps the newest rows only, where there is a limit.
fn limit_rows(rows: &mut SortedMap<EventId, Row>, limit: Option<usize>)
    ensures
        bodies_text(final(rows)@) == limited(bodies_text(old(rows)@), limit),
{
    let ghost before = bodies_text(rows@);
    proof {
        lemma_bodies_text(rows@);
    }
    if let Some(n) = limit {
        let ids = rows.key_list();
        let mut dates: SortedMap<EventId, u64> = SortedMap::new();
        let mut i: usize = 0;
        while i < ids.len()
            invariant
                i <= ids@.len(),
                is_listing(ids@, rows@.dom()),
                before == bodies_text(rows@),
                before.dom() == rows@.dom(),
                forall|x: EventId| #[trigger] rows@.contains_key(x) ==> before[x] == rows@[x]@,
                forall|x: EventId| #[trigger]
                    dates@.contains_key(x) <==> ids@.take(i as int).contains(x),
                forall|x: EventId| #[trigger] dates@.contains_key(x) ==> dates@[x] == before[x].created_at,
            decreases ids@.len() - i,
        {
            let id = ids[i];
            proof {
                assert(ids@.take(i + 1) =~= ids@.take(i as int).push(id));
                lemma_push_contains(ids@.take(i as int), id);
                assert(rows@.dom().contains(ids@[i as int]));
            }
            if let Some(row) = rows.get(&id) {
                dates.insert(id, row.created_at);
            }
            i = i + 1;
        }
        proof {
            assert(ids@.take(i as int) =~= ids@);
            lemma_listing_members(ids@, rows@.dom());
            assert(dates@ =~= row_dates(before));
        }
        let keep = newest_ids(&dates, n);
        let mut k: usize = 0;
        while k < ids.len()
            invariant
                k <= ids@.len(),
                is_listing(ids@, before.dom()),
                forall|x: EventId| #[trigger]
                    bodies_text(rows@).contains_key(x) <==> before.contains_key(x) && (keep@.contains(x)
                        || !ids@.take(k as int).contains(x)),
                forall|x: EventId| #[trigger]
                    bodies_text(rows@).contains_key(x) ==> bodies_text(rows@)[x] == before[x],
            decreases ids@.len() - k,
        {
            let id = ids[k];
            proof {
                assert(ids@.take(k + 1) =~= ids@.take(k as int).push(id));
                lemma_push_contains(ids@.take(k as int), id);
                lemma_bodies_insert(rows@, id, arbitrary());
            }
            if !keep.contains(&id) {
                rows.remove(&id);
            }
            k = k + 1;
        }
        proof {
            assert(ids@.take(k as int) =~= ids@);
            lemma_listing_members(ids@, before.dom());
            assert(row_dates(before).dom() =~= before.dom());
            assert(bodies_text(rows@) =~= limited(before, limit));
        }
    }
}

/// Where the atoms of a demand are read from.
#[derive(Clone, Debug, PartialEq, Eq)]
pub enum ReadRouting {
    /// Wherever the plan finds them.
    Auto,
    /// From these relays.
    Explicit(Vec<Relay>),
}

/// The first relays that a list of routings names.
pub open spec fn first_explicit(q: Seq<ReadRouting>) -> Option<Seq<Relay>>
    decreases q.len(),
{
    if q.len() == 0 {
        None
    } else {
        match first_explicit(q.drop_last()) {
            Some(relays) => Some(relays),
            None => match q.last() {
                ReadRouting::Explicit(relays) => Some(relays@),
                ReadRouting::Auto => None,
            },
        }
    }
}

/// The relays that a branch is pinned to. A strict branch that names no relays has
/// none to be pinned to, and shows what an ordinary one shows.
pub open spec fn pin_of(strict: bool, routing: Seq<ReadRouting>) -> Option<Set<Relay>> {
    if strict {
        match first_explicit(routing) {
            Some(relays) => Some(relays.to_set()),
            None => None,
        }
    } else {
        None
    }
}

proof fn lemma_explicit_found(q: Seq<ReadRouting>, n: int)
    requires
        0 <= n <= q.len(),
        first_explicit(q.take(n)) is Some,
    ensures
        first_explicit(q) == first_explicit(q.take(n)),
    decreases q.len() - n,
{
    if n < q.len() {
        assert(q.take(n + 1).drop_last() =~= q.take(n));
        lemma_explicit_found(q, n + 1);
    } else {
        assert(q.take(n) =~= q);
    }
}

fn relay_set(q: &Vec<Relay>) -> (r: SortedSet<Relay>)
    ensures
        r@ == q@.to_set(),
{
    let mut r: SortedSet<Relay> = SortedSet::new();
    let mut i: usize = 0;
    while i < q.len()
        invariant
            i <= q@.len(),
            forall|x: Relay| #[trigger] r@.contains(x) <==> q@.take(i as int).contains(x),
        decreases q@.len() - i,
    {
        proof {
            assert(q@.take(i + 1) =~= q@.take(i as int).push(q@[i as int]));
            lemma_push_contains(q@.take(i as int), q@[i as int]);
        }
        r.insert(q[i]);
        i = i + 1;
    }
    assert(q@.take(i as int) =~= q@);
    assert(r@ =~= q@.to_set());
    r
}

/// The relays that a branch is pinned to. `routing` is that of the atoms of the
/// branch's root demand; no demand below it counts.
pub fn pinned_relays(strict: bool, routing: &Vec<ReadRouting>) -> (r: Option<SortedSet<Relay>>)
    ensures
        match r {
            Some(relays) => pin_of(strict, routing@) == Some(relays@),
            None => pin_of(strict, routing@) is None,
        },
{
    if !strict {
        return None;
    }
    let ghost q = routing@;
    let mut i: usize = 0;
    assert(q.take(0) =~= Seq::<ReadRouting>::empty());
    while i < routing.len()
        invariant
            i <= q.len(),
            q == routing@,
            strict,
            first_explicit(q.take(i as int)) is None,
        decreases q.len() - i,
    {
        proof {
            assert(q.take(i + 1).drop_last() =~= q.take(i as int));
            assert(q.take(i + 1).last() == q[i as int]);
        }
        if let ReadRouting::Explicit(relays) = &routing[i] {
            proof {
                lemma_explicit_found(q, i + 1);
            }
            return Some(relay_set(relays));
        }
        i = i + 1;
    }
    assert(q.take(i as int) =~= q);
    None
}

/// The rows of one branch, from what a read of each of its root atoms gave. Where
/// the branch is pinned, only rows that are visible under its pin count: those are
/// marked in what was read.
pub fn rows_for(
    reads: Vec<Vec<StoredRow>>,
    strict: bool,
    routing: &Vec<ReadRouting>,
    row_limit: Option<usize>,
) -> (r: SortedMap<EventId, Row>)
    ensures
        bodies_text(r@) == limited(all_read(reads@, pin_of(strict, routing@) is Some), row_limit),
{
    let pinned = pinned_relays(strict, routing).is_some();
    merge_reads(reads, pinned, row_limit)
}

fn merge_reads(reads: Vec<Vec<StoredRow>>, pinned: bool, row_limit: Option<usize>) -> (r: SortedMap<
    EventId,
    Row,
>)
    ensures
        bodies_text(r@) == limited(all_read(reads@, pinned), row_limit),
{
    let mut r: SortedMap<EventId, Row> = SortedMap::new();
    let mut i: usize = 0;
    proof {
        lemma_bodies_insert(r@, arbitrary(), arbitrary());
        assert(reads@.take(0) =~= Seq::<Vec<StoredRow>>::empty());
    }
    while i < reads.len()
        invariant
            i <= reads@.len(),
            bodies_text(r@) == all_read(reads@.take(i as int), pinned),
        decreases reads@.len() - i,
    {
        let ghost have = bodies_text(r@);
        let q = &reads[i];
        let mut j: usize = 0;
        assert(q@.take(0) =~= Seq::<StoredRow>::empty());
        while j < q.len()
            invariant
                j <= q@.len(),
                bodies_text(r@) == read_rows(have, q@.take(j as int), pinned),
            decreases q@.len() - j,
        {
            let row = &q[j];
            proof {
                assert(q@.take(j + 1).drop_last() =~= q@.take(j as int));
                assert(q@.take(j + 1).last() == *row);
                lemma_bodies_text(r@);
            }
            if (!pinned || row.visible_under_pin) && !r.contains(&row.event.id) {
                let state = match row.local {
                    Some(state) => state,
                    None => SigState::Signed,
                };
                let event = SignedEvent {
                    id: row.event.id,
                    created_at: row.event.created_at,
                    sig: row.event.sig,
                    text: row.event.text.clone(),
                };
                let body = row_from_stored_event(event, state, row.seen.copy());
                proof {
                    lemma_bodies_insert(r@, row.event.id, body);
                }
                r.insert(row.event.id, body);
            }
            j = j + 1;
        }
        proof {
            assert(q@.take(j as int) =~= q@);
            assert(reads@.take(i + 1).drop_last() =~= reads@.take(i as int));
            assert(reads@.take(i + 1).last() == *q);
        }
        i = i + 1;
    }
    assert(reads@.take(i as int) =~= reads@);
    limit_rows(&mut r, row_limit);
    r
}

/// The rows of one branch added to those of earlier ones: a row of both has the
/// sources of both.
pub open spec fn joined(a: Map<EventId, RowView>, b: Map<EventId, RowView>) -> Map<EventId, RowView> {
    Map::new(
        |id: EventId| a.contains_key(id) || b.contains_key(id),
        |id: EventId|
            if a.contains_key(id) && b.contains_key(id) {
                with_sources(a[id], a[id].sources.union(b[id].sources))
            } else if a.contains_key(id) {
                a[id]
            } else {
                b[id]
            },
    )
}

/// The rows of all branches.
pub open spec fn all_joined(branches: Seq<SortedMap<EventId, Row>>) -> Map<EventId, RowView>
    decreases branches.len(),
{
    if branches.len() == 0 {
        Map::empty()
    } else {
        joined(all_joined(branches.drop_last()), bodies_text(branches.last()@))
    }
}

/// The rows of an observation: the union of its branches' rows, and of these
/// the newest where the observation has a limit. The limit is applied once, to
/// the union.
pub fn observation_rows_for(branches: Vec<SortedMap<EventId, Row>>, limit: Option<usize>) -> (r: SortedMap<
    EventId,
    Row,
>)
    ensures
        bodies_text(r@) == limited(all_joined(branches@), limit),
{
    let mut r: SortedMap<EventId, Row> = SortedMap::new();
    let mut i: usize = 0;
    proof {
        lemma_bodies_insert(r@, arbitrary(), arbitrary());
        assert(branches@.take(0) =~= Seq::<SortedMap<EventId, Row>>::empty());
    }
    while i < branches.len()
        invariant
            i <= branches@.len(),
            bodies_text(r@) == all_joined(branches@.take(i as int)),
        decreases branches@.len() - i,
    {
        let ghost have = bodies_text(r@);
        let branch = &branches[i];
        let ghost add = bodies_text(branch@);
        let n = branch.len();
        let ghost q = branch.keys();
        let mut j: usize = 0;
        proof {
            lemma_bodies_text(branch@);
            assert(q.take(0) =~= Seq::<EventId>::empty());
        }
        while j < n
            invariant
                j <= n,
                n == q.len(),
                q == branch.keys(),
                is_listing(q, branch@.dom()),
                add == bodies_text(branch@),
                add.dom() == branch@.dom(),
                forall|x: EventId| #[trigger] branch@.contains_key(x) ==> add[x] == branch@[x]@,
                forall|x: EventId| #[trigger]
                    bodies_text(r@).contains_key(x) <==> have.contains_key(x) || q.take(
                        j as int,
                    ).contains(x),
                forall|x: EventId| #[trigger]
                    bodies_text(r@).contains_key(x) ==> bodies_text(r@)[x] == (if have.contains_key(x)
                        && q.take(j as int).contains(x) {
                        with_sources(have[x], have[x].sources.union(add[x].sources))
                    } else if have.contains_key(x) {
                        have[x]
                    } else {
                        add[x]
                    }),
            decreases n - j,
        {
            let id = branch.key_at(j);
            let row = branch.value_at(j);
            proof {
                assert(q.take(j + 1) =~= q.take(j as int).push(id));
                lemma_push_contains(q.take(j as int), id);
                assert(!q.take(j as int).contains(id)) by {
                    if q.take(j as int).contains(id) {
                        let p = q.take(j as int);
                        let a = choose|a: int| 0 <= a < p.len() && #[trigger] p[a] == id;
                        assert(q[a].rank() < q[j as int].rank());
                    }
                }
                lemma_bodies_text(r@);
                assert(branch@.contains_key(id));
            }
            let ghost before = r@;
            let body = match r.remove(&id) {
                None => row.copy(),
                Some(mut body) => {
                    let mut sources = body.sources.copy();
                    sources.extend(&row.sources);
                    body.sources = sources;
                    body
                },
            };
            proof {
                lemma_bodies_insert(before, id, body);
                lemma_bodies_insert(before.remove(id), id, body);
                if before.contains_key(id) {
                    assert(bodies_text(before)[id] == before[id]@);
                    assert(bodies_text(before)[id] == have[id]);
                    assert(body@ == with_sources(have[id], have[id].sources.union(add[id].sources)));
                }
            }
            r.insert(id, body);
            assert(bodies_text(r@) =~= bodies_text(before).insert(id, body@));
            j = j + 1;
        }
        proof {
            assert(q.take(j as int) =~= q);
            lemma_listing_members(q, branch@.dom());
            assert(bodies_text(r@) =~= joined(have, add));
            assert(branches@.take(i + 1).drop_last() =~= branches@.take(i as int));
            assert(branches@.take(i + 1).last() == *branch);
        }
        i = i + 1;
    }
    assert(branches@.take(i as int) =~= branches@);
    limit_rows(&mut r, limit);
    r
}

/// One branch of an observation.
pub struct BranchState {
    pub acquisition: HandleAcquisition,
    pub observation: ObservationId,
    /// Whether only rows seen on the branch's own relays count.
    pub strict: bool,
}

/// One live observation: what it has delivered.
pub struct ObservationState {
    /// The branches in their declared order.
    pub branches: Vec<HandleId>,
    /// How many rows of the union of the branches are delivered at most.
    pub aggregate_result_limit: Option<usize>,
    pub last_rows: RememberedRows,
    pub last_evidence: Option<Vec<AcquisitionEvidence>>,
    /// False after a failed read: only a full read can repair what was missed.
    pub projection_complete: bool,
    pub next_sequence: u64,
}

/// What one delivery carries.
#[derive(Debug)]
pub struct RowsSeed {
    pub deltas: Vec<RowDelta>,
    pub evidence: Vec<AcquisitionEvidence>,
}

/// What came of applying a change without a read.
#[derive(Debug)]
pub enum DirectProjection {
    /// The change is delivered, with what it had to tell.
    Applied(Option<RowsSeed>),
    /// Only a full read can tell.
    NeedsFullRead,
}

/// What evidence was last delivered.
pub open spec fn last_evidence_view(e: Option<Vec<AcquisitionEvidence>>) -> Option<Seq<EvidenceView>> {
    match e {
        Some(q) => Some(evidence_view(q@)),
        None => None,
    }
}

/// What is remembered of a set of rows.
pub open spec fn remembered(rows: Map<EventId, RowView>) -> RowsView {
    rows.map_values(|r: RowView| remember(r))
}

fn remember_all(current: &SortedMap<EventId, Row>) -> (r: RememberedRows)
    ensures
        r@ == remembered(bodies_text(current@)),
{
    let mut r = RememberedRows::new();
    let n = current.len();
    let ghost q = current.keys();
    let mut i: usize = 0;
    proof {
        lemma_bodies_text(current@);
    }
    while i < n
        invariant
            i <= n,
            n == q.len(),
            q == current.keys(),
            is_listing(q, current@.dom()),
            bodies_text(current@).dom() == current@.dom(),
            forall|x: EventId| #[trigger] current@.contains_key(x) ==> bodies_text(current@)[x] == current@[x]@,
            forall|x: EventId| #[trigger] r@.contains_key(x) <==> q.take(i as int).contains(x),
            forall|x: EventId| #[trigger] r@.contains_key(x) ==> r@[x] == remember(bodies_text(current@)[x]),
        decreases n - i,
    {
        let id = current.key_at(i);
        let row = current.value_at(i);
        proof {
            assert(q.take(i + 1) =~= q.take(i as int).push(id));
            lemma_push_contains(q.take(i as int), id);
            assert(current@.contains_key(id));
        }
        let body = Row {
            id,
            created_at: row.created_at,
            text: row.text.clone(),
            signature: row.signature,
            sources: row.sources.copy(),
        };
        r.insert(&body);
        i = i + 1;
    }
    proof {
        assert(q.take(i as int) =~= q);
        lemma_listing_members(q, current@.dom());
        assert(r@ =~= remembered(bodies_text(current@)));
    }
    r
}

/// A strict branch that names no relays shows what an ordinary branch shows.
pub proof fn strict_without_relays_is_ordinary(routing: Seq<ReadRouting>, reads: Seq<Vec<StoredRow>>)
    requires
        forall|i: int| 0 <= i < routing.len() ==> (#[trigger] routing[i]) is Auto,
    ensures
        pin_of(true, routing) == pin_of(false, routing),
        all_read(reads, pin_of(true, routing) is Some) == all_read(reads, pin_of(false, routing) is Some),
    decreases routing.len(),
{
    if routing.len() > 0 {
        strict_without_relays_is_ordinary(routing.drop_last(), reads);
        assert(routing.last() == routing[routing.len() - 1]);
    }
}

impl ObservationState {
    /// Delivers a full read: says what came, changed or went since the last
    /// delivery, where anything is new.
    pub fn apply_observation_projection(
        &mut self,
        current: SortedMap<EventId, Row>,
        evidence: Vec<AcquisitionEvidence>,
    ) -> (r: Option<RowsSeed>)
        ensures
            final(self).projection_complete,
            final(self).last_rows@ == remembered(bodies_text(current@)),
            last_evidence_view(final(self).last_evidence) == Some(evidence_view(evidence@)),
            *final(self) == (ObservationState {
                projection_complete: true,
                last_rows: final(self).last_rows,
                last_evidence: final(self).last_evidence,
                ..*old(self)
            }),
            match r {
                None => remembered(bodies_text(current@)) == old(self).last_rows@ && last_evidence_view(
                    old(self).last_evidence,
                ) == Some(evidence_view(evidence@)),
                Some(seed) => {
                    &&& !(remembered(bodies_text(current@)) == old(self).last_rows@ && last_evidence_view(
                        old(self).last_evidence,
                    ) == Some(evidence_view(evidence@)))
                    &&& deltas_view(seed.deltas@) == diff(
                        old(self).last_rows@,
                        remembered(bodies_text(current@)),
                        bodies_text(current@),
                    )
                    &&& evidence_view(seed.evidence@) == evidence_view(evidence@)
                },
            },
    {
        let current_rows = remember_all(&current);
        self.projection_complete = true;
        let same_as_last = match &self.last_evidence {
            Some(last) => same_evidence(last, &evidence),
            None => false,
        };
        if current_rows.equals(&self.last_rows) && same_as_last {
            return None;
        }
        proof {
            assert(told_in_full(
                old(self).last_rows@,
                current_rows@,
                bodies_text(current@),
            ));
        }
        let deltas = diff_rows(&self.last_rows, &current_rows, current);
        self.last_rows = current_rows;
        self.last_evidence = Some(copy_evidence(&evidence));
        Some(RowsSeed { deltas, evidence })
    }

    /// A full window loses a row that it shows: older rows that were never
    /// delivered may have to take its place.
    pub open spec fn loses_from_full_window(&self, limit: Option<usize>, ch: ChangesView) -> bool {
        limit matches Some(n) && self.last_rows@.len() == n && exists|i: int|
            0 <= i < ch.removed.len() && self.last_rows@.contains_key(#[trigger] ch.removed[i])
    }

    /// The rows after a change.
    pub open spec fn rows_after(&self, limit: Option<usize>, ch: ChangesView) -> RowsView {
        match limit {
            None => applied(self.last_rows@, ch),
            Some(n) => newest_rows(applied(self.last_rows@, ch), n as nat),
        }
    }

    /// What a change has to tell.
    pub open spec fn deltas_after(&self, limit: Option<usize>, ch: ChangesView) -> Seq<RowDeltaView> {
        match limit {
            None => told_of(self.last_rows@, ch),
            Some(_) => diff(
                self.last_rows@,
                self.rows_after(limit, ch),
                completed(self.last_rows@, ch),
            ),
        }
    }

    /// Whether a change leaves nothing to tell.
    pub open spec fn silent(&self, limit: Option<usize>, ch: ChangesView) -> bool {
        match limit {
            None => told_of(self.last_rows@, ch).len() == 0,
            Some(_) => self.rows_after(limit, ch) == self.last_rows@,
        }
    }

    /// Whether a removal takes a row that is shown.
    fn removes_visible(&self, removed: &Vec<EventId>) -> (b: bool)
        ensures
            b == exists|i: int| 0 <= i < removed@.len() && self.last_rows@.contains_key(#[trigger] removed@[i]),
    {
        let mut i: usize = 0;
        while i < removed.len()
            invariant
                i <= removed@.len(),
                forall|j: int| 0 <= j < i ==> !self.last_rows@.contains_key(#[trigger] removed@[j]),
            decreases removed@.len() - i,
        {
            if self.last_rows.contains(&removed[i]) {
                assert(self.last_rows@.contains_key(removed@[i as int]));
                return true;
            }
            i = i + 1;
        }
        false
    }

    /// Delivers the part of a committed change that the query sees, without a
    /// read. The window has been delivered completely, with its evidence.
    pub fn apply_direct(&mut self, row_limit: Option<usize>, changes: &MatchedChanges) -> (r: DirectProjection)
        requires
            old(self).last_evidence is Some,
        ensures
            old(self).loses_from_full_window(row_limit, changes@) ==> r is NeedsFullRead && *final(self)
                == *old(self),
            !old(self).loses_from_full_window(row_limit, changes@) ==> {
                &&& *final(self) == (ObservationState {
                    last_rows: final(self).last_rows,
                    ..*old(self)
                })
                &&& final(self).last_rows@ == old(self).rows_after(row_limit, changes@)
                &&& r matches DirectProjection::Applied(out) && match out {
                    None => old(self).silent(row_limit, changes@),
                    Some(seed) => {
                        &&& !old(self).silent(row_limit, changes@)
                        &&& deltas_view(seed.deltas@) == old(self).deltas_after(row_limit, changes@)
                        &&& Some(evidence_view(seed.evidence@)) == last_evidence_view(
                            old(self).last_evidence,
                        )
                    },
                }
            },
    {
        let evidence = match &self.last_evidence {
            Some(last) => copy_evidence(last),
            None => Vec::new(),
        };
        match row_limit {
            None => {
                let deltas = apply_unbounded(&mut self.last_rows, changes);
                assert(deltas_view(deltas@).len() == deltas@.len());
                if deltas.len() == 0 {
                    DirectProjection::Applied(None)
                } else {
                    DirectProjection::Applied(Some(RowsSeed { deltas, evidence }))
                }
            },
            Some(limit) => {
                if self.last_rows.len() == limit && self.removes_visible(&changes.removed) {
                    return DirectProjection::NeedsFullRead;
                }
                match apply_bounded(&mut self.last_rows, limit, changes) {
                    None => DirectProjection::Applied(None),
                    Some(deltas) => DirectProjection::Applied(Some(RowsSeed { deltas, evidence })),
                }
            },
        }
    }
}

/// Evidence is kept piece by piece, in its order, and none is kept where none was read.
pub proof fn kept_evidence_is_what_was_read(e: Option<Vec<AcquisitionEvidence>>)
    ensures
        last_evidence_view(e) is Some <==> e is Some,
        e matches Some(q) ==> last_evidence_view(e)->0.len() == q@.len() && forall|i: int|
            0 <= i < q@.len() ==> #[trigger] last_evidence_view(e)->0[i] == q@[i]@,
{
}

} // verus!
