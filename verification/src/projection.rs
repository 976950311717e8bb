//! How a committed change is applied to the rows already delivered, without a
//! new read of the store.

use vstd::prelude::*;

use crate::ids::{EventId, Relay};
use crate::key::{is_listing, lemma_listing_members, lemma_listing_of, lemma_push_contains, listing_of};
use crate::rows::{
    deltas_view, grown, lemma_deltas_push, newest_rows, remember, restated, RememberedRows, Row,
    RowDelta, RowDeltaView, RowView, RowsView, window_is_bounded,
};
use crate::sorted::{SortedMap, SortedSet};

verus! {

/// The part of a committed change that one query sees.
pub struct MatchedChanges {
    pub removed: Vec<EventId>,
    pub inserted: Vec<Row>,
    pub provenance_grew: Vec<Row>,
    pub updated: Vec<Row>,
}

/// What a change says to one query.
pub struct ChangesView {
    pub removed: Seq<EventId>,
    pub inserted: Seq<RowView>,
    pub grew: Seq<RowView>,
    pub updated: Seq<RowView>,
}

/// What a list of rows says.
pub open spec fn rows_text(rows: Seq<Row>) -> Seq<RowView> {
    Seq::new(rows.len(), |i: int| rows[i]@)
}

impl View for MatchedChanges {
    type V = ChangesView;

    open spec fn view(&self) -> ChangesView {
        ChangesView {
            removed: self.removed@,
            inserted: rows_text(self.inserted@),
            grew: rows_text(self.provenance_grew@),
            updated: rows_text(self.updated@),
        }
    }
}

/// The rows with those of `q` put in place, one after the other.
pub open spec fn inserted_into(rows: RowsView, q: Seq<RowView>) -> RowsView
    decreases q.len(),
{
    if q.len() == 0 {
        rows
    } else {
        inserted_into(rows, q.drop_last()).insert(q.last().id, remember(q.last()))
    }
}

/// The rows after those of `q` grew in provenance, one after the other. A row
/// that is not remembered is passed over.
pub open spec fn grown_by(rows: RowsView, q: Seq<RowView>) -> RowsView
    decreases q.len(),
{
    if q.len() == 0 {
        rows
    } else {
        let before = grown_by(rows, q.drop_last());
        let row = q.last();
        if before.contains_key(row.id) {
            before.insert(row.id, grown(before[row.id], row))
        } else {
            before
        }
    }
}

/// The rows after those of `q` were restated, one after the other. A row that
/// is not remembered is passed over.
pub open spec fn restated_by(rows: RowsView, q: Seq<RowView>) -> RowsView
    decreases q.len(),
{
    if q.len() == 0 {
        rows
    } else {
        let before = restated_by(rows, q.drop_last());
        let row = q.last();
        if before.contains_key(row.id) {
            before.insert(row.id, restated(before[row.id], row))
        } else {
            before
        }
    }
}

/// The rows after removals and insertions.
pub open spec fn replaced(rows: RowsView, ch: ChangesView) -> RowsView {
    inserted_into(rows.remove_keys(ch.removed.to_set()), ch.inserted)
}

/// The rows after a whole change.
pub open spec fn applied(rows: RowsView, ch: ChangesView) -> RowsView {
    restated_by(grown_by(replaced(rows, ch), ch.grew), ch.updated)
}

/// What is to be told of the rows that a change left in place.
pub struct Notices {
    pub added: Map<EventId, RowView>,
    pub updated: Map<EventId, RowView>,
    pub grew: Set<EventId>,
}

/// The inserted rows; of two with one id the later counts.
pub open spec fn added_rows(q: Seq<RowView>) -> Map<EventId, RowView>
    decreases q.len(),
{
    if q.len() == 0 {
        Map::empty()
    } else {
        added_rows(q.drop_last()).insert(q.last().id, q.last())
    }
}

/// A row with the sources that are remembered for it.
pub open spec fn with_sources(row: RowView, sources: Set<Relay>) -> RowView {
    RowView { sources, ..row }
}

/// What is to be told after one row grew in provenance: a changed signature
/// restates the row, new sources alone are told as such.
pub open spec fn notice_growth(rows: RowsView, n: Notices, row: RowView) -> Notices {
    if !rows.contains_key(row.id) {
        n
    } else if rows[row.id].signature != row.signature {
        Notices {
            updated: n.updated.insert(
                row.id,
                with_sources(row, rows[row.id].sources.union(row.sources)),
            ),
            grew: n.grew.remove(row.id),
            ..n
        }
    } else if !row.sources.subset_of(rows[row.id].sources) {
        Notices { grew: n.grew.insert(row.id), ..n }
    } else {
        n
    }
}

pub open spec fn notices_of_growth(rows: RowsView, n: Notices, q: Seq<RowView>) -> Notices
    decreases q.len(),
{
    if q.len() == 0 {
        n
    } else {
        notice_growth(
            grown_by(rows, q.drop_last()),
            notices_of_growth(rows, n, q.drop_last()),
            q.last(),
        )
    }
}

/// What is to be told after one row was restated: it takes the place of an
/// insertion of the same change, or is told as an update.
pub open spec fn notice_restated(rows: RowsView, n: Notices, row: RowView) -> Notices {
    if !rows.contains_key(row.id) {
        n
    } else if n.added.contains_key(row.id) {
        Notices { added: n.added.insert(row.id, row), grew: n.grew.remove(row.id), ..n }
    } else {
        Notices { updated: n.updated.insert(row.id, row), grew: n.grew.remove(row.id), ..n }
    }
}

pub open spec fn notices_of_restated(rows: RowsView, n: Notices, q: Seq<RowView>) -> Notices
    decreases q.len(),
{
    if q.len() == 0 {
        n
    } else {
        notice_restated(
            restated_by(rows, q.drop_last()),
            notices_of_restated(rows, n, q.drop_last()),
            q.last(),
        )
    }
}

/// Everything that a change has to tell, but for removals.
pub open spec fn notices(rows: RowsView, ch: ChangesView) -> Notices {
    let base = replaced(rows, ch);
    let start = Notices { added: added_rows(ch.inserted), updated: Map::empty(), grew: Set::empty() };
    notices_of_restated(
        grown_by(base, ch.grew),
        notices_of_growth(base, start, ch.grew),
        ch.updated,
    )
}

/// The delivered rows that a change removes.
pub open spec fn withdrawn(rows: RowsView, ch: ChangesView) -> Set<EventId> {
    Set::new(|id: EventId| rows.contains_key(id) && ch.removed.contains(id))
}

/// The rows that a change has something to tell of, but for removals.
pub open spec fn noticed(n: Notices) -> Set<EventId> {
    n.added.dom().union(n.updated.dom()).union(n.grew)
}

/// What is told of one row.
pub open spec fn told(n: Notices, rows: RowsView, id: EventId) -> RowDeltaView {
    if n.added.contains_key(id) {
        RowDeltaView::Added(n.added[id])
    } else if n.updated.contains_key(id) {
        RowDeltaView::Updated(n.updated[id])
    } else {
        RowDeltaView::SourcesGrew(id, rows[id].sources)
    }
}

/// What an unbounded window tells of a change: the rows that came or changed,
/// then the rows that went, each in the order of the ids.
pub open spec fn told_of(rows: RowsView, ch: ChangesView) -> Seq<RowDeltaView> {
    let n = notices(rows, ch);
    let came = listing_of(noticed(n));
    let went = listing_of(withdrawn(rows, ch));
    Seq::new(came.len(), |i: int| told(n, applied(rows, ch), came[i])) + Seq::new(
        went.len(),
        |i: int| RowDeltaView::Removed(went[i]),
    )
}

spec fn bodies(m: Map<EventId, Row>) -> Map<EventId, RowView> {
    m.map_values(|r: Row| r@)
}

proof fn lemma_rows_text_prefix(rows: Seq<Row>, i: int)
    requires
        0 <= i < rows.len(),
    ensures
        rows_text(rows).take(i + 1).drop_last() == rows_text(rows).take(i),
        rows_text(rows).take(i + 1).last() == rows[i]@,
{
    assert(rows_text(rows).take(i + 1).drop_last() =~= rows_text(rows).take(i));
}

fn remove_all(rows: &mut RememberedRows, ids: &Vec<EventId>, gone: &mut SortedSet<EventId>)
    requires
        old(gone)@ == Set::<EventId>::empty(),
    ensures
        final(rows)@ == old(rows)@.remove_keys(ids@.to_set()),
        final(gone)@ == Set::new(|id: EventId| old(rows)@.contains_key(id) && ids@.contains(id)),
{
    let ghost before = rows@;
    let mut i: usize = 0;
    assert(before.remove_keys(ids@.take(0).to_set()) =~= before);
    while i < ids.len()
        invariant
            i <= ids@.len(),
            rows@ == before.remove_keys(ids@.take(i as int).to_set()),
            forall|x: EventId| #[trigger]
                gone@.contains(x) <==> before.contains_key(x) && ids@.take(i as int).contains(x),
        decreases ids@.len() - i,
    {
        let id = ids[i];
        proof {
            assert(ids@.take(i + 1) =~= ids@.take(i as int).push(id));
            lemma_push_contains(ids@.take(i as int), id);
            assert forall|x: EventId| ids@.take(i + 1).to_set().contains(x) <==> ids@.take(
                i as int,
            ).to_set().contains(x) || x == id by {
                assert(ids@.take(i + 1).contains(x) <==> ids@.take(i as int).contains(x) || x == id);
            }
            assert(before.remove_keys(ids@.take(i as int).to_set()).remove(id)
                =~= before.remove_keys(ids@.take(i + 1).to_set()));
        }
        if rows.remove(&id) {
            gone.insert(id);
        }
        i = i + 1;
    }
    assert(ids@.take(i as int) =~= ids@);
    assert(gone@ =~= Set::new(|id: EventId| before.contains_key(id) && ids@.contains(id)));
}

fn insert_all(rows: &mut RememberedRows, q: &Vec<Row>, added: &mut SortedMap<EventId, Row>)
    requires
        old(added)@ == Map::<EventId, Row>::empty(),
    ensures
        final(rows)@ == inserted_into(old(rows)@, rows_text(q@)),
        bodies(final(added)@) == added_rows(rows_text(q@)),
{
    let ghost before = rows@;
    let ghost t = rows_text(q@);
    let mut i: usize = 0;
    assert(t.take(0) =~= Seq::<RowView>::empty());
    assert(bodies(added@) =~= Map::<EventId, RowView>::empty());
    while i < q.len()
        invariant
            i <= q@.len(),
            t == rows_text(q@),
            rows@ == inserted_into(before, t.take(i as int)),
            bodies(added@) == added_rows(t.take(i as int)),
        decreases q@.len() - i,
    {
        proof {
            lemma_rows_text_prefix(q@, i as int);
        }
        rows.insert(&q[i]);
        let body = q[i].copy();
        let ghost prior = added@;
        let id = body.id;
        let ghost said = body@;
        added.insert(id, body);
        assert(bodies(added@) =~= bodies(prior).insert(id, said));
        i = i + 1;
    }
    assert(t.take(i as int) =~= t);
}

/// Applies a change to an unbounded window, and says what it has to tell.
pub fn apply_unbounded(rows: &mut RememberedRows, changes: &MatchedChanges) -> (out: Vec<RowDelta>)
    ensures
        final(rows)@ == applied(old(rows)@, changes@),
        deltas_view(out@) == told_of(old(rows)@, changes@),
{
    let ghost before = rows@;
    let ghost ch = changes@;
    let mut gone: SortedSet<EventId> = SortedSet::new();
    remove_all(rows, &changes.removed, &mut gone);
    let mut added: SortedMap<EventId, Row> = SortedMap::new();
    insert_all(rows, &changes.inserted, &mut added);
    let ghost base = rows@;
    assert(base == replaced(before, ch));
    let mut updated: SortedMap<EventId, Row> = SortedMap::new();
    let mut grew: SortedSet<EventId> = SortedSet::new();
    let ghost start = Notices {
        added: added_rows(ch.inserted),
        updated: Map::<EventId, RowView>::empty(),
        grew: Set::<EventId>::empty(),
    };
    assert(bodies(updated@) =~= start.updated);
    let mut i: usize = 0;
    assert(ch.grew.take(0) =~= Seq::<RowView>::empty());
    while i < changes.provenance_grew.len()
        invariant
            i <= changes.provenance_grew@.len(),
            ch == changes@,
            rows@ == grown_by(base, ch.grew.take(i as int)),
            (Notices { added: bodies(added@), updated: bodies(updated@), grew: grew@ })
                == notices_of_growth(base, start, ch.grew.take(i as int)),
            forall|x: EventId| #[trigger] grew@.contains(x) ==> rows@.contains_key(x),
        decreases changes.provenance_grew@.len() - i,
    {
        proof {
            lemma_rows_text_prefix(changes.provenance_grew@, i as int);
        }
        let row = &changes.provenance_grew[i];
        let ghost earlier = rows@;
        let ghost prior = updated@;
        if let Some((resigned, widened)) = rows.grow(row) {
            if resigned {
                let mut body = row.copy();
                if let Some(kept) = rows.get(&row.id) {
                    body.sources = kept.sources.copy();
                }
                let ghost said = body@;
                updated.insert(row.id, body);
                grew.remove(&row.id);
                assert(bodies(updated@) =~= bodies(prior).insert(row.id, said));
                assert(said == with_sources(row@, earlier[row.id].sources.union(row@.sources)));
            } else if widened {
                grew.insert(row.id);
            }
        }
        i = i + 1;
    }
    assert(ch.grew.take(i as int) =~= ch.grew);
    let ghost wide = rows@;
    let ghost n1 = notices_of_growth(base, start, ch.grew);
    let mut k: usize = 0;
    assert(ch.updated.take(0) =~= Seq::<RowView>::empty());
    while k < changes.updated.len()
        invariant
            k <= changes.updated@.len(),
            ch == changes@,
            rows@ == restated_by(wide, ch.updated.take(k as int)),
            (Notices { added: bodies(added@), updated: bodies(updated@), grew: grew@ })
                == notices_of_restated(wide, n1, ch.updated.take(k as int)),
            forall|x: EventId| #[trigger] grew@.contains(x) ==> rows@.contains_key(x),
        decreases changes.updated@.len() - k,
    {
        proof {
            lemma_rows_text_prefix(changes.updated@, k as int);
        }
        let row = &changes.updated[k];
        let ghost prior_added = added@;
        let ghost prior_updated = updated@;
        if rows.restate(row) {
            let body = row.copy();
            let ghost said = body@;
            if added.contains(&row.id) {
                added.insert(row.id, body);
                assert(bodies(added@) =~= bodies(prior_added).insert(row.id, said));
            } else {
                updated.insert(row.id, body);
                assert(bodies(updated@) =~= bodies(prior_updated).insert(row.id, said));
            }
            grew.remove(&row.id);
        }
        k = k + 1;
    }
    assert(ch.updated.take(k as int) =~= ch.updated);
    let ghost n = notices(before, ch);
    assert(rows@ == applied(before, ch));
    tell(rows, added, updated, grew, gone, Ghost(n))
}

/// Lists what a change has to tell.
fn tell(
    rows: &RememberedRows,
    added: SortedMap<EventId, Row>,
    updated: SortedMap<EventId, Row>,
    grew: SortedSet<EventId>,
    gone: SortedSet<EventId>,
    Ghost(n): Ghost<Notices>,
) -> (out: Vec<RowDelta>)
    requires
        n == (Notices { added: bodies(added@), updated: bodies(updated@), grew: grew@ }),
        forall|x: EventId| #[trigger] grew@.contains(x) ==> rows@.contains_key(x),
    ensures
        ({
            let came = listing_of(noticed(n));
            let went = listing_of(gone@);
            deltas_view(out@) == Seq::new(came.len(), |i: int| told(n, rows@, came[i])) + Seq::new(
                went.len(),
                |i: int| RowDeltaView::Removed(went[i]),
            )
        }),
{
    let mut added = added;
    let mut updated = updated;
    let mut ids: SortedSet<EventId> = SortedSet::new();
    let from_added = added.key_list();
    let from_updated = updated.key_list();
    ids.extend(&set_of(&from_added));
    ids.extend(&set_of(&from_updated));
    ids.extend(&grew);
    proof {
        lemma_listing_members(from_added@, added@.dom());
        lemma_listing_members(from_updated@, updated@.dom());
        assert(n.added.dom() =~= added@.dom());
        assert(n.updated.dom() =~= updated@.dom());
        assert(ids@ =~= noticed(n));
    }
    let came = ids.list();
    let went = gone.list();
    let ghost first = Seq::new(came@.len(), |i: int| told(n, rows@, came@[i]));
    let ghost second = Seq::new(went@.len(), |i: int| RowDeltaView::Removed(went@[i]));
    proof {
        lemma_listing_of(came@, noticed(n));
        lemma_listing_of(went@, gone@);
    }
    let mut out: Vec<RowDelta> = Vec::new();
    let mut i: usize = 0;
    assert(deltas_view(out@) =~= first.take(0));
    while i < came.len()
        invariant
            i <= came@.len(),
            is_listing(came@, noticed(n)),
            first.len() == came@.len(),
            forall|j: int| 0 <= j < first.len() ==> #[trigger] first[j] == told(n, rows@, came@[j]),
            deltas_view(out@) == first.take(i as int),
            n.grew == grew@,
            forall|x: EventId| #[trigger] grew@.contains(x) ==> rows@.contains_key(x),
            forall|j: int|
                i <= j < came@.len() ==> (bodies(added@).contains_key(#[trigger] came@[j])
                    == n.added.contains_key(came@[j])),
            forall|j: int|
                i <= j < came@.len() ==> (bodies(updated@).contains_key(#[trigger] came@[j])
                    == n.updated.contains_key(came@[j])),
            forall|x: EventId| #[trigger] added@.contains_key(x) ==> n.added.contains_key(x) && added@[x]@ == n.added[x],
            forall|x: EventId| #[trigger]
                updated@.contains_key(x) ==> n.updated.contains_key(x) && updated@[x]@ == n.updated[x],
        decreases came@.len() - i,
    {
        let id = came[i];
        let ghost prior = out@;
        let ghost a0 = added@;
        let ghost u0 = updated@;
        proof {
            assert(noticed(n).contains(came@[i as int]));
            assert(bodies(a0).contains_key(came@[i as int]) == n.added.contains_key(came@[i as int]));
            assert(bodies(u0).contains_key(came@[i as int]) == n.updated.contains_key(came@[i as int]));
            assert forall|j: int| i < j < came@.len() implies came@[j] != id by {
                assert(crate::key::Key::rank(came@[i as int]) < crate::key::Key::rank(came@[j]));
            }
        }
        let delta = match added.remove(&id) {
            Some(row) => RowDelta::Added(row),
            None => match updated.remove(&id) {
                Some(row) => RowDelta::Updated(row),
                None => {
                    let sources = match rows.get(&id) {
                        Some(row) => row.sources.copy(),
                        None => SortedSet::new(),
                    };
                    RowDelta::SourcesGrew { id, sources }
                },
            },
        };
        proof {
            assert(delta@ == first[i as int]);
        }
        out.push(delta);
        proof {
            lemma_deltas_push(prior, delta);
            assert(first.take(i + 1) =~= first.take(i as int).push(first[i as int]));
            assert forall|j: int| i + 1 <= j < came@.len() implies (bodies(added@).contains_key(
                #[trigger] came@[j],
            ) == n.added.contains_key(came@[j])) && (bodies(updated@).contains_key(came@[j])
                == n.updated.contains_key(came@[j])) by {
                assert(bodies(a0).contains_key(came@[j]) == n.added.contains_key(came@[j]));
                assert(bodies(u0).contains_key(came@[j]) == n.updated.contains_key(came@[j]));
            }
        }
        i = i + 1;
    }
    assert(first.take(i as int) =~= first);
    assert(deltas_view(out@) =~= first + second.take(0));
    let mut k: usize = 0;
    while k < went.len()
        invariant
            k <= went@.len(),
            second.len() == went@.len(),
            forall|j: int| 0 <= j < second.len() ==> #[trigger] second[j] == RowDeltaView::Removed(went@[j]),
            deltas_view(out@) == first + second.take(k as int),
        decreases went@.len() - k,
    {
        let ghost prior = out@;
        let delta = RowDelta::Removed(went[k]);
        out.push(delta);
        proof {
            lemma_deltas_push(prior, delta);
            assert(second[k as int] == delta@);
            assert(second.take(k + 1) =~= second.take(k as int).push(second[k as int]));
            assert(first + second.take(k + 1) =~= (first + second.take(k as int)).push(second[k as int]));
        }
        k = k + 1;
    }
    assert(second.take(k as int) =~= second);
    out
}

/// The members of a list.
fn set_of(q: &Vec<EventId>) -> (r: SortedSet<EventId>)
    ensures
        r@ == q@.to_set(),
{
    let mut r: SortedSet<EventId> = SortedSet::new();
    let mut i: usize = 0;
    while i < q.len()
        invariant
            i <= q@.len(),
            forall|x: EventId| #[trigger] r@.contains(x) <==> q@.take(i as int).contains(x),
        decreases q@.len() - i,
    {
        proof {
            assert(q@.take(i + 1) =~= q@.take(i as int).push(q@[i as int]));
            lemma_push_contains(q@.take(i as int), q@[i as int]);
        }
        r.insert(q[i]);
        i = i + 1;
    }
    assert(q@.take(i as int) =~= q@);
    assert(r@ =~= q@.to_set());
    r
}

/// What is told of one row that stands in a new delivery.
pub open spec fn diff_step(
    prev: RowsView,
    cur: RowsView,
    body: Map<EventId, RowView>,
    id: EventId,
) -> Seq<RowDeltaView> {
    if !prev.contains_key(id) {
        seq![RowDeltaView::Added(body[id])]
    } else if prev[id].signature != cur[id].signature {
        seq![RowDeltaView::Updated(body[id])]
    } else if prev[id].sources != cur[id].sources {
        seq![RowDeltaView::SourcesGrew(id, cur[id].sources)]
    } else {
        Seq::empty()
    }
}

pub open spec fn diff_over(
    q: Seq<EventId>,
    prev: RowsView,
    cur: RowsView,
    body: Map<EventId, RowView>,
) -> Seq<RowDeltaView>
    decreases q.len(),
{
    if q.len() == 0 {
        Seq::empty()
    } else {
        diff_over(q.drop_last(), prev, cur, body) + diff_step(prev, cur, body, q.last())
    }
}

/// The rows that a new delivery no longer holds.
pub open spec fn gone_from(prev: RowsView, cur: RowsView) -> Set<EventId> {
    prev.dom().difference(cur.dom())
}

/// The difference between two deliveries: the rows that came or changed, then
/// the rows that went, each in the order of the ids.
pub open spec fn diff(prev: RowsView, cur: RowsView, body: Map<EventId, RowView>) -> Seq<RowDeltaView> {
    let went = listing_of(gone_from(prev, cur));
    diff_over(listing_of(cur.dom()), prev, cur, body) + Seq::new(
        went.len(),
        |i: int| RowDeltaView::Removed(went[i]),
    )
}

/// Every row that a difference tells of in full is at hand.
pub open spec fn told_in_full(prev: RowsView, cur: RowsView, body: Map<EventId, RowView>) -> bool {
    forall|id: EventId| #[trigger]
        cur.contains_key(id) && !(prev.contains_key(id) && prev[id].signature == cur[id].signature)
            ==> body.contains_key(id)
}

/// What the bodies of a set of rows say.
pub closed spec fn bodies_text(m: Map<EventId, Row>) -> Map<EventId, RowView> {
    bodies(m)
}

/// A map of rows, and what it says of one of them.
pub proof fn lemma_bodies_text(m: Map<EventId, Row>)
    ensures
        bodies_text(m).dom() == m.dom(),
        forall|id: EventId| #[trigger] m.contains_key(id) ==> bodies_text(m)[id] == m[id]@,
{
    assert(bodies_text(m).dom() =~= m.dom());
}

/// Lists the difference between two deliveries.
pub fn diff_rows(prev: &RememberedRows, cur: &RememberedRows, complete: SortedMap<EventId, Row>) -> (out: Vec<
    RowDelta,
>)
    requires
        told_in_full(prev@, cur@, bodies_text(complete@)),
    ensures
        deltas_view(out@) == diff(prev@, cur@, bodies_text(complete@)),
{
    let ghost body = bodies_text(complete@);
    let mut complete = complete;
    let ids = cur.ids();
    let ghost q = ids@;
    let mut out: Vec<RowDelta> = Vec::new();
    let mut i: usize = 0;
    assert(q.take(0) =~= Seq::<EventId>::empty());
    assert(deltas_view(out@) =~= Seq::<RowDeltaView>::empty());
    while i < ids.len()
        invariant
            i <= q.len(),
            q == ids@,
            is_listing(q, cur@.dom()),
            told_in_full(prev@, cur@, body),
            deltas_view(out@) == diff_over(q.take(i as int), prev@, cur@, body),
            forall|j: int|
                i <= j < q.len() ==> (complete@.contains_key(#[trigger] q[j]) == body.contains_key(q[j])),
            forall|x: EventId| #[trigger]
                complete@.contains_key(x) ==> body.contains_key(x) && complete@[x]@ == body[x],
        decreases q.len() - i,
    {
        let id = ids[i];
        let ghost prior = out@;
        let ghost c0 = complete@;
        proof {
            assert(cur@.dom().contains(q[i as int]));
            assert(cur@.contains_key(id));
            assert(q.take(i + 1).drop_last() =~= q.take(i as int));
            assert(q.take(i + 1).last() == id);
            assert(complete@.contains_key(q[i as int]) == body.contains_key(q[i as int]));
            assert forall|j: int| i < j < q.len() implies q[j] != id by {
                assert(crate::key::Key::rank(q[i as int]) < crate::key::Key::rank(q[j]));
            }
        }
        if let Some(now) = cur.get(&id) {
            match prev.get(&id) {
                None => {
                    if let Some(row) = complete.remove(&id) {
                        out.push(RowDelta::Added(row));
                    }
                },
                Some(last) => {
                    if last.signature_state != now.signature_state {
                        if let Some(row) = complete.remove(&id) {
                            out.push(RowDelta::Updated(row));
                        }
                    } else if !last.sources.equals(&now.sources) {
                        out.push(RowDelta::SourcesGrew { id, sources: now.sources.copy() });
                    }
                },
            }
        }
        proof {
            assert(deltas_view(out@) =~= deltas_view(prior) + diff_step(prev@, cur@, body, id));
            assert forall|j: int| i + 1 <= j < q.len() implies (complete@.contains_key(#[trigger] q[j])
                == body.contains_key(q[j])) by {
                assert(c0.contains_key(q[j]) == body.contains_key(q[j]));
            }
        }
        i = i + 1;
    }
    assert(q.take(i as int) =~= q);
    let ghost first = deltas_view(out@);
    let old_ids = prev.ids();
    let mut gone: SortedSet<EventId> = SortedSet::new();
    let mut k: usize = 0;
    while k < old_ids.len()
        invariant
            k <= old_ids@.len(),
            forall|x: EventId| #[trigger]
                gone@.contains(x) <==> old_ids@.take(k as int).contains(x) && !cur@.contains_key(x),
        decreases old_ids@.len() - k,
    {
        let id = old_ids[k];
        proof {
            assert(old_ids@.take(k + 1) =~= old_ids@.take(k as int).push(id));
            lemma_push_contains(old_ids@.take(k as int), id);
        }
        if !cur.contains(&id) {
            gone.insert(id);
        }
        k = k + 1;
    }
    proof {
        assert(old_ids@.take(k as int) =~= old_ids@);
        lemma_listing_members(old_ids@, prev@.dom());
        assert(gone@ =~= gone_from(prev@, cur@));
    }
    let went = gone.list();
    let ghost second = Seq::new(went@.len(), |i: int| RowDeltaView::Removed(went@[i]));
    proof {
        lemma_listing_of(went@, gone@);
        assert(deltas_view(out@) =~= first + second.take(0));
    }
    let mut m: usize = 0;
    while m < went.len()
        invariant
            m <= went@.len(),
            second.len() == went@.len(),
            forall|j: int| 0 <= j < second.len() ==> #[trigger] second[j] == RowDeltaView::Removed(went@[j]),
            deltas_view(out@) == first + second.take(m as int),
        decreases went@.len() - m,
    {
        let ghost prior = out@;
        let delta = RowDelta::Removed(went[m]);
        out.push(delta);
        proof {
            lemma_deltas_push(prior, delta);
            assert(second[m as int] == delta@);
            assert(second.take(m + 1) =~= second.take(m as int).push(second[m as int]));
            assert(first + second.take(m + 1) =~= (first + second.take(m as int)).push(second[m as int]));
        }
        m = m + 1;
    }
    assert(second.take(m as int) =~= second);
    out
}

/// The full rows that growth in provenance brings.
pub open spec fn completed_by_growth(
    rows: RowsView,
    c: Map<EventId, RowView>,
    q: Seq<RowView>,
) -> Map<EventId, RowView>
    decreases q.len(),
{
    if q.len() == 0 {
        c
    } else {
        let before = grown_by(rows, q.drop_last());
        let done = completed_by_growth(rows, c, q.drop_last());
        let row = q.last();
        if before.contains_key(row.id) {
            done.insert(row.id, with_sources(row, before[row.id].sources.union(row.sources)))
        } else {
            done
        }
    }
}

/// The full rows that restatements bring.
pub open spec fn completed_by_restated(
    rows: RowsView,
    c: Map<EventId, RowView>,
    q: Seq<RowView>,
) -> Map<EventId, RowView>
    decreases q.len(),
{
    if q.len() == 0 {
        c
    } else {
        let before = restated_by(rows, q.drop_last());
        let done = completed_by_restated(rows, c, q.drop_last());
        if before.contains_key(q.last().id) {
            done.insert(q.last().id, q.last())
        } else {
            done
        }
    }
}

/// The full rows that a change brings.
pub open spec fn completed(rows: RowsView, ch: ChangesView) -> Map<EventId, RowView> {
    let base = replaced(rows, ch);
    completed_by_restated(
        grown_by(base, ch.grew),
        completed_by_growth(base, added_rows(ch.inserted), ch.grew),
        ch.updated,
    )
}

/// What an insertion leaves of each row.
proof fn lemma_inserted_into(rows: RowsView, q: Seq<RowView>)
    ensures
        forall|id: EventId| #[trigger]
            inserted_into(rows, q).contains_key(id) <==> rows.contains_key(id) || added_rows(
                q,
            ).contains_key(id),
        forall|id: EventId| #[trigger]
            added_rows(q).contains_key(id) ==> inserted_into(rows, q)[id] == remember(added_rows(q)[id])
                && added_rows(q)[id].id == id,
        forall|id: EventId|
            !(#[trigger] added_rows(q).contains_key(id)) && rows.contains_key(id) ==> inserted_into(
                rows,
                q,
            )[id] == rows[id],
    decreases q.len(),
{
    if q.len() > 0 {
        lemma_inserted_into(rows, q.drop_last());
    }
}

/// Applies a change to a window of at most `limit` rows. Says what it has to
/// tell, where anything changed.
pub fn apply_bounded(rows: &mut RememberedRows, limit: usize, changes: &MatchedChanges) -> (r: Option<
    Vec<RowDelta>,
>)
    ensures
        final(rows)@ == newest_rows(applied(old(rows)@, changes@), limit as nat),
        match r {
            Some(out) => {
                &&& final(rows)@ != old(rows)@
                &&& deltas_view(out@) == diff(
                    old(rows)@,
                    final(rows)@,
                    completed(old(rows)@, changes@),
                )
            },
            None => final(rows)@ == old(rows)@,
        },
{
    let ghost before = rows@;
    let ghost ch = changes@;
    let previous = rows.copy();
    let mut gone: SortedSet<EventId> = SortedSet::new();
    remove_all(rows, &changes.removed, &mut gone);
    let ghost left = rows@;
    let mut complete: SortedMap<EventId, Row> = SortedMap::new();
    insert_all(rows, &changes.inserted, &mut complete);
    let ghost base = rows@;
    proof {
        lemma_inserted_into(left, ch.inserted);
        assert(told_in_full(before, base, bodies(complete@)));
    }
    let mut i: usize = 0;
    assert(ch.grew.take(0) =~= Seq::<RowView>::empty());
    while i < changes.provenance_grew.len()
        invariant
            i <= changes.provenance_grew@.len(),
            ch == changes@,
            rows@ == grown_by(base, ch.grew.take(i as int)),
            bodies(complete@) == completed_by_growth(
                base,
                added_rows(ch.inserted),
                ch.grew.take(i as int),
            ),
            told_in_full(before, rows@, bodies(complete@)),
        decreases changes.provenance_grew@.len() - i,
    {
        proof {
            lemma_rows_text_prefix(changes.provenance_grew@, i as int);
        }
        let row = &changes.provenance_grew[i];
        let ghost earlier = rows@;
        let ghost prior = complete@;
        if let Some(_changed) = rows.grow(row) {
            let mut body = row.copy();
            if let Some(kept) = rows.get(&row.id) {
                body.sources = kept.sources.copy();
            }
            let ghost said = body@;
            complete.insert(row.id, body);
            assert(bodies(complete@) =~= bodies(prior).insert(row.id, said));
            assert(said == with_sources(row@, earlier[row.id].sources.union(row@.sources)));
            assert forall|id: EventId| #[trigger]
                rows@.contains_key(id) && !(before.contains_key(id) && before[id].signature
                    == rows@[id].signature) implies bodies(complete@).contains_key(id) by {
                if id != row.id {
                    assert(earlier.contains_key(id));
                }
            }
        }
        i = i + 1;
    }
    assert(ch.grew.take(i as int) =~= ch.grew);
    let ghost wide = rows@;
    let ghost c1 = bodies(complete@);
    let mut k: usize = 0;
    assert(ch.updated.take(0) =~= Seq::<RowView>::empty());
    while k < changes.updated.len()
        invariant
            k <= changes.updated@.len(),
            ch == changes@,
            rows@ == restated_by(wide, ch.updated.take(k as int)),
            bodies(complete@) == completed_by_restated(wide, c1, ch.updated.take(k as int)),
            told_in_full(before, rows@, bodies(complete@)),
        decreases changes.updated@.len() - k,
    {
        proof {
            lemma_rows_text_prefix(changes.updated@, k as int);
        }
        let row = &changes.updated[k];
        let ghost earlier = rows@;
        let ghost prior = complete@;
        if rows.restate(row) {
            let body = row.copy();
            let ghost said = body@;
            complete.insert(row.id, body);
            assert(bodies(complete@) =~= bodies(prior).insert(row.id, said));
            assert forall|id: EventId| #[trigger]
                rows@.contains_key(id) && !(before.contains_key(id) && before[id].signature
                    == rows@[id].signature) implies bodies(complete@).contains_key(id) by {
                if id != row.id {
                    assert(earlier.contains_key(id));
                }
            }
        }
        k = k + 1;
    }
    assert(ch.updated.take(k as int) =~= ch.updated);
    let ghost all = rows@;
    assert(all == applied(before, ch));
    let n = rows.len();
    if n > limit {
        rows.keep_newest(limit);
    } else {
        proof {
            window_is_bounded(all, limit as nat);
        }
    }
    assert(told_in_full(before, rows@, bodies(complete@))) by {
        assert forall|id: EventId| #[trigger]
            rows@.contains_key(id) && !(before.contains_key(id) && before[id].signature
                == rows@[id].signature) implies bodies(complete@).contains_key(id) by {
            assert(all.contains_key(id) && all[id] == rows@[id]);
        }
    }
    if rows.equals(&previous) {
        None
    } else {
        Some(diff_rows(&previous, rows, complete))
    }
}

} // verus!
