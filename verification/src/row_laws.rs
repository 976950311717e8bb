//! What a committed change makes of delivered rows, and what is told of it.

use vstd::prelude::*;

use crate::ids::{EventId, ObservationId, Relay};
use crate::key::{lemma_listing_exists, lemma_listing_members, listing_of};
use crate::observation_registry::Observations;
use crate::observations::ObservationState;
use crate::projection::{
    added_rows, applied, diff, diff_over, diff_step, gone_from, grown_by, inserted_into, notices, notices_of_growth,
    notices_of_restated, noticed, replaced, restated_by, told, told_of, withdrawn, ChangesView, Notices,
};
use crate::projection_laws::unchanged_rows_tell_nothing;
use crate::rows::{newest_rows, RowDeltaView, RowView, RowsView};

verus! {

/// A list of rows names an event at one of its places.
pub open spec fn names(q: Seq<RowView>, i: int, id: EventId) -> bool {
    0 <= i < q.len() && q[i].id == id
}

/// A list of rows names an event at one of its places, and at no later one.
pub open spec fn names_last(q: Seq<RowView>, i: int, id: EventId) -> bool {
    names(q, i, id) && forall|j: int| i < j < q.len() ==> (#[trigger] q[j]).id != id
}

/// No row of a list is of a given event.
pub open spec fn silent_of(q: Seq<RowView>, id: EventId) -> bool {
    forall|i: int| 0 <= i < q.len() ==> (#[trigger] q[i]).id != id
}

proof fn lemma_inserted(rows: RowsView, q: Seq<RowView>, id: EventId)
    ensures
        ({
            let w = inserted_into(rows, q);
            &&& w.contains_key(id) <==> rows.contains_key(id) || !silent_of(q, id)
            &&& silent_of(q, id) && rows.contains_key(id) ==> w[id] == rows[id]
            &&& forall|i: int| #[trigger] names_last(q, i, id) ==> w[id].created_at == q[i].created_at
                && w[id].signature == q[i].signature && w[id].sources == q[i].sources
        }),
    decreases q.len(),
{
    if q.len() > 0 {
        let rest = q.drop_last();
        let n = rest.len() as int;
        lemma_inserted(rows, rest, id);
        assert(q.last() == q[n]);
        assert forall|i: int| 0 <= i < n implies #[trigger] rest[i] == q[i] by {}
        if silent_of(q, id) {
            assert(silent_of(rest, id)) by {
                assert forall|i: int| 0 <= i < rest.len() implies (#[trigger] rest[i]).id != id by {
                    assert(q[i].id != id);
                }
            }
        } else if q[n].id != id {
            let i = choose|i: int| 0 <= i < q.len() && !((#[trigger] q[i]).id != id);
            assert(rest[i].id == id);
        }
        assert forall|i: int| #[trigger] names_last(q, i, id) implies inserted_into(rows, q)[id].created_at
            == q[i].created_at && inserted_into(rows, q)[id].signature == q[i].signature && inserted_into(
            rows,
            q,
        )[id].sources == q[i].sources by {
            if i < n {
                assert(q[n].id != id);
                assert(names_last(rest, i, id)) by {
                    assert forall|j: int| i < j < rest.len() implies (#[trigger] rest[j]).id != id by {
                        assert(q[j].id != id);
                    }
                }
            }
        }
    }
}

proof fn lemma_grown(rows: RowsView, q: Seq<RowView>, id: EventId, relay: Relay)
    ensures
        ({
            let w = grown_by(rows, q);
            &&& w.contains_key(id) <==> rows.contains_key(id)
            &&& rows.contains_key(id) ==> {
                &&& w[id].created_at == rows[id].created_at
                &&& w[id].sources.contains(relay) <==> rows[id].sources.contains(relay) || exists|i: int|
                    #[trigger] names(q, i, id) && q[i].sources.contains(relay)
                &&& silent_of(q, id) ==> w[id] == rows[id]
                &&& forall|i: int| #[trigger] names_last(q, i, id) ==> w[id].signature == q[i].signature
            }
        }),
    decreases q.len(),
{
    if q.len() > 0 {
        let rest = q.drop_last();
        let n = rest.len() as int;
        lemma_grown(rows, rest, id, relay);
        assert(q.last() == q[n]);
        assert forall|i: int| 0 <= i < n implies #[trigger] rest[i] == q[i] by {}
        if rows.contains_key(id) {
            let w = grown_by(rows, q);
            let b = grown_by(rows, rest);
            if exists|i: int| #[trigger] names(rest, i, id) && rest[i].sources.contains(relay) {
                let i = choose|i: int| #[trigger] names(rest, i, id) && rest[i].sources.contains(relay);
                assert(names(q, i, id) && q[i].sources.contains(relay));
            }
            if exists|i: int| #[trigger] names(q, i, id) && q[i].sources.contains(relay) {
                let i = choose|i: int| #[trigger] names(q, i, id) && q[i].sources.contains(relay);
                if i < n {
                    assert(names(rest, i, id) && rest[i].sources.contains(relay));
                }
            }
            if q[n].id == id {
                assert(names(q, n, id));
            }
            if silent_of(q, id) {
                assert(q[n].id != id);
                assert forall|i: int| 0 <= i < rest.len() implies (#[trigger] rest[i]).id != id by {
                    assert(q[i].id != id);
                }
            }
            assert forall|i: int| #[trigger] names_last(q, i, id) implies w[id].signature == q[i].signature by {
                if i < n {
                    assert(q[n].id != id);
                    assert(names_last(rest, i, id)) by {
                        assert forall|j: int| i < j < rest.len() implies (#[trigger] rest[j]).id != id by {
                            assert(q[j].id != id);
                        }
                    }
                }
            }
        }
    }
}

proof fn lemma_restated(rows: RowsView, q: Seq<RowView>, id: EventId)
    ensures
        ({
            let w = restated_by(rows, q);
            &&& w.contains_key(id) <==> rows.contains_key(id)
            &&& rows.contains_key(id) ==> {
                &&& w[id].created_at == rows[id].created_at
                &&& silent_of(q, id) ==> w[id] == rows[id]
                &&& forall|i: int| #[trigger] names_last(q, i, id) ==> w[id].signature == q[i].signature
                    && w[id].sources == q[i].sources
            }
        }),
    decreases q.len(),
{
    if q.len() > 0 {
        let rest = q.drop_last();
        let n = rest.len() as int;
        lemma_restated(rows, rest, id);
        assert(q.last() == q[n]);
        assert forall|i: int| 0 <= i < n implies #[trigger] rest[i] == q[i] by {}
        if rows.contains_key(id) {
            let w = restated_by(rows, q);
            if silent_of(q, id) {
                assert(q[n].id != id);
                assert forall|i: int| 0 <= i < rest.len() implies (#[trigger] rest[i]).id != id by {
                    assert(q[i].id != id);
                }
            }
            assert forall|i: int| #[trigger] names_last(q, i, id) implies w[id].signature == q[i].signature
                && w[id].sources == q[i].sources by {
                if i < n {
                    assert(q[n].id != id);
                    assert(names_last(rest, i, id)) by {
                        assert forall|j: int| i < j < rest.len() implies (#[trigger] rest[j]).id != id by {
                            assert(q[j].id != id);
                        }
                    }
                }
            }
        }
    }
}

/// Which rows there are after a change: those that are inserted, and those that were
/// there and are not removed. A row that only grows or is restated appears nowhere
/// where it was not.
pub proof fn change_inserts_and_removes(rows: RowsView, ch: ChangesView, id: EventId)
    ensures
        applied(rows, ch).contains_key(id) <==> !silent_of(ch.inserted, id) || (rows.contains_key(id)
            && !ch.removed.contains(id)),
{
    let left = rows.remove_keys(ch.removed.to_set());
    lemma_inserted(left, ch.inserted, id);
    lemma_grown(replaced(rows, ch), ch.grew, id, Relay(0));
    lemma_restated(grown_by(replaced(rows, ch), ch.grew), ch.updated, id);
}

/// A row that a change does not speak of stays exactly as it is.
pub proof fn change_leaves_other_rows_alone(rows: RowsView, ch: ChangesView, id: EventId)
    requires
        rows.contains_key(id),
        !ch.removed.contains(id),
        silent_of(ch.inserted, id),
        silent_of(ch.grew, id),
        silent_of(ch.updated, id),
    ensures
        applied(rows, ch).contains_key(id),
        applied(rows, ch)[id] == rows[id],
{
    lemma_inserted(rows.remove_keys(ch.removed.to_set()), ch.inserted, id);
    lemma_grown(replaced(rows, ch), ch.grew, id, Relay(0));
    lemma_restated(grown_by(replaced(rows, ch), ch.grew), ch.updated, id);
}

/// A restated row has exactly the signature and the sources that it is restated with
/// last, whatever it had. Its date stays.
pub proof fn restated_row_says_what_is_restated(rows: RowsView, ch: ChangesView, i: int, id: EventId)
    requires
        names_last(ch.updated, i, id),
        rows.contains_key(id),
        !ch.removed.contains(id),
        silent_of(ch.inserted, id),
    ensures
        applied(rows, ch)[id].signature == ch.updated[i].signature,
        applied(rows, ch)[id].sources == ch.updated[i].sources,
        applied(rows, ch)[id].created_at == rows[id].created_at,
{
    lemma_inserted(rows.remove_keys(ch.removed.to_set()), ch.inserted, id);
    lemma_grown(replaced(rows, ch), ch.grew, id, Relay(0));
    lemma_restated(grown_by(replaced(rows, ch), ch.grew), ch.updated, id);
}

/// A row that grows keeps every source that it had and gains every source that it is
/// said to have grown by, and no other. It takes on the signature that comes with its
/// last growth. Its date stays.
pub proof fn grown_row_gains_sources(rows: RowsView, ch: ChangesView, i: int, id: EventId, relay: Relay)
    requires
        names_last(ch.grew, i, id),
        silent_of(ch.updated, id),
        rows.contains_key(id),
        !ch.removed.contains(id),
        silent_of(ch.inserted, id),
    ensures
        applied(rows, ch)[id].sources.contains(relay) <==> rows[id].sources.contains(relay) || exists|k: int|
            #[trigger] names(ch.grew, k, id) && ch.grew[k].sources.contains(relay),
        applied(rows, ch)[id].signature == ch.grew[i].signature,
        applied(rows, ch)[id].created_at == rows[id].created_at,
{
    lemma_inserted(rows.remove_keys(ch.removed.to_set()), ch.inserted, id);
    lemma_grown(replaced(rows, ch), ch.grew, id, relay);
    lemma_restated(grown_by(replaced(rows, ch), ch.grew), ch.updated, id);
}

/// An inserted row is there as it is inserted last, where the change says no more of
/// it.
pub proof fn inserted_row_is_there_as_inserted(rows: RowsView, ch: ChangesView, i: int, id: EventId)
    requires
        names_last(ch.inserted, i, id),
        silent_of(ch.grew, id),
        silent_of(ch.updated, id),
    ensures
        applied(rows, ch).contains_key(id),
        applied(rows, ch)[id].created_at == ch.inserted[i].created_at,
        applied(rows, ch)[id].signature == ch.inserted[i].signature,
        applied(rows, ch)[id].sources == ch.inserted[i].sources,
{
    assert(!silent_of(ch.inserted, id)) by {
        assert(ch.inserted[i].id == id);
    }
    lemma_inserted(rows.remove_keys(ch.removed.to_set()), ch.inserted, id);
    lemma_grown(replaced(rows, ch), ch.grew, id, Relay(0));
    lemma_restated(grown_by(replaced(rows, ch), ch.grew), ch.updated, id);
}

/// The event that one told change is about.
pub open spec fn subject(d: RowDeltaView) -> EventId {
    match d {
        RowDeltaView::Added(row) => row.id,
        RowDeltaView::Updated(row) => row.id,
        RowDeltaView::SourcesGrew(id, _) => id,
        RowDeltaView::Removed(id) => id,
    }
}

proof fn lemma_diff_over(
    q: Seq<EventId>,
    prev: RowsView,
    cur: RowsView,
    body: Map<EventId, RowView>,
    d: RowDeltaView,
)
    ensures
        diff_over(q, prev, cur, body).contains(d) <==> exists|i: int|
            0 <= i < q.len() && diff_step(prev, cur, body, #[trigger] q[i]).contains(d),
    decreases q.len(),
{
    if q.len() > 0 {
        let rest = q.drop_last();
        let n = rest.len() as int;
        lemma_diff_over(rest, prev, cur, body, d);
        assert(q.last() == q[n]);
        let a = diff_over(rest, prev, cur, body);
        let b = diff_step(prev, cur, body, q.last());
        let c = diff_over(q, prev, cur, body);
        assert(c == a + b);
        if a.contains(d) {
            let i = choose|i: int|
                0 <= i < rest.len() && diff_step(prev, cur, body, #[trigger] rest[i]).contains(d);
            assert(q[i] == rest[i]);
            let k = choose|k: int| 0 <= k < a.len() && a[k] == d;
            assert(c[k] == d);
        }
        if b.contains(d) {
            let k = choose|k: int| 0 <= k < b.len() && b[k] == d;
            assert(c[a.len() + k] == d);
            assert(diff_step(prev, cur, body, q[n]).contains(d));
        }
        if c.contains(d) {
            let k = choose|k: int| 0 <= k < c.len() && c[k] == d;
            if k < a.len() {
                assert(a[k] == d);
                assert(a.contains(d));
            } else {
                assert(b[k - a.len()] == d);
                assert(b.contains(d));
            }
        }
        if exists|i: int| 0 <= i < q.len() && diff_step(prev, cur, body, #[trigger] q[i]).contains(d) {
            let i = choose|i: int|
                0 <= i < q.len() && diff_step(prev, cur, body, #[trigger] q[i]).contains(d);
            if i < n {
                assert(rest[i] == q[i]);
                assert(a.contains(d));
            }
        }
    }
}

/// The difference between two deliveries tells of exactly what differs: a row that is
/// new in full; a row whose signature has changed in full; a row of which only the
/// sources have changed by its sources; and a row that is gone by its id. Of a row that
/// is the same nothing is told.
pub proof fn difference_tells_what_differs(
    prev: RowsView,
    cur: RowsView,
    body: Map<EventId, RowView>,
    id: EventId,
)
    requires
        prev.dom().finite(),
        cur.dom().finite(),
        forall|x: EventId| #[trigger] body.contains_key(x) ==> body[x].id == x,
        forall|x: EventId| #[trigger]
            cur.contains_key(x) && !(prev.contains_key(x) && prev[x].signature == cur[x].signature)
                ==> body.contains_key(x),
    ensures
        ({
            let told = diff(prev, cur, body);
            &&& cur.contains_key(id) && !prev.contains_key(id) ==> told.contains(RowDeltaView::Added(body[id]))
            &&& cur.contains_key(id) && prev.contains_key(id) && prev[id].signature != cur[id].signature
                ==> told.contains(RowDeltaView::Updated(body[id]))
            &&& cur.contains_key(id) && prev.contains_key(id) && prev[id].signature == cur[id].signature
                && prev[id].sources != cur[id].sources ==> told.contains(
                RowDeltaView::SourcesGrew(id, cur[id].sources),
            )
            &&& prev.contains_key(id) && !cur.contains_key(id) ==> told.contains(RowDeltaView::Removed(id))
            &&& forall|d: RowDeltaView| #[trigger]
                told.contains(d) && subject(d) == id ==> (match d {
                    RowDeltaView::Added(_) => cur.contains_key(id) && !prev.contains_key(id),
                    RowDeltaView::Updated(_) => cur.contains_key(id) && prev.contains_key(id)
                        && prev[id].signature != cur[id].signature,
                    RowDeltaView::SourcesGrew(_, sources) => cur.contains_key(id) && prev.contains_key(id)
                        && prev[id].signature == cur[id].signature && prev[id].sources != cur[id].sources
                        && sources == cur[id].sources,
                    RowDeltaView::Removed(_) => prev.contains_key(id) && !cur.contains_key(id),
                })
        }),
{
    let told = diff(prev, cur, body);
    let q = listing_of(cur.dom());
    lemma_listing_exists(cur.dom());
    lemma_listing_members(q, cur.dom());
    let gone = gone_from(prev, cur);
    assert(gone.subset_of(prev.dom()));
    vstd::set_lib::lemma_set_subset_finite(prev.dom(), gone);
    lemma_listing_exists(gone);
    let went = listing_of(gone);
    lemma_listing_members(went, gone);
    let a = diff_over(q, prev, cur, body);
    let b = Seq::new(went.len(), |i: int| RowDeltaView::Removed(went[i]));
    assert(told == a + b);
    assert forall|d: RowDeltaView| a.contains(d) implies #[trigger] told.contains(d) by {
        let k = choose|k: int| 0 <= k < a.len() && a[k] == d;
        assert(told[k] == d);
    }
    if cur.contains_key(id) {
        assert(q.contains(id));
        let i = choose|i: int| 0 <= i < q.len() && q[i] == id;
        let s = diff_step(prev, cur, body, id);
        if s.len() > 0 {
            assert(s.contains(s[0]));
            lemma_diff_over(q, prev, cur, body, s[0]);
            assert(diff_step(prev, cur, body, q[i]).contains(s[0]));
            assert(a.contains(s[0]));
        }
    } else if prev.contains_key(id) {
        assert(gone.contains(id));
        assert(went.contains(id));
        let i = choose|i: int| 0 <= i < went.len() && went[i] == id;
        assert(b[i] == RowDeltaView::Removed(id));
        assert(told[a.len() + i] == RowDeltaView::Removed(id));
    }
    assert forall|d: RowDeltaView| #[trigger] told.contains(d) && subject(d) == id implies (match d {
        RowDeltaView::Added(_) => cur.contains_key(id) && !prev.contains_key(id),
        RowDeltaView::Updated(_) => cur.contains_key(id) && prev.contains_key(id) && prev[id].signature
            != cur[id].signature,
        RowDeltaView::SourcesGrew(_, sources) => cur.contains_key(id) && prev.contains_key(id)
            && prev[id].signature == cur[id].signature && prev[id].sources != cur[id].sources && sources
            == cur[id].sources,
        RowDeltaView::Removed(_) => prev.contains_key(id) && !cur.contains_key(id),
    }) by {
        let k = choose|k: int| 0 <= k < told.len() && told[k] == d;
        if k < a.len() {
            assert(a[k] == d);
            assert(a.contains(d));
            lemma_diff_over(q, prev, cur, body, d);
            let i = choose|i: int|
                0 <= i < q.len() && diff_step(prev, cur, body, #[trigger] q[i]).contains(d);
            let x = q[i];
            assert(cur.dom().contains(x)) by {
                assert(q.contains(x));
            }
            let s = diff_step(prev, cur, body, x);
            assert(s.contains(d));
            assert(s.len() == 1 && s[0] == d);
            assert(subject(d) == x);
        } else {
            assert(d == RowDeltaView::Removed(went[k - a.len()]));
            assert(went.contains(went[k - a.len()]));
            assert(gone.contains(id));
        }
    }
}

proof fn lemma_noticed_growth(rows: RowsView, n: Notices, q: Seq<RowView>, id: EventId)
    requires
        silent_of(q, id),
    ensures
        notices_of_growth(rows, n, q).added == n.added,
        noticed(notices_of_growth(rows, n, q)).contains(id) == noticed(n).contains(id),
    decreases q.len(),
{
    if q.len() > 0 {
        let rest = q.drop_last();
        assert(q.last() == q[q.len() - 1]);
        assert forall|i: int| 0 <= i < rest.len() implies (#[trigger] rest[i]).id != id by {
            assert(rest[i] == q[i]);
        }
        lemma_noticed_growth(rows, n, rest, id);
    }
}

proof fn lemma_noticed_restated(rows: RowsView, n: Notices, q: Seq<RowView>, id: EventId)
    requires
        silent_of(q, id),
    ensures
        noticed(notices_of_restated(rows, n, q)).contains(id) == noticed(n).contains(id),
    decreases q.len(),
{
    if q.len() > 0 {
        let rest = q.drop_last();
        assert(q.last() == q[q.len() - 1]);
        assert forall|i: int| 0 <= i < rest.len() implies (#[trigger] rest[i]).id != id by {
            assert(rest[i] == q[i]);
        }
        lemma_noticed_restated(rows, n, rest, id);
    }
}

proof fn lemma_added(q: Seq<RowView>, id: EventId)
    ensures
        added_rows(q).contains_key(id) <==> !silent_of(q, id),
        forall|i: int| #[trigger] names_last(q, i, id) ==> added_rows(q)[id] == q[i],
    decreases q.len(),
{
    if q.len() > 0 {
        let rest = q.drop_last();
        let n = rest.len() as int;
        lemma_added(rest, id);
        assert(q.last() == q[n]);
        assert forall|i: int| 0 <= i < n implies #[trigger] rest[i] == q[i] by {}
        if silent_of(q, id) {
            assert(q[n].id != id);
            assert forall|i: int| 0 <= i < rest.len() implies (#[trigger] rest[i]).id != id by {
                assert(q[i].id != id);
            }
        } else if q[n].id != id {
            let i = choose|i: int| 0 <= i < q.len() && !((#[trigger] q[i]).id != id);
            assert(rest[i].id == id);
        }
        assert forall|i: int| #[trigger] names_last(q, i, id) implies added_rows(q)[id] == q[i] by {
            if i < n {
                assert(q[n].id != id);
                assert(names_last(rest, i, id)) by {
                    assert forall|j: int| i < j < rest.len() implies (#[trigger] rest[j]).id != id by {
                        assert(q[j].id != id);
                    }
                }
            }
        }
    }
}

/// A change has nothing to tell of a row that it does not speak of. It withdraws
/// exactly the rows that were delivered and that it removes.
pub proof fn change_tells_of_nothing_else(rows: RowsView, ch: ChangesView, id: EventId)
    requires
        silent_of(ch.inserted, id),
        silent_of(ch.grew, id),
        silent_of(ch.updated, id),
    ensures
        !noticed(notices(rows, ch)).contains(id),
        withdrawn(rows, ch).contains(id) <==> rows.contains_key(id) && ch.removed.contains(id),
{
    let base = replaced(rows, ch);
    let start = Notices { added: added_rows(ch.inserted), updated: Map::empty(), grew: Set::empty() };
    lemma_added(ch.inserted, id);
    assert(!noticed(start).contains(id));
    lemma_noticed_growth(base, start, ch.grew, id);
    lemma_noticed_restated(
        grown_by(base, ch.grew),
        notices_of_growth(base, start, ch.grew),
        ch.updated,
        id,
    );
}

/// What a live observation shows after a change: without a limit every row of the
/// changed rows; with one the newest of them.
pub proof fn direct_change_shows_the_changed_rows(
    state: ObservationState,
    ch: ChangesView,
    limit: usize,
    id: EventId,
)
    ensures
        state.rows_after(None, ch) == applied(state.last_rows@, ch),
        state.rows_after(Some(limit), ch) == newest_rows(applied(state.last_rows@, ch), limit as nat),
        state.rows_after(Some(limit), ch).contains_key(id) ==> applied(state.last_rows@, ch).contains_key(id)
            && state.rows_after(Some(limit), ch)[id] == applied(state.last_rows@, ch)[id],
{
}

/// A change after which nothing is told has nothing to tell, and a bounded window that
/// is not silent has changed.
pub proof fn silence_means_nothing_to_tell(state: ObservationState, limit: Option<usize>, ch: ChangesView)
    requires
        state.last_rows@.dom().finite(),
    ensures
        state.silent(limit, ch) ==> state.deltas_after(limit, ch).len() == 0,
        limit is None && !state.silent(limit, ch) ==> state.deltas_after(limit, ch).len() > 0,
        limit is Some && !state.silent(limit, ch) ==> state.rows_after(limit, ch) != state.last_rows@,
{
    if limit is Some && state.silent(limit, ch) {
        unchanged_rows_tell_nothing(
            state.last_rows@,
            crate::projection::completed(state.last_rows@, ch),
        );
    }
}

/// What is told of a change to a bounded window is the difference between what the
/// window showed and what it shows.
pub proof fn bounded_window_tells_its_difference(state: ObservationState, limit: usize, ch: ChangesView)
    ensures
        state.deltas_after(Some(limit), ch) == diff(
            state.last_rows@,
            newest_rows(applied(state.last_rows@, ch), limit as nat),
            crate::projection::completed(state.last_rows@, ch),
        ),
        state.deltas_after(None, ch) == told_of(state.last_rows@, ch),
{
}

/// A window needs a full read if and only if it is full and a row that it shows is
/// removed: only then may an older row have to take a place.
pub proof fn full_window_that_loses_a_row_is_read_anew(
    state: ObservationState,
    limit: Option<usize>,
    ch: ChangesView,
)
    ensures
        state.loses_from_full_window(limit, ch) <==> limit is Some && state.last_rows@.len() == limit->0
            && exists|i: int|
            0 <= i < ch.removed.len() && state.last_rows@.contains_key(#[trigger] ch.removed[i]),
{
}

/// A change is delivered without a read only to an observation with one branch, no
/// limit of its own, one filter and nothing below it, no pin, and a complete delivery
/// with evidence before.
pub proof fn direct_delivery_needs_a_simple_observation(
    registry: Observations,
    id: ObservationId,
    root_atoms: nat,
    subtree_atoms: nat,
)
    ensures
        registry.direct(id, root_atoms, subtree_atoms) <==> {
            let state = registry.observations@[id];
            let h = state.branches@[0];
            &&& registry.observations@.contains_key(id)
            &&& state.branches@.len() == 1
            &&& state.aggregate_result_limit is None
            &&& root_atoms == 1
            &&& subtree_atoms == 1
            &&& registry.handles@.contains_key(h)
            &&& !registry.handles@[h].strict
            &&& state.last_evidence is Some
            &&& state.projection_complete
        },
        registry.nobody(id, root_atoms, subtree_atoms) <==> !registry.observations@.contains_key(id) || {
            let state = registry.observations@[id];
            &&& state.branches@.len() == 1
            &&& state.aggregate_result_limit is None
            &&& root_atoms == 1
            &&& subtree_atoms == 1
            &&& !registry.handles@.contains_key(state.branches@[0])
        },
        registry.sole_branch(id) matches Some(h) ==> registry.observations@.contains_key(id)
            && registry.observations@[id].branches@ == seq![h],
{
    if registry.sole_branch(id) is Some {
        let h = registry.sole_branch(id)->0;
        assert(registry.observations@[id].branches@ =~= seq![h]);
    }
}

proof fn lemma_noticed_is_finite(rows: RowsView, ch: ChangesView)
    ensures
        noticed(notices(rows, ch)).finite(),
{
    let a = ch.inserted.map_values(|r: RowView| r.id);
    let b = ch.grew.map_values(|r: RowView| r.id);
    let c = ch.updated.map_values(|r: RowView| r.id);
    vstd::seq_lib::seq_to_set_is_finite(a);
    vstd::seq_lib::seq_to_set_is_finite(b);
    vstd::seq_lib::seq_to_set_is_finite(c);
    let all = a.to_set().union(b.to_set()).union(c.to_set());
    let n = noticed(notices(rows, ch));
    assert forall|id: EventId| n.contains(id) implies all.contains(id) by {
        if !all.contains(id) {
            assert forall|i: int| 0 <= i < ch.inserted.len() implies (#[trigger] ch.inserted[i]).id != id by {
                assert(a[i] == ch.inserted[i].id);
                assert(a.contains(a[i]));
            }
            assert forall|i: int| 0 <= i < ch.grew.len() implies (#[trigger] ch.grew[i]).id != id by {
                assert(b[i] == ch.grew[i].id);
                assert(b.contains(b[i]));
            }
            assert forall|i: int| 0 <= i < ch.updated.len() implies (#[trigger] ch.updated[i]).id != id by {
                assert(c[i] == ch.updated[i].id);
                assert(c.contains(c[i]));
            }
            change_tells_of_nothing_else(rows, ch, id);
        }
    }
    vstd::set_lib::lemma_set_subset_finite(all, n);
}

proof fn lemma_told_of(rows: RowsView, ch: ChangesView, id: EventId)
    requires
        noticed(notices(rows, ch)).contains(id),
    ensures
        told_of(rows, ch).contains(told(notices(rows, ch), applied(rows, ch), id)),
{
    let n = notices(rows, ch);
    lemma_noticed_is_finite(rows, ch);
    lemma_listing_exists(noticed(n));
    let came = listing_of(noticed(n));
    lemma_listing_members(came, noticed(n));
    assert(came.contains(id));
    let i = choose|i: int| 0 <= i < came.len() && came[i] == id;
    assert(told_of(rows, ch)[i] == told(n, applied(rows, ch), id));
}

proof fn lemma_growth_keeps_added(rows: RowsView, n: Notices, q: Seq<RowView>)
    ensures
        notices_of_growth(rows, n, q).added == n.added,
    decreases q.len(),
{
    if q.len() > 0 {
        lemma_growth_keeps_added(rows, n, q.drop_last());
    }
}

proof fn lemma_restating_keeps_added(rows: RowsView, n: Notices, q: Seq<RowView>, id: EventId)
    ensures
        notices_of_restated(rows, n, q).added.contains_key(id) == n.added.contains_key(id),
        silent_of(q, id) && n.added.contains_key(id) ==> notices_of_restated(rows, n, q).added[id]
            == n.added[id],
    decreases q.len(),
{
    if q.len() > 0 {
        let rest = q.drop_last();
        lemma_restating_keeps_added(rows, n, rest, id);
        assert(q.last() == q[q.len() - 1]);
        if silent_of(q, id) {
            assert forall|i: int| 0 <= i < rest.len() implies (#[trigger] rest[i]).id != id by {
                assert(rest[i] == q[i]);
            }
        }
    }
}

proof fn lemma_restated_notice(rows: RowsView, n: Notices, q: Seq<RowView>, i: int, id: EventId)
    requires
        names_last(q, i, id),
        rows.contains_key(id),
        !n.added.contains_key(id),
    ensures
        notices_of_restated(rows, n, q).updated.contains_key(id),
        notices_of_restated(rows, n, q).updated[id] == q[i],
    decreases q.len(),
{
    let rest = q.drop_last();
    let k = rest.len() as int;
    assert(q.last() == q[k]);
    lemma_restating_keeps_added(rows, n, rest, id);
    lemma_restated(rows, rest, id);
    if i < k {
        assert(q[k].id != id);
        assert(rest[i] == q[i]);
        assert(names_last(rest, i, id)) by {
            assert forall|j: int| i < j < rest.len() implies (#[trigger] rest[j]).id != id by {
                assert(q[j].id != id);
            }
        }
        lemma_restated_notice(rows, n, rest, i, id);
    }
}

/// An inserted row is told as a new one, as it is inserted last, where the change does
/// not restate it.
pub proof fn inserted_row_is_told_as_new(rows: RowsView, ch: ChangesView, i: int, id: EventId)
    requires
        names_last(ch.inserted, i, id),
        silent_of(ch.updated, id),
    ensures
        told_of(rows, ch).contains(RowDeltaView::Added(ch.inserted[i])),
{
    let base = replaced(rows, ch);
    let start = Notices { added: added_rows(ch.inserted), updated: Map::empty(), grew: Set::empty() };
    assert(!silent_of(ch.inserted, id)) by {
        assert(ch.inserted[i].id == id);
    }
    lemma_added(ch.inserted, id);
    lemma_growth_keeps_added(base, start, ch.grew);
    lemma_restating_keeps_added(
        grown_by(base, ch.grew),
        notices_of_growth(base, start, ch.grew),
        ch.updated,
        id,
    );
    lemma_told_of(rows, ch, id);
}

/// A delivered row that a change restates is told as restated, in full and as it is
/// restated last, and not as a new one.
pub proof fn restated_row_is_told_in_full(rows: RowsView, ch: ChangesView, i: int, id: EventId)
    requires
        names_last(ch.updated, i, id),
        rows.contains_key(id),
        !ch.removed.contains(id),
        silent_of(ch.inserted, id),
    ensures
        told_of(rows, ch).contains(RowDeltaView::Updated(ch.updated[i])),
{
    let base = replaced(rows, ch);
    let start = Notices { added: added_rows(ch.inserted), updated: Map::empty(), grew: Set::empty() };
    lemma_added(ch.inserted, id);
    lemma_inserted(rows.remove_keys(ch.removed.to_set()), ch.inserted, id);
    lemma_grown(base, ch.grew, id, Relay(0));
    lemma_growth_keeps_added(base, start, ch.grew);
    let grown = notices_of_growth(base, start, ch.grew);
    lemma_restated_notice(grown_by(base, ch.grew), grown, ch.updated, i, id);
    lemma_restating_keeps_added(grown_by(base, ch.grew), grown, ch.updated, id);
    lemma_told_of(rows, ch, id);
}

/// A delivered row that is removed is told by its id, where it was delivered.
pub proof fn removed_row_is_told_by_its_id(rows: RowsView, ch: ChangesView, id: EventId)
    requires
        rows.dom().finite(),
        rows.contains_key(id),
        ch.removed.contains(id),
    ensures
        told_of(rows, ch).contains(RowDeltaView::Removed(id)),
{
    let n = notices(rows, ch);
    let gone = withdrawn(rows, ch);
    assert(gone.subset_of(rows.dom()));
    vstd::set_lib::lemma_set_subset_finite(rows.dom(), gone);
    lemma_listing_exists(gone);
    let went = listing_of(gone);
    lemma_listing_members(went, gone);
    assert(gone.contains(id));
    assert(went.contains(id));
    let i = choose|i: int| 0 <= i < went.len() && went[i] == id;
    let k = listing_of(noticed(n)).len() as int;
    assert(told_of(rows, ch)[k + i] == RowDeltaView::Removed(id));
}

/// A row that only grows, and once, is told in full where its signature has changed,
/// and by all its sources where it has gained one and its signature has not changed.
pub proof fn grown_row_is_told_by_what_changed(rows: RowsView, ch: ChangesView, row: RowView)
    requires
        ch.grew == seq![row],
        silent_of(ch.inserted, row.id),
        silent_of(ch.updated, row.id),
        rows.contains_key(row.id),
        !ch.removed.contains(row.id),
    ensures
        rows[row.id].signature != row.signature ==> told_of(rows, ch).contains(
            RowDeltaView::Updated(
                RowView { sources: rows[row.id].sources.union(row.sources), ..row },
            ),
        ),
        rows[row.id].signature == row.signature && !row.sources.subset_of(rows[row.id].sources) ==> told_of(
            rows,
            ch,
        ).contains(RowDeltaView::SourcesGrew(row.id, rows[row.id].sources.union(row.sources))),
        rows[row.id].signature == row.signature && row.sources.subset_of(rows[row.id].sources)
            ==> !noticed(notices(rows, ch)).contains(row.id),
{
    let id = row.id;
    let base = replaced(rows, ch);
    let start = Notices { added: added_rows(ch.inserted), updated: Map::empty(), grew: Set::empty() };
    lemma_added(ch.inserted, id);
    lemma_inserted(rows.remove_keys(ch.removed.to_set()), ch.inserted, id);
    assert(base.contains_key(id) && base[id] == rows[id]);
    let q = ch.grew;
    assert(q.drop_last() =~= Seq::<RowView>::empty());
    assert(q.last() == row);
    assert(grown_by(base, q.drop_last()) == base);
    assert(notices_of_growth(base, start, q.drop_last()) == start);
    let grown = notices_of_growth(base, start, q);
    let after = grown_by(base, q);
    assert(after[id].sources == rows[id].sources.union(row.sources));
    let n = notices(rows, ch);
    lemma_quiet_restating(after, grown, ch.updated, id);
    lemma_restated(after, ch.updated, id);
    assert(applied(rows, ch)[id] == after[id]);
    if noticed(n).contains(id) {
        lemma_told_of(rows, ch, id);
    }
}

proof fn lemma_quiet_restating(rows: RowsView, n: Notices, q: Seq<RowView>, id: EventId)
    requires
        silent_of(q, id),
    ensures
        notices_of_restated(rows, n, q).added.contains_key(id) == n.added.contains_key(id),
        notices_of_restated(rows, n, q).updated.contains_key(id) == n.updated.contains_key(id),
        n.updated.contains_key(id) ==> notices_of_restated(rows, n, q).updated[id] == n.updated[id],
        notices_of_restated(rows, n, q).grew.contains(id) == n.grew.contains(id),
    decreases q.len(),
{
    if q.len() > 0 {
        let rest = q.drop_last();
        assert(q.last() == q[q.len() - 1]);
        assert forall|i: int| 0 <= i < rest.len() implies (#[trigger] rest[i]).id != id by {
            assert(rest[i] == q[i]);
        }
        lemma_quiet_restating(rows, n, rest, id);
    }
}

} // verus!
