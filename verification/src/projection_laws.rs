//! What holds of the rows that a query delivers, whatever the changes are.

use vstd::prelude::*;

use crate::ids::EventId;
use crate::key::{
    is_listing, lemma_listing_exists, lemma_listing_members, lemma_push_contains, listing_of, Key,
};
use crate::matching::{
    committed_view, filter_takes, seen_changes, seen_ids, seen_rows, CommittedCurrentRow, CommittedRowChanges,
};
use crate::projection::{
    added_rows, applied, completed, completed_by_growth, completed_by_restated, diff, diff_over, diff_step, gone_from, grown_by, inserted_into, noticed,
    notices, notices_of_growth, notices_of_restated, replaced, restated_by, told, told_in_full,
    told_of, withdrawn, with_sources, ChangesView, Notices,
};
use crate::rows::{
    dates_of, lemma_newest_is_bounded, newer_first, newer_than, newest,
    newest_first_is_a_total_order, newest_rows, remember, RememberedView, RowDeltaView, RowView,
    RowsView, SignedEvent,
};

verus! {

/// What a receiver that keeps rows makes of one change.
pub open spec fn receive(rows: RowsView, d: RowDeltaView) -> RowsView {
    match d {
        RowDeltaView::Added(row) => rows.insert(row.id, remember(row)),
        RowDeltaView::Updated(row) => rows.insert(row.id, remember(row)),
        RowDeltaView::SourcesGrew(id, sources) => if rows.contains_key(id) {
            rows.insert(id, RememberedView { sources, ..rows[id] })
        } else {
            rows
        },
        RowDeltaView::Removed(id) => rows.remove(id),
    }
}

/// What a receiver makes of a list of changes, in order.
pub open spec fn receive_all(rows: RowsView, q: Seq<RowDeltaView>) -> RowsView
    decreases q.len(),
{
    if q.len() == 0 {
        rows
    } else {
        receive(receive_all(rows, q.drop_last()), q.last())
    }
}

proof fn lemma_receive_concat(rows: RowsView, a: Seq<RowDeltaView>, b: Seq<RowDeltaView>)
    ensures
        receive_all(rows, a + b) == receive_all(receive_all(rows, a), b),
    decreases b.len(),
{
    if b.len() == 0 {
        assert(a + b =~= a);
    } else {
        assert((a + b).drop_last() =~= a + b.drop_last());
        assert((a + b).last() == b.last());
        lemma_receive_concat(rows, a, b.drop_last());
    }
}

proof fn lemma_receive_removals(rows: RowsView, q: Seq<EventId>)
    ensures
        receive_all(rows, Seq::new(q.len(), |i: int| RowDeltaView::Removed(q[i]))) == rows.remove_keys(
            q.to_set(),
        ),
    decreases q.len(),
{
    let d = Seq::new(q.len(), |i: int| RowDeltaView::Removed(q[i]));
    if q.len() == 0 {
        assert(rows.remove_keys(q.to_set()) =~= rows);
    } else {
        let p = q.drop_last();
        lemma_receive_removals(rows, p);
        assert(d.drop_last() =~= Seq::new(p.len(), |i: int| RowDeltaView::Removed(p[i])));
        assert(q =~= p.push(q.last()));
        lemma_push_contains(p, q.last());
        assert forall|x: EventId| q.to_set().contains(x) <==> p.to_set().contains(x) || x == q.last() by {
            assert(q.contains(x) <==> p.contains(x) || x == q.last());
        }
        assert(rows.remove_keys(p.to_set()).remove(q.last()) =~= rows.remove_keys(q.to_set()));
    }
}

proof fn lemma_diff_prefix(
    q: Seq<EventId>,
    prev: RowsView,
    cur: RowsView,
    body: Map<EventId, RowView>,
    i: int,
)
    requires
        0 <= i <= q.len(),
        is_listing(q, cur.dom()),
        told_in_full(prev, cur, body),
        forall|id: EventId| #[trigger]
            body.contains_key(id) && cur.contains_key(id) ==> body[id].id == id && remember(body[id])
                == cur[id],
        forall|id: EventId| #[trigger]
            prev.contains_key(id) && cur.contains_key(id) ==> prev[id].created_at == cur[id].created_at,
    ensures
        ({
            let now = receive_all(prev, diff_over(q.take(i), prev, cur, body));
            &&& forall|id: EventId| #[trigger]
                now.contains_key(id) <==> prev.contains_key(id) || q.take(i).contains(id)
            &&& forall|id: EventId| #[trigger]
                now.contains_key(id) ==> now[id] == (if q.take(i).contains(id) {
                    cur[id]
                } else {
                    prev[id]
                })
        }),
    decreases i,
{
    if i == 0 {
        assert(q.take(0) =~= Seq::<EventId>::empty());
    } else {
        lemma_diff_prefix(q, prev, cur, body, i - 1);
        let id = q[i - 1];
        assert(q.take(i).drop_last() =~= q.take(i - 1));
        assert(q.take(i).last() == id);
        assert(q.take(i) =~= q.take(i - 1).push(id));
        lemma_push_contains(q.take(i - 1), id);
        assert(cur.dom().contains(q[i - 1]));
        assert(cur.contains_key(id));
        let done = diff_over(q.take(i - 1), prev, cur, body);
        let step = diff_step(prev, cur, body, id);
        lemma_receive_concat(prev, done, step);
        let was = receive_all(prev, done);
        assert(!q.take(i - 1).contains(id)) by {
            if q.take(i - 1).contains(id) {
                let p = q.take(i - 1);
                let j = choose|j: int| 0 <= j < p.len() && #[trigger] p[j] == id;
                assert(q[j].rank() < q[i - 1].rank());
            }
        }
        let now = receive_all(was, step);
        if step.len() == 0 {
            assert(prev[id] == cur[id]);
        } else {
            assert(step.drop_last() =~= Seq::<RowDeltaView>::empty());
            assert(receive_all(was, step.drop_last()) == was);
            assert(now == receive(was, step[0]));
            assert(now[id] == cur[id]);
            assert forall|x: EventId| x != id implies now.contains_key(x) == was.contains_key(x) && (
            was.contains_key(x) ==> now[x] == was[x]) by {}
        }
    }
}

/// A receiver that holds the rows of one delivery and takes in the difference
/// holds the rows of the next: a row's id fixes its date, and the rows told in
/// full say what is remembered of them.
pub proof fn difference_leads_to_the_next_delivery(
    prev: RowsView,
    cur: RowsView,
    body: Map<EventId, RowView>,
)
    requires
        prev.dom().finite(),
        cur.dom().finite(),
        told_in_full(prev, cur, body),
        forall|id: EventId| #[trigger]
            body.contains_key(id) && cur.contains_key(id) ==> body[id].id == id && remember(body[id])
                == cur[id],
        forall|id: EventId| #[trigger]
            prev.contains_key(id) && cur.contains_key(id) ==> prev[id].created_at == cur[id].created_at,
    ensures
        receive_all(prev, diff(prev, cur, body)) == cur,
{
    let q = listing_of(cur.dom());
    lemma_listing_exists(cur.dom());
    lemma_listing_members(q, cur.dom());
    lemma_diff_prefix(q, prev, cur, body, q.len() as int);
    assert(q.take(q.len() as int) =~= q);
    let gone = gone_from(prev, cur);
    vstd::set_lib::lemma_set_subset_finite(prev.dom(), gone);
    lemma_listing_exists(gone);
    let went = listing_of(gone);
    lemma_listing_members(went, gone);
    let first = diff_over(q, prev, cur, body);
    let second = Seq::new(went.len(), |i: int| RowDeltaView::Removed(went[i]));
    lemma_receive_concat(prev, first, second);
    lemma_receive_removals(receive_all(prev, first), went);
    assert(receive_all(prev, diff(prev, cur, body)) =~= cur);
}

/// Two deliveries that are the same have nothing to tell.
pub proof fn unchanged_rows_tell_nothing(rows: RowsView, body: Map<EventId, RowView>)
    requires
        rows.dom().finite(),
    ensures
        diff(rows, rows, body) == Seq::<RowDeltaView>::empty(),
{
    let q = listing_of(rows.dom());
    lemma_listing_exists(rows.dom());
    lemma_no_difference(q, rows, body);
    let gone = gone_from(rows, rows);
    assert(gone =~= Set::<EventId>::empty());
    lemma_listing_exists(gone);
    assert(diff(rows, rows, body) =~= Seq::<RowDeltaView>::empty());
}

proof fn lemma_no_difference(q: Seq<EventId>, rows: RowsView, body: Map<EventId, RowView>)
    requires
        forall|i: int| 0 <= i < q.len() ==> rows.dom().contains(#[trigger] q[i]),
    ensures
        diff_over(q, rows, rows, body) == Seq::<RowDeltaView>::empty(),
    decreases q.len(),
{
    if q.len() > 0 {
        assert(rows.dom().contains(q[q.len() - 1]));
        assert forall|i: int| 0 <= i < q.drop_last().len() implies rows.dom().contains(
            #[trigger] q.drop_last()[i],
        ) by {
            assert(rows.dom().contains(q[i]));
        }
        lemma_no_difference(q.drop_last(), rows, body);
        assert(diff_over(q, rows, rows, body) =~= Seq::<RowDeltaView>::empty());
    }
}

/// Both memories agree on one row.
spec fn agree(a: RowsView, b: RowsView, id: EventId) -> bool {
    a.contains_key(id) == b.contains_key(id) && (a.contains_key(id) ==> a[id] == b[id])
}

proof fn lemma_inserted_agree(a: RowsView, b: RowsView, q: Seq<RowView>, id: EventId)
    ensures
        agree(a, b, id) ==> agree(inserted_into(a, q), inserted_into(b, q), id),
        added_rows(q).contains_key(id) ==> agree(inserted_into(a, q), inserted_into(b, q), id)
            && inserted_into(a, q).contains_key(id),
        !added_rows(q).contains_key(id) ==> agree(a, inserted_into(a, q), id),
    decreases q.len(),
{
    if q.len() > 0 {
        lemma_inserted_agree(a, b, q.drop_last(), id);
    }
}

proof fn lemma_later_agree(a: RowsView, b: RowsView, g: Seq<RowView>, u: Seq<RowView>, id: EventId)
    requires
        agree(a, b, id),
    ensures
        agree(restated_by(grown_by(a, g), u), restated_by(grown_by(b, g), u), id),
{
    lemma_grown_agree(a, b, g, id);
    lemma_restated_agree(grown_by(a, g), grown_by(b, g), u, id);
}

proof fn lemma_grown_agree(a: RowsView, b: RowsView, q: Seq<RowView>, id: EventId)
    requires
        agree(a, b, id),
    ensures
        agree(grown_by(a, q), grown_by(b, q), id),
    decreases q.len(),
{
    if q.len() > 0 {
        lemma_grown_agree(a, b, q.drop_last(), id);
    }
}

proof fn lemma_restated_agree(a: RowsView, b: RowsView, q: Seq<RowView>, id: EventId)
    requires
        agree(a, b, id),
    ensures
        agree(restated_by(a, q), restated_by(b, q), id),
    decreases q.len(),
{
    if q.len() > 0 {
        lemma_restated_agree(a, b, q.drop_last(), id);
    }
}

/// Growth and restatement neither bring nor drop rows, and keep their dates.
proof fn lemma_later_keeps(a: RowsView, g: Seq<RowView>, u: Seq<RowView>)
    ensures
        ({
            let b = restated_by(grown_by(a, g), u);
            &&& b.dom() == a.dom()
            &&& forall|id: EventId| #[trigger] a.contains_key(id) ==> b[id].created_at == a[id].created_at
        }),
{
    lemma_grown_keeps(a, g);
    lemma_restated_keeps(grown_by(a, g), u);
    let b = restated_by(grown_by(a, g), u);
    assert forall|id: EventId| #[trigger] a.contains_key(id) implies b[id].created_at == a[id].created_at by {
        assert(grown_by(a, g).dom().contains(id));
        assert(grown_by(a, g).contains_key(id));
    }
}

proof fn lemma_grown_keeps(a: RowsView, q: Seq<RowView>)
    ensures
        grown_by(a, q).dom() == a.dom(),
        forall|id: EventId| #[trigger]
            a.contains_key(id) ==> grown_by(a, q)[id].created_at == a[id].created_at,
    decreases q.len(),
{
    if q.len() > 0 {
        lemma_grown_keeps(a, q.drop_last());
        let before = grown_by(a, q.drop_last());
        if before.contains_key(q.last().id) {
            assert(before.dom().contains(q.last().id));
        }
        assert(grown_by(a, q).dom() =~= a.dom());
    }
}

proof fn lemma_restated_keeps(a: RowsView, q: Seq<RowView>)
    ensures
        restated_by(a, q).dom() == a.dom(),
        forall|id: EventId| #[trigger]
            a.contains_key(id) ==> restated_by(a, q)[id].created_at == a[id].created_at,
    decreases q.len(),
{
    if q.len() > 0 {
        lemma_restated_keeps(a, q.drop_last());
        let before = restated_by(a, q.drop_last());
        if before.contains_key(q.last().id) {
            assert(before.dom().contains(q.last().id));
        }
        assert(restated_by(a, q).dom() =~= a.dom());
    }
}

proof fn lemma_inserted_finite(rows: RowsView, q: Seq<RowView>)
    requires
        rows.dom().finite(),
    ensures
        inserted_into(rows, q).dom().finite(),
    decreases q.len(),
{
    if q.len() > 0 {
        lemma_inserted_finite(rows, q.drop_last());
    }
}

/// An inserted row is one of the list.
proof fn lemma_added_is_listed(q: Seq<RowView>, id: EventId)
    requires
        added_rows(q).contains_key(id),
    ensures
        exists|i: int| 0 <= i < q.len() && #[trigger] q[i] == added_rows(q)[id] && q[i].id == id,
    decreases q.len(),
{
    if q.len() > 0 {
        if q.last().id == id {
            assert(q[q.len() - 1] == added_rows(q)[id]);
        } else {
            lemma_added_is_listed(q.drop_last(), id);
            let i = choose|i: int|
                0 <= i < q.drop_last().len() && #[trigger] q.drop_last()[i] == added_rows(q.drop_last())[id]
                    && q.drop_last()[i].id == id;
            assert(q[i] == added_rows(q)[id]);
        }
    }
}

proof fn lemma_added_has(q: Seq<RowView>, i: int)
    requires
        0 <= i < q.len(),
    ensures
        added_rows(q).contains_key(q[i].id),
    decreases q.len(),
{
    if i < q.len() - 1 {
        lemma_added_has(q.drop_last(), i);
        assert(q.drop_last()[i] == q[i]);
    }
}

/// A bounded window that is brought up to date by a change alone holds exactly
/// what a new read of the whole store would give: nothing is read, and nothing
/// is missed. It holds as long as the window was right before, as no visible
/// row of a full window is removed, and as an inserted row that is already
/// stored keeps its date.
pub proof fn bounded_window_matches_a_full_read(stored: RowsView, ch: ChangesView, limit: nat)
    requires
        stored.dom().finite(),
        newest_rows(stored, limit).len() == limit ==> forall|i: int|
            0 <= i < ch.removed.len() ==> !newest_rows(stored, limit).contains_key(
                #[trigger] ch.removed[i],
            ),
        forall|i: int|
            0 <= i < ch.inserted.len() ==> (stored.contains_key((#[trigger] ch.inserted[i]).id)
                ==> ch.inserted[i].created_at == stored[ch.inserted[i].id].created_at),
    ensures
        newest_rows(applied(newest_rows(stored, limit), ch), limit) == newest_rows(
            applied(stored, ch),
            limit,
        ),
{
    let prev = newest_rows(stored, limit);
    let ds = dates_of(stored);
    assert(ds.dom() =~= stored.dom());
    lemma_newest_is_bounded(ds, limit);
    assert(prev.dom() =~= newest(ds, limit));
    if stored.dom().len() <= limit {
        assert(prev =~= stored);
    } else {
        lemma_full_window_matches(stored, ch, limit);
    }
}

proof fn lemma_full_window_matches(stored: RowsView, ch: ChangesView, limit: nat)
    requires
        stored.dom().finite(),
        stored.dom().len() > limit,
        newest_rows(stored, limit).len() == limit ==> forall|i: int|
            0 <= i < ch.removed.len() ==> !newest_rows(stored, limit).contains_key(
                #[trigger] ch.removed[i],
            ),
        forall|i: int|
            0 <= i < ch.inserted.len() ==> (stored.contains_key((#[trigger] ch.inserted[i]).id)
                ==> ch.inserted[i].created_at == stored[ch.inserted[i].id].created_at),
    ensures
        newest_rows(applied(newest_rows(stored, limit), ch), limit) == newest_rows(
            applied(stored, ch),
            limit,
        ),
{
    let prev = newest_rows(stored, limit);
    let ds = dates_of(stored);
    assert(ds.dom() =~= stored.dom());
    lemma_newest_is_bounded(ds, limit);
    assert(prev.dom() =~= newest(ds, limit));
    assert(prev.len() == limit);
    let gone = ch.removed.to_set();
    let pa = prev.remove_keys(gone);
    let pb = stored.remove_keys(gone);
    let ia = replaced(prev, ch);
    let ib = replaced(stored, ch);
    let a = applied(prev, ch);
    let b = applied(stored, ch);
    lemma_later_keeps(ia, ch.grew, ch.updated);
    lemma_later_keeps(ib, ch.grew, ch.updated);
    vstd::set_lib::lemma_set_subset_finite(stored.dom(), pb.dom());
    lemma_inserted_finite(pb, ch.inserted);
    let da = dates_of(a);
    let db = dates_of(b);
    assert(da.dom() =~= a.dom());
    assert(db.dom() =~= b.dom());
    // Every row of the updated window is a row of the updated store.
    assert forall|id: EventId| a.contains_key(id) implies b.contains_key(id) && a[id] == b[id] by {
        lemma_inserted_agree(pa, pb, ch.inserted, id);
        lemma_inserted_agree(pb, pa, ch.inserted, id);
        assert(ia.dom().contains(id));
        if !added_rows(ch.inserted).contains_key(id) {
            assert(pa.contains_key(id));
            assert(agree(pa, pb, id));
        }
        assert(agree(ia, ib, id));
        lemma_later_agree(ia, ib, ch.grew, ch.updated, id);
    }
    // The rows of the old window are still there, with the dates they had.
    assert forall|id: EventId| prev.contains_key(id) implies a.contains_key(id) && a[id].created_at
        == stored[id].created_at by {
        assert(!gone.contains(id)) by {
            if gone.contains(id) {
                let i = choose|i: int| 0 <= i < ch.removed.len() && ch.removed[i] == id;
                assert(!prev.contains_key(ch.removed[i]));
            }
        }
        assert(pa.contains_key(id));
        lemma_inserted_agree(pa, pb, ch.inserted, id);
        if added_rows(ch.inserted).contains_key(id) {
            lemma_added_is_listed(ch.inserted, id);
            lemma_inserted_date(pa, ch.inserted, id);
        }
        assert(ia.contains_key(id));
        assert(ia[id].created_at == stored[id].created_at);
        assert(a.dom().contains(id));
    }
    // A row of the updated store that the window does not see is older than
    // all rows of the old window.
    assert forall|h: EventId, p: EventId|
        b.contains_key(h) && !a.contains_key(h) && prev.contains_key(p) implies newer_first(
        (db[p], p),
        (db[h], h),
    ) by {
        lemma_inserted_agree(pb, pa, ch.inserted, h);
        lemma_inserted_agree(pa, pb, ch.inserted, h);
        assert(ib.dom().contains(h));
        if added_rows(ch.inserted).contains_key(h) {
            assert(ia.contains_key(h));
            assert(a.dom().contains(h));
        }
        assert(pb.contains_key(h));
        assert(stored.contains_key(h));
        assert(ib[h] == stored[h]);
        assert(ib.contains_key(h));
        assert(b[h].created_at == stored[h].created_at);
        if prev.contains_key(h) {
            assert(a.contains_key(h));
        }
        assert(!newest(ds, limit).contains(h));
        lemma_outside_is_older(ds, limit, p, h);
        assert(a.contains_key(p) && b.contains_key(p));
        assert(b[p].created_at == stored[p].created_at);
    }
    lemma_old_window_counts(prev, ds, limit);
    let top_a = newest(da, limit);
    let top_b = newest(db, limit);
    assert forall|x: EventId| top_a.contains(x) <==> top_b.contains(x) by {
        if b.contains_key(x) && !a.contains_key(x) {
            assert(prev.dom().subset_of(newer_than(db, x))) by {
                assert forall|p: EventId| prev.dom().contains(p) implies newer_than(db, x).contains(p) by {
                    assert(prev.contains_key(p));
                    assert(a.contains_key(p) && b.contains_key(p));
                    assert(newer_first((db[p], p), (db[x], x)));
                }
            }
            vstd::set_lib::lemma_set_subset_finite(db.dom(), newer_than(db, x));
            vstd::set_lib::lemma_len_subset(prev.dom(), newer_than(db, x));
            assert(!top_b.contains(x));
        } else if a.contains_key(x) {
            assert(b.contains_key(x) && a[x] == b[x]);
            let na = newer_than(da, x);
            let nb = newer_than(db, x);
            assert(na.subset_of(nb)) by {
                assert forall|y: EventId| na.contains(y) implies nb.contains(y) by {
                    assert(a.contains_key(y));
                    assert(b.contains_key(y) && a[y] == b[y]);
                }
            }
            vstd::set_lib::lemma_set_subset_finite(db.dom(), nb);
            vstd::set_lib::lemma_set_subset_finite(nb, na);
            vstd::set_lib::lemma_len_subset(na, nb);
            if top_a.contains(x) {
                assert(na =~= nb) by {
                    assert forall|y: EventId| nb.contains(y) implies na.contains(y) by {
                        if !a.contains_key(y) {
                            assert(prev.dom().subset_of(na)) by {
                                assert forall|p: EventId| prev.dom().contains(p) implies na.contains(
                                    p,
                                ) by {
                                    assert(prev.contains_key(p));
                                    assert(a.contains_key(p) && b.contains_key(p));
                                    assert(a[p] == b[p]);
                                    assert(newer_first((db[p], p), (db[y], y)));
                                    newest_first_is_a_total_order(
                                        (db[p], p),
                                        (db[y], y),
                                        (db[x], x),
                                    );
                                }
                            }
                            vstd::set_lib::lemma_len_subset(prev.dom(), na);
                        } else {
                            assert(a[y] == b[y]);
                        }
                    }
                }
            }
        }
    }
    assert(top_a =~= top_b);
    assert(newest_rows(a, limit) =~= newest_rows(b, limit));
}

/// The date that an insertion leaves is that of the inserted row.
proof fn lemma_inserted_date(rows: RowsView, q: Seq<RowView>, id: EventId)
    requires
        added_rows(q).contains_key(id),
    ensures
        inserted_into(rows, q).contains_key(id),
        inserted_into(rows, q)[id] == remember(added_rows(q)[id]),
    decreases q.len(),
{
    if q.len() > 0 && q.last().id != id {
        lemma_inserted_date(rows, q.drop_last(), id);
    }
}

/// A row outside the newest ones is older than each of them.
proof fn lemma_outside_is_older(dates: Map<EventId, u64>, limit: nat, p: EventId, h: EventId)
    requires
        dates.dom().finite(),
        newest(dates, limit).contains(p),
        dates.contains_key(h),
        !newest(dates, limit).contains(h),
    ensures
        newer_first((dates[p], p), (dates[h], h)),
{
    newest_first_is_a_total_order((dates[p], p), (dates[h], h), (dates[p], p));
    if newer_first((dates[h], h), (dates[p], p)) {
        let nh = newer_than(dates, h);
        let np = newer_than(dates, p);
        assert(nh.subset_of(np)) by {
            assert forall|x: EventId| nh.contains(x) implies np.contains(x) by {
                newest_first_is_a_total_order((dates[x], x), (dates[h], h), (dates[p], p));
            }
        }
        vstd::set_lib::lemma_set_subset_finite(dates.dom(), np);
        vstd::set_lib::lemma_len_subset(nh, np);
    }
}

proof fn lemma_old_window_counts(prev: RowsView, dates: Map<EventId, u64>, limit: nat)
    requires
        dates.dom().finite(),
        dates.dom().len() >= limit,
        prev.dom() == newest(dates, limit),
    ensures
        prev.dom().finite(),
        prev.dom().len() == limit,
{
    lemma_newest_is_bounded(dates, limit);
}

/// The rows of a list that a query sees.
pub open spec fn visible_rows(q: Seq<RowView>, sees: Set<EventId>) -> Seq<RowView>
    decreases q.len(),
{
    if q.len() == 0 {
        Seq::empty()
    } else if sees.contains(q.last().id) {
        visible_rows(q.drop_last(), sees).push(q.last())
    } else {
        visible_rows(q.drop_last(), sees)
    }
}

/// The ids of a list that a query sees.
pub open spec fn visible_ids(q: Seq<EventId>, sees: Set<EventId>) -> Seq<EventId>
    decreases q.len(),
{
    if q.len() == 0 {
        Seq::empty()
    } else if sees.contains(q.last()) {
        visible_ids(q.drop_last(), sees).push(q.last())
    } else {
        visible_ids(q.drop_last(), sees)
    }
}

/// The part of a change that a query sees.
pub open spec fn visible_part(ch: ChangesView, sees: Set<EventId>) -> ChangesView {
    ChangesView {
        removed: visible_ids(ch.removed, sees),
        inserted: visible_rows(ch.inserted, sees),
        grew: visible_rows(ch.grew, sees),
        updated: visible_rows(ch.updated, sees),
    }
}

proof fn lemma_visible_ids(q: Seq<EventId>, sees: Set<EventId>)
    ensures
        forall|id: EventId| #[trigger] visible_ids(q, sees).contains(id) <==> q.contains(id) && sees.contains(id),
    decreases q.len(),
{
    if q.len() > 0 {
        let p = q.drop_last();
        lemma_visible_ids(p, sees);
        assert(q =~= p.push(q.last()));
        lemma_push_contains(p, q.last());
        lemma_push_contains(visible_ids(p, sees), q.last());
    }
}

proof fn lemma_visible_insertions(rows: RowsView, q: Seq<RowView>, sees: Set<EventId>)
    ensures
        inserted_into(rows.restrict(sees), visible_rows(q, sees)) == inserted_into(rows, q).restrict(sees),
    decreases q.len(),
{
    if q.len() > 0 {
        lemma_visible_insertions(rows, q.drop_last(), sees);
        let row = q.last();
        if sees.contains(row.id) {
            let seen = visible_rows(q.drop_last(), sees).push(row);
            assert(seen.drop_last() =~= visible_rows(q.drop_last(), sees));
        }
        assert(inserted_into(rows.restrict(sees), visible_rows(q, sees)) =~= inserted_into(rows, q).restrict(
            sees,
        ));
    }
}

proof fn lemma_visible_growth(rows: RowsView, q: Seq<RowView>, sees: Set<EventId>)
    ensures
        grown_by(rows.restrict(sees), visible_rows(q, sees)) == grown_by(rows, q).restrict(sees),
    decreases q.len(),
{
    if q.len() > 0 {
        lemma_visible_growth(rows, q.drop_last(), sees);
        let row = q.last();
        if sees.contains(row.id) {
            let seen = visible_rows(q.drop_last(), sees).push(row);
            assert(seen.drop_last() =~= visible_rows(q.drop_last(), sees));
        }
        assert(grown_by(rows.restrict(sees), visible_rows(q, sees)) =~= grown_by(rows, q).restrict(sees));
    }
}

proof fn lemma_visible_restatements(rows: RowsView, q: Seq<RowView>, sees: Set<EventId>)
    ensures
        restated_by(rows.restrict(sees), visible_rows(q, sees)) == restated_by(rows, q).restrict(sees),
    decreases q.len(),
{
    if q.len() > 0 {
        lemma_visible_restatements(rows, q.drop_last(), sees);
        let row = q.last();
        if sees.contains(row.id) {
            let seen = visible_rows(q.drop_last(), sees).push(row);
            assert(seen.drop_last() =~= visible_rows(q.drop_last(), sees));
        }
        assert(restated_by(rows.restrict(sees), visible_rows(q, sees)) =~= restated_by(rows, q).restrict(
            sees,
        ));
    }
}

/// An unbounded window that is brought up to date by the part of a change that its
/// query sees holds exactly what a new read of the changed store would give: the
/// rows of the whole store after the whole change that the query sees.
pub proof fn unbounded_window_matches_a_full_read(stored: RowsView, ch: ChangesView, sees: Set<EventId>)
    ensures
        applied(stored.restrict(sees), visible_part(ch, sees)) == applied(stored, ch).restrict(sees),
{
    let part = visible_part(ch, sees);
    lemma_visible_ids(ch.removed, sees);
    let left = stored.remove_keys(ch.removed.to_set());
    assert forall|id: EventId| #[trigger] part.removed.to_set().contains(id) <==> ch.removed.to_set().contains(
        id,
    ) && sees.contains(id) by {
        assert(part.removed.contains(id) <==> ch.removed.contains(id) && sees.contains(id));
    }
    assert(stored.restrict(sees).remove_keys(part.removed.to_set()) =~= left.restrict(sees));
    lemma_visible_insertions(left, ch.inserted, sees);
    lemma_visible_growth(replaced(stored, ch), ch.grew, sees);
    lemma_visible_restatements(grown_by(replaced(stored, ch), ch.grew), ch.updated, sees);
}

/// A change that no row of a query matches leaves its window as it was and
/// tells nothing.
pub proof fn unmatched_change_is_silent(rows: RowsView, ch: ChangesView)
    requires
        ch.removed.len() == 0,
        ch.inserted.len() == 0,
        ch.grew.len() == 0,
        ch.updated.len() == 0,
    ensures
        applied(rows, ch) == rows,
        told_of(rows, ch) == Seq::<RowDeltaView>::empty(),
{
    assert(rows.remove_keys(ch.removed.to_set()) =~= rows);
    let n = notices(rows, ch);
    assert(noticed(n) =~= Set::<EventId>::empty());
    assert(withdrawn(rows, ch) =~= Set::<EventId>::empty());
    lemma_listing_exists(Set::<EventId>::empty());
    assert(told_of(rows, ch) =~= Seq::<RowDeltaView>::empty());
}

/// Every row of a list has the date that its id fixes.
pub open spec fn dated(date: spec_fn(EventId) -> u64, q: Seq<RowView>) -> bool {
    forall|i: int| 0 <= i < q.len() ==> (#[trigger] q[i]).created_at == date(q[i].id)
}

/// A change that names each row in one way only: what is removed is not
/// inserted as well, and what grows in provenance does so once and is not
/// inserted as well.
pub open spec fn netted(ch: ChangesView) -> bool {
    &&& forall|i: int, j: int|
        0 <= i < ch.removed.len() && 0 <= j < ch.inserted.len() ==> #[trigger] ch.removed[i] != (
        #[trigger] ch.inserted[j]).id
    &&& forall|i: int, j: int|
        0 <= i < ch.grew.len() && 0 <= j < ch.inserted.len() ==> (#[trigger] ch.grew[i]).id != (
        #[trigger] ch.inserted[j]).id
    &&& forall|i: int, j: int|
        0 <= i < j < ch.grew.len() ==> (#[trigger] ch.grew[i]).id != (#[trigger] ch.grew[j]).id
}

/// What is to be told leads from the old rows to the current ones.
spec fn faithful(prev: RowsView, gone: Set<EventId>, n: Notices, cur: RowsView) -> bool {
    &&& forall|id: EventId| #[trigger]
        n.added.contains_key(id) ==> cur.contains_key(id) && n.added[id].id == id && remember(n.added[id])
            == cur[id]
    &&& forall|id: EventId| #[trigger]
        n.updated.contains_key(id) ==> !n.added.contains_key(id) && cur.contains_key(id)
            && n.updated[id].id == id && remember(n.updated[id]) == cur[id]
    &&& forall|id: EventId| #[trigger]
        n.grew.contains(id) ==> {
            &&& !n.added.contains_key(id)
            &&& !n.updated.contains_key(id)
            &&& prev.contains_key(id)
            &&& cur.contains_key(id)
            &&& cur[id] == (RememberedView { sources: cur[id].sources, ..prev[id] })
        }
    &&& forall|id: EventId| #[trigger]
        noticed(n).contains(id) || (cur.contains_key(id) == (prev.contains_key(id) && !gone.contains(id))
            && (cur.contains_key(id) ==> cur[id] == prev[id]))
    &&& forall|id: EventId| #[trigger] gone.contains(id) ==> !cur.contains_key(id)
}

spec fn all_dated(date: spec_fn(EventId) -> u64, rows: RowsView) -> bool {
    forall|id: EventId| #[trigger] rows.contains_key(id) ==> rows[id].created_at == date(id)
}

proof fn lemma_replaced_faithful(date: spec_fn(EventId) -> u64, prev: RowsView, ch: ChangesView)
    requires
        netted(ch),
        all_dated(date, prev),
        dated(date, ch.inserted),
    ensures
        ({
            let start = Notices {
                added: added_rows(ch.inserted),
                updated: Map::<EventId, RowView>::empty(),
                grew: Set::<EventId>::empty(),
            };
            &&& faithful(prev, ch.removed.to_set(), start, replaced(prev, ch))
            &&& all_dated(date, replaced(prev, ch))
            &&& noticed(start) == added_rows(ch.inserted).dom()
        }),
{
    let gone = ch.removed.to_set();
    let pa = prev.remove_keys(gone);
    let cur = replaced(prev, ch);
    let start = Notices {
        added: added_rows(ch.inserted),
        updated: Map::<EventId, RowView>::empty(),
        grew: Set::<EventId>::empty(),
    };
    assert(noticed(start) =~= start.added.dom());
    assert forall|id: EventId| #[trigger] start.added.contains_key(id) implies cur.contains_key(id)
        && start.added[id].id == id && remember(start.added[id]) == cur[id] by {
        lemma_added_is_listed(ch.inserted, id);
        lemma_inserted_date(pa, ch.inserted, id);
    }
    assert forall|id: EventId| #[trigger]
        noticed(start).contains(id) || (cur.contains_key(id) == (prev.contains_key(id) && !gone.contains(
            id,
        )) && (cur.contains_key(id) ==> cur[id] == prev[id])) by {
        lemma_inserted_agree(pa, pa, ch.inserted, id);
    }
    assert forall|id: EventId| #[trigger] gone.contains(id) implies !cur.contains_key(id) by {
        lemma_inserted_agree(pa, pa, ch.inserted, id);
        if added_rows(ch.inserted).contains_key(id) {
            lemma_added_is_listed(ch.inserted, id);
            let j = choose|j: int|
                0 <= j < ch.inserted.len() && #[trigger] ch.inserted[j] == added_rows(ch.inserted)[id]
                    && ch.inserted[j].id == id;
            let i = choose|i: int| 0 <= i < ch.removed.len() && ch.removed[i] == id;
            assert(ch.removed[i] != ch.inserted[j].id);
        }
    }
    assert forall|id: EventId| #[trigger] cur.contains_key(id) implies cur[id].created_at == date(id) by {
        lemma_inserted_agree(pa, pa, ch.inserted, id);
        if added_rows(ch.inserted).contains_key(id) {
            lemma_added_is_listed(ch.inserted, id);
            lemma_inserted_date(pa, ch.inserted, id);
        } else {
            assert(prev.contains_key(id));
        }
    }
}

proof fn lemma_growth_faithful(
    date: spec_fn(EventId) -> u64,
    prev: RowsView,
    gone: Set<EventId>,
    base: RowsView,
    start: Notices,
    q: Seq<RowView>,
)
    requires
        faithful(prev, gone, start, base),
        all_dated(date, base),
        dated(date, q),
        noticed(start) == start.added.dom(),
        forall|i: int| 0 <= i < q.len() ==> !start.added.contains_key((#[trigger] q[i]).id),
        forall|i: int, j: int|
            0 <= i < j < q.len() ==> (#[trigger] q[i]).id != (#[trigger] q[j]).id,
    ensures
        faithful(prev, gone, notices_of_growth(base, start, q), grown_by(base, q)),
        all_dated(date, grown_by(base, q)),
        notices_of_growth(base, start, q).added == start.added,
        forall|id: EventId| #[trigger]
            noticed(notices_of_growth(base, start, q)).contains(id) ==> start.added.contains_key(id)
                || exists|i: int| 0 <= i < q.len() && (#[trigger] q[i]).id == id,
    decreases q.len(),
{
    if q.len() > 0 {
        let p = q.drop_last();
        let r = q.last();
        assert forall|i: int| 0 <= i < p.len() implies !start.added.contains_key((#[trigger] p[i]).id) by {
            assert(!start.added.contains_key(q[i].id));
        }
        assert forall|i: int, j: int| 0 <= i < j < p.len() implies (#[trigger] p[i]).id != (
        #[trigger] p[j]).id by {
            assert(q[i].id != q[j].id);
        }
        assert(dated(date, p)) by {
            assert forall|i: int| 0 <= i < p.len() implies (#[trigger] p[i]).created_at == date(p[i].id) by {
                assert(q[i].created_at == date(q[i].id));
            }
        }
        lemma_growth_faithful(date, prev, gone, base, start, p);
        let cur = grown_by(base, p);
        let n = notices_of_growth(base, start, p);
        let now = grown_by(base, q);
        let told = notices_of_growth(base, start, q);
        assert(q[q.len() - 1] == r);
        assert(r.created_at == date(r.id));
        assert(!start.added.contains_key(r.id));
        assert(!noticed(n).contains(r.id)) by {
            if noticed(n).contains(r.id) {
                let i = choose|i: int| 0 <= i < p.len() && (#[trigger] p[i]).id == r.id;
                assert(q[i].id != q[q.len() - 1].id);
            }
        }
        assert(!n.updated.contains_key(r.id) && !n.grew.contains(r.id) && !n.added.contains_key(r.id));
        if cur.contains_key(r.id) {
            assert(!gone.contains(r.id));
            assert(cur[r.id] == prev[r.id] && prev.contains_key(r.id));
            if cur[r.id].signature == r.signature && r.sources.subset_of(cur[r.id].sources) {
                assert(cur[r.id].sources.union(r.sources) =~= cur[r.id].sources);
                assert(now =~= cur);
            } else if cur[r.id].signature != r.signature {
                assert(told.updated == n.updated.insert(
                    r.id,
                    with_sources(r, cur[r.id].sources.union(r.sources)),
                ));
                assert(told.grew =~= n.grew);
            }
        }
        assert forall|id: EventId| #[trigger]
            noticed(told).contains(id) || (now.contains_key(id) == (prev.contains_key(id)
                && !gone.contains(id)) && (now.contains_key(id) ==> now[id] == prev[id])) by {
            assert(noticed(n).contains(id) || (cur.contains_key(id) == (prev.contains_key(id)
                && !gone.contains(id)) && (cur.contains_key(id) ==> cur[id] == prev[id])));
            if noticed(n).contains(id) {
                assert(noticed(told).contains(id));
            }
        }
        assert forall|id: EventId| #[trigger] gone.contains(id) implies !now.contains_key(id) by {
            assert(!cur.contains_key(id));
        }
        assert forall|id: EventId| #[trigger]
            noticed(told).contains(id) implies start.added.contains_key(id) || exists|i: int|
            0 <= i < q.len() && (#[trigger] q[i]).id == id by {
            if id == r.id {
                assert(q[q.len() - 1].id == id);
            } else {
                assert(noticed(n).contains(id));
                if !start.added.contains_key(id) {
                    let i = choose|i: int| 0 <= i < p.len() && (#[trigger] p[i]).id == id;
                    assert(q[i].id == id);
                }
            }
        }
        assert forall|id: EventId| #[trigger] told.grew.contains(id) implies {
            &&& !told.added.contains_key(id)
            &&& !told.updated.contains_key(id)
            &&& prev.contains_key(id)
            &&& now.contains_key(id)
            &&& now[id] == (RememberedView { sources: now[id].sources, ..prev[id] })
        } by {
            if id != r.id {
                assert(n.grew.contains(id));
            }
        }
        assert forall|id: EventId| #[trigger] told.updated.contains_key(id) implies !told.added.contains_key(
        id) && now.contains_key(id) && told.updated[id].id == id && remember(told.updated[id]) == now[id] by {
            if id != r.id {
                assert(n.updated.contains_key(id));
            }
        }
        assert forall|id: EventId| #[trigger] told.added.contains_key(id) implies now.contains_key(id)
            && told.added[id].id == id && remember(told.added[id]) == now[id] by {
            assert(n.added.contains_key(id));
        }
        assert forall|id: EventId| #[trigger] now.contains_key(id) implies now[id].created_at == date(
            id,
        ) by {
            assert(cur.contains_key(id));
        }
    }
}

proof fn lemma_restated_faithful(
    date: spec_fn(EventId) -> u64,
    prev: RowsView,
    gone: Set<EventId>,
    base: RowsView,
    start: Notices,
    q: Seq<RowView>,
)
    requires
        faithful(prev, gone, start, base),
        all_dated(date, base),
        dated(date, q),
    ensures
        faithful(prev, gone, notices_of_restated(base, start, q), restated_by(base, q)),
        all_dated(date, restated_by(base, q)),
    decreases q.len(),
{
    if q.len() > 0 {
        let p = q.drop_last();
        let r = q.last();
        assert(dated(date, p)) by {
            assert forall|i: int| 0 <= i < p.len() implies (#[trigger] p[i]).created_at == date(p[i].id) by {
                assert(q[i].created_at == date(q[i].id));
            }
        }
        lemma_restated_faithful(date, prev, gone, base, start, p);
        let cur = restated_by(base, p);
        let n = notices_of_restated(base, start, p);
        let now = restated_by(base, q);
        let told = notices_of_restated(base, start, q);
        assert(q[q.len() - 1] == r);
        assert(r.created_at == date(r.id));
        assert forall|id: EventId| #[trigger] now.contains_key(id) implies now[id].created_at == date(
            id,
        ) by {
            assert(cur.contains_key(id));
        }
        assert forall|id: EventId| #[trigger] told.added.contains_key(id) implies now.contains_key(id)
            && told.added[id].id == id && remember(told.added[id]) == now[id] by {
            assert(n.added.contains_key(id));
        }
        assert forall|id: EventId| #[trigger] told.updated.contains_key(id) implies !told.added.contains_key(
        id) && now.contains_key(id) && told.updated[id].id == id && remember(told.updated[id]) == now[id] by {
            if id != r.id || !cur.contains_key(id) || n.added.contains_key(id) {
                assert(n.updated.contains_key(id));
            }
        }
        assert forall|id: EventId| #[trigger] told.grew.contains(id) implies {
            &&& !told.added.contains_key(id)
            &&& !told.updated.contains_key(id)
            &&& prev.contains_key(id)
            &&& now.contains_key(id)
            &&& now[id] == (RememberedView { sources: now[id].sources, ..prev[id] })
        } by {
            assert(n.grew.contains(id));
        }
        assert forall|id: EventId| #[trigger]
            noticed(told).contains(id) || (now.contains_key(id) == (prev.contains_key(id)
                && !gone.contains(id)) && (now.contains_key(id) ==> now[id] == prev[id])) by {
            assert(noticed(n).contains(id) || (cur.contains_key(id) == (prev.contains_key(id)
                && !gone.contains(id)) && (cur.contains_key(id) ==> cur[id] == prev[id])));
        }
        assert forall|id: EventId| #[trigger] gone.contains(id) implies !now.contains_key(id) by {
            assert(!cur.contains_key(id));
        }
    }
}

proof fn lemma_told_prefix(prev: RowsView, gone: Set<EventId>, n: Notices, cur: RowsView, q: Seq<EventId>, i: int)
    requires
        faithful(prev, gone, n, cur),
        is_listing(q, noticed(n)),
        0 <= i <= q.len(),
    ensures
        ({
            let d = Seq::new(q.len(), |i: int| told(n, cur, q[i]));
            let now = receive_all(prev, d.take(i));
            &&& forall|id: EventId| #[trigger]
                now.contains_key(id) <==> prev.contains_key(id) || q.take(i).contains(id)
            &&& forall|id: EventId| #[trigger]
                now.contains_key(id) ==> now[id] == (if q.take(i).contains(id) {
                    cur[id]
                } else {
                    prev[id]
                })
        }),
    decreases i,
{
    let d = Seq::new(q.len(), |i: int| told(n, cur, q[i]));
    if i == 0 {
        assert(d.take(0) =~= Seq::<RowDeltaView>::empty());
        assert(q.take(0) =~= Seq::<EventId>::empty());
    } else {
        lemma_told_prefix(prev, gone, n, cur, q, i - 1);
        let id = q[i - 1];
        assert(noticed(n).contains(q[i - 1]));
        assert(d.take(i).drop_last() =~= d.take(i - 1));
        assert(d.take(i).last() == told(n, cur, id));
        assert(q.take(i) =~= q.take(i - 1).push(id));
        lemma_push_contains(q.take(i - 1), id);
        let was = receive_all(prev, d.take(i - 1));
        let now = receive_all(prev, d.take(i));
        assert(now == receive(was, told(n, cur, id)));
        assert(!q.take(i - 1).contains(id)) by {
            if q.take(i - 1).contains(id) {
                let p = q.take(i - 1);
                let j = choose|j: int| 0 <= j < p.len() && #[trigger] p[j] == id;
                assert(q[j].rank() < q[i - 1].rank());
            }
        }
        if !n.added.contains_key(id) && !n.updated.contains_key(id) {
            assert(n.grew.contains(id));
            assert(was.contains_key(id));
            assert(was[id] == prev[id]);
        }
        assert(now.contains_key(id) && now[id] == cur[id]);
        assert forall|x: EventId| x != id implies now.contains_key(x) == was.contains_key(x) && (
        was.contains_key(x) ==> now[x] == was[x]) by {}
    }
}

/// A receiver that holds the rows of an unbounded window and takes in what a
/// change tells holds the rows that the window remembers after it. It holds of
/// a change that names each row in one way only, where a row's id fixes its
/// date.
pub proof fn told_change_leads_to_the_next_rows(
    rows: RowsView,
    ch: ChangesView,
    date: spec_fn(EventId) -> u64,
)
    requires
        rows.dom().finite(),
        netted(ch),
        forall|id: EventId| #[trigger] rows.contains_key(id) ==> rows[id].created_at == date(id),
        dated(date, ch.inserted),
        dated(date, ch.grew),
        dated(date, ch.updated),
    ensures
        receive_all(rows, told_of(rows, ch)) == applied(rows, ch),
{
    let gone = ch.removed.to_set();
    let base = replaced(rows, ch);
    let start = Notices {
        added: added_rows(ch.inserted),
        updated: Map::<EventId, RowView>::empty(),
        grew: Set::<EventId>::empty(),
    };
    lemma_replaced_faithful(date, rows, ch);
    assert forall|i: int| 0 <= i < ch.grew.len() implies !start.added.contains_key(
        (#[trigger] ch.grew[i]).id,
    ) by {
        if start.added.contains_key(ch.grew[i].id) {
            lemma_added_is_listed(ch.inserted, ch.grew[i].id);
            let j = choose|j: int|
                0 <= j < ch.inserted.len() && #[trigger] ch.inserted[j] == added_rows(
                    ch.inserted,
                )[ch.grew[i].id] && ch.inserted[j].id == ch.grew[i].id;
            assert(ch.grew[i].id != ch.inserted[j].id);
        }
    }
    lemma_growth_faithful(date, rows, gone, base, start, ch.grew);
    lemma_restated_faithful(
        date,
        rows,
        gone,
        grown_by(base, ch.grew),
        notices_of_growth(base, start, ch.grew),
        ch.updated,
    );
    let n = notices(rows, ch);
    let cur = applied(rows, ch);
    assert(faithful(rows, gone, n, cur));
    vstd::set_lib::lemma_set_subset_finite(rows.dom(), rows.remove_keys(gone).dom());
    lemma_inserted_finite(rows.remove_keys(gone), ch.inserted);
    lemma_later_keeps(base, ch.grew, ch.updated);
    assert(noticed(n).subset_of(cur.dom())) by {
        assert forall|id: EventId| noticed(n).contains(id) implies cur.dom().contains(id) by {
            if n.grew.contains(id) {
                assert(cur.contains_key(id));
            } else if n.updated.contains_key(id) {
                assert(cur.contains_key(id));
            } else {
                assert(n.added.contains_key(id));
            }
        }
    }
    vstd::set_lib::lemma_set_subset_finite(cur.dom(), noticed(n));
    let came = listing_of(noticed(n));
    lemma_listing_exists(noticed(n));
    lemma_listing_members(came, noticed(n));
    let out = withdrawn(rows, ch);
    assert(out.subset_of(rows.dom()));
    vstd::set_lib::lemma_set_subset_finite(rows.dom(), out);
    let went = listing_of(out);
    lemma_listing_exists(out);
    lemma_listing_members(went, out);
    let first = Seq::new(came.len(), |i: int| told(n, cur, came[i]));
    let second = Seq::new(went.len(), |i: int| RowDeltaView::Removed(went[i]));
    lemma_told_prefix(rows, gone, n, cur, came, came.len() as int);
    assert(first.take(came.len() as int) =~= first);
    assert(came.take(came.len() as int) =~= came);
    lemma_receive_concat(rows, first, second);
    let mid = receive_all(rows, first);
    lemma_receive_removals(mid, went);
    let done = mid.remove_keys(went.to_set());
    assert forall|id: EventId| #[trigger] done.contains_key(id) <==> cur.contains_key(id) by {
        assert(mid.contains_key(id) <==> rows.contains_key(id) || came.contains(id));
        assert(out.contains(id) <==> rows.contains_key(id) && ch.removed.contains(id));
        assert(gone.contains(id) == ch.removed.contains(id));
        if noticed(n).contains(id) {
            assert(cur.dom().contains(id));
        }
    }
    assert forall|id: EventId| #[trigger] done.contains_key(id) implies done[id] == cur[id] by {
        assert(mid.contains_key(id));
        assert(came.contains(id) <==> noticed(n).contains(id));
    }
    assert(done =~= cur);
}

/// The full rows at hand say what is remembered of them.
spec fn accurate(c: Map<EventId, RowView>, cur: RowsView) -> bool {
    forall|id: EventId| #[trigger]
        c.contains_key(id) ==> cur.contains_key(id) && c[id].id == id && remember(c[id]) == cur[id]
}

proof fn lemma_replaced_completed(date: spec_fn(EventId) -> u64, rows: RowsView, ch: ChangesView)
    requires
        all_dated(date, rows),
        dated(date, ch.inserted),
    ensures
        accurate(added_rows(ch.inserted), replaced(rows, ch)),
        told_in_full(rows, replaced(rows, ch), added_rows(ch.inserted)),
        all_dated(date, replaced(rows, ch)),
{
    let left = rows.remove_keys(ch.removed.to_set());
    let cur = replaced(rows, ch);
    lemma_insertions(left, ch.inserted);
    assert forall|id: EventId| #[trigger] cur.contains_key(id) implies cur[id].created_at == date(id) by {
        if added_rows(ch.inserted).contains_key(id) {
            lemma_added_is_listed(ch.inserted, id);
        } else {
            assert(rows.contains_key(id));
        }
    }
}

proof fn lemma_insertions(rows: RowsView, q: Seq<RowView>)
    ensures
        forall|id: EventId| #[trigger]
            inserted_into(rows, q).contains_key(id) <==> rows.contains_key(id) || added_rows(
                q,
            ).contains_key(id),
        forall|id: EventId| #[trigger]
            added_rows(q).contains_key(id) ==> inserted_into(rows, q)[id] == remember(added_rows(q)[id])
                && added_rows(q)[id].id == id,
        forall|id: EventId| #[trigger]
            inserted_into(rows, q).contains_key(id) && !added_rows(q).contains_key(id) ==> inserted_into(
                rows,
                q,
            )[id] == rows[id],
    decreases q.len(),
{
    if q.len() > 0 {
        lemma_insertions(rows, q.drop_last());
    }
}

proof fn lemma_growth_completed(
    date: spec_fn(EventId) -> u64,
    prev: RowsView,
    rows: RowsView,
    c: Map<EventId, RowView>,
    q: Seq<RowView>,
)
    requires
        accurate(c, rows),
        told_in_full(prev, rows, c),
        all_dated(date, rows),
        dated(date, q),
    ensures
        accurate(completed_by_growth(rows, c, q), grown_by(rows, q)),
        told_in_full(prev, grown_by(rows, q), completed_by_growth(rows, c, q)),
        all_dated(date, grown_by(rows, q)),
    decreases q.len(),
{
    if q.len() > 0 {
        let p = q.drop_last();
        assert forall|i: int| 0 <= i < p.len() implies (#[trigger] p[i]).created_at == date(p[i].id) by {
            assert(p[i] == q[i]);
        }
        lemma_growth_completed(date, prev, rows, c, p);
        let before = grown_by(rows, p);
        let row = q.last();
        assert(q[q.len() - 1] == row);
        assert(row.created_at == date(row.id));
        let done = completed_by_growth(rows, c, p);
        let now = grown_by(rows, q);
        let full = completed_by_growth(rows, c, q);
        assert forall|id: EventId| #[trigger] full.contains_key(id) implies now.contains_key(id) && full[id].id
            == id && remember(full[id]) == now[id] by {
            if id != row.id {
                assert(done.contains_key(id));
            }
        }
        assert forall|id: EventId| #[trigger]
            now.contains_key(id) && !(prev.contains_key(id) && prev[id].signature == now[id].signature) implies full.contains_key(
        id) by {
            if id != row.id {
                assert(before.contains_key(id));
            }
        }
    }
}

proof fn lemma_restated_completed(
    date: spec_fn(EventId) -> u64,
    prev: RowsView,
    rows: RowsView,
    c: Map<EventId, RowView>,
    q: Seq<RowView>,
)
    requires
        accurate(c, rows),
        told_in_full(prev, rows, c),
        all_dated(date, rows),
        dated(date, q),
    ensures
        accurate(completed_by_restated(rows, c, q), restated_by(rows, q)),
        told_in_full(prev, restated_by(rows, q), completed_by_restated(rows, c, q)),
        all_dated(date, restated_by(rows, q)),
    decreases q.len(),
{
    if q.len() > 0 {
        let p = q.drop_last();
        assert forall|i: int| 0 <= i < p.len() implies (#[trigger] p[i]).created_at == date(p[i].id) by {
            assert(p[i] == q[i]);
        }
        lemma_restated_completed(date, prev, rows, c, p);
        let before = restated_by(rows, p);
        let row = q.last();
        assert(q[q.len() - 1] == row);
        assert(row.created_at == date(row.id));
        let done = completed_by_restated(rows, c, p);
        let now = restated_by(rows, q);
        let full = completed_by_restated(rows, c, q);
        assert forall|id: EventId| #[trigger] full.contains_key(id) implies now.contains_key(id) && full[id].id
            == id && remember(full[id]) == now[id] by {
            if id != row.id {
                assert(done.contains_key(id));
            }
        }
        assert forall|id: EventId| #[trigger]
            now.contains_key(id) && !(prev.contains_key(id) && prev[id].signature == now[id].signature) implies full.contains_key(
        id) by {
            if id != row.id {
                assert(before.contains_key(id));
            }
        }
    }
}

/// A receiver that holds the rows of a bounded window and takes in what a change
/// tells holds the rows that the window remembers after it, where a row's id fixes
/// its date.
pub proof fn told_change_leads_to_the_next_window(
    rows: RowsView,
    ch: ChangesView,
    limit: nat,
    date: spec_fn(EventId) -> u64,
)
    requires
        rows.dom().finite(),
        forall|id: EventId| #[trigger] rows.contains_key(id) ==> rows[id].created_at == date(id),
        dated(date, ch.inserted),
        dated(date, ch.grew),
        dated(date, ch.updated),
    ensures
        receive_all(
            rows,
            diff(rows, newest_rows(applied(rows, ch), limit), completed(rows, ch)),
        ) == newest_rows(applied(rows, ch), limit),
{
    let base = replaced(rows, ch);
    let added = added_rows(ch.inserted);
    lemma_replaced_completed(date, rows, ch);
    lemma_growth_completed(date, rows, base, added, ch.grew);
    let wide = grown_by(base, ch.grew);
    let c1 = completed_by_growth(base, added, ch.grew);
    lemma_restated_completed(date, rows, wide, c1, ch.updated);
    let all = applied(rows, ch);
    let full = completed(rows, ch);
    let window = newest_rows(all, limit);
    let gone = ch.removed.to_set();
    vstd::set_lib::lemma_set_subset_finite(rows.dom(), rows.remove_keys(gone).dom());
    lemma_inserted_finite(rows.remove_keys(gone), ch.inserted);
    lemma_later_keeps(base, ch.grew, ch.updated);
    assert forall|id: EventId| #[trigger] window.contains_key(id) implies all.contains_key(id) && window[id]
        == all[id] by {}
    assert(window.dom().subset_of(all.dom()));
    vstd::set_lib::lemma_set_subset_finite(all.dom(), window.dom());
    assert forall|id: EventId| #[trigger]
        window.contains_key(id) && !(rows.contains_key(id) && rows[id].signature == window[id].signature) implies full.contains_key(
    id) by {
        assert(all.contains_key(id));
    }
    assert forall|id: EventId| #[trigger]
        rows.contains_key(id) && window.contains_key(id) implies rows[id].created_at
        == window[id].created_at by {
        assert(all.contains_key(id));
    }
    difference_leads_to_the_next_delivery(rows, window, full);
}

/// Everything that a commit changed, whatever query looks at it.
pub open spec fn whole_change(changes: CommittedRowChanges) -> ChangesView {
    ChangesView {
        removed: changes.removed@.map_values(|e: SignedEvent| e.id),
        inserted: changes.inserted@.map_values(|r: CommittedCurrentRow| committed_view(r)),
        grew: changes.provenance_grew@.map_values(|r: CommittedCurrentRow| committed_view(r)),
        updated: changes.updated@.map_values(|r: CommittedCurrentRow| committed_view(r)),
    }
}

/// Whether a set holds the ids of exactly those rows of a list that a filter takes.
pub open spec fn sees_rows(q: Seq<CommittedCurrentRow>, filter: Seq<char>, sees: Set<EventId>) -> bool {
    forall|i: int|
        0 <= i < q.len() ==> (sees.contains((#[trigger] q[i]).event.id) <==> filter_takes(
            filter,
            q[i].event.text@,
        ))
}

/// Whether a set holds the ids of exactly those events of a list that a filter
/// takes.
pub open spec fn sees_events(q: Seq<SignedEvent>, filter: Seq<char>, sees: Set<EventId>) -> bool {
    forall|i: int|
        0 <= i < q.len() ==> (sees.contains((#[trigger] q[i]).id) <==> filter_takes(filter, q[i].text@))
}

proof fn lemma_seen_rows(q: Seq<CommittedCurrentRow>, filter: Seq<char>, sees: Set<EventId>)
    requires
        sees_rows(q, filter, sees),
    ensures
        seen_rows(q, filter) == visible_rows(
            q.map_values(|r: CommittedCurrentRow| committed_view(r)),
            sees,
        ),
    decreases q.len(),
{
    let all = q.map_values(|r: CommittedCurrentRow| committed_view(r));
    if q.len() > 0 {
        let p = q.drop_last();
        assert forall|i: int| 0 <= i < p.len() implies (sees.contains((#[trigger] p[i]).event.id)
            <==> filter_takes(filter, p[i].event.text@)) by {
            assert(p[i] == q[i]);
        }
        lemma_seen_rows(p, filter, sees);
        assert(all.drop_last() =~= p.map_values(|r: CommittedCurrentRow| committed_view(r)));
        assert(q[q.len() - 1] == q.last());
        assert(all.last() == committed_view(q.last()));
    }
}

proof fn lemma_seen_ids(q: Seq<SignedEvent>, filter: Seq<char>, sees: Set<EventId>)
    requires
        sees_events(q, filter, sees),
    ensures
        seen_ids(q, filter) == visible_ids(q.map_values(|e: SignedEvent| e.id), sees),
    decreases q.len(),
{
    let all = q.map_values(|e: SignedEvent| e.id);
    if q.len() > 0 {
        let p = q.drop_last();
        assert forall|i: int| 0 <= i < p.len() implies (sees.contains((#[trigger] p[i]).id) <==> filter_takes(
            filter,
            p[i].text@,
        )) by {
            assert(p[i] == q[i]);
        }
        lemma_seen_ids(p, filter, sees);
        assert(all.drop_last() =~= p.map_values(|e: SignedEvent| e.id));
        assert(q[q.len() - 1] == q.last());
        assert(all.last() == q.last().id);
    }
}

/// The part of a commit that a query is handed is the part that it sees, where an
/// event's id fixes whether the query's filter takes it. An unbounded window that
/// it is applied to therefore holds what a new read of the changed store gives.
pub proof fn committed_change_matches_a_full_read(
    stored: RowsView,
    changes: CommittedRowChanges,
    filter: Seq<char>,
    sees: Set<EventId>,
)
    requires
        sees_events(changes.removed@, filter, sees),
        sees_rows(changes.inserted@, filter, sees),
        sees_rows(changes.provenance_grew@, filter, sees),
        sees_rows(changes.updated@, filter, sees),
    ensures
        seen_changes(changes, filter) == visible_part(whole_change(changes), sees),
        applied(stored.restrict(sees), seen_changes(changes, filter)) == applied(
            stored,
            whole_change(changes),
        ).restrict(sees),
{
    lemma_seen_ids(changes.removed@, filter, sees);
    lemma_seen_rows(changes.inserted@, filter, sees);
    lemma_seen_rows(changes.provenance_grew@, filter, sees);
    lemma_seen_rows(changes.updated@, filter, sees);
    unbounded_window_matches_a_full_read(stored, whole_change(changes), sees);
}

} // verus!
