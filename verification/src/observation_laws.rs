//! What a read of an observation shows.

use vstd::prelude::*;

use crate::ids::{EventId, Relay};
use crate::observations::{
    all_joined, all_read, largest_limit, limited, pin_of, first_explicit, read_rows, remembered,
    row_dates, ReadRouting, RootAtom, StoredRow,
};
use crate::projection::{bodies_text, lemma_bodies_text};
use crate::rows::{
    dates_of, lemma_newest_is_bounded, newer_first, newer_than, newest, newest_first_is_a_total_order,
    newest_rows, Row, RowSignature, RowView, RowsView, SigState,
};
use crate::sorted::SortedMap;

verus! {

/// `a` is listed before `b`: it is newer, or of the same date and of the smaller id.
pub open spec fn listed_before(a_date: u64, a: EventId, b_date: u64, b: EventId) -> bool {
    a_date > b_date || (a_date == b_date && (a.hi < b.hi || (a.hi == b.hi && a.lo < b.lo)))
}

proof fn lemma_listed_before(a_date: u64, a: EventId, b_date: u64, b: EventId)
    ensures
        listed_before(a_date, a, b_date, b) == newer_first((a_date, a), (b_date, b)),
{
    crate::key::lemma_pair_order(crate::key::Pair(a.hi, a.lo), crate::key::Pair(b.hi, b.lo));
}

/// Every kept row stands before every row that is left out.
proof fn lemma_newest_splits(dates: Map<EventId, u64>, limit: nat, x: EventId, y: EventId)
    requires
        dates.dom().finite(),
        newest(dates, limit).contains(x),
        dates.contains_key(y),
        !newest(dates, limit).contains(y),
    ensures
        newer_first((dates[x], x), (dates[y], y)),
{
    newest_first_is_a_total_order((dates[x], x), (dates[y], y), (dates[x], x));
    if newer_first((dates[y], y), (dates[x], x)) {
        let a = newer_than(dates, y);
        let b = newer_than(dates, x);
        assert(b.subset_of(dates.dom()));
        vstd::set_lib::lemma_set_subset_finite(dates.dom(), b);
        assert(a.subset_of(b)) by {
            assert forall|z: EventId| a.contains(z) implies b.contains(z) by {
                newest_first_is_a_total_order((dates[z], z), (dates[y], y), (dates[x], x));
            }
        }
        vstd::set_lib::lemma_len_subset(a, b);
    }
}

/// A limit keeps rows as they are: as many as it allows, or all where there are
/// fewer, and each of those that it keeps is listed before each that it leaves out.
/// Without a limit every row is kept.
pub proof fn limit_keeps_the_newest(rows: Map<EventId, RowView>, limit: usize)
    requires
        rows.dom().finite(),
    ensures
        limited(rows, None) == rows,
        ({
            let kept = limited(rows, Some(limit));
            &&& kept.dom().finite()
            &&& kept.dom().len() == (if rows.dom().len() <= limit {
                rows.dom().len()
            } else {
                limit as nat
            })
            &&& forall|x: EventId| #[trigger]
                kept.contains_key(x) ==> rows.contains_key(x) && kept[x] == rows[x]
            &&& forall|x: EventId, y: EventId| #[trigger]
                kept.contains_key(x) && #[trigger] rows.contains_key(y) && !kept.contains_key(y)
                    ==> listed_before(rows[x].created_at, x, rows[y].created_at, y)
        }),
{
    let kept = limited(rows, Some(limit));
    let dates = row_dates(rows);
    assert(dates.dom() =~= rows.dom());
    lemma_newest_is_bounded(dates, limit as nat);
    assert(kept.dom() =~= newest(dates, limit as nat));
    assert forall|x: EventId, y: EventId| #[trigger]
        kept.contains_key(x) && #[trigger] rows.contains_key(y) && !kept.contains_key(y) implies listed_before(
        rows[x].created_at,
        x,
        rows[y].created_at,
        y,
    ) by {
        lemma_newest_splits(dates, limit as nat, x, y);
        lemma_listed_before(rows[x].created_at, x, rows[y].created_at, y);
    }
}

/// A remembered window keeps what a read with the same limit keeps: as many rows as
/// the limit allows, the newest, as they are.
pub proof fn window_keeps_the_newest(rows: RowsView, limit: nat)
    requires
        rows.dom().finite(),
    ensures
        ({
            let kept = newest_rows(rows, limit);
            &&& kept.dom().finite()
            &&& kept.dom().len() == (if rows.dom().len() <= limit {
                rows.dom().len()
            } else {
                limit
            })
            &&& forall|x: EventId| #[trigger]
                kept.contains_key(x) ==> rows.contains_key(x) && kept[x] == rows[x]
            &&& forall|x: EventId, y: EventId| #[trigger]
                kept.contains_key(x) && #[trigger] rows.contains_key(y) && !kept.contains_key(y)
                    ==> listed_before(rows[x].created_at, x, rows[y].created_at, y)
        }),
{
    let kept = newest_rows(rows, limit);
    let dates = dates_of(rows);
    assert(dates.dom() =~= rows.dom());
    lemma_newest_is_bounded(dates, limit);
    assert(kept.dom() =~= newest(dates, limit));
    assert forall|x: EventId, y: EventId| #[trigger]
        kept.contains_key(x) && #[trigger] rows.contains_key(y) && !kept.contains_key(y) implies listed_before(
        rows[x].created_at,
        x,
        rows[y].created_at,
        y,
    ) by {
        lemma_newest_splits(dates, limit, x, y);
        lemma_listed_before(rows[x].created_at, x, rows[y].created_at, y);
    }
}

/// A branch of a list shows an event.
pub open spec fn shown_by(branches: Seq<SortedMap<EventId, Row>>, i: int, id: EventId) -> bool {
    0 <= i < branches.len() && branches[i]@.contains_key(id)
}

/// Without a limit an observation shows an event if and only if some branch shows it.
/// The row says what the first branch that shows the event says, but for its sources:
/// those are the sources of all branches that show the event.
pub proof fn observation_shows_every_branch(branches: Seq<SortedMap<EventId, Row>>, id: EventId)
    ensures
        ({
            let rows = limited(all_joined(branches), None);
            &&& rows.contains_key(id) <==> exists|i: int| #[trigger] shown_by(branches, i, id)
            &&& rows.contains_key(id) ==> forall|relay: Relay| #[trigger]
                rows[id].sources.contains(relay) <==> exists|i: int| #[trigger]
                    shown_by(branches, i, id) && branches[i]@[id].sources@.contains(relay)
            &&& forall|i: int| #[trigger]
                shown_by(branches, i, id) && (forall|j: int| 0 <= j < i ==> !shown_by(branches, j, id)) ==> {
                    let row = branches[i]@[id];
                    &&& rows[id].id == row.id
                    &&& rows[id].created_at == row.created_at
                    &&& rows[id].text == row.text@
                    &&& rows[id].signature == row.signature
                }
        }),
    decreases branches.len(),
{
    if branches.len() > 0 {
        let rest = branches.drop_last();
        let last = branches.last()@;
        let n = rest.len() as int;
        observation_shows_every_branch(rest, id);
        lemma_bodies_text(last);
        let before = all_joined(rest);
        let rows = all_joined(branches);
        assert forall|i: int| 0 <= i < n implies #[trigger] shown_by(branches, i, id) == shown_by(
            rest,
            i,
            id,
        ) && branches[i] == rest[i] by {}
        assert(shown_by(branches, n, id) == last.contains_key(id));
        if exists|i: int| #[trigger] shown_by(branches, i, id) {
            let i = choose|i: int| #[trigger] shown_by(branches, i, id);
            if i < n {
                assert(shown_by(rest, i, id));
            }
        }
        if exists|i: int| #[trigger] shown_by(rest, i, id) {
            let i = choose|i: int| #[trigger] shown_by(rest, i, id);
            assert(shown_by(branches, i, id));
        }
        if last.contains_key(id) {
            assert(bodies_text(last)[id] == last[id]@);
        }
        if rows.contains_key(id) {
            assert forall|relay: Relay| #[trigger] rows[id].sources.contains(relay) <==> exists|i: int|
                #[trigger] shown_by(branches, i, id) && branches[i]@[id].sources@.contains(relay) by {
                if rows[id].sources.contains(relay) {
                    if before.contains_key(id) && before[id].sources.contains(relay) {
                        let i = choose|i: int| #[trigger]
                            shown_by(rest, i, id) && rest[i]@[id].sources@.contains(relay);
                        assert(shown_by(branches, i, id) && branches[i]@[id].sources@.contains(relay));
                    } else {
                        assert(shown_by(branches, n, id) && branches[n]@[id].sources@.contains(relay));
                    }
                }
                if exists|i: int| #[trigger]
                    shown_by(branches, i, id) && branches[i]@[id].sources@.contains(relay) {
                    let i = choose|i: int| #[trigger]
                        shown_by(branches, i, id) && branches[i]@[id].sources@.contains(relay);
                    if i < n {
                        assert(shown_by(rest, i, id) && rest[i]@[id].sources@.contains(relay));
                    }
                }
            }
        }
        assert forall|i: int| #[trigger]
            shown_by(branches, i, id) && (forall|j: int| 0 <= j < i ==> !shown_by(branches, j, id)) implies ({
            let row = branches[i]@[id];
            &&& rows[id].id == row.id
            &&& rows[id].created_at == row.created_at
            &&& rows[id].text == row.text@
            &&& rows[id].signature == row.signature
        }) by {
            if i < n {
                assert(shown_by(rest, i, id));
                assert forall|j: int| 0 <= j < i implies !shown_by(rest, j, id) by {
                    assert(!shown_by(branches, j, id));
                }
                assert(before.contains_key(id));
            } else {
                if before.contains_key(id) {
                    let j = choose|j: int| #[trigger] shown_by(rest, j, id);
                    assert(shown_by(branches, j, id));
                }
            }
        }
    }
}

proof fn lemma_joined_is_finite(branches: Seq<SortedMap<EventId, Row>>)
    requires
        forall|i: int| 0 <= i < branches.len() ==> (#[trigger] branches[i])@.dom().finite(),
    ensures
        all_joined(branches).dom().finite(),
    decreases branches.len(),
{
    if branches.len() > 0 {
        let rest = branches.drop_last();
        assert forall|i: int| 0 <= i < rest.len() implies (#[trigger] rest[i])@.dom().finite() by {
            assert(rest[i] == branches[i]);
        }
        lemma_joined_is_finite(rest);
        lemma_bodies_text(branches.last()@);
        assert(branches[branches.len() - 1]@.dom().finite());
        assert(all_joined(branches).dom() =~= all_joined(rest).dom().union(branches.last()@.dom()));
    }
}

/// The limit of an observation applies once, to what all its branches show together:
/// it shows as many events as the limit allows, or all, and no event that it leaves
/// out is listed before one that it shows.
pub proof fn observation_shows_the_newest_of_all(
    branches: Seq<SortedMap<EventId, Row>>,
    limit: usize,
    x: EventId,
    y: EventId,
)
    requires
        forall|i: int| 0 <= i < branches.len() ==> (#[trigger] branches[i])@.dom().finite(),
    ensures
        ({
            let all = limited(all_joined(branches), None);
            let rows = limited(all_joined(branches), Some(limit));
            &&& rows.dom().len() == (if all.dom().len() <= limit {
                all.dom().len()
            } else {
                limit as nat
            })
            &&& rows.contains_key(x) ==> all.contains_key(x) && rows[x] == all[x]
            &&& rows.contains_key(x) && all.contains_key(y) && !rows.contains_key(y) ==> listed_before(
                all[x].created_at,
                x,
                all[y].created_at,
                y,
            )
        }),
{
    lemma_joined_is_finite(branches);
    limit_keeps_the_newest(all_joined(branches), limit);
}

/// A read gives a row for an event, and a branch that is pinned may show it.
pub open spec fn reads_row(reads: Seq<Vec<StoredRow>>, pinned: bool, i: int, j: int, id: EventId) -> bool {
    0 <= i < reads.len() && 0 <= j < reads[i]@.len() && reads[i]@[j].event.id == id && (pinned
        ==> reads[i]@[j].visible_under_pin)
}

/// What a row that is read says: what the stored event says, seen where the store has
/// seen it. It is pending only where the engine itself has accepted the event and it
/// is not signed yet; an event that only relays have given is signed.
pub open spec fn says_what_is_stored(row: RowView, stored: StoredRow) -> bool {
    &&& row.id == stored.event.id
    &&& row.created_at == stored.event.created_at
    &&& row.text == stored.event.text@
    &&& row.sources == stored.seen@
    &&& row.signature is Pending <==> stored.local == Some(SigState::Pending)
    &&& !(row.signature is Pending) ==> row.signature == RowSignature::Signed(stored.event.sig)
}

proof fn lemma_read_rows(have: Map<EventId, RowView>, q: Seq<StoredRow>, pinned: bool, id: EventId)
    ensures
        ({
            let rows = read_rows(have, q, pinned);
            &&& have.contains_key(id) ==> rows.contains_key(id) && rows[id] == have[id]
            &&& !have.contains_key(id) ==> (rows.contains_key(id) <==> exists|j: int|
                0 <= j < q.len() && (#[trigger] q[j]).event.id == id && (pinned ==> q[j].visible_under_pin))
            &&& !have.contains_key(id) && rows.contains_key(id) ==> exists|j: int|
                0 <= j < q.len() && (#[trigger] q[j]).event.id == id && (pinned ==> q[j].visible_under_pin)
                    && says_what_is_stored(rows[id], q[j]) && forall|k: int|
                    0 <= k < j ==> !((#[trigger] q[k]).event.id == id && (pinned
                        ==> q[k].visible_under_pin))
        }),
    decreases q.len(),
{
    if q.len() > 0 {
        let rest = q.drop_last();
        let last = q.last();
        let n = rest.len() as int;
        lemma_read_rows(have, rest, pinned, id);
        let before = read_rows(have, rest, pinned);
        let rows = read_rows(have, q, pinned);
        assert(q[n] == last);
        assert forall|k: int| 0 <= k < n implies #[trigger] rest[k] == q[k] by {}
        if !have.contains_key(id) {
            if before.contains_key(id) {
                let j = choose|j: int|
                    0 <= j < rest.len() && (#[trigger] rest[j]).event.id == id && (pinned
                        ==> rest[j].visible_under_pin) && says_what_is_stored(before[id], rest[j])
                        && forall|k: int|
                        0 <= k < j ==> !((#[trigger] rest[k]).event.id == id && (pinned
                            ==> rest[k].visible_under_pin));
                assert(q[j] == rest[j]);
                assert forall|k: int| 0 <= k < j implies !((#[trigger] q[k]).event.id == id && (pinned
                    ==> q[k].visible_under_pin)) by {
                    assert(q[k] == rest[k]);
                }
                assert(rows.contains_key(id) && rows[id] == before[id]);
            } else {
                assert forall|k: int| 0 <= k < n implies !((#[trigger] q[k]).event.id == id && (pinned
                    ==> q[k].visible_under_pin)) by {
                    assert(q[k] == rest[k]);
                }
                if rows.contains_key(id) {
                    assert(last.event.id == id);
                    assert(says_what_is_stored(rows[id], q[n]));
                } else if exists|j: int|
                    0 <= j < q.len() && (#[trigger] q[j]).event.id == id && (pinned
                        ==> q[j].visible_under_pin) {
                    let j = choose|j: int|
                        0 <= j < q.len() && (#[trigger] q[j]).event.id == id && (pinned
                            ==> q[j].visible_under_pin);
                    assert(j == n);
                }
            }
        }
    }
}

/// Without a limit a branch shows an event if and only if one of its reads gives a row
/// for it that the branch may show. The row says what the first such row says.
pub proof fn branch_shows_what_is_read(reads: Seq<Vec<StoredRow>>, pinned: bool, id: EventId)
    ensures
        ({
            let rows = limited(all_read(reads, pinned), None);
            &&& rows.contains_key(id) <==> exists|i: int, j: int| #[trigger]
                reads_row(reads, pinned, i, j, id)
            &&& rows.contains_key(id) ==> exists|i: int, j: int| #[trigger]
                reads_row(reads, pinned, i, j, id) && says_what_is_stored(rows[id], reads[i]@[j])
                    && forall|a: int, b: int| #[trigger]
                    reads_row(reads, pinned, a, b, id) ==> a > i || (a == i && b >= j)
        }),
    decreases reads.len(),
{
    if reads.len() > 0 {
        let rest = reads.drop_last();
        let n = rest.len() as int;
        let q = reads.last()@;
        branch_shows_what_is_read(rest, pinned, id);
        let before = all_read(rest, pinned);
        let rows = all_read(reads, pinned);
        lemma_read_rows(before, q, pinned, id);
        assert(reads[n]@ == q);
        assert forall|a: int, b: int| a < n implies #[trigger] reads_row(reads, pinned, a, b, id)
            == reads_row(rest, pinned, a, b, id) by {
            if 0 <= a {
                assert(reads[a] == rest[a]);
            }
        }
        if before.contains_key(id) {
            let (i, j) = choose|i: int, j: int| #[trigger]
                reads_row(rest, pinned, i, j, id) && says_what_is_stored(before[id], rest[i]@[j]) && forall|
                    a: int,
                    b: int,
                | #[trigger]
                    reads_row(rest, pinned, a, b, id) ==> a > i || (a == i && b >= j);
            assert(reads_row(reads, pinned, i, j, id));
            assert(rest[i] == reads[i]);
            assert(says_what_is_stored(rows[id], reads[i]@[j]));
            assert forall|a: int, b: int| #[trigger] reads_row(reads, pinned, a, b, id) implies a > i || (a
                == i && b >= j) by {
                if a < n {
                    assert(reads_row(rest, pinned, a, b, id));
                }
            }
        } else {
            assert forall|a: int, b: int| a < n implies !(#[trigger] reads_row(reads, pinned, a, b, id)) by {
                assert(!reads_row(rest, pinned, a, b, id));
            }
            if rows.contains_key(id) {
                let j = choose|j: int|
                    0 <= j < q.len() && (#[trigger] q[j]).event.id == id && (pinned
                        ==> q[j].visible_under_pin) && says_what_is_stored(rows[id], q[j]) && forall|k: int|
                        0 <= k < j ==> !((#[trigger] q[k]).event.id == id && (pinned
                            ==> q[k].visible_under_pin));
                assert(reads_row(reads, pinned, n, j, id));
                assert forall|a: int, b: int| #[trigger] reads_row(reads, pinned, a, b, id) implies a > n || (
                a == n && b >= j) by {
                    if a == n && b < j {
                        assert(!(q[b].event.id == id && (pinned ==> q[b].visible_under_pin)));
                    }
                }
            } else if exists|i: int, j: int| #[trigger] reads_row(reads, pinned, i, j, id) {
                let (i, j) = choose|i: int, j: int| #[trigger] reads_row(reads, pinned, i, j, id);
                assert(i == n);
                assert(q[j].event.id == id && (pinned ==> q[j].visible_under_pin));
            }
        }
    }
}

/// A branch is pinned if and only if it is strict and one of its routings names
/// relays, and then to exactly the relays that the first such routing names.
pub proof fn strict_branch_is_pinned_to_the_first_named(strict: bool, routing: Seq<ReadRouting>)
    ensures
        pin_of(strict, routing) is Some <==> strict && exists|i: int|
            0 <= i < routing.len() && (#[trigger] routing[i]) is Explicit,
        forall|i: int, relay: Relay|
            strict && 0 <= i < routing.len() && (#[trigger] routing[i]) is Explicit && (forall|j: int|
                0 <= j < i ==> (#[trigger] routing[j]) is Auto) ==> (#[trigger] pin_of(
                strict,
                routing,
            )->0.contains(relay) <==> routing[i]->Explicit_0@.contains(relay)),
{
    lemma_first_explicit(routing);
}

proof fn lemma_first_explicit(q: Seq<ReadRouting>)
    ensures
        first_explicit(q) is Some <==> exists|i: int| 0 <= i < q.len() && (#[trigger] q[i]) is Explicit,
        forall|i: int|
            0 <= i < q.len() && (#[trigger] q[i]) is Explicit && (forall|j: int|
                0 <= j < i ==> (#[trigger] q[j]) is Auto) ==> first_explicit(q)
                == Some(q[i]->Explicit_0@),
    decreases q.len(),
{
    if q.len() > 0 {
        let rest = q.drop_last();
        lemma_first_explicit(rest);
        let n = rest.len() as int;
        assert(q.last() == q[n]);
        assert forall|i: int| 0 <= i < n implies #[trigger] rest[i] == q[i] by {}
        if first_explicit(rest) is Some {
            let i = choose|i: int| 0 <= i < rest.len() && (#[trigger] rest[i]) is Explicit;
            assert(q[i] is Explicit);
        } else {
            assert forall|j: int| 0 <= j < n implies (#[trigger] q[j]) is Auto by {
                assert(!(rest[j] is Explicit));
            }
        }
        assert forall|i: int|
            0 <= i < q.len() && (#[trigger] q[i]) is Explicit && (forall|j: int|
                0 <= j < i ==> (#[trigger] q[j]) is Auto) implies first_explicit(q)
            == Some(q[i]->Explicit_0@) by {
            if i < n {
                assert(rest[i] is Explicit);
                assert forall|j: int| 0 <= j < i implies (#[trigger] rest[j]) is Auto by {
                    assert(q[j] is Auto);
                }
            } else {
                if first_explicit(rest) is Some {
                    let k = choose|k: int| 0 <= k < rest.len() && (#[trigger] rest[k]) is Explicit;
                    assert(q[k] is Auto);
                }
            }
        }
    }
}

/// A branch delivers as many rows as the largest limit among its filters allows: it
/// has a limit if and only if some filter has one, and that limit is the limit of one
/// of them and no smaller than any.
pub proof fn branch_limit_is_the_largest(q: Seq<RootAtom>)
    ensures
        largest_limit(q) is Some <==> exists|i: int|
            0 <= i < q.len() && (#[trigger] q[i]).filter.limit is Some,
        largest_limit(q) matches Some(n) ==> exists|i: int|
            0 <= i < q.len() && (#[trigger] q[i]).filter.limit == Some(n),
        forall|i: int|
            0 <= i < q.len() && (#[trigger] q[i]).filter.limit is Some ==> q[i].filter.limit->0
                <= largest_limit(q)->0,
    decreases q.len(),
{
    if q.len() > 0 {
        let rest = q.drop_last();
        let n = rest.len() as int;
        branch_limit_is_the_largest(rest);
        assert(q.last() == q[n]);
        assert forall|i: int| 0 <= i < n implies #[trigger] rest[i] == q[i] by {}
        if largest_limit(rest) is Some {
            let i = choose|i: int|
                0 <= i < rest.len() && (#[trigger] rest[i]).filter.limit == Some(largest_limit(rest)->0);
            assert(q[i].filter.limit == largest_limit(rest));
        } else if largest_limit(q) is Some {
            assert(q[n].filter.limit is Some);
        }
        if exists|i: int| 0 <= i < q.len() && (#[trigger] q[i]).filter.limit is Some {
            let i = choose|i: int| 0 <= i < q.len() && (#[trigger] q[i]).filter.limit is Some;
            if i < n {
                assert(rest[i].filter.limit is Some);
            }
        }
        assert forall|i: int| 0 <= i < q.len() && (#[trigger] q[i]).filter.limit is Some implies q[i].filter.limit->0
            <= largest_limit(q)->0 by {
            if i < n {
                assert(rest[i].filter.limit is Some);
            }
        }
    }
}

/// What is remembered of a delivery is every delivered row, by its date, its signature
/// and its sources.
pub proof fn every_delivered_row_is_remembered(rows: Map<EventId, RowView>, id: EventId)
    ensures
        remembered(rows).contains_key(id) == rows.contains_key(id),
        rows.contains_key(id) ==> {
            &&& remembered(rows)[id].created_at == rows[id].created_at
            &&& remembered(rows)[id].signature == rows[id].signature
            &&& remembered(rows)[id].sources == rows[id].sources
        },
{
}

} // verus!
