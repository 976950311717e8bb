//! Which part of a committed change one query sees.

use nostr::JsonUtil;
use vstd::prelude::*;

use crate::ids::{EventId, Relay};
use crate::projection::{rows_text, ChangesView, MatchedChanges};
use crate::rows::{row_from_stored_event, signature_of, Row, RowView, SigState, SignedEvent};
use crate::sorted::SortedSet;

verus! {

/// One row of a committed change, as it stands in the store now.
pub struct CommittedCurrentRow {
    pub event: SignedEvent,
    pub observed_relays: SortedSet<Relay>,
    pub signature_state: SigState,
}

/// What one commit changed.
pub struct CommittedRowChanges {
    pub inserted: Vec<CommittedCurrentRow>,
    pub removed: Vec<SignedEvent>,
    pub provenance_grew: Vec<CommittedCurrentRow>,
    pub updated: Vec<CommittedCurrentRow>,
}

/// Whether the text of a filter and the text of an event are both well formed,
/// and `nostr::Filter::match_event` says that the filter takes the event with
/// every field of the filter heeded.
pub uninterp spec fn filter_takes(filter: Seq<char>, event: Seq<char>) -> bool;

/// Reads both texts with `from_json` and calls `nostr::Filter::match_event`
/// with the options of `nostr::filter::MatchEventOptions::new`.
///
/// Taken on trust: the result is a function of the two texts alone.
#[verifier::external_body]
fn match_texts(filter: &str, event: &str) -> (b: bool)
    ensures
        b == filter_takes(filter@, event@),
{
    match (nostr::Filter::from_json(filter), nostr::Event::from_json(event)) {
        (Ok(filter), Ok(event)) => filter.match_event(&event, nostr::filter::MatchEventOptions::new()),
        _ => false,
    }
}

/// What a committed row says.
pub open spec fn committed_view(row: CommittedCurrentRow) -> RowView {
    RowView {
        id: row.event.id,
        created_at: row.event.created_at,
        text: row.event.text@,
        signature: signature_of(row.event.sig, row.signature_state),
        sources: row.observed_relays@,
    }
}

/// The rows of a list that a query sees.
pub open spec fn seen_rows(q: Seq<CommittedCurrentRow>, filter: Seq<char>) -> Seq<RowView>
    decreases q.len(),
{
    if q.len() == 0 {
        Seq::empty()
    } else if filter_takes(filter, q.last().event.text@) {
        seen_rows(q.drop_last(), filter).push(committed_view(q.last()))
    } else {
        seen_rows(q.drop_last(), filter)
    }
}

/// The ids of the events of a list that a query sees.
pub open spec fn seen_ids(q: Seq<SignedEvent>, filter: Seq<char>) -> Seq<EventId>
    decreases q.len(),
{
    if q.len() == 0 {
        Seq::empty()
    } else if filter_takes(filter, q.last().text@) {
        seen_ids(q.drop_last(), filter).push(q.last().id)
    } else {
        seen_ids(q.drop_last(), filter)
    }
}

/// The part of a change that a query sees.
pub open spec fn seen_changes(changes: CommittedRowChanges, filter: Seq<char>) -> ChangesView {
    ChangesView {
        removed: seen_ids(changes.removed@, filter),
        inserted: seen_rows(changes.inserted@, filter),
        grew: seen_rows(changes.provenance_grew@, filter),
        updated: seen_rows(changes.updated@, filter),
    }
}

fn match_rows(filter: &str, q: &Vec<CommittedCurrentRow>) -> (out: Vec<Row>)
    ensures
        rows_text(out@) == seen_rows(q@, filter@),
{
    let mut out: Vec<Row> = Vec::new();
    let mut i: usize = 0;
    assert(q@.take(0) =~= Seq::<CommittedCurrentRow>::empty());
    assert(rows_text(out@) =~= Seq::<RowView>::empty());
    while i < q.len()
        invariant
            i <= q@.len(),
            rows_text(out@) == seen_rows(q@.take(i as int), filter@),
        decreases q@.len() - i,
    {
        let ghost prior = out@;
        let row = &q[i];
        proof {
            assert(q@.take(i + 1).drop_last() =~= q@.take(i as int));
            assert(q@.take(i + 1).last() == *row);
        }
        if match_texts(filter, row.event.text.as_str()) {
            let event = SignedEvent {
                id: row.event.id,
                created_at: row.event.created_at,
                sig: row.event.sig,
                text: row.event.text.clone(),
            };
            let body = row_from_stored_event(event, row.signature_state, row.observed_relays.copy());
            out.push(body);
            assert(rows_text(out@) =~= rows_text(prior).push(body@));
        }
        i = i + 1;
    }
    assert(q@.take(i as int) =~= q@);
    out
}

fn match_ids(filter: &str, q: &Vec<SignedEvent>) -> (out: Vec<EventId>)
    ensures
        out@ == seen_ids(q@, filter@),
{
    let mut out: Vec<EventId> = Vec::new();
    let mut i: usize = 0;
    assert(q@.take(0) =~= Seq::<SignedEvent>::empty());
    while i < q.len()
        invariant
            i <= q@.len(),
            out@ == seen_ids(q@.take(i as int), filter@),
        decreases q@.len() - i,
    {
        proof {
            assert(q@.take(i + 1).drop_last() =~= q@.take(i as int));
            assert(q@.take(i + 1).last() == q@[i as int]);
        }
        if match_texts(filter, q[i].text.as_str()) {
            out.push(q[i].id);
        }
        i = i + 1;
    }
    assert(q@.take(i as int) =~= q@);
    out
}

/// The part of a committed change that the query with the given filter sees.
pub fn match_changes(filter: &str, changes: &CommittedRowChanges) -> (r: MatchedChanges)
    ensures
        r@ == seen_changes(*changes, filter@),
{
    MatchedChanges {
        removed: match_ids(filter, &changes.removed),
        inserted: match_rows(filter, &changes.inserted),
        provenance_grew: match_rows(filter, &changes.provenance_grew),
        updated: match_rows(filter, &changes.updated),
    }
}

/// A query sees of a list exactly the rows whose events its filter takes, in their
/// order, each with what the committed row says.
pub proof fn query_sees_what_its_filter_takes(q: Seq<CommittedCurrentRow>, filter: Seq<char>)
    ensures
        seen_rows(q, filter) == q.filter(
            |r: CommittedCurrentRow| filter_takes(filter, r.event.text@),
        ).map_values(
            |r: CommittedCurrentRow|
                RowView {
                    id: r.event.id,
                    created_at: r.event.created_at,
                    text: r.event.text@,
                    signature: match r.signature_state {
                        SigState::Pending => crate::rows::RowSignature::Pending,
                        SigState::Signed => crate::rows::RowSignature::Signed(r.event.sig),
                    },
                    sources: r.observed_relays@,
                },
        ),
    decreases q.len(),
{
    reveal(Seq::filter);
    let takes = |r: CommittedCurrentRow| filter_takes(filter, r.event.text@);
    let says = |r: CommittedCurrentRow|
        RowView {
            id: r.event.id,
            created_at: r.event.created_at,
            text: r.event.text@,
            signature: match r.signature_state {
                SigState::Pending => crate::rows::RowSignature::Pending,
                SigState::Signed => crate::rows::RowSignature::Signed(r.event.sig),
            },
            sources: r.observed_relays@,
        };
    if q.len() > 0 {
        query_sees_what_its_filter_takes(q.drop_last(), filter);
        let rest = q.drop_last().filter(takes);
        if takes(q.last()) {
            assert(rest.push(q.last()).map_values(says) =~= rest.map_values(says).push(says(q.last())));
        }
    }
    assert(seen_rows(q, filter) =~= q.filter(takes).map_values(says));
}

/// A query sees the removal of exactly the events that its filter takes, in their
/// order.
pub proof fn query_sees_its_removals(q: Seq<SignedEvent>, filter: Seq<char>)
    ensures
        seen_ids(q, filter) == q.filter(|e: SignedEvent| filter_takes(filter, e.text@)).map_values(
            |e: SignedEvent| e.id,
        ),
    decreases q.len(),
{
    reveal(Seq::filter);
    let takes = |e: SignedEvent| filter_takes(filter, e.text@);
    let says = |e: SignedEvent| e.id;
    if q.len() > 0 {
        query_sees_its_removals(q.drop_last(), filter);
        let rest = q.drop_last().filter(takes);
        if takes(q.last()) {
            assert(rest.push(q.last()).map_values(says) =~= rest.map_values(says).push(says(q.last())));
        }
    }
    assert(seen_ids(q, filter) =~= q.filter(takes).map_values(says));
}

/// A query sees of each part of a change its own part: of what is removed, of what is
/// inserted, of what has grown and of what is restated.
pub proof fn parts_of_a_change_stay_apart(changes: CommittedRowChanges, filter: Seq<char>)
    ensures
        seen_changes(changes, filter).removed == seen_ids(changes.removed@, filter),
        seen_changes(changes, filter).inserted == seen_rows(changes.inserted@, filter),
        seen_changes(changes, filter).grew == seen_rows(changes.provenance_grew@, filter),
        seen_changes(changes, filter).updated == seen_rows(changes.updated@, filter),
{
}

} // verus!
