//! Rows, what is remembered of the rows last delivered, and the difference
//! between two deliveries.

use std::cmp::Ordering;
use vstd::prelude::*;

use crate::ids::{EventId, Relay};
use crate::key::{
    is_listing, lemma_listing_members, lemma_listing_of, lemma_pair_order, lemma_push_contains,
    listing_of, Key, Pair,
};
use crate::sorted::{SortedMap, SortedSet};

verus! {

/// A 64-byte event signature, by its four quarters.
#[derive(Clone, Copy, Debug, PartialEq, Eq, Structural)]
pub struct EventSignature {
    pub r_hi: u128,
    pub r_lo: u128,
    pub s_hi: u128,
    pub s_lo: u128,
}

/// Whether the store holds a signature for an event.
#[derive(Clone, Copy, Debug, PartialEq, Eq, Structural)]
pub enum SigState {
    Pending,
    Signed,
}

/// What a row says of its signature.
#[derive(Clone, Copy, Debug, PartialEq, Eq, Structural)]
pub enum RowSignature {
    Pending,
    Signed(EventSignature),
}

/// One event as it stands in the store, with its full text.
#[derive(Debug)]
pub struct SignedEvent {
    pub id: EventId,
    pub created_at: u64,
    pub sig: EventSignature,
    pub text: String,
}

/// One delivered row.
#[derive(Debug)]
pub struct Row {
    pub id: EventId,
    pub created_at: u64,
    pub text: String,
    pub signature: RowSignature,
    pub sources: SortedSet<Relay>,
}

/// What a row says.
pub struct RowView {
    pub id: EventId,
    pub created_at: u64,
    pub text: Seq<char>,
    pub signature: RowSignature,
    pub sources: Set<Relay>,
}

impl View for Row {
    type V = RowView;

    open spec fn view(&self) -> RowView {
        RowView {
            id: self.id,
            created_at: self.created_at,
            text: self.text@,
            signature: self.signature,
            sources: self.sources@,
        }
    }
}

/// What a row says of the signature of an event in a given store state.
pub open spec fn signature_of(sig: EventSignature, state: SigState) -> RowSignature {
    match state {
        SigState::Pending => RowSignature::Pending,
        SigState::Signed => RowSignature::Signed(sig),
    }
}

pub fn row_signature_from_store_state(event: &SignedEvent, state: SigState) -> (r: RowSignature)
    ensures
        r == signature_of(event.sig, state),
{
    match state {
        SigState::Pending => RowSignature::Pending,
        SigState::Signed => RowSignature::Signed(event.sig),
    }
}

/// The row of a stored event.
pub fn row_from_stored_event(
    event: SignedEvent,
    signature_state: SigState,
    sources: SortedSet<Relay>,
) -> (r: Row)
    ensures
        r@ == (RowView {
            id: event.id,
            created_at: event.created_at,
            text: event.text@,
            signature: signature_of(event.sig, signature_state),
            sources: sources@,
        }),
{
    let signature = row_signature_from_store_state(&event, signature_state);
    Row { id: event.id, created_at: event.created_at, text: event.text, signature, sources }
}

impl Row {
    /// Another row that says the same.
    pub fn copy(&self) -> (r: Row)
        ensures
            r@ == self@,
    {
        Row {
            id: self.id,
            created_at: self.created_at,
            text: self.text.clone(),
            signature: self.signature,
            sources: self.sources.copy(),
        }
    }
}

/// What is remembered of a delivered row: enough to tell what changed.
#[derive(Debug)]
pub struct RememberedRow {
    pub created_at: u64,
    pub signature_state: RowSignature,
    pub sources: SortedSet<Relay>,
}

/// What a remembered row says.
pub struct RememberedView {
    pub created_at: u64,
    pub signature: RowSignature,
    pub sources: Set<Relay>,
}

impl View for RememberedRow {
    type V = RememberedView;

    open spec fn view(&self) -> RememberedView {
        RememberedView {
            created_at: self.created_at,
            signature: self.signature_state,
            sources: self.sources@,
        }
    }
}

/// What is remembered of a row.
pub open spec fn remember(row: RowView) -> RememberedView {
    RememberedView { created_at: row.created_at, signature: row.signature, sources: row.sources }
}

pub type RowsView = Map<EventId, RememberedView>;

/// One change to what has been delivered.
#[derive(Debug)]
pub enum RowDelta {
    Added(Row),
    Updated(Row),
    SourcesGrew { id: EventId, sources: SortedSet<Relay> },
    Removed(EventId),
}

/// What a change says.
pub enum RowDeltaView {
    Added(RowView),
    Updated(RowView),
    SourcesGrew(EventId, Set<Relay>),
    Removed(EventId),
}

impl View for RowDelta {
    type V = RowDeltaView;

    open spec fn view(&self) -> RowDeltaView {
        match self {
            RowDelta::Added(row) => RowDeltaView::Added(row@),
            RowDelta::Updated(row) => RowDeltaView::Updated(row@),
            RowDelta::SourcesGrew { id, sources } => RowDeltaView::SourcesGrew(*id, sources@),
            RowDelta::Removed(id) => RowDeltaView::Removed(*id),
        }
    }
}

/// What a list of changes says.
pub open spec fn deltas_view(deltas: Seq<RowDelta>) -> Seq<RowDeltaView> {
    Seq::new(deltas.len(), |i: int| deltas[i]@)
}

pub proof fn lemma_deltas_push(deltas: Seq<RowDelta>, d: RowDelta)
    ensures
        deltas_view(deltas.push(d)) == deltas_view(deltas).push(d@),
{
    assert(deltas_view(deltas.push(d)) =~= deltas_view(deltas).push(d@));
}

/// `a` stands before `b` when rows are listed newest first: by date, and by
/// event id where the dates are equal.
pub open spec fn newer_first(a: (u64, EventId), b: (u64, EventId)) -> bool {
    a.0 > b.0 || (a.0 == b.0 && a.1.rank() < b.1.rank())
}

/// The canonical newest-first order of rows.
pub fn nip01_newest_first(a: (u64, EventId), b: (u64, EventId)) -> (r: Ordering)
    ensures
        r == (if newer_first(a, b) {
            Ordering::Less
        } else if newer_first(b, a) {
            Ordering::Greater
        } else {
            Ordering::Equal
        }),
        r is Equal <==> a == b,
{
    proof {
        if a.1.rank() == b.1.rank() {
            EventId::rank_injective(a.1, b.1);
        }
    }
    if a.0 > b.0 {
        Ordering::Less
    } else if a.0 < b.0 {
        Ordering::Greater
    } else if a.1.precedes(&b.1) {
        Ordering::Less
    } else if b.1.precedes(&a.1) {
        Ordering::Greater
    } else {
        Ordering::Equal
    }
}

/// The newest-first order is total and strict.
pub proof fn newest_first_is_a_total_order(
    a: (u64, EventId),
    b: (u64, EventId),
    c: (u64, EventId),
)
    ensures
        !newer_first(a, a),
        newer_first(a, b) && newer_first(b, c) ==> newer_first(a, c),
        a != b ==> newer_first(a, b) || newer_first(b, a),
{
    if a.1.rank() == b.1.rank() {
        EventId::rank_injective(a.1, b.1);
    }
}

/// A row's place in the newest-first order.
#[derive(Clone, Copy, Debug, PartialEq, Eq, Structural)]
struct NewestFirst {
    created_at: u64,
    id: EventId,
}

spec fn age(created_at: u64) -> u64 {
    (u64::MAX - created_at) as u64
}

impl Key for NewestFirst {
    closed spec fn rank(self) -> int {
        Pair(age(self.created_at), self.id).rank()
    }

    closed spec fn bound() -> int {
        <Pair<u64, EventId> as Key>::bound()
    }

    proof fn rank_in_bound(a: Self) {
        <Pair<u64, EventId> as Key>::rank_in_bound(Pair(age(a.created_at), a.id));
    }

    proof fn rank_injective(a: Self, b: Self) {
        <Pair<u64, EventId> as Key>::rank_injective(
            Pair(age(a.created_at), a.id),
            Pair(age(b.created_at), b.id),
        );
    }

    fn precedes(&self, other: &Self) -> (b: bool) {
        Pair(u64::MAX - self.created_at, self.id).precedes(
            &Pair(u64::MAX - other.created_at, other.id),
        )
    }
}

proof fn lemma_newest_rank(a: NewestFirst, b: NewestFirst)
    ensures
        (a.rank() < b.rank()) == newer_first((a.created_at, a.id), (b.created_at, b.id)),
{
    lemma_pair_order(Pair(age(a.created_at), a.id), Pair(age(b.created_at), b.id));
}

/// The rows of a set of dated rows that stand before one of them.
pub open spec fn newer_than(dates: Map<EventId, u64>, id: EventId) -> Set<EventId> {
    Set::new(
        |x: EventId| dates.contains_key(x) && newer_first((dates[x], x), (dates[id], id)),
    )
}

/// The `limit` newest of a set of dated rows: those with fewer than `limit`
/// before them.
pub open spec fn newest(dates: Map<EventId, u64>, limit: nat) -> Set<EventId> {
    Set::new(|id: EventId| dates.contains_key(id) && newer_than(dates, id).len() < limit)
}

/// The dates of remembered rows.
pub open spec fn dates_of(rows: RowsView) -> Map<EventId, u64> {
    rows.map_values(|r: RememberedView| r.created_at)
}

/// The newest of a set of dated rows, as a set.
pub fn newest_ids(dates: &SortedMap<EventId, u64>, limit: usize) -> (keep: SortedSet<EventId>)
    ensures
        keep@ == newest(dates@, limit as nat),
{
    let n = dates.len();
    let ghost ids = dates.keys();
    let mut order: SortedSet<NewestFirst> = SortedSet::new();
    let mut i: usize = 0;
    while i < n
        invariant
            i <= n,
            n == ids.len(),
            ids == dates.keys(),
            is_listing(ids, dates@.dom()),
            forall|e: NewestFirst| #[trigger]
                order@.contains(e) <==> ids.take(i as int).contains(e.id) && e.created_at
                    == dates@[e.id],
        decreases n - i,
    {
        let id = dates.key_at(i);
        let created_at = *dates.value_at(i);
        proof {
            assert(ids.take(i + 1) =~= ids.take(i as int).push(id));
            lemma_push_contains(ids.take(i as int), id);
        }
        order.insert(NewestFirst { created_at, id });
        i = i + 1;
    }
    proof {
        assert(ids.take(n as int) =~= ids);
        lemma_listing_members(ids, dates@.dom());
    }
    let ranked = order.list();
    let ghost q = ranked@;
    let mut keep: SortedSet<EventId> = SortedSet::new();
    let mut k: usize = 0;
    while k < ranked.len() && k < limit
        invariant
            k <= ranked@.len(),
            k <= limit,
            q == ranked@,
            forall|id: EventId| #[trigger]
                keep@.contains(id) <==> exists|j: int| 0 <= j < k && (#[trigger] q[j]).id == id,
        decreases ranked@.len() - k,
    {
        let id = ranked[k].id;
        let ghost prior = keep@;
        keep.insert(id);
        assert forall|x: EventId| #[trigger] keep@.contains(x) <==> exists|j: int|
            0 <= j < k + 1 && (#[trigger] q[j]).id == x by {
            if prior.contains(x) {
                let j = choose|j: int| 0 <= j < k && (#[trigger] q[j]).id == x;
                assert(q[j].id == x);
            }
            if x == id {
                assert(q[k as int].id == x);
            }
        }
        k = k + 1;
    }
    proof {
        assert forall|id: EventId| keep@.contains(id) <==> newest(dates@, limit as nat).contains(id) by {
            if keep@.contains(id) {
                let j = choose|j: int| 0 <= j < k && (#[trigger] q[j]).id == id;
                assert(order@.contains(q[j]));
                lemma_place_counts(dates@, q, order@, j);
            }
            if newest(dates@, limit as nat).contains(id) {
                let e = NewestFirst { created_at: dates@[id], id };
                assert(ids.contains(id));
                assert(order@.contains(e));
                let j = choose|j: int| 0 <= j < q.len() && q[j] == e;
                assert(q.contains(e));
                lemma_place_counts(dates@, q, order@, j);
                assert(q[j].id == id);
            }
        }
        assert(keep@ =~= newest(dates@, limit as nat));
    }
    keep
}

/// A row's place in the newest-first list is the number of rows before it.
proof fn lemma_place_counts(
    dates: Map<EventId, u64>,
    q: Seq<NewestFirst>,
    order: Set<NewestFirst>,
    j: int,
)
    requires
        is_listing(q, order),
        forall|e: NewestFirst| #[trigger]
            order.contains(e) <==> dates.contains_key(e.id) && e.created_at == dates[e.id],
        0 <= j < q.len(),
    ensures
        newer_than(dates, q[j].id).len() == j,
        newer_than(dates, q[j].id).finite(),
{
    let before = q.take(j);
    let ids = Seq::new(before.len(), |i: int| before[i].id);
    assert(order.contains(q[j]));
    assert forall|a: int, b: int| 0 <= a < b < ids.len() implies ids[a] != ids[b] by {
        assert(order.contains(q[a]) && order.contains(q[b]));
        assert(q[a].rank() < q[b].rank());
    }
    assert(ids.no_duplicates());
    ids.unique_seq_to_set();
    vstd::seq_lib::seq_to_set_is_finite(ids);
    let newer = newer_than(dates, q[j].id);
    assert forall|x: EventId| newer.contains(x) <==> ids.to_set().contains(x) by {
        if newer.contains(x) {
            let e = NewestFirst { created_at: dates[x], id: x };
            assert(order.contains(e));
            let i = choose|i: int| 0 <= i < q.len() && q[i] == e;
            assert(q.contains(e));
            lemma_newest_rank(e, q[j]);
            if i > j {
                assert(q[j].rank() < q[i].rank());
            }
            assert(i < j);
            assert(ids[i] == x);
            assert(ids.contains(x));
        }
        if ids.to_set().contains(x) {
            let i = choose|i: int| 0 <= i < ids.len() && ids[i] == x;
            assert(q[i].rank() < q[j].rank());
            lemma_newest_rank(q[i], q[j]);
            assert(order.contains(q[i]));
        }
    }
    assert(newer =~= ids.to_set());
}

/// What is remembered of every delivered row.
#[derive(Debug)]
pub struct RememberedRows {
    rows: SortedMap<EventId, RememberedRow>,
}

spec fn seen(m: Map<EventId, RememberedRow>) -> RowsView {
    m.map_values(|r: RememberedRow| r@)
}

impl View for RememberedRows {
    type V = RowsView;

    closed spec fn view(&self) -> RowsView {
        seen(self.rows@)
    }
}

/// What a row that grows in provenance is remembered as.
pub open spec fn grown(old: RememberedView, row: RowView) -> RememberedView {
    RememberedView {
        created_at: old.created_at,
        signature: row.signature,
        sources: old.sources.union(row.sources),
    }
}

/// What a row that is restated is remembered as.
pub open spec fn restated(old: RememberedView, row: RowView) -> RememberedView {
    RememberedView { created_at: old.created_at, signature: row.signature, sources: row.sources }
}

impl RememberedRows {
    pub fn new() -> (r: Self)
        ensures
            r@ == Map::<EventId, RememberedView>::empty(),
    {
        let r = RememberedRows { rows: SortedMap::new() };
        assert(r@ =~= Map::<EventId, RememberedView>::empty());
        r
    }

    pub fn len(&self) -> (n: usize)
        ensures
            n == self@.len(),
            self@.dom().finite(),
    {
        assert(self@.dom() =~= self.rows@.dom());
        self.rows.len()
    }

    pub fn contains(&self, id: &EventId) -> (b: bool)
        ensures
            b == self@.contains_key(*id),
    {
        self.rows.contains(id)
    }

    pub fn get(&self, id: &EventId) -> (r: Option<&RememberedRow>)
        ensures
            match r {
                Some(row) => self@.contains_key(*id) && row@ == self@[*id],
                None => !self@.contains_key(*id),
            },
    {
        self.rows.get(id)
    }

    /// The delivered ids, in rising order.
    pub fn ids(&self) -> (q: Vec<EventId>)
        ensures
            is_listing(q@, self@.dom()),
            q@ == listing_of(self@.dom()),
    {
        assert(self@.dom() =~= self.rows@.dom());
        let q = self.rows.key_list();
        proof {
            lemma_listing_of(q@, self@.dom());
        }
        q
    }

    pub fn remove(&mut self, id: &EventId) -> (b: bool)
        ensures
            final(self)@ == old(self)@.remove(*id),
            b == old(self)@.contains_key(*id),
    {
        let b = self.rows.remove(id).is_some();
        assert(self@ =~= old(self)@.remove(*id));
        b
    }

    pub fn insert(&mut self, row: &Row)
        ensures
            final(self)@ == old(self)@.insert(row.id, remember(row@)),
    {
        let kept = RememberedRow {
            created_at: row.created_at,
            signature_state: row.signature,
            sources: row.sources.copy(),
        };
        self.rows.insert(row.id, kept);
        assert(self@ =~= old(self)@.insert(row.id, remember(row@)));
    }

    /// Puts what is remembered of one row in place of what was.
    fn put(&mut self, id: EventId, row: RememberedRow)
        ensures
            final(self)@ == old(self)@.insert(id, row@),
    {
        self.rows.insert(id, row);
        assert(self@ =~= old(self)@.insert(id, row@));
    }

    /// Takes on the sources and the signature of a row that is remembered.
    /// Says whether the signature changed and whether a source is new.
    pub fn grow(&mut self, row: &Row) -> (r: Option<(bool, bool)>)
        ensures
            match r {
                None => !old(self)@.contains_key(row.id) && final(self)@ == old(self)@,
                Some((resigned, widened)) => {
                    let prior = old(self)@[row.id];
                    &&& old(self)@.contains_key(row.id)
                    &&& final(self)@ == old(self)@.insert(row.id, grown(prior, row@))
                    &&& resigned == (prior.signature != row.signature)
                    &&& widened == !row@.sources.subset_of(prior.sources)
                },
            },
    {
        match self.rows.remove(&row.id) {
            None => {
                assert(self@ =~= old(self)@);
                None
            },
            Some(prior) => {
                let resigned = prior.signature_state != row.signature;
                let widened = !row.sources.is_subset(&prior.sources);
                let mut sources = prior.sources;
                sources.extend(&row.sources);
                self.put(
                    row.id,
                    RememberedRow {
                        created_at: prior.created_at,
                        signature_state: row.signature,
                        sources,
                    },
                );
                assert(self@ =~= old(self)@.insert(row.id, grown(old(self)@[row.id], row@)));
                Some((resigned, widened))
            },
        }
    }

    /// Restates the sources and the signature of a row that is remembered.
    pub fn restate(&mut self, row: &Row) -> (b: bool)
        ensures
            b == old(self)@.contains_key(row.id),
            !b ==> final(self)@ == old(self)@,
            b ==> final(self)@ == old(self)@.insert(row.id, restated(old(self)@[row.id], row@)),
    {
        match self.rows.remove(&row.id) {
            None => {
                assert(self@ =~= old(self)@);
                false
            },
            Some(prior) => {
                self.put(
                    row.id,
                    RememberedRow {
                        created_at: prior.created_at,
                        signature_state: row.signature,
                        sources: row.sources.copy(),
                    },
                );
                assert(self@ =~= old(self)@.insert(row.id, restated(old(self)@[row.id], row@)));
                true
            },
        }
    }

    /// Another memory of the same rows.
    pub fn copy(&self) -> (r: RememberedRows)
        ensures
            r@ == self@,
    {
        let ids = self.ids();
        let mut r = RememberedRows::new();
        let mut i: usize = 0;
        while i < ids.len()
            invariant
                i <= ids@.len(),
                is_listing(ids@, self@.dom()),
                forall|x: EventId| #[trigger]
                    r@.contains_key(x) <==> ids@.take(i as int).contains(x),
                forall|x: EventId| #[trigger] r@.contains_key(x) ==> r@[x] == self@[x],
            decreases ids@.len() - i,
        {
            let id = ids[i];
            proof {
                assert(ids@.take(i + 1) =~= ids@.take(i as int).push(id));
                lemma_push_contains(ids@.take(i as int), id);
                assert(self@.dom().contains(ids@[i as int]));
            }
            if let Some(row) = self.rows.get(&id) {
                r.put(
                    id,
                    RememberedRow {
                        created_at: row.created_at,
                        signature_state: row.signature_state,
                        sources: row.sources.copy(),
                    },
                );
            }
            i = i + 1;
        }
        proof {
            assert(ids@.take(i as int) =~= ids@);
            lemma_listing_members(ids@, self@.dom());
            assert(r@ =~= self@);
        }
        r
    }

    /// Whether both remember the same.
    pub fn equals(&self, other: &RememberedRows) -> (b: bool)
        ensures
            b == (self@ == other@),
    {
        if self.len() != other.len() {
            return false;
        }
        let ids = self.ids();
        let mut i: usize = 0;
        while i < ids.len()
            invariant
                i <= ids@.len(),
                is_listing(ids@, self@.dom()),
                forall|j: int|
                    0 <= j < i ==> other@.contains_key(#[trigger] ids@[j]) && other@[ids@[j]]
                        == self@[ids@[j]],
            decreases ids@.len() - i,
        {
            let id = ids[i];
            assert(self@.dom().contains(ids@[i as int]));
            match (self.rows.get(&id), other.rows.get(&id)) {
                (Some(a), Some(b)) => {
                    if a.created_at != b.created_at || a.signature_state != b.signature_state
                        || !a.sources.equals(&b.sources) {
                        assert(self@[id] != other@[id]);
                        return false;
                    }
                },
                _ => {
                    assert(!other@.dom().contains(id));
                    return false;
                },
            }
            i = i + 1;
        }
        let _n = other.len();
        proof {
            lemma_listing_members(ids@, self@.dom());
            assert(self@.dom().subset_of(other@.dom())) by {
                assert forall|x: EventId| self@.dom().contains(x) implies other@.dom().contains(x) by {
                    assert(ids@.contains(x));
                    let j = choose|j: int| 0 <= j < ids@.len() && ids@[j] == x;
                    assert(other@.contains_key(ids@[j]));
                }
            }
            vstd::set_lib::lemma_subset_equality(self@.dom(), other@.dom());
            assert forall|x: EventId| self@.contains_key(x) implies self@[x] == other@[x] by {
                assert(ids@.contains(x));
                let j = choose|j: int| 0 <= j < ids@.len() && ids@[j] == x;
                assert(other@[ids@[j]] == self@[ids@[j]]);
            }
            assert(self@ =~= other@);
        }
        true
    }

    /// The dates of the remembered rows.
    pub fn dates(&self) -> (r: SortedMap<EventId, u64>)
        ensures
            r@ == dates_of(self@),
    {
        let ids = self.ids();
        let mut r: SortedMap<EventId, u64> = SortedMap::new();
        let mut i: usize = 0;
        while i < ids.len()
            invariant
                i <= ids@.len(),
                is_listing(ids@, self@.dom()),
                forall|x: EventId| #[trigger]
                    r@.contains_key(x) <==> ids@.take(i as int).contains(x),
                forall|x: EventId| #[trigger] r@.contains_key(x) ==> r@[x] == self@[x].created_at,
            decreases ids@.len() - i,
        {
            let id = ids[i];
            proof {
                assert(ids@.take(i + 1) =~= ids@.take(i as int).push(id));
                lemma_push_contains(ids@.take(i as int), id);
                assert(self@.dom().contains(ids@[i as int]));
            }
            if let Some(row) = self.rows.get(&id) {
                r.insert(id, row.created_at);
            }
            i = i + 1;
        }
        proof {
            assert(ids@.take(i as int) =~= ids@);
            lemma_listing_members(ids@, self@.dom());
            assert(r@ =~= dates_of(self@));
        }
        r
    }

    /// Keeps the newest rows only, and at most `limit` of them.
    pub fn keep_newest(&mut self, limit: usize)
        ensures
            final(self)@ == newest_rows(old(self)@, limit as nat),
    {
        let ghost before = self@;
        let dates = self.dates();
        let keep = newest_ids(&dates, limit);
        let ids = self.ids();
        let mut i: usize = 0;
        while i < ids.len()
            invariant
                i <= ids@.len(),
                is_listing(ids@, before.dom()),
                forall|x: EventId| #[trigger]
                    self@.contains_key(x) <==> before.contains_key(x) && (keep@.contains(x)
                        || !ids@.take(i as int).contains(x)),
                forall|x: EventId| #[trigger] self@.contains_key(x) ==> self@[x] == before[x],
            decreases ids@.len() - i,
        {
            let id = ids[i];
            proof {
                assert(ids@.take(i + 1) =~= ids@.take(i as int).push(id));
                lemma_push_contains(ids@.take(i as int), id);
            }
            if !keep.contains(&id) {
                self.remove(&id);
            }
            i = i + 1;
        }
        proof {
            assert(ids@.take(i as int) =~= ids@);
            lemma_listing_members(ids@, before.dom());
            assert(dates_of(before).dom() =~= before.dom());
            assert(self@ =~= newest_rows(before, limit as nat));
        }
    }
}

/// The `limit` newest of a set of remembered rows.
pub open spec fn newest_rows(rows: RowsView, limit: nat) -> RowsView {
    rows.restrict(newest(dates_of(rows), limit))
}

/// A window never holds more rows than its limit.
pub proof fn window_is_bounded(rows: RowsView, limit: nat)
    requires
        rows.dom().finite(),
    ensures
        newest_rows(rows, limit).len() <= limit,
        rows.len() <= limit ==> newest_rows(rows, limit) == rows,
{
    assert(dates_of(rows).dom() =~= rows.dom());
    lemma_newest_is_bounded(dates_of(rows), limit);
    assert(newest_rows(rows, limit).dom() =~= newest(dates_of(rows), limit));
    if rows.len() <= limit {
        assert(newest_rows(rows, limit) =~= rows);
    }
}

/// The oldest of a finite, non-empty set of dated rows.
proof fn lemma_oldest(dates: Map<EventId, u64>) -> (o: EventId)
    requires
        dates.dom().finite(),
        dates.dom().len() > 0,
    ensures
        dates.contains_key(o),
        forall|x: EventId| #[trigger]
            dates.contains_key(x) && x != o ==> newer_first((dates[x], x), (dates[o], o)),
    decreases dates.dom().len(),
{
    let a = dates.dom().choose();
    let rest = dates.remove(a);
    if rest.dom().len() == 0 {
        assert forall|x: EventId| #[trigger] dates.contains_key(x) && x != a implies newer_first(
            (dates[x], x),
            (dates[a], a),
        ) by {
            assert(rest.dom().contains(x));
        }
        a
    } else {
        let b = lemma_oldest(rest);
        if newer_first((dates[a], a), (dates[b], b)) {
            assert forall|x: EventId| #[trigger] dates.contains_key(x) && x != b implies newer_first(
                (dates[x], x),
                (dates[b], b),
            ) by {
                if x != a {
                    assert(rest.contains_key(x));
                }
            }
            b
        } else {
            newest_first_is_a_total_order((dates[a], a), (dates[b], b), (dates[a], a));
            assert forall|x: EventId| #[trigger] dates.contains_key(x) && x != a implies newer_first(
                (dates[x], x),
                (dates[a], a),
            ) by {
                if x != b {
                    assert(rest.contains_key(x));
                    newest_first_is_a_total_order((dates[x], x), (dates[b], b), (dates[a], a));
                }
            }
            a
        }
    }
}

/// No more than `limit` rows have fewer than `limit` rows before them.
pub proof fn lemma_newest_is_bounded(dates: Map<EventId, u64>, limit: nat)
    requires
        dates.dom().finite(),
    ensures
        newest(dates, limit).finite(),
        newest(dates, limit).len() <= limit,
        dates.dom().len() <= limit ==> newest(dates, limit) == dates.dom(),
        dates.dom().len() >= limit ==> newest(dates, limit).len() == limit,
    decreases dates.dom().len(),
{
    let top = newest(dates, limit);
    assert(top.subset_of(dates.dom()));
    vstd::set_lib::lemma_set_subset_finite(dates.dom(), top);
    if dates.dom().len() == 0 {
        assert(top =~= dates.dom());
    } else {
        let o = lemma_oldest(dates);
        let rest = dates.remove(o);
        lemma_newest_is_bounded(rest, limit);
        assert(newer_than(dates, o) =~= rest.dom()) by {
            assert forall|x: EventId| newer_than(dates, o).contains(x) <==> rest.dom().contains(x) by {
                if dates.contains_key(x) && x != o {
                    assert(newer_first((dates[x], x), (dates[o], o)));
                }
                newest_first_is_a_total_order((dates[o], o), (dates[o], o), (dates[o], o));
            }
        }
        assert forall|x: EventId| x != o && dates.contains_key(x) implies newer_than(dates, x) == newer_than(
            rest,
            x,
        ) by {
            newest_first_is_a_total_order((dates[x], x), (dates[o], o), (dates[x], x));
            assert(newer_first((dates[x], x), (dates[o], o)));
            assert(newer_than(dates, x) =~= newer_than(rest, x));
        }
        let was = newest(rest, limit);
        assert forall|x: EventId| top.contains(x) <==> was.contains(x) || (x == o && rest.dom().len()
            < limit) by {
            if x != o && dates.contains_key(x) {
                assert(newer_than(dates, x) == newer_than(rest, x));
            }
        }
        if rest.dom().len() < limit {
            assert(top =~= was.insert(o));
            assert(top =~= dates.dom());
        } else {
            assert(top =~= was);
        }
    }
}

/// A row that is seen again keeps its date, takes the signature that was seen last, and
/// gains the relays that it was seen at.
pub proof fn row_seen_again_gains_its_relays(old_row: RememberedView, row: RowView, relay: Relay)
    ensures
        grown(old_row, row).created_at == old_row.created_at,
        grown(old_row, row).signature == row.signature,
        grown(old_row, row).sources.contains(relay) <==> old_row.sources.contains(relay) || row.sources.contains(
            relay,
        ),
{
}

/// Every row is dated by its own date, and nothing else is dated.
pub proof fn rows_keep_their_dates(rows: RowsView, id: EventId)
    ensures
        dates_of(rows).contains_key(id) <==> rows.contains_key(id),
        rows.contains_key(id) ==> dates_of(rows)[id] == rows[id].created_at,
{
}

} // verus!
