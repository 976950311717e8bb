//! Which sessions the current plan reads from, and what is kept for each.

use vstd::prelude::*;

use crate::ids::{PublicKey, Relay, RelaySessionKey};
use crate::key::{
    is_listing, lemma_listing_exists, lemma_listing_members, lemma_listing_of, lemma_push_contains,
    listing_of, strictly_rising, Key,
};
use crate::sorted::{SortedMap, SortedSet};

verus! {

/// What a relay says of itself, as far as the engine goes by it.
#[derive(Debug)]
pub struct RelayInformationCapabilityEvidence {
    pub supported_nips: Option<Vec<u16>>,
    /// How many subscriptions the relay holds open on one connection. None
    /// where it says nothing, which is no number at all.
    pub max_subscriptions: Option<u64>,
    /// The longest subscription id that the relay takes.
    pub max_subid_length: Option<u64>,
    pub document_revision: String,
    /// Until when the document counts as fresh.
    pub fresh_until: u64,
    /// Why the document could not be read the last time.
    pub last_error: Option<String>,
}

/// How a new plan relates to the one before.
#[derive(Clone, Copy, Debug, PartialEq, Eq, Structural)]
pub enum PlanDeltaMode {
    Full,
    Incremental,
}

/// The sessions that the plan reads from.
pub struct PlannedReads {
    sessions: SortedSet<RelaySessionKey>,
    counts_by_relay: SortedMap<Relay, usize>,
    information: SortedMap<Relay, RelayInformationCapabilityEvidence>,
    events_by_session: SortedMap<RelaySessionKey, u64>,
}

/// What is known of the sessions that the plan reads from.
pub struct ReadsView {
    pub sessions: Set<RelaySessionKey>,
    pub information: Map<Relay, RelayInformationCapabilityEvidence>,
    /// How many events each session has given.
    pub events: Map<RelaySessionKey, u64>,
}

/// The sessions of one relay.
pub open spec fn on_relay(sessions: Set<RelaySessionKey>, relay: Relay) -> Set<RelaySessionKey> {
    Set::new(|s: RelaySessionKey| sessions.contains(s) && s.relay == relay)
}

/// Whether any session of a relay is planned.
pub open spec fn relay_planned(sessions: Set<RelaySessionKey>, relay: Relay) -> bool {
    exists|s: RelaySessionKey| #[trigger] sessions.contains(s) && s.relay == relay
}

/// A protected session that has not authenticated yet.
pub open spec fn awaits_auth(ready: Set<RelaySessionKey>, s: RelaySessionKey) -> bool {
    s.authenticate_as is Some && !ready.contains(s)
}

impl ReadsView {
    /// The plan is replaced as a whole.
    pub open spec fn replan(self, planned: Set<RelaySessionKey>) -> ReadsView {
        ReadsView {
            sessions: planned,
            information: self.information.restrict(Set::new(|r: Relay| relay_planned(planned, r))),
            events: self.events.restrict(planned),
        }
    }

    /// One session enters or leaves the plan. What is known of a relay goes
    /// with its last session.
    pub open spec fn touch(self, planned: Set<RelaySessionKey>, s: RelaySessionKey) -> ReadsView {
        if planned.contains(s) && !self.sessions.contains(s) {
            ReadsView { sessions: self.sessions.insert(s), ..self }
        } else if !planned.contains(s) && self.sessions.contains(s) {
            let left = self.sessions.remove(s);
            ReadsView {
                sessions: left,
                information: if relay_planned(left, s.relay) {
                    self.information
                } else {
                    self.information.remove(s.relay)
                },
                events: self.events.remove(s),
            }
        } else {
            self
        }
    }

    pub open spec fn touch_all(self, planned: Set<RelaySessionKey>, q: Seq<RelaySessionKey>) -> ReadsView
        decreases q.len(),
    {
        if q.len() == 0 {
            self
        } else {
            self.touch_all(planned, q.drop_last()).touch(planned, q.last())
        }
    }
}

/// The sessions of a list that enter the plan and still have to authenticate.
pub open spec fn entering(
    v: ReadsView,
    planned: Set<RelaySessionKey>,
    ready: Set<RelaySessionKey>,
    q: Seq<RelaySessionKey>,
) -> Seq<RelaySessionKey>
    decreases q.len(),
{
    if q.len() == 0 {
        Seq::empty()
    } else {
        let before = entering(v, planned, ready, q.drop_last());
        let s = q.last();
        if planned.contains(s) && !v.touch_all(planned, q.drop_last()).sessions.contains(s)
            && awaits_auth(ready, s) {
            before.push(s)
        } else {
            before
        }
    }
}

impl View for PlannedReads {
    type V = ReadsView;

    closed spec fn view(&self) -> ReadsView {
        ReadsView {
            sessions: self.sessions@,
            information: self.information@,
            events: self.events_by_session@,
        }
    }
}

/// The counts say how many planned sessions each relay has.
spec fn counted(counts: Map<Relay, usize>, sessions: Set<RelaySessionKey>) -> bool {
    &&& forall|r: Relay| #[trigger] counts.contains_key(r) <==> relay_planned(sessions, r)
    &&& forall|r: Relay| #[trigger] counts.contains_key(r) ==> counts[r] == on_relay(sessions, r).len()
}

proof fn lemma_on_relay_insert(sessions: Set<RelaySessionKey>, s: RelaySessionKey, r: Relay)
    requires
        sessions.finite(),
    ensures
        on_relay(sessions, r).finite(),
        on_relay(sessions.insert(s), r).finite(),
        on_relay(sessions.insert(s), r).len() == on_relay(sessions, r).len() + if s.relay == r
            && !sessions.contains(s) {
            1int
        } else {
            0int
        },
        on_relay(sessions, r).len() <= sessions.len(),
        on_relay(sessions, r).len() > 0 <==> relay_planned(sessions, r),
{
    let a = on_relay(sessions, r);
    let b = on_relay(sessions.insert(s), r);
    assert(a.subset_of(sessions));
    vstd::set_lib::lemma_set_subset_finite(sessions, a);
    vstd::set_lib::lemma_len_subset(a, sessions);
    if s.relay == r {
        assert(b =~= a.insert(s));
    } else {
        assert(b =~= a);
    }
    if a.len() > 0 {
        let x = a.choose();
        assert(sessions.contains(x));
    }
    if relay_planned(sessions, r) {
        let x = choose|x: RelaySessionKey| #[trigger] sessions.contains(x) && x.relay == r;
        assert(a.contains(x));
    }
}

impl PlannedReads {
    /// The counts by relay agree with the sessions.
    pub closed spec fn wf(&self) -> bool {
        counted(self.counts_by_relay@, self.sessions@)
    }

    pub fn new() -> (r: Self)
        ensures
            r.wf(),
            r@ == (ReadsView { sessions: Set::empty(), information: Map::empty(), events: Map::empty() }),
    {
        PlannedReads {
            sessions: SortedSet::new(),
            counts_by_relay: SortedMap::new(),
            information: SortedMap::new(),
            events_by_session: SortedMap::new(),
        }
    }

    /// One session enters the plan.
    fn enter(&mut self, s: &RelaySessionKey)
        requires
            old(self).wf(),
            !old(self)@.sessions.contains(*s),
        ensures
            final(self).wf(),
            final(self)@ == (ReadsView { sessions: old(self)@.sessions.insert(*s), ..old(self)@ }),
    {
        let ghost before = self.sessions@;
        let ghost counts = self.counts_by_relay@;
        let total = self.sessions.len();
        self.sessions.insert(*s);
        let after = self.sessions.len();
        proof {
            lemma_on_relay_insert(before, *s, s.relay);
            assert(after == total + 1);
        }
        let had: usize = match self.counts_by_relay.get(&s.relay) {
            Some(n) => *n,
            None => 0,
        };
        self.counts_by_relay.insert(s.relay, had + 1);
        proof {
            assert forall|r: Relay| #[trigger] self.counts_by_relay@.contains_key(r) <==> relay_planned(
                self.sessions@,
                r,
            ) by {
                lemma_on_relay_insert(before, *s, r);
                if relay_planned(self.sessions@, r) {
                    let x = choose|x: RelaySessionKey| #[trigger]
                        self.sessions@.contains(x) && x.relay == r;
                    if x != *s {
                        assert(before.contains(x));
                    }
                }
                if counts.contains_key(r) {
                    let x = choose|x: RelaySessionKey| #[trigger] before.contains(x) && x.relay == r;
                    assert(self.sessions@.contains(x));
                }
                if r == s.relay {
                    assert(self.sessions@.contains(*s));
                }
            }
            assert forall|r: Relay| #[trigger] self.counts_by_relay@.contains_key(r) implies self.counts_by_relay@[r]
                == on_relay(self.sessions@, r).len() by {
                lemma_on_relay_insert(before, *s, r);
                if r != s.relay {
                    assert(counts.contains_key(r));
                }
            }
        }
    }

    /// One session leaves the plan, and with a relay's last session what is
    /// known of the relay.
    fn leave(&mut self, s: &RelaySessionKey)
        requires
            old(self).wf(),
            old(self)@.sessions.contains(*s),
        ensures
            final(self).wf(),
            final(self)@ == (ReadsView {
                sessions: old(self)@.sessions.remove(*s),
                information: if relay_planned(old(self)@.sessions.remove(*s), s.relay) {
                    old(self)@.information
                } else {
                    old(self)@.information.remove(s.relay)
                },
                events: old(self)@.events.remove(*s),
            }),
    {
        let ghost before = self.sessions@;
        let ghost counts = self.counts_by_relay@;
        let _total = self.sessions.len();
        self.sessions.remove(s);
        self.events_by_session.remove(s);
        let ghost left = self.sessions@;
        proof {
            lemma_on_relay_insert(left, *s, s.relay);
            assert(left.insert(*s) =~= before);
            assert(before.contains(*s));
            assert(counts.contains_key(s.relay));
        }
        let had: usize = match self.counts_by_relay.get(&s.relay) {
            Some(n) => *n,
            None => 1,
        };
        if had == 1 {
            self.counts_by_relay.remove(&s.relay);
            self.information.remove(&s.relay);
        } else {
            self.counts_by_relay.insert(s.relay, had - 1);
        }
        proof {
            assert forall|r: Relay| #[trigger] self.counts_by_relay@.contains_key(r) <==> relay_planned(
                left,
                r,
            ) by {
                lemma_on_relay_insert(left, *s, r);
                lemma_on_relay_insert(before, *s, r);
                if r != s.relay {
                    assert(counts.contains_key(r) <==> relay_planned(before, r));
                }
            }
            assert forall|r: Relay| #[trigger] self.counts_by_relay@.contains_key(r) implies self.counts_by_relay@[r]
                == on_relay(left, r).len() by {
                lemma_on_relay_insert(left, *s, r);
                if r != s.relay {
                    assert(counts.contains_key(r));
                }
            }
        }
    }

    /// The sessions that were touched enter or leave the plan. Gives back those
    /// that enter it and still have to authenticate.
    pub fn apply_incremental(
        &mut self,
        planned: &SortedSet<RelaySessionKey>,
        touched: &SortedSet<RelaySessionKey>,
        ready: &SortedSet<RelaySessionKey>,
    ) -> (ensure: Vec<RelaySessionKey>)
        requires
            old(self).wf(),
        ensures
            final(self).wf(),
            final(self)@ == old(self)@.touch_all(planned@, listing_of(touched@)),
            ensure@ == entering(old(self)@, planned@, ready@, listing_of(touched@)),
    {
        let ghost v = self@;
        let list = touched.list();
        let ghost q = list@;
        let mut ensure: Vec<RelaySessionKey> = Vec::new();
        let mut i: usize = 0;
        proof {
            lemma_listing_of(q, touched@);
            assert(q.take(0) =~= Seq::<RelaySessionKey>::empty());
        }
        while i < list.len()
            invariant
                i <= q.len(),
                q == list@,
                self.wf(),
                self@ == v.touch_all(planned@, q.take(i as int)),
                ensure@ == entering(v, planned@, ready@, q.take(i as int)),
            decreases q.len() - i,
        {
            let session = list[i];
            proof {
                assert(q.take(i + 1).drop_last() =~= q.take(i as int));
                assert(q.take(i + 1).last() == session);
            }
            let now = planned.contains(&session);
            let known = self.sessions.contains(&session);
            if now && !known {
                self.enter(&session);
                if session.authenticate_as.is_some() && !ready.contains(&session) {
                    ensure.push(session);
                }
            } else if !now && known {
                self.leave(&session);
            }
            i = i + 1;
        }
        assert(q.take(i as int) =~= q);
        ensure
    }

    /// The plan is replaced as a whole. Gives back its sessions that still have
    /// to authenticate.
    pub fn apply_full(
        &mut self,
        planned: &SortedSet<RelaySessionKey>,
        ready: &SortedSet<RelaySessionKey>,
    ) -> (ensure: Vec<RelaySessionKey>)
        requires
            old(self).wf(),
        ensures
            final(self).wf(),
            final(self)@ == old(self)@.replan(planned@),
            is_listing(
                ensure@,
                Set::new(|s: RelaySessionKey| planned@.contains(s) && awaits_auth(ready@, s)),
            ),
    {
        let ghost v = self@;
        let mut next = PlannedReads::new();
        let list = planned.list();
        let mut pending: SortedSet<RelaySessionKey> = SortedSet::new();
        let mut i: usize = 0;
        proof {
            lemma_listing_members(list@, planned@);
        }
        while i < list.len()
            invariant
                i <= list@.len(),
                is_listing(list@, planned@),
                next.wf(),
                next@.information == Map::<Relay, RelayInformationCapabilityEvidence>::empty(),
                next@.events == Map::<RelaySessionKey, u64>::empty(),
                forall|s: RelaySessionKey| #[trigger]
                    next@.sessions.contains(s) <==> list@.take(i as int).contains(s),
                forall|s: RelaySessionKey| #[trigger]
                    pending@.contains(s) <==> list@.take(i as int).contains(s) && awaits_auth(ready@, s),
            decreases list@.len() - i,
        {
            let session = list[i];
            proof {
                assert(list@.take(i + 1) =~= list@.take(i as int).push(session));
                lemma_push_contains(list@.take(i as int), session);
                assert(!list@.take(i as int).contains(session)) by {
                    if list@.take(i as int).contains(session) {
                        let p = list@.take(i as int);
                        let j = choose|j: int| 0 <= j < p.len() && #[trigger] p[j] == session;
                        assert(list@[j].rank() < list@[i as int].rank());
                    }
                }
            }
            next.enter(&session);
            if session.authenticate_as.is_some() && !ready.contains(&session) {
                pending.insert(session);
            }
            i = i + 1;
        }
        proof {
            assert(list@.take(i as int) =~= list@);
            assert(next@.sessions =~= planned@);
            assert(pending@ =~= Set::new(
                |s: RelaySessionKey| planned@.contains(s) && awaits_auth(ready@, s),
            ));
        }
        self.sessions = next.sessions;
        self.counts_by_relay = next.counts_by_relay;
        self.prune();
        pending.list()
    }

    /// Forgets what is known of relays and sessions that are not planned.
    fn prune(&mut self)
        requires
            old(self).wf(),
        ensures
            final(self).wf(),
            final(self)@ == old(self)@.replan(old(self)@.sessions),
    {
        let ghost v = self@;
        let relays = self.information.key_list();
        let mut i: usize = 0;
        while i < relays.len()
            invariant
                i <= relays@.len(),
                is_listing(relays@, v.information.dom()),
                self.wf(),
                self@.sessions == v.sessions,
                self.events_by_session@ == v.events,
                forall|r: Relay| #[trigger]
                    self.information@.contains_key(r) <==> v.information.contains_key(r) && (relay_planned(
                        v.sessions,
                        r,
                    ) || !relays@.take(i as int).contains(r)),
                forall|r: Relay| #[trigger]
                    self.information@.contains_key(r) ==> self.information@[r] == v.information[r],
            decreases relays@.len() - i,
        {
            let relay = relays[i];
            proof {
                assert(relays@.take(i + 1) =~= relays@.take(i as int).push(relay));
                lemma_push_contains(relays@.take(i as int), relay);
            }
            if !self.counts_by_relay.contains(&relay) {
                self.information.remove(&relay);
            }
            i = i + 1;
        }
        let sessions = self.events_by_session.key_list();
        let mut j: usize = 0;
        let ghost mid = self.information@;
        while j < sessions.len()
            invariant
                j <= sessions@.len(),
                is_listing(sessions@, v.events.dom()),
                self.wf(),
                self@.sessions == v.sessions,
                self.information@ == mid,
                forall|s: RelaySessionKey| #[trigger]
                    self.events_by_session@.contains_key(s) <==> v.events.contains_key(s) && (v.sessions.contains(s)
                        || !sessions@.take(j as int).contains(s)),
                forall|s: RelaySessionKey| #[trigger]
                    self.events_by_session@.contains_key(s) ==> self.events_by_session@[s] == v.events[s],
            decreases sessions@.len() - j,
        {
            let session = sessions[j];
            proof {
                assert(sessions@.take(j + 1) =~= sessions@.take(j as int).push(session));
                lemma_push_contains(sessions@.take(j as int), session);
            }
            if !self.sessions.contains(&session) {
                self.events_by_session.remove(&session);
            }
            j = j + 1;
        }
        proof {
            assert(relays@.take(i as int) =~= relays@);
            assert(sessions@.take(j as int) =~= sessions@);
            lemma_listing_members(relays@, v.information.dom());
            lemma_listing_members(sessions@, v.events.dom());
            let want = v.replan(v.sessions);
            assert(self.information@ =~= want.information);
            assert(self.events_by_session@ =~= want.events);
        }
    }

    /// Whether any session of a relay is planned.
    pub fn plans_relay(&self, relay: &Relay) -> (b: bool)
        requires
            self.wf(),
        ensures
            b == relay_planned(self@.sessions, *relay),
    {
        self.counts_by_relay.contains(relay)
    }

    /// Takes on what a relay says of itself.
    pub fn set_information(&mut self, relay: Relay, information: RelayInformationCapabilityEvidence)
        requires
            old(self).wf(),
        ensures
            final(self).wf(),
            final(self)@ == (ReadsView {
                information: old(self)@.information.insert(relay, information),
                ..old(self)@
            }),
    {
        self.information.insert(relay, information);
    }

    /// What a planned relay says of itself.
    pub fn information_of(&self, relay: &Relay) -> (r: Option<&RelayInformationCapabilityEvidence>)
        ensures
            match r {
                Some(information) => self@.information.contains_key(*relay) && *information
                    == self@.information[*relay],
                None => !self@.information.contains_key(*relay),
            },
    {
        self.information.get(relay)
    }

    /// The limits that a relay advertises: how many subscriptions it holds, and
    /// how long an id may be. None where nothing is known.
    pub fn advertised_planning_limits(&self, relay: &Relay) -> (r: (Option<u64>, Option<u64>))
        ensures
            r == (if self@.information.contains_key(*relay) {
                (
                    self@.information[*relay].max_subscriptions,
                    self@.information[*relay].max_subid_length,
                )
            } else {
                (None, None)
            }),
    {
        match self.information.get(relay) {
            Some(information) => (information.max_subscriptions, information.max_subid_length),
            None => (None, None),
        }
    }
}

/// What a relay advertises of its limits, as planning goes by it.
#[derive(Clone, Copy, Debug, PartialEq, Eq, Structural)]
pub struct AdvertisedRelayLimits {
    pub max_subscriptions: Option<usize>,
    pub max_subid_length: Option<usize>,
}

/// A number that is cut off where the machine can count no further.
pub open spec fn fitted(n: Option<u64>) -> Option<usize> {
    match n {
        Some(n) => Some(if n <= usize::MAX {
            n as usize
        } else {
            usize::MAX
        }),
        None => None,
    }
}

fn fit(n: Option<u64>) -> (r: Option<usize>)
    ensures
        r == fitted(n),
{
    match n {
        Some(n) => Some(if n <= usize::MAX as u64 {
            n as usize
        } else {
            usize::MAX
        }),
        None => None,
    }
}

/// The limits that each known relay advertises.
pub open spec fn budget(information: Map<Relay, RelayInformationCapabilityEvidence>) -> Map<
    Relay,
    AdvertisedRelayLimits,
> {
    information.map_values(
        |e: RelayInformationCapabilityEvidence|
            AdvertisedRelayLimits {
                max_subscriptions: fitted(e.max_subscriptions),
                max_subid_length: fitted(e.max_subid_length),
            },
    )
}

impl PlannedReads {
    /// The limits that planning has to keep to, by relay.
    pub fn compile_budget(&self) -> (r: SortedMap<Relay, AdvertisedRelayLimits>)
        ensures
            r@ == budget(self@.information),
    {
        let mut r: SortedMap<Relay, AdvertisedRelayLimits> = SortedMap::new();
        let n = self.information.len();
        let ghost q = self.information.keys();
        let mut i: usize = 0;
        while i < n
            invariant
                i <= n,
                n == q.len(),
                q == self.information.keys(),
                is_listing(q, self.information@.dom()),
                forall|k: Relay| #[trigger] r@.contains_key(k) <==> q.take(i as int).contains(k),
                forall|k: Relay| #[trigger]
                    r@.contains_key(k) ==> r@[k] == (AdvertisedRelayLimits {
                        max_subscriptions: fitted(self.information@[k].max_subscriptions),
                        max_subid_length: fitted(self.information@[k].max_subid_length),
                    }),
            decreases n - i,
        {
            let relay = self.information.key_at(i);
            let evidence = self.information.value_at(i);
            proof {
                assert(q.take(i + 1) =~= q.take(i as int).push(relay));
                lemma_push_contains(q.take(i as int), relay);
            }
            r.insert(
                relay,
                AdvertisedRelayLimits {
                    max_subscriptions: fit(evidence.max_subscriptions),
                    max_subid_length: fit(evidence.max_subid_length),
                },
            );
            i = i + 1;
        }
        proof {
            assert(q.take(i as int) =~= q);
            lemma_listing_members(q, self.information@.dom());
            assert(r@ =~= budget(self@.information));
        }
        r
    }

    /// How many sessions are planned.
    pub fn session_count(&self) -> (n: usize)
        ensures
            n == self@.sessions.len(),
    {
        self.sessions.len()
    }
}

/// How the sessions and their events stand after some sessions were touched.
proof fn lemma_touched(v: ReadsView, planned: Set<RelaySessionKey>, q: Seq<RelaySessionKey>)
    requires
        q.no_duplicates(),
    ensures
        ({
            let w = v.touch_all(planned, q);
            &&& forall|s: RelaySessionKey| #[trigger]
                w.sessions.contains(s) <==> if q.contains(s) {
                    planned.contains(s)
                } else {
                    v.sessions.contains(s)
                }
            &&& forall|s: RelaySessionKey| #[trigger]
                w.events.contains_key(s) <==> v.events.contains_key(s) && !(q.contains(s)
                    && v.sessions.contains(s) && !planned.contains(s))
            &&& forall|s: RelaySessionKey| #[trigger]
                w.events.contains_key(s) ==> w.events[s] == v.events[s]
        }),
    decreases q.len(),
{
    if q.len() > 0 {
        let rest = q.drop_last();
        let last = q.last();
        lemma_touched(v, planned, rest);
        assert(q =~= rest.push(last));
        lemma_push_contains(rest, last);
        lemma_last_is_new(q);
        let before = v.touch_all(planned, rest);
        let w = v.touch_all(planned, q);
        assert(w == before.touch(planned, last));
        assert forall|s: RelaySessionKey| #[trigger] w.sessions.contains(s) <==> if q.contains(s) {
            planned.contains(s)
        } else {
            v.sessions.contains(s)
        } by {
            assert(q.contains(s) <==> rest.contains(s) || s == last);
            assert(before.sessions.contains(s) <==> if rest.contains(s) {
                planned.contains(s)
            } else {
                v.sessions.contains(s)
            });
        }
        assert forall|s: RelaySessionKey| #[trigger] w.events.contains_key(s) <==> v.events.contains_key(s)
            && !(q.contains(s) && v.sessions.contains(s) && !planned.contains(s)) by {
            assert(q.contains(s) <==> rest.contains(s) || s == last);
            assert(before.sessions.contains(last) == v.sessions.contains(last));
            assert(before.events.contains_key(s) <==> v.events.contains_key(s) && !(rest.contains(s)
                && v.sessions.contains(s) && !planned.contains(s)));
        }
        assert forall|s: RelaySessionKey| #[trigger] w.events.contains_key(s) implies w.events[s]
            == v.events[s] by {
            assert(before.events.contains_key(s));
        }
    }
}

proof fn lemma_last_is_new(q: Seq<RelaySessionKey>)
    requires
        q.len() > 0,
        q.no_duplicates(),
    ensures
        !q.drop_last().contains(q.last()),
{
    if q.drop_last().contains(q.last()) {
        let i = choose|i: int| 0 <= i < q.drop_last().len() && q.drop_last()[i] == q.last();
        assert(q[i] == q[q.len() - 1]);
    }
}

/// What is known of one relay after some sessions were touched.
proof fn lemma_touched_information(
    v: ReadsView,
    planned: Set<RelaySessionKey>,
    q: Seq<RelaySessionKey>,
    relay: Relay,
)
    requires
        q.no_duplicates(),
    ensures
        ({
            let w = v.touch_all(planned, q);
            let stays = exists|s: RelaySessionKey| #[trigger]
                v.sessions.contains(s) && s.relay == relay && (q.contains(s) ==> planned.contains(s));
            let left = exists|s: RelaySessionKey| #[trigger]
                v.sessions.contains(s) && s.relay == relay && q.contains(s) && !planned.contains(s);
            &&& w.information.contains_key(relay) ==> v.information.contains_key(relay)
                && w.information[relay] == v.information[relay]
            &&& v.information.contains_key(relay) && (stays || !left) ==> w.information.contains_key(relay)
            &&& left && !relay_planned(w.sessions, relay) ==> !w.information.contains_key(relay)
        }),
    decreases q.len(),
{
    if q.len() > 0 {
        let rest = q.drop_last();
        let last = q.last();
        lemma_touched_information(v, planned, rest, relay);
        lemma_touched(v, planned, rest);
        lemma_touched(v, planned, q);
        assert(q =~= rest.push(last));
        lemma_push_contains(rest, last);
        lemma_last_is_new(q);
        let before = v.touch_all(planned, rest);
        let w = v.touch_all(planned, q);
        let stays = exists|s: RelaySessionKey| #[trigger]
            v.sessions.contains(s) && s.relay == relay && (q.contains(s) ==> planned.contains(s));
        let left = exists|s: RelaySessionKey| #[trigger]
            v.sessions.contains(s) && s.relay == relay && q.contains(s) && !planned.contains(s);
        if stays {
            let s = choose|s: RelaySessionKey| #[trigger]
                v.sessions.contains(s) && s.relay == relay && (q.contains(s) ==> planned.contains(s));
            assert(before.sessions.contains(s));
            assert(w.sessions.contains(s));
            assert(rest.contains(s) ==> planned.contains(s));
        }
        if !left {
            assert forall|s: RelaySessionKey| #[trigger] v.sessions.contains(s) && s.relay == relay implies !(
            rest.contains(s) && !planned.contains(s)) by {}
            if last.relay == relay && v.sessions.contains(last) {
                assert(planned.contains(last));
            }
        }
        if left && !relay_planned(w.sessions, relay) {
            let s = choose|s: RelaySessionKey| #[trigger]
                v.sessions.contains(s) && s.relay == relay && q.contains(s) && !planned.contains(s);
            if s == last {
                assert(before.sessions.contains(last));
            } else {
                assert(rest.contains(s));
                if relay_planned(before.sessions, relay) {
                    let x = choose|x: RelaySessionKey| #[trigger]
                        before.sessions.contains(x) && x.relay == relay;
                    assert(!w.sessions.contains(x));
                    assert(x == last);
                }
            }
        }
    }
}

proof fn lemma_entering(
    v: ReadsView,
    planned: Set<RelaySessionKey>,
    ready: Set<RelaySessionKey>,
    q: Seq<RelaySessionKey>,
)
    requires
        strictly_rising(q),
    ensures
        strictly_rising(entering(v, planned, ready, q)),
        forall|s: RelaySessionKey| #[trigger]
            entering(v, planned, ready, q).contains(s) <==> q.contains(s) && planned.contains(s)
                && !v.sessions.contains(s) && s.authenticate_as is Some && !ready.contains(s),
    decreases q.len(),
{
    if q.len() > 0 {
        let rest = q.drop_last();
        let last = q.last();
        let before = entering(v, planned, ready, rest);
        let now = entering(v, planned, ready, q);
        assert forall|i: int, j: int| 0 <= i < j < rest.len() implies (#[trigger] rest[i]).rank() < (
        #[trigger] rest[j]).rank() by {
            assert(q[i].rank() < q[j].rank());
        }
        lemma_entering(v, planned, ready, rest);
        assert(q.no_duplicates());
        assert(rest.no_duplicates());
        lemma_touched(v, planned, rest);
        assert(q =~= rest.push(last));
        lemma_push_contains(rest, last);
        lemma_push_contains(before, last);
        lemma_last_is_new(q);
        assert forall|i: int, j: int| 0 <= i < j < now.len() implies (#[trigger] now[i]).rank() < (
        #[trigger] now[j]).rank() by {
            if j < before.len() {
                assert(before[i].rank() < before[j].rank());
            } else {
                assert(before.contains(before[i]));
                assert(rest.contains(before[i]));
                let k = choose|k: int| 0 <= k < rest.len() && rest[k] == before[i];
                assert(q[k].rank() < q[q.len() - 1].rank());
            }
        }
    }
}

/// An incremental plan opens a worker for a session if and only if the plan touches
/// the session, reads from it now and did not before, and the session names an
/// account that it has not authenticated as yet. Each is opened once.
pub proof fn incremental_plan_opens_what_enters(
    v: ReadsView,
    planned: Set<RelaySessionKey>,
    ready: Set<RelaySessionKey>,
    touched: Set<RelaySessionKey>,
)
    requires
        touched.finite(),
    ensures
        ({
            let opened = entering(v, planned, ready, listing_of(touched));
            &&& forall|s: RelaySessionKey| #[trigger]
                opened.contains(s) <==> touched.contains(s) && planned.contains(s)
                    && !v.sessions.contains(s) && s.authenticate_as is Some && !ready.contains(s)
            &&& opened.no_duplicates()
        }),
{
    lemma_listing_exists(touched);
    let q = listing_of(touched);
    lemma_listing_members(q, touched);
    lemma_entering(v, planned, ready, q);
}

/// A plan that is replaced as a whole opens a worker for a session if and only if
/// the plan reads from it and the session names an account that it has not
/// authenticated as yet. Each is opened once.
pub proof fn full_plan_opens_what_awaits_auth(
    planned: Set<RelaySessionKey>,
    ready: Set<RelaySessionKey>,
    opened: Seq<RelaySessionKey>,
)
    requires
        is_listing(
            opened,
            Set::new(|s: RelaySessionKey| planned.contains(s) && awaits_auth(ready, s)),
        ),
    ensures
        forall|s: RelaySessionKey| #[trigger]
            opened.contains(s) <==> planned.contains(s) && s.authenticate_as is Some && !ready.contains(s),
        opened.no_duplicates(),
{
    lemma_listing_members(
        opened,
        Set::new(|s: RelaySessionKey| planned.contains(s) && awaits_auth(ready, s)),
    );
}

/// After an incremental plan a touched session is read from exactly where the plan
/// says so, and every other as before. The events that a session has given are
/// forgotten exactly where it leaves the plan. What a relay says of itself stays as
/// long as one of its sessions stays, or none of them leaves; it is forgotten where a
/// session leaves and none is left.
pub proof fn incremental_plan_changes_what_it_touches(
    v: ReadsView,
    planned: Set<RelaySessionKey>,
    touched: Set<RelaySessionKey>,
    relay: Relay,
)
    requires
        touched.finite(),
    ensures
        ({
            let w = v.touch_all(planned, listing_of(touched));
            let stays = exists|s: RelaySessionKey| #[trigger]
                v.sessions.contains(s) && s.relay == relay && (touched.contains(s) ==> planned.contains(s));
            let left = exists|s: RelaySessionKey| #[trigger]
                v.sessions.contains(s) && s.relay == relay && touched.contains(s) && !planned.contains(s);
            &&& forall|s: RelaySessionKey| #[trigger]
                w.sessions.contains(s) <==> if touched.contains(s) {
                    planned.contains(s)
                } else {
                    v.sessions.contains(s)
                }
            &&& forall|s: RelaySessionKey| #[trigger]
                w.events.contains_key(s) <==> v.events.contains_key(s) && !(touched.contains(s)
                    && v.sessions.contains(s) && !planned.contains(s))
            &&& forall|s: RelaySessionKey| #[trigger]
                w.events.contains_key(s) ==> w.events[s] == v.events[s]
            &&& w.information.contains_key(relay) ==> v.information.contains_key(relay)
                && w.information[relay] == v.information[relay]
            &&& v.information.contains_key(relay) && (stays || !left) ==> w.information.contains_key(relay)
            &&& left && !(exists|s: RelaySessionKey| #[trigger]
                w.sessions.contains(s) && s.relay == relay) ==> !w.information.contains_key(relay)
        }),
{
    lemma_listing_exists(touched);
    let q = listing_of(touched);
    lemma_listing_members(q, touched);
    lemma_touched(v, planned, q);
    lemma_touched_information(v, planned, q, relay);
    let w = v.touch_all(planned, q);
    if exists|s: RelaySessionKey| #[trigger]
        v.sessions.contains(s) && s.relay == relay && (touched.contains(s) ==> planned.contains(s)) {
        let s = choose|s: RelaySessionKey| #[trigger]
            v.sessions.contains(s) && s.relay == relay && (touched.contains(s) ==> planned.contains(s));
        assert(v.sessions.contains(s) && s.relay == relay && (q.contains(s) ==> planned.contains(s)));
    }
    if exists|s: RelaySessionKey| #[trigger]
        v.sessions.contains(s) && s.relay == relay && touched.contains(s) && !planned.contains(s) {
        let s = choose|s: RelaySessionKey| #[trigger]
            v.sessions.contains(s) && s.relay == relay && touched.contains(s) && !planned.contains(s);
        assert(v.sessions.contains(s) && s.relay == relay && q.contains(s) && !planned.contains(s));
    }
}

/// A plan that is replaced as a whole keeps what is known of a relay exactly where it
/// reads from a session of the relay, and the events of a session exactly where it
/// reads from the session.
pub proof fn full_plan_keeps_what_it_reads_from(v: ReadsView, planned: Set<RelaySessionKey>)
    ensures
        v.replan(planned).sessions == planned,
        forall|r: Relay| #[trigger]
            v.replan(planned).information.contains_key(r) <==> v.information.contains_key(r) && exists|
                s: RelaySessionKey,
            | #[trigger] planned.contains(s) && s.relay == r,
        forall|r: Relay| #[trigger]
            v.replan(planned).information.contains_key(r) ==> v.replan(planned).information[r]
                == v.information[r],
        forall|s: RelaySessionKey| #[trigger]
            v.replan(planned).events.contains_key(s) <==> v.events.contains_key(s) && planned.contains(s),
        forall|s: RelaySessionKey| #[trigger]
            v.replan(planned).events.contains_key(s) ==> v.replan(planned).events[s] == v.events[s],
{
}

/// Planning keeps to a relay's limits exactly as the relay states them, up to the
/// largest number that the machine can count to; of a relay that states none, none is
/// known.
pub proof fn budget_keeps_the_stated_limits(
    information: Map<Relay, RelayInformationCapabilityEvidence>,
    relay: Relay,
)
    ensures
        budget(information).contains_key(relay) == information.contains_key(relay),
        information.contains_key(relay) ==> {
            let told = information[relay];
            let kept = budget(information)[relay];
            &&& kept.max_subscriptions is Some == told.max_subscriptions is Some
            &&& kept.max_subid_length is Some == told.max_subid_length is Some
            &&& told.max_subscriptions matches Some(n) ==> kept.max_subscriptions->0 <= n && (
            kept.max_subscriptions->0 == n || kept.max_subscriptions->0 == usize::MAX)
            &&& told.max_subid_length matches Some(n) ==> kept.max_subid_length->0 <= n && (
            kept.max_subid_length->0 == n || kept.max_subid_length->0 == usize::MAX)
        },
{
}

/// A relay is planned if and only if the plan reads from a session with it, open or
/// protected.
pub proof fn any_session_plans_its_relay(sessions: Set<RelaySessionKey>, relay: Relay)
    ensures
        relay_planned(sessions, relay) <==> exists|account: Option<PublicKey>| #[trigger]
            sessions.contains(RelaySessionKey { relay, authenticate_as: account }),
{
    if relay_planned(sessions, relay) {
        let s = choose|s: RelaySessionKey| #[trigger] sessions.contains(s) && s.relay == relay;
        assert(sessions.contains(RelaySessionKey { relay, authenticate_as: s.authenticate_as }));
    }
    if exists|account: Option<PublicKey>| #[trigger]
        sessions.contains(RelaySessionKey { relay, authenticate_as: account }) {
        let account = choose|account: Option<PublicKey>| #[trigger]
            sessions.contains(RelaySessionKey { relay, authenticate_as: account });
        assert(sessions.contains(RelaySessionKey { relay, authenticate_as: account }));
    }
}

} // verus!
