//! Requests that wait to take the place of an earlier one: the earlier one is
//! closed only after the successor has been accepted.

use vstd::prelude::*;

use crate::ids::{RelaySessionKey, SubId};
use crate::key::is_listing;
use crate::owner_index::{IndexedChild, MirrorFault, OwnerIndexed};

verus! {

/// One open-before-close transition.
#[derive(Clone, Copy, Debug, PartialEq, Eq, Structural)]
pub struct RequestReplacement {
    pub session: RelaySessionKey,
    pub prior_sub_id: SubId,
    pub next_sub_id: SubId,
}

impl IndexedChild<RelaySessionKey> for RequestReplacement {
    open spec fn owner(self) -> RelaySessionKey {
        self.session
    }

    fn owner_key(&self) -> (o: &RelaySessionKey) {
        &self.session
    }
}

/// Every pending transition, keyed by its successor.
pub struct RequestReplacements {
    pending: OwnerIndexed<RelaySessionKey, SubId, RequestReplacement>,
}

impl View for RequestReplacements {
    type V = Map<SubId, RequestReplacement>;

    closed spec fn view(&self) -> Map<SubId, RequestReplacement> {
        self.pending@
    }
}

/// The successors that are pending on one session.
pub open spec fn successors_on(m: Map<SubId, RequestReplacement>, session: RelaySessionKey) -> Set<SubId> {
    Set::new(|s: SubId| m.contains_key(s) && m[s].session == session)
}

impl RequestReplacements {
    /// Both directions of the index are one relation.
    pub closed spec fn mirrored(&self) -> bool {
        self.pending.wf()
    }

    /// `f` is the first thing that is wrong with the index.
    pub closed spec fn first_fault(&self, f: MirrorFault<RelaySessionKey, SubId>) -> bool {
        self.pending.first_fault(f)
    }

    /// The mirror holds, and each transition stands under its successor.
    pub open spec fn wf(&self) -> bool {
        &&& self.mirrored()
        &&& forall|s: SubId| #[trigger] self@.contains_key(s) ==> self@[s].next_sub_id == s
    }

    pub fn new() -> (r: Self)
        ensures
            r.wf(),
            r@ == Map::<SubId, RequestReplacement>::empty(),
    {
        RequestReplacements { pending: OwnerIndexed::new("request replacement") }
    }

    /// Takes on one transition under its successor, which has none yet.
    pub fn insert(&mut self, replacement: RequestReplacement)
        requires
            old(self).wf(),
            !old(self)@.contains_key(replacement.next_sub_id),
        ensures
            final(self).wf(),
            final(self)@ == old(self)@.insert(replacement.next_sub_id, replacement),
    {
        let successor = replacement.next_sub_id;
        self.pending.insert(successor, replacement);
    }

    pub fn take(&mut self, successor: &SubId) -> (r: Option<RequestReplacement>)
        requires
            old(self).wf(),
        ensures
            final(self).wf(),
            final(self)@ == old(self)@.remove(*successor),
            match r {
                Some(v) => old(self)@.contains_key(*successor) && v == old(self)@[*successor]
                    && v.next_sub_id == *successor,
                None => !old(self)@.contains_key(*successor),
            },
    {
        self.pending.take(successor)
    }

    pub fn contains(&self, successor: &SubId) -> (b: bool)
        ensures
            b == self@.contains_key(*successor),
    {
        self.pending.contains(successor)
    }

    pub fn len(&self) -> (n: usize)
        ensures
            n == self@.len(),
            self@.dom().finite(),
    {
        self.pending.len()
    }

    /// Takes every transition of one session, in the order of the successors.
    pub fn take_for_session(&mut self, session: &RelaySessionKey) -> (out: Vec<(SubId, RequestReplacement)>)
        requires
            old(self).wf(),
        ensures
            final(self).wf(),
            final(self)@ == old(self)@.remove_keys(successors_on(old(self)@, *session)),
            is_listing(Seq::new(out@.len(), |i: int| out@[i].0), successors_on(old(self)@, *session)),
            forall|i: int| 0 <= i < out@.len() ==> (#[trigger] out@[i]).1 == old(self)@[out@[i].0],
    {
        assert(self.pending.children(*session) =~= successors_on(self@, *session));
        self.pending.take_owner(session)
    }

    /// Compares both directions of the index by identity.
    pub fn assert_consistent(&self) -> (r: Result<(), MirrorFault<RelaySessionKey, SubId>>)
        ensures
            match r {
                Ok(()) => self.mirrored(),
                Err(f) => !self.mirrored() && self.first_fault(f),
            },
    {
        self.pending.assert_consistent()
    }
}

} // verus!
