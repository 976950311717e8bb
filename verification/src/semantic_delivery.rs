//! Who delivers a materialization that several write intents share.

use vstd::prelude::*;

use crate::ids::IntentId;
use crate::key::{is_listing, lemma_push_contains, Key};
use crate::sorted::SortedSet;

verus! {

/// One materialized generation of a replaceable value.
#[derive(Clone, Copy, Debug, PartialEq, Eq, Structural)]
pub struct MaterializationRef(pub u64);

/// The one publisher of a complete materialization: the smallest of the
/// intents that contribute to it, so that every process picks the same one.
pub struct MaterializationDeliveryOwner {
    materialization: MaterializationRef,
    physical_owner: IntentId,
    members: SortedSet<IntentId>,
}

impl MaterializationDeliveryOwner {
    pub closed spec fn spec_materialization(&self) -> MaterializationRef {
        self.materialization
    }

    pub closed spec fn spec_physical_owner(&self) -> IntentId {
        self.physical_owner
    }

    pub closed spec fn spec_members(&self) -> Set<IntentId> {
        self.members@
    }

    /// The owner is a member, and none comes before it.
    pub open spec fn wf(&self) -> bool {
        &&& self.spec_members().contains(self.spec_physical_owner())
        &&& forall|m: IntentId| #[trigger]
            self.spec_members().contains(m) ==> self.spec_physical_owner().rank() <= m.rank()
    }

    /// None where nothing contributes.
    pub fn new(materialization: MaterializationRef, members: &Vec<IntentId>) -> (r: Option<Self>)
        ensures
            match r {
                Some(owner) => {
                    &&& members@.len() > 0
                    &&& owner.wf()
                    &&& owner.spec_materialization() == materialization
                    &&& owner.spec_members() == members@.to_set()
                },
                None => members@.len() == 0,
            },
    {
        let mut set: SortedSet<IntentId> = SortedSet::new();
        let mut i: usize = 0;
        while i < members.len()
            invariant
                i <= members@.len(),
                forall|m: IntentId| #[trigger]
                    set@.contains(m) <==> members@.take(i as int).contains(m),
            decreases members@.len() - i,
        {
            proof {
                assert(members@.take(i + 1) =~= members@.take(i as int).push(members@[i as int]));
                lemma_push_contains(members@.take(i as int), members@[i as int]);
            }
            set.insert(members[i]);
            i = i + 1;
        }
        proof {
            assert(members@.take(i as int) =~= members@);
            assert(set@ =~= members@.to_set());
            if members@.len() > 0 {
                assert(members@.contains(members@[0]));
                assert(set@.contains(members@[0]));
            } else {
                assert(set@ =~= Set::<IntentId>::empty());
            }
        }
        match set.first() {
            Some(physical_owner) => Some(
                MaterializationDeliveryOwner { materialization, physical_owner, members: set },
            ),
            None => None,
        }
    }

    pub fn materialization(&self) -> (r: MaterializationRef)
        ensures
            r == self.spec_materialization(),
    {
        self.materialization
    }

    pub fn physical_owner(&self) -> (r: IntentId)
        ensures
            r == self.spec_physical_owner(),
    {
        self.physical_owner
    }

    /// The contributing intents, in rising order.
    pub fn members(&self) -> (q: Vec<IntentId>)
        ensures
            is_listing(q@, self.spec_members()),
    {
        self.members.list()
    }
}

/// The owner depends on the contributing intents alone: neither their order
/// nor how often one is named changes it.
pub proof fn delivery_owner_is_determined(
    a: MaterializationDeliveryOwner,
    b: MaterializationDeliveryOwner,
)
    requires
        a.wf(),
        b.wf(),
        a.spec_members() == b.spec_members(),
    ensures
        a.spec_physical_owner() == b.spec_physical_owner(),
{
    assert(a.spec_members().contains(b.spec_physical_owner()));
    assert(b.spec_members().contains(a.spec_physical_owner()));
    IntentId::rank_injective(a.spec_physical_owner(), b.spec_physical_owner());
}

/// The owner is the smallest of the intents that contribute.
pub proof fn smallest_intent_delivers(owner: MaterializationDeliveryOwner, member: IntentId)
    requires
        owner.wf(),
        owner.spec_members().contains(member),
    ensures
        owner.spec_members().contains(owner.spec_physical_owner()),
        owner.spec_physical_owner().0 <= member.0,
{
}

} // verus!
