//! What goes over the wire: concrete filters and the operations on them.

use vstd::prelude::*;

use crate::ids::{FilterHash, SubId};

verus! {

/// One concrete filter, named by the hash of its content, with the parts that
/// the reducer itself reads.
#[derive(Clone, Copy, Debug, PartialEq, Eq, Structural)]
pub struct ConcreteFilter {
    pub hash: FilterHash,
    /// The most rows that the filter asks for.
    pub limit: Option<usize>,
}

/// One operation on a relay's wire.
#[derive(Clone, Copy, Debug, PartialEq, Eq, Structural)]
pub enum WireOp {
    Req(SubId, ConcreteFilter),
    Close(SubId),
}

} // verus!
