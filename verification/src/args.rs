//! The request shape shared by every operation on the lock table.

use vstd::prelude::*;

verus! {

/// The largest batch of resources that one exclusive acquire or release may name.
pub const MAX_DELETE_LIST: usize = 1000;

/// One request against the lock table.
#[derive(Debug)]
pub struct LockArgs {
    /// Identifies one logical lock request; shared by all resources of a batch.
    pub uid: String,
    /// The resources the request names, in batch order.
    pub resources: Vec<String>,
    /// The tenant on whose behalf the lock is held; scopes releases.
    pub owner: String,
    /// Free diagnostic text; never interpreted.
    pub source: String,
    /// Recorded with each holder; evaluated by the coordinator, not here.
    pub quorum: usize,
}

/// The mathematical content of a request.
pub ghost struct Request {
    pub uid: Seq<char>,
    pub resources: Seq<Seq<char>>,
    pub owner: Seq<char>,
    pub source: Seq<char>,
    pub quorum: nat,
}

impl View for LockArgs {
    type V = Request;

    open spec fn view(&self) -> Request {
        Request {
            uid: self.uid@,
            resources: names_of(self.resources@),
            owner: self.owner@,
            source: self.source@,
            quorum: self.quorum as nat,
        }
    }
}

/// The resource names of a request as mathematical strings, in batch order.
pub open spec fn names_of(resources: Seq<String>) -> Seq<Seq<char>> {
    Seq::new(resources.len(), |i: int| resources[i]@)
}

} // verus!
