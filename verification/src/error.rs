//! What a caller did wrong. Contention is no error: an acquire that finds
//! the resource held answers `Ok(false)`.

use vstd::prelude::*;
use vstd::string::StringExecFns;
use crate::args::names_of;

verus! {

#[derive(Debug)]
pub enum LockError {
    /// An exclusive acquire or release named more resources than a batch may hold.
    TooManyResources,
    /// A shared acquire or release did not name exactly one resource.
    NotOneResource,
    /// A shared release named a resource that a writer holds.
    WriteLocked { resource: String },
    /// An exclusive release named resources that readers hold. The other
    /// resources of the batch were processed all the same; `released` tells
    /// whether any of them was let go.
    ReadLocked { resources: Vec<String>, released: bool },
}

/// The names one after the other, with ", " between two of them.
pub open spec fn listed(names: Seq<Seq<char>>) -> Seq<char>
    decreases names.len(),
{
    if names.len() == 0 {
        Seq::empty()
    } else if names.len() == 1 {
        names[0]
    } else {
        listed(names.drop_last()) + ", "@ + names.last()
    }
}

impl LockError {
    /// The text of the error.
    pub open spec fn text(self) -> Seq<char> {
        match self {
            LockError::TooManyResources => "internal error: called with more than 1000 resources"@,
            LockError::NotOneResource => "internal error: called with more than one resource"@,
            LockError::WriteLocked { resource } => "runlock attempted on a write locked entity: "@
                + resource@,
            LockError::ReadLocked { resources, released } =>
                "unlock attempted on a read locked entity: "@ + listed(names_of(resources@)),
        }
    }

    /// A description for the caller, naming every resource at fault.
    pub fn message(&self) -> (m: String)
        ensures
            m@ == self.text(),
    {
        match self {
            LockError::TooManyResources => {
                "internal error: called with more than 1000 resources".to_owned()
            },
            LockError::NotOneResource => {
                "internal error: called with more than one resource".to_owned()
            },
            LockError::WriteLocked { resource } => {
                let mut m = "runlock attempted on a write locked entity: ".to_owned();
                m.append(resource.as_str());
                m
            },
            LockError::ReadLocked { resources, released } => {
                let mut m = "unlock attempted on a read locked entity: ".to_owned();
                let ghost head = m@;
                let ghost all = names_of(resources@);
                let mut i: usize = 0;
                assert(head + listed(all.take(0)) =~= head);
                while i < resources.len()
                    invariant
                        i <= resources.len(),
                        all == names_of(resources@),
                        m@ == head + listed(all.take(i as int)),
                    decreases resources.len() - i,
                {
                    let ghost so_far = all.take(i as int);
                    let ghost next = all.take(i + 1);
                    proof {
                        assert(next.drop_last() =~= so_far);
                        assert(next.last() == all[i as int]);
                    }
                    if i > 0 {
                        m.append(", ");
                        m.append(resources[i].as_str());
                        assert(m@ =~= head + listed(next));
                    } else {
                        m.append(resources[i].as_str());
                        assert(m@ =~= head + listed(next));
                    }
                    i += 1;
                }
                assert(all.take(resources.len() as int) =~= all);
                m
            },
        }
    }
}

} // verus!
