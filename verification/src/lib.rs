//! The lock table of one storage node: which named resources are held
//! exclusively or shared, by whom, and the operations that change it.
//!
//! A coordinator asks a quorum of nodes before it takes a distributed lock
//! for held; each node answers from a table like this one. The table lives
//! in memory and starts empty.
//!
//! - `model` states the table as two mathematical maps, the invariant of
//!   every reachable state, and each operation as a function on states.
//! - `local_locker` holds the executable table and proves each operation
//!   against the model.
//! - `laws` states what follows for every caller: mutual exclusion,
//!   all-or-nothing batches, the round trip, expiry, forced release.
//! - `table` and `uid_index` keep the two maps as vectors without repeated
//!   keys, on the theory of `assoc`. A lookup walks the vector.

pub mod args;
pub mod assoc;
pub mod error;
pub mod holder;
pub mod laws;
pub mod local_locker;
pub mod model;
pub mod table;
pub mod uid_index;

pub use crate::args::{LockArgs, MAX_DELETE_LIST};
pub use crate::error::LockError;
pub use crate::holder::LockRequesterInfo;
pub use crate::local_locker::{LocalLocker, LockStats};
pub use crate::table::LockTable;
