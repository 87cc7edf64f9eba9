//! A set of values in which each value is either absent or held, and a
//! value that is held may have a stack of waiters queued for it.  Removing a
//! held value either makes it absent again or hands it to the most recent
//! waiter.  The set never forgets a value it has seen: every distinct value
//! ever inserted keeps its own entry, and lookups start from the entry that
//! was most recently removed.
pub mod equivalence;
pub mod set;
pub mod laws;

pub use crate::equivalence::eq_is_equivalence;
pub use crate::set::{ExclusionSet, RemoveOutcome, WaitOutcome};
