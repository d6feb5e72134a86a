//! The notifications that wake a lane's background loops.

use vstd::prelude::*;

verus! {

/// A read was queued and waits for a leadership check.
#[derive(Clone, Copy, Debug, PartialEq, Eq, Structural)]
pub struct QueueEvent;

/// The log grew: there is something to replicate.
#[derive(Clone, Copy, Debug, PartialEq, Eq, Structural)]
pub struct ReplicationEvent;

/// The commit pointer advanced: there is something to apply.
#[derive(Clone, Copy, Debug, PartialEq, Eq, Structural)]
pub struct CommitEvent;

/// A kernel command was committed.
#[derive(Clone, Copy, Debug, PartialEq, Eq, Structural)]
pub struct KernEvent;

} // verus!
