use vstd::prelude::*;

verus! {

/// What can go wrong when a task or a list is changed.
#[derive(Debug, Clone, Copy, PartialEq, Eq, Structural)]
pub enum AnansiError {
    /// A task with an inception date was marked done without a completion date.
    InvalidTransition,
    /// The identity names no task of the list, or does not match the task.
    UnknownId,
}

} // verus!
