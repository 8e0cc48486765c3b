use vstd::prelude::*;

verus! {

/// The failures that the runtime reports.
#[derive(Clone, Copy, Debug, PartialEq, Eq, Structural)]
pub enum FsmError {
    /// No region of the machine accepted the event.
    NoTransition,
    /// A fixed-capacity queue was full; the event was not stored.
    QueueOverCapacity,
}

/// The result of a runtime operation.
pub type FsmResult<T> = Result<T, FsmError>;

} // verus!
