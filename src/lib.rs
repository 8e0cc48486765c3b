//! A finite-state-machine runtime driven by a static transition table: event
//! queues, orthogonal regions, guarded transitions with ordered hooks, and
//! poll-driven timers.
use vstd::prelude::*;

pub mod builder;
pub mod error;
pub mod fsm;
pub mod inspect;
pub mod queue;
pub mod table;
pub mod timers;

pub use builder::{FsmEventBuilder, FsmEventBuilderTransition, FsmEventBuilderTransitionFull};
pub use error::{FsmError, FsmResult};
pub use fsm::{Fsm, FsmBackend};
pub use inspect::{FsmInspect, InspectNull};
pub use queue::{FsmEventQueue, FsmEventQueueHeapless, FsmEventQueueNull, FsmEventQueueVec};
pub use table::{FsmCurrentState, FsmEvent, Transition, TransitionEvent};
pub use timers::TimerSettings;

verus! {

} // verus!
