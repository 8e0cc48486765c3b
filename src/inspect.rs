//! Observers of dispatch. An inspector sees each event before it is
//! dispatched and the result after; it holds no reference into the machine,
//! so it cannot change what the dispatch does.
use vstd::prelude::*;
use crate::error::FsmResult;
use crate::table::{FsmCurrentState, FsmEvent};

verus! {

/// Called around every dispatch of an event.
pub trait FsmInspect<E>: Sized {
    /// Before the regions see `ev`; `current` holds the markers.
    fn on_dispatch_event(&mut self, current: &Vec<FsmCurrentState>, ev: &FsmEvent<E>);

    /// After the regions saw the event; `current` holds the new markers.
    fn on_dispatched_event(&mut self, current: &Vec<FsmCurrentState>, result: &FsmResult<()>);
}

/// An inspector that does nothing.
pub struct InspectNull;

impl InspectNull {
    pub fn new() -> (r: Self) {
        InspectNull
    }
}

impl<E> FsmInspect<E> for InspectNull {
    fn on_dispatch_event(&mut self, current: &Vec<FsmCurrentState>, ev: &FsmEvent<E>) {
    }

    fn on_dispatched_event(&mut self, current: &Vec<FsmCurrentState>, result: &FsmResult<()>) {
    }
}

} // verus!
