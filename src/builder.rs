//! A builder-style way to write one transition descriptor:
//! `FsmEventBuilder::new(region, event).transition_from(a).to(b)`.
use vstd::prelude::*;
use crate::table::{FsmCurrentState, Transition, TransitionEvent};

verus! {

/// The start of a descriptor: the region and what triggers it.
pub struct FsmEventBuilder {
    region: usize,
    event: TransitionEvent,
}

impl FsmEventBuilder {
    pub closed spec fn region(&self) -> usize {
        self.region
    }

    pub closed spec fn event(&self) -> TransitionEvent {
        self.event
    }

    pub fn new(region: usize, event: TransitionEvent) -> (r: Self)
        ensures
            r.region() == region,
            r.event() == event,
    {
        FsmEventBuilder { region, event }
    }

    /// Names the marker the region must be in.
    pub fn transition_from(self, from: FsmCurrentState) -> (r: FsmEventBuilderTransition)
        ensures
            r.region() == self.region(),
            r.event() == self.event(),
            r.from() == from,
    {
        FsmEventBuilderTransition { event_builder: self, from }
    }
}

/// A descriptor with its source but no destination yet.
pub struct FsmEventBuilderTransition {
    event_builder: FsmEventBuilder,
    from: FsmCurrentState,
}

impl FsmEventBuilderTransition {
    pub closed spec fn region(&self) -> usize {
        self.event_builder.region
    }

    pub closed spec fn event(&self) -> TransitionEvent {
        self.event_builder.event
    }

    pub closed spec fn from(&self) -> FsmCurrentState {
        self.from
    }

    /// Names the marker the region goes to. The descriptor is unguarded,
    /// without action, and runs the state hooks.
    pub fn to(self, to: FsmCurrentState) -> (r: FsmEventBuilderTransitionFull)
        ensures
            r.transition() == (Transition {
                region: self.region(),
                from: self.from(),
                event: self.event(),
                guarded: false,
                has_action: false,
                to,
                internal: false,
            }),
    {
        FsmEventBuilderTransitionFull {
            transition: Transition {
                region: self.event_builder.region,
                from: self.from,
                event: self.event_builder.event,
                guarded: false,
                has_action: false,
                to,
                internal: false,
            },
        }
    }
}

/// A complete descriptor, still open to an action and a guard.
pub struct FsmEventBuilderTransitionFull {
    transition: Transition,
}

impl FsmEventBuilderTransitionFull {
    pub closed spec fn transition(&self) -> Transition {
        self.transition
    }

    /// Names the action the transition runs. The action itself is the
    /// backend's code for this descriptor, so the builder is handed back as
    /// it is; `with_action` records that the descriptor has one.
    pub fn action(&mut self) -> (r: &mut Self)
        ensures
            *r == *old(self),
            *final(self) == *final(r),
    {
        self
    }

    /// Records that the transition runs an action.
    pub fn with_action(&mut self) -> (r: &mut Self)
        ensures
            r.transition() == (Transition { has_action: true, ..old(self).transition() }),
            *final(self) == *final(r),
    {
        self.transition.has_action = true;
        self
    }

    /// Records that the transition has a guard.
    pub fn with_guard(&mut self) -> (r: &mut Self)
        ensures
            r.transition() == (Transition { guarded: true, ..old(self).transition() }),
            *final(self) == *final(r),
    {
        self.transition.guarded = true;
        self
    }

    /// The descriptor written so far.
    pub fn build(&self) -> (r: Transition)
        ensures
            r == self.transition(),
    {
        self.transition
    }
}

} // verus!
