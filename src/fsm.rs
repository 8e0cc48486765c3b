//! The dispatch engine: a machine that owns its backend, its queue, its
//! transition table, one marker per region and its timers, and runs each
//! event to completion.
use vstd::prelude::*;
use crate::error::{FsmError, FsmResult};
use crate::inspect::FsmInspect;
use crate::queue::{
    appended_only, extends, lemma_extends_push, lemma_extends_refl, lemma_extends_trans,
    FsmEventQueue,
};
use crate::table::{
    event_key, first_enabled, is_candidate, lemma_first_enabled_props, lemma_reachable_step,
    marker_ok, outcome_calls, reachable, region_outcome_ok, table_ok, transition_calls,
    FsmCurrentState, FsmEvent, HookCall, Transition, TransitionEvent,
};
use crate::timers::{
    after_entry, after_exit, arm_deadline, fire_count, poll_deadline, timer_fires, timers_ok,
    TimerSettings,
};

verus! {

/// The machine's own side: its context and state store, and the code of its
/// guards, actions, hooks and timer events. Hooks and actions may enqueue
/// follow-up events; they never dispatch.
pub trait FsmBackend: Sized {
    type Event;

    /// The kind of an event, as the transition table names it.
    spec fn kind_of(ev: Self::Event) -> usize;

    fn event_kind(ev: &Self::Event) -> (k: usize)
        ensures
            k == Self::kind_of(*ev),
    ;

    /// Whether the guard of descriptor `transition` holds for `ev`.
    spec fn guard_holds(&self, transition: usize, ev: FsmEvent<Self::Event>) -> bool;

    /// Evaluates a guard, reading only.
    fn guard(&self, transition: usize, ev: &FsmEvent<Self::Event>) -> (r: bool)
        ensures
            r == self.guard_holds(transition, *ev),
    ;

    /// The hooks and actions run on this backend so far, in order. A
    /// backend verified against the hook contracts below must define it
    /// (as ghost state that each hook extends): with the empty default those
    /// contracts cannot be met. The default lets a backend written as plain
    /// Rust, which nothing verifies, leave it out.
    open spec fn trace(&self) -> Seq<HookCall> {
        Seq::empty()
    }

    /// The exit hook of a state. It may only append to the queue.
    fn on_exit<Q: FsmEventQueue<Self::Event>>(&mut self, state: usize, queue: &mut Q)
        ensures
            final(self).trace() == old(self).trace().push(HookCall::Exit(state)),
            appended_only(*old(queue), *final(queue)),
    ;

    /// The action of a descriptor. It may only append to the queue.
    fn action<Q: FsmEventQueue<Self::Event>>(
        &mut self,
        transition: usize,
        ev: &FsmEvent<Self::Event>,
        queue: &mut Q,
    )
        ensures
            final(self).trace() == old(self).trace().push(HookCall::Action(transition)),
            appended_only(*old(queue), *final(queue)),
    ;

    /// The entry hook of a state. It may only append to the queue.
    fn on_entry<Q: FsmEventQueue<Self::Event>>(&mut self, state: usize, queue: &mut Q)
        ensures
            final(self).trace() == old(self).trace().push(HookCall::Entry(state)),
            appended_only(*old(queue), *final(queue)),
    ;

    /// The event that timer `timer` produces when it fires, if any.
    spec fn timer_event_of(&self, timer: usize) -> Option<Self::Event>;

    fn timer_event(&self, timer: usize) -> (r: Option<Self::Event>)
        ensures
            r == self.timer_event_of(timer),
    ;
}

/// The guards of backend `b` applied to `ev`, by descriptor index.
pub open spec fn guard_fn<B: FsmBackend>(b: B, ev: FsmEvent<B::Event>) -> spec_fn(int) -> bool {
    |i: int| b.guard_holds(i as usize, ev)
}

/// Region `g` fired `outs[g]`: what `first_enabled` selects under the
/// guards of the backend as it found it, `turns[g]`.
#[verifier::opaque]
pub open spec fn picks<B: FsmBackend>(
    table: Seq<Transition>,
    markers: Seq<FsmCurrentState>,
    key: TransitionEvent,
    ev: FsmEvent<B::Event>,
    outs: Seq<Option<int>>,
    turns: Seq<B>,
) -> bool {
    forall|g: int|
        0 <= g < outs.len() ==> #[trigger] outs[g] == first_enabled(
            table,
            g as usize,
            markers[g],
            key,
            guard_fn(turns[g], ev),
            0,
        )
}

/// While every earlier region missed, a region found the backend `b0`.
#[verifier::opaque]
pub open spec fn sees_start<B: FsmBackend>(b0: B, outs: Seq<Option<int>>, turns: Seq<B>) -> bool {
    forall|g: int|
        0 <= g < turns.len() && (forall|k: int| 0 <= k < g ==> (#[trigger] outs[k]) is None)
            ==> #[trigger] turns[g] == b0
}

/// A region that missed left the backend to the next region as it found it.
#[verifier::opaque]
pub open spec fn passes_on<B: FsmBackend>(outs: Seq<Option<int>>, turns: Seq<B>) -> bool {
    forall|g: int|
        0 <= g && g + 1 < turns.len() && (#[trigger] outs[g]) is None ==> turns[g + 1] == turns[g]
}

/// The trace of the backend region `g` found is that of `b0` followed by
/// the hooks fired by the regions before it.
#[verifier::opaque]
pub open spec fn traces<B: FsmBackend>(
    b0: B,
    table: Seq<Transition>,
    outs: Seq<Option<int>>,
    turns: Seq<B>,
) -> bool {
    forall|g: int|
        0 <= g < turns.len() ==> (#[trigger] turns[g]).trace() == b0.trace() + outcome_calls(
            table,
            outs.take(g),
        )
}

/// How the regions of one dispatch saw the backend.
pub open spec fn turns_ok<B: FsmBackend>(
    b0: B,
    table: Seq<Transition>,
    markers: Seq<FsmCurrentState>,
    key: TransitionEvent,
    ev: FsmEvent<B::Event>,
    outs: Seq<Option<int>>,
    turns: Seq<B>,
) -> bool {
    &&& outs.len() == turns.len()
    &&& outs.len() <= markers.len()
    &&& picks(table, markers, key, ev, outs, turns)
    &&& sees_start(b0, outs, turns)
    &&& passes_on(outs, turns)
    &&& traces(b0, table, outs, turns)
}

proof fn lemma_turns_empty<B: FsmBackend>(
    b0: B,
    table: Seq<Transition>,
    markers: Seq<FsmCurrentState>,
    key: TransitionEvent,
    ev: FsmEvent<B::Event>,
)
    ensures
        turns_ok(b0, table, markers, key, ev, Seq::empty(), Seq::empty()),
{
    reveal(picks);
    reveal(sees_start);
    reveal(passes_on);
    reveal(traces);
}

proof fn lemma_picks_push<B: FsmBackend>(
    table: Seq<Transition>,
    markers: Seq<FsmCurrentState>,
    key: TransitionEvent,
    ev: FsmEvent<B::Event>,
    outs: Seq<Option<int>>,
    turns: Seq<B>,
    b: B,
    sel: Option<int>,
)
    requires
        picks(table, markers, key, ev, outs, turns),
        outs.len() == turns.len(),
        outs.len() < markers.len(),
        sel == first_enabled(
            table,
            outs.len() as usize,
            markers[outs.len() as int],
            key,
            guard_fn(b, ev),
            0,
        ),
    ensures
        picks(table, markers, key, ev, outs.push(sel), turns.push(b)),
{
    reveal(picks);
    let o2 = outs.push(sel);
    let t2 = turns.push(b);
    assert forall|k: int| 0 <= k < o2.len() implies #[trigger] o2[k] == first_enabled(
        table,
        k as usize,
        markers[k],
        key,
        guard_fn(t2[k], ev),
        0,
    ) by {
        if k < outs.len() {
            assert(o2[k] == outs[k]);
            assert(t2[k] == turns[k]);
        }
    }
}

proof fn lemma_sees_start_push<B: FsmBackend>(b0: B, outs: Seq<Option<int>>, turns: Seq<B>, b: B, sel: Option<int>)
    requires
        sees_start(b0, outs, turns),
        outs.len() == turns.len(),
        (forall|k: int| 0 <= k < outs.len() ==> (#[trigger] outs[k]) is None) ==> b == b0,
    ensures
        sees_start(b0, outs.push(sel), turns.push(b)),
{
    reveal(sees_start);
    let o2 = outs.push(sel);
    let t2 = turns.push(b);
    assert forall|k: int|
        0 <= k < t2.len() && (forall|j: int| 0 <= j < k ==> (#[trigger] o2[j]) is None) implies
        #[trigger] t2[k] == b0 by {
        assert forall|j: int| 0 <= j < k && j < outs.len() implies (#[trigger] outs[j]) is None by {
            assert(o2[j] == outs[j]);
        }
        if k < outs.len() {
            assert(t2[k] == turns[k]);
        }
    }
}

proof fn lemma_passes_on_push<B: FsmBackend>(outs: Seq<Option<int>>, turns: Seq<B>, b: B, sel: Option<int>)
    requires
        passes_on(outs, turns),
        outs.len() == turns.len(),
        outs.len() > 0 && outs.last() is None ==> b == turns.last(),
    ensures
        passes_on(outs.push(sel), turns.push(b)),
{
    reveal(passes_on);
    let o2 = outs.push(sel);
    let t2 = turns.push(b);
    assert forall|k: int| 0 <= k && k + 1 < t2.len() && (#[trigger] o2[k]) is None implies t2[k + 1]
        == t2[k] by {
        assert(o2[k] == outs[k]);
        assert(t2[k] == turns[k]);
        if k + 1 < outs.len() {
            assert(t2[k + 1] == turns[k + 1]);
        }
    }
}

proof fn lemma_traces_push<B: FsmBackend>(
    b0: B,
    table: Seq<Transition>,
    outs: Seq<Option<int>>,
    turns: Seq<B>,
    b: B,
    sel: Option<int>,
)
    requires
        traces(b0, table, outs, turns),
        outs.len() == turns.len(),
        b.trace() == b0.trace() + outcome_calls(table, outs),
    ensures
        traces(b0, table, outs.push(sel), turns.push(b)),
{
    reveal(traces);
    let o2 = outs.push(sel);
    let t2 = turns.push(b);
    assert forall|k: int| 0 <= k < t2.len() implies (#[trigger] t2[k]).trace() == b0.trace()
        + outcome_calls(table, o2.take(k)) by {
        assert(o2.take(k) =~= outs.take(k));
        if k < outs.len() {
            assert(t2[k] == turns[k]);
        } else {
            assert(outs.take(k) =~= outs);
        }
    }
}

/// The deadlines after firing `tr` at time `now`: the exit of its source
/// cancels, then the entry of its destination arms.
pub open spec fn fired_deadlines(
    deadlines: Seq<Option<u64>>,
    timers: Seq<TimerSettings>,
    tr: Transition,
    now: u64,
) -> Seq<Option<u64>> {
    let left = match tr.from {
        FsmCurrentState::State(a) => if tr.internal {
            deadlines
        } else {
            after_exit(deadlines, timers, a)
        },
        FsmCurrentState::Stopped => deadlines,
    };
    match tr.to {
        FsmCurrentState::State(b) => if tr.internal {
            left
        } else {
            after_entry(left, timers, b, now)
        },
        FsmCurrentState::Stopped => left,
    }
}

/// The events that timer `timer`, armed with `deadline`, produces at a poll
/// at time `now`: its event, once for each time it fires.
pub open spec fn timer_batch<B: FsmBackend>(
    b: B,
    deadline: Option<u64>,
    settings: TimerSettings,
    now: u64,
    timer: int,
) -> Seq<B::Event> {
    match deadline {
        Some(d) => match b.timer_event_of(timer as usize) {
            Some(e) => Seq::new(fire_count(d, settings, now), |k: int| e),
            None => Seq::empty(),
        },
        None => Seq::empty(),
    }
}

/// The events that the first `i` timers produce at a poll at time `now`,
/// in registration order.
pub open spec fn fired_events<B: FsmBackend>(
    b: B,
    deadlines: Seq<Option<u64>>,
    timers: Seq<TimerSettings>,
    now: u64,
    i: int,
) -> Seq<B::Event>
    decreases i,
{
    if i <= 0 {
        Seq::empty()
    } else {
        fired_events(b, deadlines, timers, now, i - 1) + timer_batch(
            b,
            deadlines[i - 1],
            timers[i - 1],
            now,
            i - 1,
        )
    }
}

/// The events of the first `i` timers are a prefix of those of the first
/// `j`, so there are no more of them.
pub proof fn lemma_fired_events_len<B: FsmBackend>(
    b: B,
    deadlines: Seq<Option<u64>>,
    timers: Seq<TimerSettings>,
    now: u64,
    i: int,
    j: int,
)
    requires
        0 <= i <= j,
    ensures
        fired_events(b, deadlines, timers, now, i).len() <= fired_events(
            b,
            deadlines,
            timers,
            now,
            j,
        ).len(),
    decreases j - i,
{
    if i < j {
        lemma_fired_events_len(b, deadlines, timers, now, i, j - 1);
    }
}

/// The deadlines after a poll at time `now`.
pub open spec fn polled(
    deadlines: Seq<Option<u64>>,
    timers: Seq<TimerSettings>,
    now: u64,
) -> Seq<Option<u64>> {
    Seq::new(deadlines.len(), |i: int| poll_deadline(deadlines[i], timers[i], now))
}

/// A state machine with one marker per region.
pub struct Fsm<B: FsmBackend, Q: FsmEventQueue<B::Event>, I: FsmInspect<B::Event>> {
    /// The context and state store, and the machine's code.
    pub backend: B,
    queue: Q,
    inspect: I,
    table: Vec<Transition>,
    n_states: usize,
    current: Vec<FsmCurrentState>,
    timers: Vec<TimerSettings>,
    deadlines: Vec<Option<u64>>,
    outcome: Ghost<Seq<Option<int>>>,
    turns: Ghost<Seq<B>>,
}

impl<B: FsmBackend, Q: FsmEventQueue<B::Event>, I: FsmInspect<B::Event>> Fsm<B, Q, I> {
    /// The backend: context, state store and the machine's code.
    pub closed spec fn data(&self) -> B {
        self.backend
    }

    /// The inspector.
    pub closed spec fn inspector(&self) -> I {
        self.inspect
    }

    /// The transition table.
    pub closed spec fn table(&self) -> Seq<Transition> {
        self.table@
    }

    /// The number of declared states.
    pub closed spec fn n_states(&self) -> nat {
        self.n_states as nat
    }

    /// One marker per region, in region order.
    pub closed spec fn markers(&self) -> Seq<FsmCurrentState> {
        self.current@
    }

    /// The timer registrations.
    pub closed spec fn timer_list(&self) -> Seq<TimerSettings> {
        self.timers@
    }

    /// The deadline of each timer registration that is armed.
    pub closed spec fn deadlines(&self) -> Seq<Option<u64>> {
        self.deadlines@
    }

    /// The events waiting in the queue.
    pub closed spec fn pending(&self) -> Seq<B::Event> {
        self.queue.queued()
    }

    /// Whether the queue keeps the events it accepts.
    pub closed spec fn queue_retains(&self) -> bool {
        self.queue.retains()
    }

    /// The number of events the queue can hold; `None` when unbounded.
    pub closed spec fn queue_capacity(&self) -> Option<nat> {
        self.queue.capacity()
    }

    /// Whether the queue takes another event.
    pub open spec fn queue_has_room(&self) -> bool {
        self.queue_capacity() matches Some(c) ==> self.pending().len() < c
    }

    /// The descriptor each region fired for the last dispatched event.
    pub closed spec fn outcome(&self) -> Seq<Option<int>> {
        self.outcome@
    }

    /// The backend as each region found it for the last dispatched event.
    pub closed spec fn turns(&self) -> Seq<B> {
        self.turns@
    }

    pub closed spec fn wf(&self) -> bool {
        &&& self.current@.len() > 0
        &&& table_ok(self.table@, self.current@.len(), self.n_states as nat)
        &&& timers_ok(self.timers@, self.n_states as nat)
        &&& self.deadlines@.len() == self.timers@.len()
        &&& forall|g: int|
            0 <= g < self.current@.len() ==> marker_ok(#[trigger] self.current@[g], self.n_states as nat)
                && reachable(self.table@, g as usize, self.current@[g])
        &&& forall|i: int|
            0 <= i < self.deadlines@.len() ==> (#[trigger] self.deadlines@[i] matches Some(d)
                ==> (self.timers@[i].renew ==> d > 0))
    }

    /// What a descriptor must say to be triggered by `ev`.
    pub open spec fn key_of(ev: FsmEvent<B::Event>) -> TransitionEvent {
        match ev {
            FsmEvent::Event(e) => event_key(ev, B::kind_of(e)),
            _ => event_key(ev, 0),
        }
    }

    /// Every marker of a well-formed machine is `Stopped` or reached from it
    /// through the transitions declared for its region.
    pub proof fn lemma_markers_reachable(&self)
        requires
            self.wf(),
        ensures
            forall|g: int|
                0 <= g < self.markers().len() ==> reachable(
                    self.table(),
                    g as usize,
                    #[trigger] self.markers()[g],
                ),
            forall|g: int|
                0 <= g < self.markers().len() ==> marker_ok(
                    #[trigger] self.markers()[g],
                    self.n_states(),
                ),
    {
    }

    /// Makes a machine with every region stopped and no timer armed.
    pub fn new(
        backend: B,
        queue: Q,
        inspect: I,
        table: Vec<Transition>,
        n_regions: usize,
        n_states: usize,
        timers: Vec<TimerSettings>,
    ) -> (r: Self)
        requires
            n_regions > 0,
            table_ok(table@, n_regions as nat, n_states as nat),
            timers_ok(timers@, n_states as nat),
        ensures
            r.wf(),
            r.data() == backend,
            r.pending() == queue.queued(),
            r.table() == table@,
            r.timer_list() == timers@,
            r.n_states() == n_states,
            r.markers() == Seq::new(n_regions as nat, |g: int| FsmCurrentState::Stopped),
            r.deadlines() == Seq::new(timers@.len(), |i: int| None::<u64>),
    {
        let mut current: Vec<FsmCurrentState> = Vec::new();
        let mut g: usize = 0;
        while g < n_regions
            invariant
                g <= n_regions,
                current@ == Seq::new(g as nat, |k: int| FsmCurrentState::Stopped),
            decreases n_regions - g,
        {
            current.push(FsmCurrentState::Stopped);
            g = g + 1;
            assert(current@ =~= Seq::new(g as nat, |k: int| FsmCurrentState::Stopped));
        }
        let mut deadlines: Vec<Option<u64>> = Vec::new();
        let mut i: usize = 0;
        while i < timers.len()
            invariant
                i <= timers@.len(),
                deadlines@ == Seq::new(i as nat, |k: int| None::<u64>),
            decreases timers.len() - i,
        {
            deadlines.push(None);
            i = i + 1;
            assert(deadlines@ =~= Seq::new(i as nat, |k: int| None::<u64>));
        }
        let r = Fsm {
            backend,
            queue,
            inspect,
            table,
            n_states,
            current,
            timers,
            deadlines,
            outcome: Ghost(Seq::empty()),
            turns: Ghost(Seq::empty()),
        };
        assert forall|g: int| 0 <= g < r.current@.len() implies marker_ok(
            #[trigger] r.current@[g],
            r.n_states as nat,
        ) && reachable(r.table@, g as usize, r.current@[g]) by {
            assert(crate::table::reachable_within(r.table@, g as usize, r.current@[g], 0));
        }
        r
    }

    /// The marker of each region, in region order.
    pub fn get_current_states(&self) -> (r: Vec<FsmCurrentState>)
        ensures
            r@ == self.markers(),
    {
        let mut r: Vec<FsmCurrentState> = Vec::new();
        let mut g: usize = 0;
        while g < self.current.len()
            invariant
                g <= self.current@.len(),
                r@ == self.current@.subrange(0, g as int),
            decreases self.current.len() - g,
        {
            r.push(self.current[g]);
            g = g + 1;
            assert(r@ =~= self.current@.subrange(0, g as int));
        }
        assert(r@ =~= self.current@);
        r
    }

    /// The first descriptor of `region` that the event triggers and whose
    /// guard, if any, holds: guards are evaluated in declaration order.
    fn select(&self, region: usize, ev: &FsmEvent<B::Event>, key: TransitionEvent) -> (r: Option<
        usize,
    >)
        requires
            self.wf(),
            region < self.current@.len(),
        ensures
            first_enabled(self.table@, region, self.current@[region as int], key, guard_fn(self.backend, *ev), 0)
                == match r {
                Some(t) => Some(t as int),
                None => None,
            },
    {
        let m = self.current[region];
        let mut i: usize = 0;
        while i < self.table.len()
            invariant
                i <= self.table@.len(),
                m == self.current@[region as int],
                first_enabled(self.table@, region, m, key, guard_fn(self.backend, *ev), 0) == first_enabled(
                    self.table@,
                    region,
                    m,
                    key,
                    guard_fn(self.backend, *ev),
                    i as int,
                ),
            decreases self.table.len() - i,
        {
            let t = self.table[i];
            if t.region == region && t.from == m && t.event == key {
                if !t.guarded || self.backend.guard(i, ev) {
                    assert(guard_fn(self.backend, *ev)(i as int) == self.backend.guard_holds(i, *ev));
                    return Some(i);
                }
            }
            i = i + 1;
        }
        None
    }

    /// Removes the armed timers of state `s` that are cancelled on exit.
    fn cancel_timers(&mut self, s: usize)
        requires
            old(self).wf(),
        ensures
            *final(self) == (Fsm { deadlines: final(self).deadlines, ..*old(self) }),
            final(self).deadlines@ == after_exit(old(self).deadlines@, old(self).timers@, s),
            final(self).wf(),
    {
        let mut i: usize = 0;
        while i < self.timers.len()
            invariant
                old(self).wf(),
                *self == (Fsm { deadlines: self.deadlines, ..*old(self) }),
                i <= self.timers@.len(),
                self.deadlines@.len() == self.timers@.len(),
                forall|k: int|
                    0 <= k < self.deadlines@.len() ==> #[trigger] self.deadlines@[k] == if k < i {
                        after_exit(old(self).deadlines@, old(self).timers@, s)[k]
                    } else {
                        old(self).deadlines@[k]
                    },
            decreases self.timers.len() - i,
        {
            let t = self.timers[i];
            if t.state == s && t.cancel_on_state_exit {
                self.deadlines.set(i, None);
            }
            i = i + 1;
        }
        assert(self.deadlines@ =~= after_exit(old(self).deadlines@, old(self).timers@, s));
    }

    /// Arms every timer of state `s` from time `now`.
    fn arm_timers(&mut self, s: usize, now: u64)
        requires
            old(self).wf(),
        ensures
            *final(self) == (Fsm { deadlines: final(self).deadlines, ..*old(self) }),
            final(self).deadlines@ == after_entry(old(self).deadlines@, old(self).timers@, s, now),
            final(self).wf(),
    {
        let mut i: usize = 0;
        while i < self.timers.len()
            invariant
                old(self).wf(),
                *self == (Fsm { deadlines: self.deadlines, ..*old(self) }),
                i <= self.timers@.len(),
                self.deadlines@.len() == self.timers@.len(),
                forall|k: int|
                    0 <= k < self.deadlines@.len() ==> #[trigger] self.deadlines@[k] == if k < i {
                        after_entry(old(self).deadlines@, old(self).timers@, s, now)[k]
                    } else {
                        old(self).deadlines@[k]
                    },
            decreases self.timers.len() - i,
        {
            let t = self.timers[i];
            if t.state == s {
                let d = arm_deadline(now, t.timeout);
                self.deadlines.set(i, Some(d));
            }
            i = i + 1;
        }
        assert(self.deadlines@ =~= after_entry(old(self).deadlines@, old(self).timers@, s, now));
    }

    /// Fires descriptor `t`: the exit hook of its source, its action, the
    /// entry hook of its destination, then the region's marker.
    fn fire(&mut self, t: usize, ev: &FsmEvent<B::Event>, now: u64)
        requires
            old(self).wf(),
            t < old(self).table@.len(),
            old(self).table@[t as int].from == old(self).current@[old(self).table@[t as int].region as int],
        ensures
            final(self).wf(),
            final(self).table@ == old(self).table@,
            final(self).timers@ == old(self).timers@,
            final(self).n_states == old(self).n_states,
            final(self).outcome == old(self).outcome,
            final(self).turns == old(self).turns,
            appended_only(old(self).queue, final(self).queue),
            final(self).current@ == old(self).current@.update(
                old(self).table@[t as int].region as int,
                old(self).table@[t as int].to,
            ),
            final(self).backend.trace() == old(self).backend.trace() + transition_calls(
                old(self).table@,
                t as int,
            ),
            final(self).deadlines@ == fired_deadlines(
                old(self).deadlines@,
                old(self).timers@,
                old(self).table@[t as int],
                now,
            ),
    {
        let tr = self.table[t];
        let ghost trace0 = self.backend.trace();
        let ghost q0 = self.queue;
        proof {
            lemma_reachable_step(self.table@, tr.region, t as int);
        }
        proof {
            lemma_extends_refl(q0.queued());
        }
        if !tr.internal {
            if let FsmCurrentState::State(a) = tr.from {
                let ghost qa = self.queue;
                self.backend.on_exit(a, &mut self.queue);
                proof {
                    lemma_extends_trans(q0.queued(), qa.queued(), self.queue.queued());
                }
                self.cancel_timers(a);
            }
        }
        if tr.has_action {
            let ghost qb = self.queue;
            self.backend.action(t, ev, &mut self.queue);
            proof {
                lemma_extends_trans(q0.queued(), qb.queued(), self.queue.queued());
            }
        }
        if !tr.internal {
            if let FsmCurrentState::State(b) = tr.to {
                self.arm_timers(b, now);
                let ghost qc = self.queue;
                self.backend.on_entry(b, &mut self.queue);
                proof {
                    lemma_extends_trans(q0.queued(), qc.queued(), self.queue.queued());
                }
            }
        }
        self.current.set(tr.region, tr.to);
        proof {
            assert(self.backend.trace() =~= trace0 + transition_calls(self.table@, t as int));
            assert(extends(q0.queued(), self.queue.queued()));
            assert forall|g: int| 0 <= g < self.current@.len() implies marker_ok(
                #[trigger] self.current@[g],
                self.n_states as nat,
            ) && reachable(self.table@, g as usize, self.current@[g]) by {
                if g != tr.region {
                    assert(self.current@[g] == old(self).current@[g]);
                }
            }
        }
    }

    /// One region's part of a dispatch: fires the first enabled candidate
    /// of `region`, or leaves the machine as it is when there is none.
    pub fn dispatch_region(&mut self, region: usize, ev: &FsmEvent<B::Event>, now: u64) -> (hit:
        bool)
        requires
            old(self).wf(),
            region < old(self).markers().len(),
        ensures
            final(self).wf(),
            final(self).table() == old(self).table(),
            final(self).timer_list() == old(self).timer_list(),
            final(self).n_states() == old(self).n_states(),
            final(self).outcome() == old(self).outcome(),
            final(self).turns() == old(self).turns(),
            final(self).queue_capacity() == old(self).queue_capacity(),
            final(self).queue_retains() == old(self).queue_retains(),
            extends(old(self).pending(), final(self).pending()),
            match first_enabled(
                old(self).table(),
                region,
                old(self).markers()[region as int],
                Self::key_of(*ev),
                guard_fn(old(self).data(), *ev),
                0,
            ) {
                None => !hit && *final(self) == *old(self),
                Some(t) => {
                    &&& hit
                    &&& final(self).markers() == old(self).markers().update(
                        region as int,
                        old(self).table()[t].to,
                    )
                    &&& final(self).data().trace() == old(self).data().trace() + transition_calls(
                        old(self).table(),
                        t,
                    )
                    &&& final(self).deadlines() == fired_deadlines(
                        old(self).deadlines(),
                        old(self).timer_list(),
                        old(self).table()[t],
                        now,
                    )
                },
            },
    {
        let key = match ev {
            FsmEvent::Start => TransitionEvent::Start,
            FsmEvent::Stop => TransitionEvent::Stop,
            FsmEvent::Event(e) => TransitionEvent::Event(B::event_kind(e)),
        };
        assert(key == Self::key_of(*ev));
        let selected = self.select(region, ev, key);
        proof {
            lemma_first_enabled_props(
                self.table@,
                region,
                self.current@[region as int],
                key,
                guard_fn(self.backend, *ev),
                0,
            );
        }
        proof {
            lemma_extends_refl(self.queue.queued());
        }
        match selected {
            None => false,
            Some(t) => {
                self.fire(t, ev, now);
                true
            },
        }
    }

    /// `b` holds the same table, timers, markers, backend, deadlines and
    /// queue settings as `a`.
    pub open spec fn same_but_pending(a: Self, b: Self) -> bool {
        &&& b.table() == a.table()
        &&& b.timer_list() == a.timer_list()
        &&& b.n_states() == a.n_states()
        &&& b.markers() == a.markers()
        &&& b.data() == a.data()
        &&& b.deadlines() == a.deadlines()
        &&& b.queue_capacity() == a.queue_capacity()
        &&& b.queue_retains() == a.queue_retains()
    }

    /// `b` is `a` in every observable respect.
    pub open spec fn same_state(a: Self, b: Self) -> bool {
        Self::same_but_pending(a, b) && b.pending() == a.pending()
    }

    /// What dispatching `ev` did, from `before` to `after`. Region `g`
    /// found the backend as `turns[g]` (as it was before the dispatch,
    /// while every earlier region missed) and fired what `first_enabled`
    /// selects under those guards, or missed. The dispatch fails with
    /// `NoTransition` exactly when every region missed, and then nothing
    /// changed. The hooks run are those of the fired descriptors, in region
    /// order, and they only appended to the queue.
    pub open spec fn dispatched(
        before: Self,
        after: Self,
        ev: FsmEvent<B::Event>,
        r: FsmResult<()>,
    ) -> bool {
        let key = Self::key_of(ev);
        let outs = after.outcome();
        let turns = after.turns();
        &&& after.table() == before.table()
        &&& after.timer_list() == before.timer_list()
        &&& after.n_states() == before.n_states()
        &&& after.markers().len() == before.markers().len()
        &&& after.queue_capacity() == before.queue_capacity()
        &&& after.queue_retains() == before.queue_retains()
        &&& extends(before.pending(), after.pending())
        &&& outs.len() == before.markers().len()
        &&& turns_ok(before.data(), before.table(), before.markers(), key, ev, outs, turns)
        &&& forall|g: int|
            0 <= g < outs.len() ==> region_outcome_ok(
                before.table(),
                g as usize,
                before.markers()[g],
                after.markers()[g],
                key,
                #[trigger] outs[g],
            )
        &&& (r is Err <==> forall|g: int| 0 <= g < outs.len() ==> (#[trigger] outs[g]) is None)
        &&& (r is Err ==> r == Err::<(), FsmError>(FsmError::NoTransition) && Self::same_state(
            before,
            after,
        ))
        &&& after.data().trace() == before.data().trace() + outcome_calls(before.table(), outs)
    }

    /// Regions before `h` whose guards, as the backend stood before the
    /// dispatch, select nothing all miss.
    proof fn lemma_misses_prefix(
        before: Self,
        after: Self,
        ev: FsmEvent<B::Event>,
        r: FsmResult<()>,
        h: int,
    )
        requires
            Self::dispatched(before, after, ev, r),
            0 <= h <= before.markers().len(),
            forall|g: int|
                0 <= g < h ==> (#[trigger] first_enabled(
                    before.table(),
                    g as usize,
                    before.markers()[g],
                    Self::key_of(ev),
                    guard_fn(before.data(), ev),
                    0,
                )) is None,
        ensures
            forall|k: int| 0 <= k < h ==> (#[trigger] after.outcome()[k]) is None,
            h < before.markers().len() ==> after.turns()[h] == before.data(),
        decreases h,
    {
        reveal(picks);
        reveal(sees_start);
        let outs = after.outcome();
        if h > 0 {
            Self::lemma_misses_prefix(before, after, ev, r, h - 1);
            assert(after.turns()[h - 1] == before.data());
            assert(outs[h - 1] == first_enabled(
                before.table(),
                (h - 1) as usize,
                before.markers()[h - 1],
                Self::key_of(ev),
                guard_fn(before.data(), ev),
                0,
            ));
            assert forall|k: int| 0 <= k < h implies (#[trigger] outs[k]) is None by {}
        }
        if h < before.markers().len() {
            assert(forall|k: int| 0 <= k < h ==> (#[trigger] outs[k]) is None);
            assert(after.turns()[h] == before.data());
        }
    }

    /// An event that no region's guards, as they stand, let through fails
    /// with `NoTransition` and changes nothing: guards only read, so every
    /// region sees the same backend.
    pub proof fn lemma_no_candidate_no_transition(
        before: Self,
        after: Self,
        ev: FsmEvent<B::Event>,
        r: FsmResult<()>,
    )
        requires
            Self::dispatched(before, after, ev, r),
            forall|g: int|
                0 <= g < before.markers().len() ==> (#[trigger] first_enabled(
                    before.table(),
                    g as usize,
                    before.markers()[g],
                    Self::key_of(ev),
                    guard_fn(before.data(), ev),
                    0,
                )) is None,
        ensures
            r == Err::<(), FsmError>(FsmError::NoTransition),
            Self::same_state(before, after),
    {
        Self::lemma_misses_prefix(before, after, ev, r, before.markers().len() as int);
    }

    /// Region independence: a region with no candidate for the event keeps
    /// its marker whatever the other regions do; the dispatch fails only
    /// when every region missed.
    pub proof fn lemma_region_independence(
        before: Self,
        after: Self,
        ev: FsmEvent<B::Event>,
        r: FsmResult<()>,
        g: int,
    )
        requires
            Self::dispatched(before, after, ev, r),
            0 <= g < before.markers().len(),
            forall|t: int|
                0 <= t < before.table().len() ==> !is_candidate(
                    #[trigger] before.table()[t],
                    g as usize,
                    before.markers()[g],
                    Self::key_of(ev),
                ),
        ensures
            after.markers()[g] == before.markers()[g],
            after.outcome()[g] is None,
            r is Err <==> forall|k: int|
                0 <= k < after.outcome().len() ==> (#[trigger] after.outcome()[k]) is None,
    {
        let outs = after.outcome();
        assert(region_outcome_ok(
            before.table(),
            g as usize,
            before.markers()[g],
            after.markers()[g],
            Self::key_of(ev),
            outs[g],
        ));
        if let Some(t) = outs[g] {
            assert(!is_candidate(before.table()[t], g as usize, before.markers()[g], Self::key_of(ev)));
        }
    }

    /// When the regions before `h` select nothing and region `h` selects
    /// descriptor `t` under the guards as they stand, the dispatch succeeds
    /// and region `h` moves to the destination of `t`.
    pub proof fn lemma_first_hit(
        before: Self,
        after: Self,
        ev: FsmEvent<B::Event>,
        r: FsmResult<()>,
        h: int,
        t: int,
    )
        requires
            Self::dispatched(before, after, ev, r),
            0 <= h < before.markers().len(),
            forall|g: int|
                0 <= g < h ==> (#[trigger] first_enabled(
                    before.table(),
                    g as usize,
                    before.markers()[g],
                    Self::key_of(ev),
                    guard_fn(before.data(), ev),
                    0,
                )) is None,
            first_enabled(
                before.table(),
                h as usize,
                before.markers()[h],
                Self::key_of(ev),
                guard_fn(before.data(), ev),
                0,
            ) == Some(t),
        ensures
            r is Ok,
            after.outcome()[h] == Some(t),
            after.markers()[h] == before.table()[t].to,
    {
        reveal(picks);
        Self::lemma_misses_prefix(before, after, ev, r, h);
        let outs = after.outcome();
        assert(outs[h] == Some(t));
        assert(region_outcome_ok(
            before.table(),
            h as usize,
            before.markers()[h],
            after.markers()[h],
            Self::key_of(ev),
            outs[h],
        ));
    }

    /// Dispatches one event through every region, in region order, without
    /// taking anything from the queue. Fails with `NoTransition` when no
    /// region accepts it.
    #[verifier::rlimit(50)]
    pub fn dispatch_event(&mut self, ev: &FsmEvent<B::Event>, now: u64) -> (r: FsmResult<()>)
        requires
            old(self).wf(),
        ensures
            final(self).wf(),
            Self::dispatched(*old(self), *final(self), *ev, r),
    {
        self.inspect.on_dispatch_event(&self.current, ev);
        let ghost start = *self;
        let ghost key = Self::key_of(*ev);
        let ghost mut outs: Seq<Option<int>> = Seq::empty();
        let ghost mut turns: Seq<B> = Seq::empty();
        proof {
            lemma_extends_refl(start.queue.queued());
            lemma_turns_empty(start.backend, start.table@, start.current@, key, *ev);
        }
        let n = self.current.len();
        let mut any_hit = false;
        let mut g: usize = 0;
        while g < n
            invariant
                self.wf(),
                n == start.current@.len(),
                self.current@.len() == n,
                self.table@ == start.table@,
                self.timers@ == start.timers@,
                self.n_states == start.n_states,
                self.outcome == start.outcome,
                self.turns == start.turns,
                self.queue.capacity() == start.queue.capacity(),
                self.queue.retains() == start.queue.retains(),
                extends(start.queue.queued(), self.queue.queued()),
                g <= n,
                outs.len() == g,
                turns.len() == g,
                key == Self::key_of(*ev),
                turns_ok(start.backend, start.table@, start.current@, key, *ev, outs, turns),
                forall|k: int|
                    0 <= k < g ==> region_outcome_ok(
                        start.table@,
                        k as usize,
                        start.current@[k],
                        self.current@[k],
                        key,
                        #[trigger] outs[k],
                    ),
                g > 0 && outs[g - 1] is None ==> self.backend == turns[g - 1],
                forall|k: int| g <= k < n ==> #[trigger] self.current@[k] == start.current@[k],
                any_hit <==> exists|k: int| 0 <= k < g && (#[trigger] outs[k]) is Some,
                !any_hit ==> *self == start,
                self.backend.trace() == start.backend.trace() + outcome_calls(start.table@, outs),
            decreases n - g,
        {
            let ghost before = *self;
            let hit = self.dispatch_region(g, ev, now);
            let ghost sel = first_enabled(
                before.table@,
                g,
                before.current@[g as int],
                key,
                guard_fn(before.backend, *ev),
                0,
            );
            proof {
                lemma_first_enabled_props(
                    before.table@,
                    g,
                    before.current@[g as int],
                    key,
                    guard_fn(before.backend, *ev),
                    0,
                );
                lemma_picks_push(start.table@, start.current@, key, *ev, outs, turns, before.backend, sel);
                lemma_sees_start_push(start.backend, outs, turns, before.backend, sel);
                lemma_passes_on_push(outs, turns, before.backend, sel);
                lemma_traces_push(start.backend, start.table@, outs, turns, before.backend, sel);
                let prev = outs;
                outs = outs.push(sel);
                turns = turns.push(before.backend);
                assert(outs.drop_last() =~= prev);
                assert forall|k: int| 0 <= k < g + 1 implies region_outcome_ok(
                    start.table@,
                    k as usize,
                    start.current@[k],
                    self.current@[k],
                    key,
                    #[trigger] outs[k],
                ) by {
                    if k < g {
                        assert(outs[k] == prev[k]);
                        assert(self.current@[k] == before.current@[k]);
                    }
                }
                if hit {
                    assert(outs[g as int] is Some);
                } else {
                    assert(outs[g as int] is None);
                    if any_hit {
                        let w = choose|k: int| 0 <= k < g && (#[trigger] prev[k]) is Some;
                        assert(outs[w] == prev[w]);
                    } else {
                        assert forall|k: int| 0 <= k < g + 1 implies !((#[trigger] outs[k]) is Some) by {
                            if k < g {
                                assert(outs[k] == prev[k]);
                            }
                        }
                    }
                }
                assert(outs.last() == sel);
                let step = match sel {
                    Some(t) => transition_calls(start.table@, t),
                    None => Seq::<HookCall>::empty(),
                };
                assert(outcome_calls(start.table@, outs) == outcome_calls(start.table@, prev) + step);
                assert(self.backend.trace() =~= start.backend.trace() + outcome_calls(
                    start.table@,
                    outs,
                ));
                lemma_extends_trans(start.queue.queued(), before.queue.queued(), self.queue.queued());
            }
            any_hit = any_hit || hit;
            g = g + 1;
        }
        proof {
            if any_hit {
                let k = choose|k: int| 0 <= k < g && (#[trigger] outs[k]) is Some;
                assert(!(outs[k] is None));
            }
        }
        self.outcome = Ghost(outs);
        self.turns = Ghost(turns);
        let result = if any_hit {
            Ok(())
        } else {
            Err(FsmError::NoTransition)
        };
        self.inspect.on_dispatched_event(&self.current, &result);
        result
    }

    /// `taken` is `before` with its oldest waiting event taken out.
    pub open spec fn taken_from(before: Self, taken: Self) -> bool {
        Self::same_but_pending(before, taken) && taken.pending() == before.pending().drop_first()
    }

    /// Draining from `before` to `after` in at most `n` steps: with an empty
    /// queue nothing happens; else the oldest event is taken out and
    /// dispatched, a failure ends the drain with that failure, and a
    /// success drains on. Out of steps with events left, the drain fails
    /// with `QueueOverCapacity`.
    #[verifier::opaque]
    pub open spec fn drained_within(before: Self, after: Self, r: FsmResult<()>, n: nat) -> bool
        decreases n,
    {
        if before.pending().len() == 0 {
            r is Ok && Self::same_state(before, after)
        } else if n == 0 {
            r == Err::<(), FsmError>(FsmError::QueueOverCapacity) && Self::same_state(before, after)
        } else {
            exists|taken: Self, mid: Self, first: FsmResult<()>|
                {
                    &&& Self::taken_from(before, taken)
                    &&& #[trigger] Self::dispatched(
                        taken,
                        mid,
                        FsmEvent::Event(before.pending()[0]),
                        first,
                    )
                    &&& (first is Err ==> r == first && Self::same_state(mid, after))
                    &&& (first is Ok ==> Self::drained_within(mid, after, r, (n - 1) as nat))
                }
        }
    }

    /// With an empty queue, draining changes nothing; with events left and
    /// no steps left, it fails with `QueueOverCapacity`.
    proof fn lemma_drain_stop(s: Self, r: FsmResult<()>, n: nat)
        requires
            s.pending().len() == 0 ==> r is Ok,
            s.pending().len() > 0 ==> n == 0 && r == Err::<(), FsmError>(
                FsmError::QueueOverCapacity,
            ),
        ensures
            Self::drained_within(s, s, r, n),
    {
        reveal(Fsm::drained_within);
    }

    /// One successful dispatch of the oldest event, then a drain from there,
    /// is a drain one step longer.
    proof fn lemma_drain_step(
        s0: Self,
        taken: Self,
        mid: Self,
        first: FsmResult<()>,
        after: Self,
        r: FsmResult<()>,
        n: nat,
    )
        requires
            s0.pending().len() > 0,
            Self::taken_from(s0, taken),
            Self::dispatched(taken, mid, FsmEvent::Event(s0.pending()[0]), first),
            first is Ok ==> Self::drained_within(mid, after, r, n),
            first is Err ==> r == first && Self::same_state(mid, after),
        ensures
            Self::drained_within(s0, after, r, n + 1),
    {
        reveal(Fsm::drained_within);
        assert(Self::dispatched(taken, mid, FsmEvent::Event(s0.pending()[0]), first));
    }

    /// Takes queued events one at a time, oldest first, and dispatches each
    /// through every region before taking the next, until the queue is
    /// empty. Stops at the first failure. Hooks that keep refilling the
    /// queue are cut off after `u64::MAX` events with `QueueOverCapacity`.
    fn drain(&mut self, now: u64) -> (r: FsmResult<()>)
        requires
            old(self).wf(),
        ensures
            final(self).wf(),
            Self::drained_within(*old(self), *final(self), r, u64::MAX as nat),
    {
        let mut budget: u64 = u64::MAX;
        let ghost start = *self;
        loop
            invariant
                start == *old(self),
                self.wf(),
                forall|after: Self, r: FsmResult<()>|
                    #[trigger] Self::drained_within(*self, after, r, budget as nat)
                        ==> Self::drained_within(start, after, r, u64::MAX as nat),
            decreases budget,
        {
            if self.queue.len() == 0 {
                proof {
                    Self::lemma_drain_stop(*self, Ok(()), budget as nat);
                }
                return Ok(());
            }
            if budget == 0 {
                proof {
                    Self::lemma_drain_stop(*self, Err(FsmError::QueueOverCapacity), 0);
                }
                return Err(FsmError::QueueOverCapacity);
            }
            let ghost s0 = *self;
            let e = match self.queue.dequeue() {
                Some(e) => e,
                None => {
                    return Ok(());
                },
            };
            let ghost taken = *self;
            let ev = FsmEvent::Event(e);
            let first = self.dispatch_event(&ev, now);
            let ghost mid = *self;
            proof {
                assert(Self::taken_from(s0, taken));
                lemma_extends_refl(mid.pending());
            }
            match first {
                Err(err) => {
                    proof {
                        Self::lemma_drain_step(s0, taken, mid, first, mid, first, (budget - 1) as nat);
                    }
                    return Err(err);
                },
                Ok(()) => {},
            }
            budget = budget - 1;
            proof {
                assert forall|after: Self, r: FsmResult<()>| #[trigger]
                    Self::drained_within(*self, after, r, budget as nat) implies Self::drained_within(
                    start,
                    after,
                    r,
                    u64::MAX as nat,
                ) by {
                    Self::lemma_drain_step(s0, taken, mid, first, after, r, budget as nat);
                }
            }
        }
    }

    /// Fires the start pseudo-event through every region, then drains the
    /// queue. A region already started has no start transition and misses:
    /// starting twice is a `NoTransition` that changes nothing.
    pub fn start(&mut self, now: u64) -> (r: FsmResult<()>)
        requires
            old(self).wf(),
        ensures
            final(self).wf(),
            exists|mid: Self, first: FsmResult<()>|
                {
                    &&& Self::dispatched(*old(self), mid, FsmEvent::Start, first)
                    &&& (first is Err ==> r == first && Self::same_state(mid, *final(self)))
                    &&& (first is Ok ==> Self::drained_within(mid, *final(self), r, u64::MAX as nat))
                },
            (forall|g: int|
                0 <= g < old(self).markers().len() ==> (#[trigger] first_enabled(
                    old(self).table(),
                    g as usize,
                    old(self).markers()[g],
                    TransitionEvent::Start,
                    guard_fn(old(self).data(), FsmEvent::Start),
                    0,
                )) is None) ==> r == Err::<(), FsmError>(FsmError::NoTransition) && Self::same_state(
                *old(self),
                *final(self),
            ),
    {
        let ev: FsmEvent<B::Event> = FsmEvent::Start;
        let first = self.dispatch_event(&ev, now);
        let ghost mid = *self;
        proof {
            if forall|g: int|
                0 <= g < old(self).markers().len() ==> (#[trigger] first_enabled(
                    old(self).table(),
                    g as usize,
                    old(self).markers()[g],
                    TransitionEvent::Start,
                    guard_fn(old(self).data(), FsmEvent::Start),
                    0,
                )) is None {
                Self::lemma_no_candidate_no_transition(*old(self), *self, ev, first);
            }
        }
        let r = match first {
            Err(e) => Err(e),
            Ok(()) => self.drain(now),
        };
        assert(Self::dispatched(*old(self), mid, FsmEvent::Start, first));
        r
    }

    /// Enqueues an event and drains the queue, dispatching each event in
    /// turn. A full queue refuses the event and nothing is dispatched.
    pub fn dispatch(&mut self, event: B::Event, now: u64) -> (r: FsmResult<()>)
        requires
            old(self).wf(),
        ensures
            final(self).wf(),
            !old(self).queue_has_room() ==> r == Err::<(), FsmError>(FsmError::QueueOverCapacity)
                && Self::same_state(*old(self), *final(self)),
            old(self).queue_has_room() ==> exists|mid: Self|
                {
                    &&& Self::same_but_pending(*old(self), mid)
                    &&& mid.pending() == if old(self).queue_retains() {
                        old(self).pending().push(event)
                    } else {
                        old(self).pending()
                    }
                    &&& Self::drained_within(mid, *final(self), r, u64::MAX as nat)
                },
    {
        match self.queue.enqueue(event) {
            Err(e) => Err(e),
            Ok(()) => {
                let ghost mid = *self;
                let r = self.drain(now);
                assert(Self::same_but_pending(*old(self), mid));
                assert(Self::drained_within(mid, *self, r, u64::MAX as nat));
                r
            },
        }
    }

    /// Turns every armed timer whose deadline has passed into queued
    /// events, in registration order: a renewing timer fires once per
    /// elapsed period and is armed again, any other fires once and is
    /// removed.
    fn poll_timers(&mut self, now: u64) -> (r: FsmResult<()>)
        requires
            old(self).wf(),
        ensures
            final(self).wf(),
            final(self).table@ == old(self).table@,
            final(self).timers@ == old(self).timers@,
            final(self).n_states == old(self).n_states,
            final(self).current@ == old(self).current@,
            final(self).backend == old(self).backend,
            final(self).queue.capacity() == old(self).queue.capacity(),
            final(self).queue.retains() == old(self).queue.retains(),
            r is Ok ==> final(self).deadlines@ == polled(old(self).deadlines@, old(self).timers@, now),
            r is Ok ==> final(self).queue.queued() == if old(self).queue.retains() {
                old(self).queue.queued() + fired_events(
                    old(self).backend,
                    old(self).deadlines@,
                    old(self).timers@,
                    now,
                    old(self).timers@.len() as int,
                )
            } else {
                old(self).queue.queued()
            },
            r is Err ==> r == Err::<(), FsmError>(FsmError::QueueOverCapacity),
            extends(old(self).queue.queued(), final(self).queue.queued()),
            (old(self).queue.capacity() matches Some(c) ==> old(self).queue.retains()
                && old(self).queue.queued().len() + fired_events(
                old(self).backend,
                old(self).deadlines@,
                old(self).timers@,
                now,
                old(self).timers@.len() as int,
            ).len() <= c) ==> r is Ok,
    {
        let ghost total = fired_events(
            old(self).backend,
            old(self).deadlines@,
            old(self).timers@,
            now,
            old(self).timers@.len() as int,
        );
        let ghost fits = old(self).queue.capacity() matches Some(c) ==> old(self).queue.retains()
            && old(self).queue.queued().len() + total.len() <= c;
        proof {
            lemma_extends_refl(old(self).queue.queued());
        }
        let mut i: usize = 0;
        while i < self.timers.len()
            invariant
                self.wf(),
                self.table@ == old(self).table@,
                self.timers@ == old(self).timers@,
                self.n_states == old(self).n_states,
                self.current@ == old(self).current@,
                self.backend == old(self).backend,
                self.queue.capacity() == old(self).queue.capacity(),
                self.queue.retains() == old(self).queue.retains(),
                extends(old(self).queue.queued(), self.queue.queued()),
                total == fired_events(
                    old(self).backend,
                    old(self).deadlines@,
                    old(self).timers@,
                    now,
                    old(self).timers@.len() as int,
                ),
                fits == (old(self).queue.capacity() matches Some(c) ==> old(self).queue.retains()
                    && old(self).queue.queued().len() + total.len() <= c),
                i <= self.timers@.len(),
                self.deadlines@.len() == old(self).deadlines@.len(),
                forall|k: int|
                    0 <= k < self.deadlines@.len() ==> #[trigger] self.deadlines@[k] == if k < i {
                        polled(old(self).deadlines@, old(self).timers@, now)[k]
                    } else {
                        old(self).deadlines@[k]
                    },
                self.queue.queued() == if old(self).queue.retains() {
                    old(self).queue.queued() + fired_events(
                        old(self).backend,
                        old(self).deadlines@,
                        old(self).timers@,
                        now,
                        i as int,
                    )
                } else {
                    old(self).queue.queued()
                },
            decreases self.timers.len() - i,
        {
            let ghost q_i = self.queue.queued();
            if let Some(d) = self.deadlines[i] {
                let settings = self.timers[i];
                let (fires, next) = timer_fires(d, settings, now);
                self.deadlines.set(i, next);
                proof {
                    if let Some(nd) = next {
                        if now >= d && settings.renew {
                            assert(fires as int * settings.timeout as int >= 0) by (nonlinear_arith)
                                requires
                                    fires >= 0,
                                    settings.timeout >= 0,
                            ;
                        }
                        assert(settings.renew ==> nd > 0);
                    }
                    assert forall|k: int| 0 <= k < self.deadlines@.len() implies (
                    #[trigger] self.deadlines@[k] matches Some(e) ==> (self.timers@[k].renew ==> e
                        > 0)) by {
                        if k != i {
                            assert(self.deadlines@[k] == old(self).deadlines@[k] || k < i);
                        }
                    }
                }
                proof {
                    lemma_fired_events_len(
                        old(self).backend,
                        old(self).deadlines@,
                        old(self).timers@,
                        now,
                        i + 1,
                        old(self).timers@.len() as int,
                    );
                    assert(old(self).deadlines@[i as int] == Some(d));
                    assert(fired_events(
                        old(self).backend,
                        old(self).deadlines@,
                        old(self).timers@,
                        now,
                        i + 1,
                    ) == fired_events(
                        old(self).backend,
                        old(self).deadlines@,
                        old(self).timers@,
                        now,
                        i as int,
                    ) + timer_batch(
                        old(self).backend,
                        old(self).deadlines@[i as int],
                        old(self).timers@[i as int],
                        now,
                        i as int,
                    ));
                }
                let mut k: u64 = 0;
                while k < fires
                    invariant
                        extends(old(self).queue.queued(), self.queue.queued()),
                        total == fired_events(
                            old(self).backend,
                            old(self).deadlines@,
                            old(self).timers@,
                            now,
                            old(self).timers@.len() as int,
                        ),
                        fits == (old(self).queue.capacity() matches Some(c) ==> old(self).queue.retains()
                            && old(self).queue.queued().len() + total.len() <= c),
                        fits ==> (self.queue.capacity() matches Some(c) ==> (
                        old(self).backend.timer_event_of(i) is Some ==> q_i.len() + fires <= c)),
                        self.wf(),
                        self.table@ == old(self).table@,
                        self.timers@ == old(self).timers@,
                        self.n_states == old(self).n_states,
                        self.current@ == old(self).current@,
                        self.backend == old(self).backend,
                        self.queue.capacity() == old(self).queue.capacity(),
                        self.queue.retains() == old(self).queue.retains(),
                        i < self.timers@.len(),
                        self.deadlines@.len() == old(self).deadlines@.len(),
                        forall|j: int|
                            0 <= j < self.deadlines@.len() ==> #[trigger] self.deadlines@[j] == if j
                                <= i {
                                polled(old(self).deadlines@, old(self).timers@, now)[j]
                            } else {
                                old(self).deadlines@[j]
                            },
                        k <= fires,
                        self.queue.queued() == if old(self).queue.retains() {
                            q_i + match old(self).backend.timer_event_of(i) {
                                Some(e) => Seq::new(k as nat, |x: int| e),
                                None => Seq::<B::Event>::empty(),
                            }
                        } else {
                            old(self).queue.queued()
                        },
                    decreases fires - k,
                {
                    let ghost q_k = self.queue.queued();
                    if let Some(e) = self.backend.timer_event(i) {
                        let ghost qb = self.queue.queued();
                        if self.queue.enqueue(e).is_err() {
                            return Err(FsmError::QueueOverCapacity);
                        }
                        proof {
                            if self.queue.queued() == qb.push(e) {
                                lemma_extends_push(qb, e);
                                lemma_extends_trans(old(self).queue.queued(), qb, self.queue.queued());
                            }
                        }
                        proof {
                            if old(self).queue.retains() {
                                assert(self.queue.queued() =~= q_i + Seq::new(
                                    (k + 1) as nat,
                                    |x: int| e,
                                ));
                            }
                        }
                    }
                    k = k + 1;
                }
                proof {
                    assert(old(self).deadlines@[i as int] == Some(d));
                    let batch = timer_batch(
                        old(self).backend,
                        old(self).deadlines@[i as int],
                        old(self).timers@[i as int],
                        now,
                        i as int,
                    );
                    assert(fired_events(
                        old(self).backend,
                        old(self).deadlines@,
                        old(self).timers@,
                        now,
                        i + 1,
                    ) == fired_events(
                        old(self).backend,
                        old(self).deadlines@,
                        old(self).timers@,
                        now,
                        i as int,
                    ) + batch);
                    if old(self).queue.retains() {
                        match old(self).backend.timer_event_of(i) {
                            Some(e) => {
                                assert(batch =~= Seq::new(fires as nat, |x: int| e));
                            },
                            None => {
                                assert(batch =~= Seq::<B::Event>::empty());
                            },
                        }
                        assert(self.queue.queued() =~= old(self).queue.queued() + fired_events(
                            old(self).backend,
                            old(self).deadlines@,
                            old(self).timers@,
                            now,
                            i + 1,
                        ));
                    }
                }
            } else {
                proof {
                    assert(fired_events(
                        old(self).backend,
                        old(self).deadlines@,
                        old(self).timers@,
                        now,
                        i + 1,
                    ) =~= fired_events(
                        old(self).backend,
                        old(self).deadlines@,
                        old(self).timers@,
                        now,
                        i as int,
                    ));
                }
            }
            i = i + 1;
        }
        assert(self.deadlines@ =~= polled(old(self).deadlines@, old(self).timers@, now));
        Ok(())
    }

    /// Whether the events that a poll at time `now` produces fit in the
    /// queue: always for an unbounded queue.
    pub open spec fn poll_fits(s: Self, now: u64) -> bool {
        s.queue_capacity() matches Some(c) ==> s.queue_retains() && s.pending().len() + fired_events(
            s.data(),
            s.deadlines(),
            s.timer_list(),
            now,
            s.timer_list().len() as int,
        ).len() <= c
    }

    /// `mid` is `before` after a poll at time `now`: deadlines moved on as
    /// `polled` says, and the events of the due timers queued, in
    /// registration order, after those already waiting.
    pub open spec fn polled_state(before: Self, mid: Self, now: u64) -> bool {
        &&& mid.table() == before.table()
        &&& mid.timer_list() == before.timer_list()
        &&& mid.n_states() == before.n_states()
        &&& mid.markers() == before.markers()
        &&& mid.data() == before.data()
        &&& mid.queue_capacity() == before.queue_capacity()
        &&& mid.queue_retains() == before.queue_retains()
        &&& mid.deadlines() == polled(before.deadlines(), before.timer_list(), now)
        &&& mid.pending() == if before.queue_retains() {
            before.pending() + fired_events(
                before.data(),
                before.deadlines(),
                before.timer_list(),
                now,
                before.timer_list().len() as int,
            )
        } else {
            before.pending()
        }
    }

    /// Polls the timers at time `now`, enqueueing the events of those that
    /// are due in registration order, then drains the queue. When the
    /// events do not fit, the poll may stop with `QueueOverCapacity` after
    /// queueing some of them; nothing is dispatched then.
    pub fn dispatch_timer_events(&mut self, now: u64) -> (r: FsmResult<()>)
        requires
            old(self).wf(),
        ensures
            final(self).wf(),
            Self::poll_fits(*old(self), now) ==> exists|mid: Self|
                Self::polled_state(*old(self), mid, now) && Self::drained_within(
                    mid,
                    *final(self),
                    r,
                    u64::MAX as nat,
                ),
            (exists|mid: Self|
                Self::polled_state(*old(self), mid, now) && Self::drained_within(
                    mid,
                    *final(self),
                    r,
                    u64::MAX as nat,
                )) || {
                &&& r == Err::<(), FsmError>(FsmError::QueueOverCapacity)
                &&& final(self).table() == old(self).table()
                &&& final(self).timer_list() == old(self).timer_list()
                &&& final(self).markers() == old(self).markers()
                &&& final(self).data() == old(self).data()
                &&& extends(old(self).pending(), final(self).pending())
            },
    {
        match self.poll_timers(now) {
            Err(e) => Err(e),
            Ok(()) => {
                let ghost mid = *self;
                let r = self.drain(now);
                assert(Self::polled_state(*old(self), mid, now));
                assert(Self::drained_within(mid, *self, r, u64::MAX as nat));
                r
            },
        }
    }

    /// The inspector, as dispatch left it.
    pub fn get_inspect(&self) -> (r: &I)
        ensures
            *r == self.inspector(),
    {
        &self.inspect
    }

    /// The number of events waiting in the queue.
    pub fn queue_len(&self) -> (r: usize)
        ensures
            r == self.pending().len(),
    {
        self.queue.len()
    }

    /// The armed deadline of each timer registration.
    pub fn get_deadlines(&self) -> (r: Vec<Option<u64>>)
        ensures
            r@ == self.deadlines(),
    {
        let mut r: Vec<Option<u64>> = Vec::new();
        let mut i: usize = 0;
        while i < self.deadlines.len()
            invariant
                i <= self.deadlines@.len(),
                r@ == self.deadlines@.subrange(0, i as int),
            decreases self.deadlines.len() - i,
        {
            r.push(self.deadlines[i]);
            i = i + 1;
            assert(r@ =~= self.deadlines@.subrange(0, i as int));
        }
        assert(r@ =~= self.deadlines@);
        r
    }
}

} // verus!
