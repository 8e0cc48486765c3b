//! The transition table: descriptors, how an event selects one, the hooks a
//! fired transition runs, and which markers a region can reach.
use vstd::prelude::*;

verus! {

/// The marker of a region: stopped, or in one declared state (an index into
/// the machine's state store).
#[derive(Clone, Copy, Debug, PartialEq, Eq, Structural)]
pub enum FsmCurrentState {
    Stopped,
    State(usize),
}

/// An event as the dispatcher sees it: the two pseudo-events, or one of the
/// machine's own events.
pub enum FsmEvent<E> {
    Start,
    Stop,
    Event(E),
}

/// What triggers a transition: a pseudo-event, or an event kind.
#[derive(Clone, Copy, Debug, PartialEq, Eq, Structural)]
pub enum TransitionEvent {
    Start,
    Stop,
    Event(usize),
}

/// One transition descriptor of a region.
#[derive(Clone, Copy, Debug, PartialEq, Eq, Structural)]
pub struct Transition {
    /// The region whose table holds the transition.
    pub region: usize,
    /// The marker the region must be in; `Stopped` for a start transition.
    pub from: FsmCurrentState,
    /// What triggers it.
    pub event: TransitionEvent,
    /// Whether its guard must hold for it to fire.
    pub guarded: bool,
    /// Whether it runs an action.
    pub has_action: bool,
    /// The marker the region goes to; `Stopped` for a stop transition.
    pub to: FsmCurrentState,
    /// An internal transition runs neither exit nor entry hooks.
    pub internal: bool,
}

/// One hook or action that firing a transition runs, in the order run.
pub enum HookCall {
    /// The exit hook of a state.
    Exit(usize),
    /// The action of a transition (its index in the table).
    Action(usize),
    /// The entry hook of a state.
    Entry(usize),
}

pub open spec fn marker_ok(m: FsmCurrentState, n_states: nat) -> bool {
    m matches FsmCurrentState::State(s) ==> s < n_states
}

/// A descriptor names a region and states that exist, and an internal
/// transition stays where it is.
pub open spec fn transition_ok(t: Transition, n_regions: nat, n_states: nat) -> bool {
    &&& t.region < n_regions
    &&& marker_ok(t.from, n_states)
    &&& marker_ok(t.to, n_states)
    &&& (t.internal ==> t.from == t.to)
}

pub open spec fn table_ok(table: Seq<Transition>, n_regions: nat, n_states: nat) -> bool {
    forall|i: int| 0 <= i < table.len() ==> transition_ok(#[trigger] table[i], n_regions, n_states)
}

/// Checks each descriptor of a table.
pub fn table_is_valid(table: &Vec<Transition>, n_regions: usize, n_states: usize) -> (r: bool)
    ensures
        r == table_ok(table@, n_regions as nat, n_states as nat),
{
    let mut i: usize = 0;
    while i < table.len()
        invariant
            i <= table@.len(),
            forall|j: int| 0 <= j < i ==> transition_ok(#[trigger] table@[j], n_regions as nat, n_states as nat),
        decreases table.len() - i,
    {
        let t = table[i];
        let from_ok = match t.from {
            FsmCurrentState::State(s) => s < n_states,
            FsmCurrentState::Stopped => true,
        };
        let to_ok = match t.to {
            FsmCurrentState::State(s) => s < n_states,
            FsmCurrentState::Stopped => true,
        };
        if !(t.region < n_regions && from_ok && to_ok && (!t.internal || t.from == t.to)) {
            assert(!transition_ok(table@[i as int], n_regions as nat, n_states as nat));
            return false;
        }
        i = i + 1;
    }
    true
}

/// What a descriptor must say to be triggered by `ev`.
pub open spec fn event_key<E>(ev: FsmEvent<E>, kind: usize) -> TransitionEvent {
    match ev {
        FsmEvent::Start => TransitionEvent::Start,
        FsmEvent::Stop => TransitionEvent::Stop,
        FsmEvent::Event(_) => TransitionEvent::Event(kind),
    }
}

/// Whether descriptor `t` is a candidate in `region` when the region's marker
/// is `m` and the event is `key`.
pub open spec fn is_candidate(
    t: Transition,
    region: usize,
    m: FsmCurrentState,
    key: TransitionEvent,
) -> bool {
    t.region == region && t.from == m && t.event == key
}

/// The first descriptor at or after `i`, in declaration order, that is a
/// candidate and whose guard, if it has one, holds.
pub open spec fn first_enabled(
    table: Seq<Transition>,
    region: usize,
    m: FsmCurrentState,
    key: TransitionEvent,
    guard: spec_fn(int) -> bool,
    i: int,
) -> Option<int>
    decreases table.len() - i,
{
    if i < 0 || i >= table.len() {
        None
    } else if is_candidate(table[i], region, m, key) && (!table[i].guarded || guard(i)) {
        Some(i)
    } else {
        first_enabled(table, region, m, key, guard, i + 1)
    }
}

/// The hooks that firing descriptor `t` runs: exit, action, entry.
pub open spec fn transition_calls(table: Seq<Transition>, t: int) -> Seq<HookCall> {
    let tr = table[t];
    let exit = match tr.from {
        FsmCurrentState::State(a) => if tr.internal {
            Seq::empty()
        } else {
            seq![HookCall::Exit(a)]
        },
        FsmCurrentState::Stopped => Seq::empty(),
    };
    let act = if tr.has_action {
        seq![HookCall::Action(t as usize)]
    } else {
        Seq::empty()
    };
    let entry = match tr.to {
        FsmCurrentState::State(b) => if tr.internal {
            Seq::empty()
        } else {
            seq![HookCall::Entry(b)]
        },
        FsmCurrentState::Stopped => Seq::empty(),
    };
    exit + act + entry
}

/// Some descriptor of `region` leads from `a` to `b`.
pub open spec fn steps_to(
    table: Seq<Transition>,
    region: usize,
    a: FsmCurrentState,
    b: FsmCurrentState,
) -> bool {
    exists|i: int|
        0 <= i < table.len() && (#[trigger] table[i]).region == region && table[i].from == a
            && table[i].to == b
}

/// `m` is reached from `Stopped` in at most `n` transitions of `region`.
pub open spec fn reachable_within(
    table: Seq<Transition>,
    region: usize,
    m: FsmCurrentState,
    n: nat,
) -> bool
    decreases n,
{
    m == FsmCurrentState::Stopped || (n > 0 && exists|p: FsmCurrentState|
        reachable_within(table, region, p, (n - 1) as nat) && #[trigger] steps_to(
            table,
            region,
            p,
            m,
        ))
}

/// `m` is reached from `Stopped`, through the start transition and then the
/// declared transitions of `region`.
pub open spec fn reachable(table: Seq<Transition>, region: usize, m: FsmCurrentState) -> bool {
    exists|n: nat| reachable_within(table, region, m, n)
}

/// Firing a descriptor from a reachable marker leads to a reachable marker.
pub proof fn lemma_reachable_step(table: Seq<Transition>, region: usize, t: int)
    requires
        0 <= t < table.len(),
        table[t].region == region,
        reachable(table, region, table[t].from),
    ensures
        reachable(table, region, table[t].to),
{
    let n = choose|n: nat| reachable_within(table, region, table[t].from, n);
    assert(steps_to(table, region, table[t].from, table[t].to));
    assert(reachable_within(table, region, table[t].to, n + 1));
}

/// What `first_enabled` selects is an enabled candidate, and every candidate
/// before it (or every candidate at all, when nothing is selected) is
/// guarded and its guard fails.
pub proof fn lemma_first_enabled_props(
    table: Seq<Transition>,
    region: usize,
    m: FsmCurrentState,
    key: TransitionEvent,
    guard: spec_fn(int) -> bool,
    i: int,
)
    requires
        0 <= i <= table.len(),
    ensures
        match first_enabled(table, region, m, key, guard, i) {
            Some(t) => {
                &&& i <= t < table.len()
                &&& is_candidate(table[t], region, m, key)
                &&& (!table[t].guarded || guard(t))
                &&& forall|u: int|
                    i <= u < t && is_candidate(#[trigger] table[u], region, m, key)
                        ==> table[u].guarded && !guard(u)
            },
            None => forall|u: int|
                i <= u < table.len() && is_candidate(#[trigger] table[u], region, m, key)
                    ==> table[u].guarded && !guard(u),
        },
    decreases table.len() - i,
{
    if i < table.len() {
        lemma_first_enabled_props(table, region, m, key, guard, i + 1);
    }
}

/// What one region did with an event: it fired descriptor `t`, a candidate
/// with only guarded candidates before it, and moved to its destination;
/// or it missed, kept its marker, and all its candidates were guarded.
pub open spec fn region_outcome_ok(
    table: Seq<Transition>,
    region: usize,
    before: FsmCurrentState,
    after: FsmCurrentState,
    key: TransitionEvent,
    out: Option<int>,
) -> bool {
    match out {
        Some(t) => {
            &&& 0 <= t < table.len()
            &&& is_candidate(table[t], region, before, key)
            &&& after == table[t].to
            &&& forall|u: int|
                0 <= u < t && is_candidate(#[trigger] table[u], region, before, key)
                    ==> table[u].guarded
        },
        None => {
            &&& after == before
            &&& forall|u: int|
                0 <= u < table.len() && is_candidate(#[trigger] table[u], region, before, key)
                    ==> table[u].guarded
        },
    }
}

/// The steps of one dispatch: those of each region's fired descriptor, in
/// region order.
pub open spec fn outcome_calls(table: Seq<Transition>, outs: Seq<Option<int>>) -> Seq<HookCall>
    decreases outs.len(),
{
    if outs.len() == 0 {
        Seq::empty()
    } else {
        outcome_calls(table, outs.drop_last()) + match outs.last() {
            Some(t) => transition_calls(table, t),
            None => Seq::empty(),
        }
    }
}

/// Guard ordering: among the candidates of one region, the first in
/// declaration order whose guard holds is selected; a candidate whose guard
/// fails is passed over for the next one.
pub proof fn lemma_guard_order(
    table: Seq<Transition>,
    region: usize,
    m: FsmCurrentState,
    key: TransitionEvent,
    guard: spec_fn(int) -> bool,
    first: int,
    second: int,
)
    requires
        0 <= first < second < table.len(),
        is_candidate(table[first], region, m, key),
        is_candidate(table[second], region, m, key),
        table[first].guarded,
        table[second].guarded,
        forall|i: int|
            0 <= i < table.len() && i != first && i != second ==> !is_candidate(
                #[trigger] table[i],
                region,
                m,
                key,
            ),
    ensures
        guard(first) ==> first_enabled(table, region, m, key, guard, 0) == Some(first),
        !guard(first) && guard(second) ==> first_enabled(table, region, m, key, guard, 0) == Some(
            second,
        ),
        !guard(first) && !guard(second) ==> first_enabled(table, region, m, key, guard, 0) is None,
{
    lemma_first_enabled_skip(table, region, m, key, guard, 0, first);
    if !guard(first) {
        lemma_first_enabled_skip(table, region, m, key, guard, first + 1, second);
        if !guard(second) {
            lemma_first_enabled_skip(table, region, m, key, guard, second + 1, table.len() as int);
        }
    }
}

/// Descriptors between `i` and `j` that are not enabled are passed over.
pub proof fn lemma_first_enabled_skip(
    table: Seq<Transition>,
    region: usize,
    m: FsmCurrentState,
    key: TransitionEvent,
    guard: spec_fn(int) -> bool,
    i: int,
    j: int,
)
    requires
        0 <= i <= j <= table.len(),
        forall|k: int|
            i <= k < j ==> !(is_candidate(#[trigger] table[k], region, m, key) && (!table[k].guarded
                || guard(k))),
    ensures
        first_enabled(table, region, m, key, guard, i) == first_enabled(
            table,
            region,
            m,
            key,
            guard,
            j,
        ),
    decreases j - i,
{
    if i < j {
        lemma_first_enabled_skip(table, region, m, key, guard, i + 1, j);
    }
}

/// Hook ordering: firing a transition from state `a` to state `b` runs the
/// exit hook of `a`, then the action, then the entry hook of `b`.
pub proof fn lemma_hook_order(table: Seq<Transition>, t: int, a: usize, b: usize)
    requires
        0 <= t < table.len(),
        table[t].from == FsmCurrentState::State(a),
        table[t].to == FsmCurrentState::State(b),
        table[t].has_action,
        !table[t].internal,
    ensures
        transition_calls(table, t) == seq![
            HookCall::Exit(a),
            HookCall::Action(t as usize),
            HookCall::Entry(b),
        ],
{
    assert(transition_calls(table, t) =~= seq![
        HookCall::Exit(a),
        HookCall::Action(t as usize),
        HookCall::Entry(b),
    ]);
}

} // verus!
