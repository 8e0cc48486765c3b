use finny::table::table_is_valid;
use finny::timers::{arm_deadline, timer_fires, timers_are_valid};
use finny::{
    Fsm, FsmBackend, FsmCurrentState, FsmError, FsmEvent, FsmEventBuilder, FsmEventQueue,
    FsmEventQueueHeapless, FsmEventQueueNull, FsmEventQueueVec, FsmInspect, InspectNull,
    TimerSettings, Transition, TransitionEvent,
};

const STATE_A: usize = 0;
const STATE_B: usize = 1;

const EVENT_CLICK: usize = 0;
const EVENT_TIMER: usize = 1;

#[derive(Clone, Debug, PartialEq)]
enum TimerEvents {
    EventClick,
    EventTimer { n: usize },
}

#[derive(Default)]
struct TimersMachine {
    exit_a: bool,
    state_a_timers: usize,
}

fn start_to(region: usize, state: usize) -> Transition {
    FsmEventBuilder::new(region, TransitionEvent::Start)
        .transition_from(FsmCurrentState::Stopped)
        .to(FsmCurrentState::State(state))
        .build()
}

// descriptors: 0 start -> A; 1 A --click [timers >= 5]--> B; 2 A --timer--> A (internal, counts)
impl FsmBackend for TimersMachine {
    type Event = TimerEvents;

    fn kind_of(ev: TimerEvents) -> usize {
        Self::event_kind(&ev)
    }

    fn event_kind(ev: &TimerEvents) -> usize {
        match ev {
            TimerEvents::EventClick => EVENT_CLICK,
            TimerEvents::EventTimer { .. } => EVENT_TIMER,
        }
    }

    fn guard_holds(&self, transition: usize, ev: FsmEvent<TimerEvents>) -> bool {
        self.guard(transition, &ev)
    }

    fn guard(&self, transition: usize, _ev: &FsmEvent<TimerEvents>) -> bool {
        transition == 1 && self.state_a_timers >= 5
    }

    fn on_exit<Q: FsmEventQueue<TimerEvents>>(&mut self, state: usize, _queue: &mut Q) {
        if state == STATE_A {
            self.exit_a = true;
        }
    }

    fn action<Q: FsmEventQueue<TimerEvents>>(
        &mut self,
        transition: usize,
        _ev: &FsmEvent<TimerEvents>,
        _queue: &mut Q,
    ) {
        if transition == 2 {
            self.state_a_timers += 1;
        }
    }

    fn on_entry<Q: FsmEventQueue<TimerEvents>>(&mut self, _state: usize, _queue: &mut Q) {}

    fn timer_event_of(&self, timer: usize) -> Option<TimerEvents> {
        Some(TimerEvents::EventTimer { n: timer })
    }

    fn timer_event(&self, timer: usize) -> Option<TimerEvents> {
        self.timer_event_of(timer)
    }
}

fn timers_machine() -> Fsm<TimersMachine, FsmEventQueueVec<TimerEvents>, InspectNull> {
    let mut internal = FsmEventBuilder::new(0, TransitionEvent::Event(EVENT_TIMER))
        .transition_from(FsmCurrentState::State(STATE_A))
        .to(FsmCurrentState::State(STATE_A));
    internal.action().with_action();
    let mut counted = internal.build();
    counted.internal = true;
    let mut click = FsmEventBuilder::new(0, TransitionEvent::Event(EVENT_CLICK))
        .transition_from(FsmCurrentState::State(STATE_A))
        .to(FsmCurrentState::State(STATE_B));
    click.with_guard();
    let table = vec![start_to(0, STATE_A), click.build(), counted];
    assert!(table_is_valid(&table, 1, 2));
    let timers = vec![
        TimerSettings { state: STATE_A, timeout: 50, renew: true, cancel_on_state_exit: true },
        TimerSettings { state: STATE_A, timeout: 100, renew: false, cancel_on_state_exit: true },
    ];
    Fsm::new(TimersMachine::default(), FsmEventQueueVec::new(), InspectNull::new(), table, 1, 2, timers)
}

#[test]
fn test_timers_fsm() {
    let mut fsm = timers_machine();

    fsm.start(0).unwrap();

    fsm.dispatch_timer_events(225).unwrap();

    assert_eq!(5, fsm.backend.state_a_timers);
    fsm.dispatch(TimerEvents::EventClick, 225).unwrap();

    fsm.dispatch_timer_events(325).unwrap();

    assert_eq!(FsmCurrentState::State(STATE_B), fsm.get_current_states()[0]);

    assert_eq!(5, fsm.backend.state_a_timers);
    assert_eq!(true, fsm.backend.exit_a);
}

#[test]
fn timer_renews_once_per_elapsed_period() {
    let renewing = TimerSettings { state: 0, timeout: 50, renew: true, cancel_on_state_exit: true };
    let once = TimerSettings { state: 0, timeout: 100, renew: false, cancel_on_state_exit: true };
    assert_eq!(timer_fires(50, renewing, 225), (4, Some(250)));
    assert_eq!(timer_fires(100, once, 225), (1, None));
    assert_eq!(timer_fires(50, renewing, 49), (0, Some(50)));
    assert_eq!(timer_fires(50, renewing, 50), (1, Some(100)));
    assert_eq!(timer_fires(u64::MAX - 1, renewing, u64::MAX), (1, Some(u64::MAX)));
}

#[test]
fn timers_armed_on_entry_and_cancelled_on_exit() {
    let mut fsm = timers_machine();
    assert_eq!(fsm.get_deadlines(), vec![None, None]);
    fsm.start(10).unwrap();
    assert_eq!(fsm.get_deadlines(), vec![Some(60), Some(110)]);
    fsm.dispatch_timer_events(59).unwrap();
    assert_eq!(fsm.backend.state_a_timers, 0);
    fsm.dispatch_timer_events(120).unwrap();
    assert_eq!(fsm.backend.state_a_timers, 3);
    assert_eq!(fsm.get_deadlines(), vec![Some(160), None]);
    // the click guard needs five timer events
    assert_eq!(fsm.dispatch(TimerEvents::EventClick, 120), Err(FsmError::NoTransition));
    assert_eq!(fsm.get_current_states(), vec![FsmCurrentState::State(STATE_A)]);
    fsm.dispatch_timer_events(210).unwrap();
    assert_eq!(fsm.backend.state_a_timers, 5);
    fsm.dispatch(TimerEvents::EventClick, 210).unwrap();
    assert_eq!(fsm.get_deadlines(), vec![None, None]);
    assert_eq!(fsm.queue_len(), 0);
}

#[test]
fn arm_deadline_saturates() {
    assert_eq!(arm_deadline(10, 50), 60);
    assert_eq!(arm_deadline(u64::MAX - 5, 50), u64::MAX);
}

// ---- a machine that records the order of its hooks ----

#[derive(Clone, Debug, PartialEq)]
enum Step {
    Exit(usize, u32),
    Action(usize, u32, u32),
    Entry(usize, u32),
}

struct Recorder {
    a_value: u32,
    b_value: u32,
    log: Vec<Step>,
    guards: Vec<bool>,
    follow_up: bool,
}

impl Recorder {
    fn new(guards: Vec<bool>) -> Recorder {
        Recorder { a_value: 1, b_value: 10, log: Vec::new(), guards, follow_up: false }
    }
}

impl FsmBackend for Recorder {
    type Event = usize;

    fn kind_of(ev: usize) -> usize {
        ev
    }

    fn event_kind(ev: &usize) -> usize {
        *ev
    }

    fn guard_holds(&self, transition: usize, ev: FsmEvent<usize>) -> bool {
        self.guard(transition, &ev)
    }

    fn guard(&self, transition: usize, _ev: &FsmEvent<usize>) -> bool {
        self.guards[transition]
    }

    fn on_exit<Q: FsmEventQueue<usize>>(&mut self, state: usize, _queue: &mut Q) {
        let value = if state == 0 { self.a_value } else { self.b_value };
        self.log.push(Step::Exit(state, value));
        if state == 0 {
            self.a_value += 100;
        }
    }

    fn action<Q: FsmEventQueue<usize>>(
        &mut self,
        transition: usize,
        _ev: &FsmEvent<usize>,
        queue: &mut Q,
    ) {
        self.log.push(Step::Action(transition, self.a_value, self.b_value));
        self.b_value += 5;
        if self.follow_up {
            self.follow_up = false;
            queue.enqueue(1).unwrap();
        }
    }

    fn on_entry<Q: FsmEventQueue<usize>>(&mut self, state: usize, _queue: &mut Q) {
        let value = if state == 0 { self.a_value } else { self.b_value };
        self.log.push(Step::Entry(state, value));
    }

    fn timer_event_of(&self, _timer: usize) -> Option<usize> {
        None
    }

    fn timer_event(&self, timer: usize) -> Option<usize> {
        self.timer_event_of(timer)
    }
}

fn on_event(region: usize, kind: usize, from: usize, to: usize, guarded: bool) -> Transition {
    let mut t = FsmEventBuilder::new(region, TransitionEvent::Event(kind))
        .transition_from(FsmCurrentState::State(from))
        .to(FsmCurrentState::State(to));
    t.with_action();
    if guarded {
        t.with_guard();
    }
    t.build()
}

#[test]
fn hooks_run_exit_action_entry_in_order() {
    // 0: start -> A; 1: A --0--> B
    let table = vec![start_to(0, 0), on_event(0, 0, 0, 1, false)];
    let mut fsm = Fsm::new(Recorder::new(vec![true; 2]), FsmEventQueueNull::new(), InspectNull::new(), table, 1, 2, vec![]);
    fsm.start(0).unwrap();
    fsm.backend.log.clear();
    fsm.dispatch_event(&FsmEvent::Event(0), 0).unwrap();
    // exit sees A before the action, the action sees A as exit left it and
    // B untouched, entry sees B after the action
    assert_eq!(
        fsm.backend.log,
        vec![Step::Exit(0, 1), Step::Action(1, 101, 10), Step::Entry(1, 15)]
    );
    assert_eq!(fsm.get_current_states(), vec![FsmCurrentState::State(1)]);
}

#[test]
fn first_true_guard_wins() {
    // 1 and 2 share (A, event 0); 1 goes to B, 2 goes to C
    let table = vec![start_to(0, 0), on_event(0, 0, 0, 1, true), on_event(0, 0, 0, 2, true)];

    let mut both = Fsm::new(Recorder::new(vec![true, true, true]), FsmEventQueueNull::new(), InspectNull::new(), table.clone(), 1, 3, vec![]);
    both.start(0).unwrap();
    both.dispatch_event(&FsmEvent::Event(0), 0).unwrap();
    assert_eq!(both.get_current_states(), vec![FsmCurrentState::State(1)]);

    let mut second = Fsm::new(Recorder::new(vec![true, false, true]), FsmEventQueueNull::new(), InspectNull::new(), table.clone(), 1, 3, vec![]);
    second.start(0).unwrap();
    second.dispatch_event(&FsmEvent::Event(0), 0).unwrap();
    assert_eq!(second.get_current_states(), vec![FsmCurrentState::State(2)]);

    let mut neither = Fsm::new(Recorder::new(vec![true, false, false]), FsmEventQueueNull::new(), InspectNull::new(), table, 1, 3, vec![]);
    neither.start(0).unwrap();
    assert_eq!(neither.dispatch_event(&FsmEvent::Event(0), 0), Err(FsmError::NoTransition));
    assert_eq!(neither.get_current_states(), vec![FsmCurrentState::State(0)]);
}

#[test]
fn unmatched_event_is_no_transition_and_changes_nothing() {
    let table = vec![start_to(0, 0), on_event(0, 0, 0, 1, false)];
    let mut fsm = Fsm::new(Recorder::new(vec![true; 2]), FsmEventQueueVec::new(), InspectNull::new(), table, 1, 2, vec![]);
    fsm.start(0).unwrap();
    let before = fsm.get_current_states();
    let log_len = fsm.backend.log.len();
    assert_eq!(fsm.dispatch(7, 0), Err(FsmError::NoTransition));
    assert_eq!(fsm.get_current_states(), before);
    assert_eq!(fsm.backend.log.len(), log_len);
}

#[test]
fn double_start_is_no_transition() {
    let table = vec![start_to(0, 0)];
    let mut fsm = Fsm::new(Recorder::new(vec![true]), FsmEventQueueVec::new(), InspectNull::new(), table, 1, 1, vec![]);
    assert_eq!(fsm.start(0), Ok(()));
    assert_eq!(fsm.start(0), Err(FsmError::NoTransition));
    assert_eq!(fsm.get_current_states(), vec![FsmCurrentState::State(0)]);
}

#[test]
fn stop_transition_returns_region_to_stopped() {
    let stop = FsmEventBuilder::new(0, TransitionEvent::Stop)
        .transition_from(FsmCurrentState::State(0))
        .to(FsmCurrentState::Stopped)
        .build();
    let table = vec![start_to(0, 0), stop];
    let mut fsm = Fsm::new(Recorder::new(vec![true; 2]), FsmEventQueueNull::new(), InspectNull::new(), table, 1, 1, vec![]);
    fsm.start(0).unwrap();
    fsm.dispatch_event(&FsmEvent::Stop, 0).unwrap();
    assert_eq!(fsm.get_current_states(), vec![FsmCurrentState::Stopped]);
    assert_eq!(fsm.backend.log.last(), Some(&Step::Exit(0, 1)));
}

#[test]
fn regions_progress_independently() {
    // region 0: start -> A (0); region 1: start -> B (1), B --5--> C (2)
    let table = vec![start_to(0, 0), start_to(1, 1), on_event(1, 5, 1, 2, false)];
    assert!(table_is_valid(&table, 2, 3));
    let mut fsm = Fsm::new(Recorder::new(vec![true; 3]), FsmEventQueueVec::new(), InspectNull::new(), table, 2, 3, vec![]);
    fsm.start(0).unwrap();
    assert_eq!(fsm.get_current_states(), vec![FsmCurrentState::State(0), FsmCurrentState::State(1)]);
    assert_eq!(fsm.dispatch(5, 0), Ok(()));
    assert_eq!(fsm.get_current_states(), vec![FsmCurrentState::State(0), FsmCurrentState::State(2)]);
    assert_eq!(fsm.dispatch(5, 0), Err(FsmError::NoTransition));
    assert_eq!(fsm.get_current_states(), vec![FsmCurrentState::State(0), FsmCurrentState::State(2)]);
}

#[test]
fn follow_up_events_run_to_completion() {
    // A --0--> B, B --1--> A; the first action enqueues event 1
    let table = vec![start_to(0, 0), on_event(0, 0, 0, 1, false), on_event(0, 1, 1, 0, false)];
    let mut backend = Recorder::new(vec![true; 3]);
    backend.follow_up = true;
    let mut fsm = Fsm::new(backend, FsmEventQueueHeapless::new(4), InspectNull::new(), table, 1, 2, vec![]);
    fsm.start(0).unwrap();
    fsm.dispatch(0, 0).unwrap();
    assert_eq!(fsm.get_current_states(), vec![FsmCurrentState::State(0)]);
    assert_eq!(fsm.queue_len(), 0);
    let actions: Vec<usize> = fsm
        .backend
        .log
        .iter()
        .filter_map(|s| match s {
            Step::Action(t, _, _) => Some(*t),
            _ => None,
        })
        .collect();
    assert_eq!(actions, vec![1, 2]);
}

#[test]
fn full_queue_refuses_dispatch() {
    let table = vec![start_to(0, 0)];
    let mut fsm = Fsm::new(Recorder::new(vec![true]), FsmEventQueueHeapless::new(0), InspectNull::new(), table, 1, 1, vec![]);
    fsm.start(0).unwrap();
    assert_eq!(fsm.dispatch(0, 0), Err(FsmError::QueueOverCapacity));
    assert_eq!(fsm.get_current_states(), vec![FsmCurrentState::State(0)]);
}

#[test]
fn builder_writes_descriptors() {
    let mut full = FsmEventBuilder::new(2, TransitionEvent::Event(9))
        .transition_from(FsmCurrentState::State(3))
        .to(FsmCurrentState::State(4));
    assert_eq!(
        full.build(),
        Transition {
            region: 2,
            from: FsmCurrentState::State(3),
            event: TransitionEvent::Event(9),
            guarded: false,
            has_action: false,
            to: FsmCurrentState::State(4),
            internal: false,
        }
    );
    let before = full.build();
    assert_eq!(full.action().build(), before);
    full.with_action().with_guard();
    let t = full.build();
    assert!(t.has_action);
    assert!(t.guarded);
}

#[test]
fn invalid_tables_are_rejected() {
    assert!(table_is_valid(&vec![start_to(0, 1)], 1, 2));
    assert!(!table_is_valid(&vec![start_to(1, 0)], 1, 2));
    assert!(!table_is_valid(&vec![start_to(0, 2)], 1, 2));
    let mut internal = on_event(0, 0, 0, 1, false);
    internal.internal = true;
    assert!(!table_is_valid(&vec![internal], 1, 2));
}

#[derive(Default)]
struct Tracer {
    seen: Vec<(Vec<FsmCurrentState>, Result<(), FsmError>)>,
    before: Vec<Vec<FsmCurrentState>>,
}

impl FsmInspect<usize> for Tracer {
    fn on_dispatch_event(&mut self, current: &Vec<FsmCurrentState>, _ev: &FsmEvent<usize>) {
        self.before.push(current.clone());
    }

    fn on_dispatched_event(&mut self, current: &Vec<FsmCurrentState>, result: &Result<(), FsmError>) {
        self.seen.push((current.clone(), *result));
    }
}

#[test]
fn inspector_sees_each_dispatch() {
    let table = vec![start_to(0, 0), on_event(0, 0, 0, 1, false)];
    let mut fsm = Fsm::new(Recorder::new(vec![true; 2]), FsmEventQueueVec::new(), Tracer::default(), table, 1, 2, vec![]);
    fsm.start(0).unwrap();
    assert_eq!(fsm.dispatch(3, 0), Err(FsmError::NoTransition));
    fsm.dispatch(0, 0).unwrap();
    assert_eq!(fsm.get_current_states(), vec![FsmCurrentState::State(1)]);
    let tracer = fsm.get_inspect();
    assert_eq!(
        tracer.before,
        vec![
            vec![FsmCurrentState::Stopped],
            vec![FsmCurrentState::State(0)],
            vec![FsmCurrentState::State(0)],
        ]
    );
    assert_eq!(
        tracer.seen,
        vec![
            (vec![FsmCurrentState::State(0)], Ok(())),
            (vec![FsmCurrentState::State(0)], Err(FsmError::NoTransition)),
            (vec![FsmCurrentState::State(1)], Ok(())),
        ]
    );
}

#[test]
fn markers_stay_on_reachable_states() {
    // states 0, 1, 2; state 2 has no incoming descriptor
    let table = vec![
        start_to(0, 0),
        on_event(0, 0, 0, 1, false),
        on_event(0, 1, 1, 0, false),
        on_event(0, 2, 2, 0, false),
    ];
    let mut fsm = Fsm::new(Recorder::new(vec![true; 4]), FsmEventQueueVec::new(), InspectNull::new(), table, 1, 3, vec![]);
    fsm.start(0).unwrap();
    for ev in [0usize, 1, 2, 0, 2, 1, 1, 0, 0, 2] {
        let _ = fsm.dispatch(ev, 0);
        let m = fsm.get_current_states()[0];
        assert!(m == FsmCurrentState::State(0) || m == FsmCurrentState::State(1));
    }
}

#[test]
fn dispatch_region_touches_only_its_region() {
    let table = vec![start_to(0, 0), start_to(1, 1)];
    let mut fsm = Fsm::new(Recorder::new(vec![true; 2]), FsmEventQueueNull::new(), InspectNull::new(), table, 2, 2, vec![]);
    assert!(fsm.dispatch_region(1, &FsmEvent::Start, 0));
    assert_eq!(fsm.get_current_states(), vec![FsmCurrentState::Stopped, FsmCurrentState::State(1)]);
    assert!(!fsm.dispatch_region(1, &FsmEvent::Start, 0));
    assert!(fsm.dispatch_region(0, &FsmEvent::Start, 0));
    assert_eq!(fsm.get_current_states(), vec![FsmCurrentState::State(0), FsmCurrentState::State(1)]);
}

#[test]
fn timer_registrations_are_checked() {
    let ok = TimerSettings { state: 1, timeout: 5, renew: false, cancel_on_state_exit: false };
    let zero = TimerSettings { state: 1, timeout: 0, renew: false, cancel_on_state_exit: false };
    let missing = TimerSettings { state: 2, timeout: 5, renew: false, cancel_on_state_exit: false };
    assert!(timers_are_valid(&vec![ok], 2));
    assert!(timers_are_valid(&vec![ok, zero], 2));
    let zero_renewing = TimerSettings { state: 1, timeout: 0, renew: true, cancel_on_state_exit: false };
    assert!(!timers_are_valid(&vec![ok, zero_renewing], 2));
    assert_eq!(timer_fires(7, zero, 7), (1, None));
    assert!(!timers_are_valid(&vec![missing], 2));
}
