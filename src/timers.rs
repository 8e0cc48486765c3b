//! Timers bound to states: armed on entry, cancelled on exit, and turned
//! into queued events when a poll finds their deadline passed. Time is a
//! count of milliseconds that the caller reads from its clock.
use vstd::prelude::*;

verus! {

/// A timer registration of a state. Its index in the machine's list is its
/// registration site.
#[derive(Clone, Copy, Debug, PartialEq, Eq, Structural)]
pub struct TimerSettings {
    /// The state whose entry arms the timer.
    pub state: usize,
    /// Milliseconds from arming to the deadline.
    pub timeout: u64,
    /// Whether the timer is armed again after it fires.
    pub renew: bool,
    /// Whether leaving the state removes the timer.
    pub cancel_on_state_exit: bool,
}

pub open spec fn timers_ok(timers: Seq<TimerSettings>, n_states: nat) -> bool {
    forall|i: int|
        0 <= i < timers.len() ==> (#[trigger] timers[i]).state < n_states && (timers[i].renew
            ==> timers[i].timeout > 0)
}

/// Checks each timer registration: its state exists, and a renewing timer
/// has a timeout that is not zero.
pub fn timers_are_valid(timers: &Vec<TimerSettings>, n_states: usize) -> (r: bool)
    ensures
        r == timers_ok(timers@, n_states as nat),
{
    let mut i: usize = 0;
    while i < timers.len()
        invariant
            i <= timers@.len(),
            forall|j: int|
                0 <= j < i ==> (#[trigger] timers@[j]).state < n_states && (timers@[j].renew
                    ==> timers@[j].timeout > 0),
        decreases timers.len() - i,
    {
        if !(timers[i].state < n_states && (!timers[i].renew || timers[i].timeout > 0)) {
            return false;
        }
        i = i + 1;
    }
    true
}

/// `now + timeout`, or the largest time where that does not fit.
pub open spec fn deadline_after(now: u64, timeout: u64) -> u64 {
    if now + timeout <= u64::MAX {
        (now + timeout) as u64
    } else {
        u64::MAX
    }
}

/// The deadlines after the exit hook of state `s`: its timers that are
/// cancelled on exit are removed.
pub open spec fn after_exit(
    deadlines: Seq<Option<u64>>,
    timers: Seq<TimerSettings>,
    s: usize,
) -> Seq<Option<u64>> {
    Seq::new(
        deadlines.len(),
        |i: int|
            if timers[i].state == s && timers[i].cancel_on_state_exit {
                None
            } else {
                deadlines[i]
            },
    )
}

/// The deadlines after the entry of state `s` at time `now`: each timer of
/// `s` is armed afresh.
pub open spec fn after_entry(
    deadlines: Seq<Option<u64>>,
    timers: Seq<TimerSettings>,
    s: usize,
    now: u64,
) -> Seq<Option<u64>> {
    Seq::new(
        deadlines.len(),
        |i: int|
            if timers[i].state == s {
                Some(deadline_after(now, timers[i].timeout))
            } else {
                deadlines[i]
            },
    )
}

/// How many events an armed timer produces at a poll at time `now`: none
/// before its deadline; once per elapsed period if it renews; else once.
pub open spec fn fire_count(deadline: u64, settings: TimerSettings, now: u64) -> nat {
    if now < deadline {
        0
    } else if settings.renew {
        ((now - deadline) as nat / settings.timeout as nat) + 1
    } else {
        1
    }
}

/// The deadline of a timer after a poll at time `now`.
pub open spec fn poll_deadline(
    deadline: Option<u64>,
    settings: TimerSettings,
    now: u64,
) -> Option<u64> {
    match deadline {
        None => None,
        Some(d) => if now < d {
            Some(d)
        } else if settings.renew {
            let next = d + fire_count(d, settings, now) * settings.timeout;
            if next <= u64::MAX {
                Some(next as u64)
            } else {
                Some(u64::MAX)
            }
        } else {
            None
        },
    }
}

/// The deadline of a timer armed at `now`.
pub fn arm_deadline(now: u64, timeout: u64) -> (r: u64)
    ensures
        r == deadline_after(now, timeout),
{
    now.saturating_add(timeout)
}

/// How often an armed timer fires at a poll at time `now`, and its deadline
/// afterwards.
pub fn timer_fires(deadline: u64, settings: TimerSettings, now: u64) -> (r: (u64, Option<u64>))
    requires
        settings.renew ==> settings.timeout > 0 && deadline > 0,
    ensures
        r.0 == fire_count(deadline, settings, now),
        r.1 == poll_deadline(Some(deadline), settings, now),
{
    if now < deadline {
        (0, Some(deadline))
    } else if settings.renew {
        let periods = (now - deadline) / settings.timeout;
        proof {
            assert(periods <= now - deadline) by (nonlinear_arith)
                requires
                    periods == (now - deadline) as int / settings.timeout as int,
                    settings.timeout >= 1,
                    now >= deadline,
            ;
        }
        let fires: u64 = periods + 1;
        proof {
            assert(fires as u128 * settings.timeout as u128 <= 0xffff_ffff_ffff_ffffu128
                * 0xffff_ffff_ffff_ffffu128) by (nonlinear_arith)
                requires
                    fires <= 0xffff_ffff_ffff_ffffu64,
                    settings.timeout <= 0xffff_ffff_ffff_ffffu64,
            ;
        }
        let next: u128 = deadline as u128 + fires as u128 * settings.timeout as u128;
        if next <= u64::MAX as u128 {
            (fires, Some(next as u64))
        } else {
            (fires, Some(u64::MAX))
        }
    } else {
        (1, None)
    }
}

} // verus!
