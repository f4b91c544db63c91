//! The driver's decisions: when a run starts, goes on and ends.

use vstd::prelude::*;

verus! {

/// Where a run stands. `ticks` counts the ticks that are complete.
#[derive(Debug, Copy, Clone, PartialEq, Eq, Structural)]
pub enum DriverState {
    NotStarted,
    Running { ticks: usize },
    Finished { ticks: usize },
}

/// What the driver asks for next.
#[derive(Debug, Copy, Clone, PartialEq, Eq, Structural)]
pub enum DriverAction {
    /// Run one tick, a move phase and then a collision phase, and come back
    /// with the time that has passed since the run started.
    RunTick,
    /// The run is over after `ticks` ticks: read the counter and report.
    Report { ticks: usize },
}

/// The tick count after one more tick. It stops at the largest count that
/// the machine holds.
pub open spec fn ticks_after(ticks: usize) -> usize {
    if ticks < usize::MAX {
        (ticks + 1) as usize
    } else {
        ticks
    }
}

/// The state that follows `state` when `elapsed_secs` whole seconds of a
/// budget of `budget_secs` have passed.
///
/// A run that has not started starts, whatever the clock says: the deadline
/// is looked at only when a tick is complete, so every run has at least one
/// tick. A running one has just completed a tick; it ends if the budget is
/// used up, or if the tick count cannot grow any more.
pub open spec fn next_state(state: DriverState, elapsed_secs: u64, budget_secs: u64) -> DriverState {
    match state {
        DriverState::NotStarted => DriverState::Running { ticks: 0 },
        DriverState::Running { ticks } => {
            if elapsed_secs >= budget_secs || ticks_after(ticks) == usize::MAX {
                DriverState::Finished { ticks: ticks_after(ticks) }
            } else {
                DriverState::Running { ticks: ticks_after(ticks) }
            }
        },
        DriverState::Finished { ticks } => DriverState::Finished { ticks },
    }
}

/// What is to be done on entering `state`.
pub open spec fn action_in(state: DriverState) -> DriverAction {
    match state {
        DriverState::NotStarted => DriverAction::RunTick,
        DriverState::Running { ticks } => DriverAction::RunTick,
        DriverState::Finished { ticks } => DriverAction::Report { ticks },
    }
}

/// One decision of the driver: the state that follows `state`, and what is
/// to be done there. While the run goes on, call it after each tick with the
/// whole seconds that have passed since the start.
pub fn driver_step(state: DriverState, elapsed_secs: u64, budget_secs: u64) -> (next: (
    DriverState,
    DriverAction,
))
    ensures
        next.0 == next_state(state, elapsed_secs, budget_secs),
        next.1 == action_in(next.0),
{
    match state {
        DriverState::NotStarted => (DriverState::Running { ticks: 0 }, DriverAction::RunTick),
        DriverState::Running { ticks } => {
            let done: usize = if ticks < usize::MAX {
                ticks + 1
            } else {
                ticks
            };
            if elapsed_secs >= budget_secs || done == usize::MAX {
                (DriverState::Finished { ticks: done }, DriverAction::Report { ticks: done })
            } else {
                (DriverState::Running { ticks: done }, DriverAction::RunTick)
            }
        },
        DriverState::Finished { ticks } => (
            DriverState::Finished { ticks },
            DriverAction::Report { ticks },
        ),
    }
}

/// The ticks that `state` has seen complete.
pub open spec fn ticks_of(state: DriverState) -> nat {
    match state {
        DriverState::NotStarted => 0,
        DriverState::Running { ticks } => ticks as nat,
        DriverState::Finished { ticks } => ticks as nat,
    }
}

/// A run never ends before its first tick: a driver that is started and then
/// told of one complete tick has counted at least that tick, even when the
/// budget is zero.
pub proof fn lemma_first_tick_runs(elapsed_secs: u64, budget_secs: u64)
    ensures
        action_in(next_state(DriverState::NotStarted, 0, budget_secs)) == DriverAction::RunTick,
        ticks_of(
            next_state(
                next_state(DriverState::NotStarted, 0, budget_secs),
                elapsed_secs,
                budget_secs,
            ),
        ) == 1,
{
}

/// A run whose budget is used up when a tick completes ends with that tick.
pub proof fn lemma_deadline_ends_run(ticks: usize, elapsed_secs: u64, budget_secs: u64)
    requires
        elapsed_secs >= budget_secs,
    ensures
        next_state(DriverState::Running { ticks }, elapsed_secs, budget_secs)
            == (DriverState::Finished { ticks: ticks_after(ticks) }),
{
}

} // verus!
