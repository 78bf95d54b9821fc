//! The decisions of the polling inventory watcher.
//!
//! The watcher polls the HID backend and reports to an agent. It is a state
//! machine: the driver performs an action (read the clock, deliver an event,
//! enumerate, sleep), hands back what came of it, and is told the next action.

use vstd::prelude::*;

use crate::device::DeviceInventory;

verus! {

/// Consecutive initial enumeration failures after which enumeration is reported
/// as unavailable. Only failures before the first success count.
pub const INITIAL_FAILURE_LIMIT: u8 = 3;

/// How far past the polling period a tick may come, in nanoseconds, before it is
/// read as a sleep of the whole system: one minute. That is generously above the
/// slowest honest iteration.
pub const WAKE_GAP: u128 = 60_000_000_000;

/// The longest polling period, in nanoseconds, to which the wake gap can still be
/// added within the range of a duration of 64-bit seconds.
pub const MAX_PERIOD: u128 = 18_446_744_073_709_551_555_999_999_999;

/// What the watcher tells the agent.
#[derive(Debug, PartialEq, Eq)]
pub enum InventoryEvent {
    /// A completed enumeration. Empty means "checked, no devices".
    Snapshot(Vec<DeviceInventory>),
    /// Enumeration has never succeeded and is no longer taken to be starting.
    Unavailable,
    /// The wall clock jumped far past the polling period: the system almost
    /// certainly slept and woke.
    SystemWake,
}

/// What the driver has to do next.
#[derive(Debug, PartialEq, Eq)]
pub enum WatcherAction {
    ReadClock,
    Send(InventoryEvent),
    Enumerate,
    /// Wait for one polling period.
    Sleep,
    /// The receiver is gone: end the loop.
    Stop,
}

/// What came of an action.
#[derive(Debug, PartialEq, Eq)]
pub enum WatcherInput {
    /// The wall clock, in nanoseconds relative to a fixed origin.
    Clock(i128),
    /// Whether the event reached a receiver.
    Delivered(bool),
    Enumerated(Vec<DeviceInventory>),
    /// The backend could not check: not the same as finding no devices.
    EnumerateFailed,
    Slept,
}

/// What the watcher waits for.
#[derive(Debug, Clone, Copy, PartialEq, Eq, Structural)]
pub enum WatcherPhase {
    ReadingClock,
    DeliveringWake,
    Enumerating,
    DeliveringReport,
    Sleeping,
    Stopped,
}

/// The state of the watcher.
#[derive(Debug)]
pub struct Watcher {
    wake_after: u128,
    succeeded: bool,
    initial_failures: u8,
    last_tick: i128,
    phase: WatcherPhase,
}

/// The abstract state of a [`Watcher`].
pub struct WatcherView {
    /// A tick that comes later than this after the one before means a wake.
    pub wake_after: nat,
    /// Whether any enumeration has succeeded.
    pub succeeded: bool,
    /// Failures before the first success, counted up to 255.
    pub initial_failures: nat,
    /// The clock reading of the tick before.
    pub last_tick: int,
    pub phase: WatcherPhase,
}

impl View for Watcher {
    type V = WatcherView;

    closed spec fn view(&self) -> WatcherView {
        WatcherView {
            wake_after: self.wake_after as nat,
            succeeded: self.succeeded,
            initial_failures: self.initial_failures as nat,
            last_tick: self.last_tick as int,
            phase: self.phase,
        }
    }
}

/// Whether `input` answers the action that led to `phase`.
pub open spec fn accepts(phase: WatcherPhase, input: WatcherInput) -> bool {
    match phase {
        WatcherPhase::ReadingClock => input is Clock,
        WatcherPhase::DeliveringWake => input is Delivered,
        WatcherPhase::Enumerating => input is Enumerated || input is EnumerateFailed,
        WatcherPhase::DeliveringReport => input is Delivered,
        WatcherPhase::Sleeping => input is Slept,
        WatcherPhase::Stopped => false,
    }
}

/// The state before the first tick, when the clock reads `now`.
pub open spec fn fresh(period: nat, now: int) -> WatcherView {
    WatcherView {
        wake_after: period + WAKE_GAP as nat,
        succeeded: false,
        initial_failures: 0,
        last_tick: now,
        phase: WatcherPhase::ReadingClock,
    }
}

/// One more initial failure.
pub open spec fn one_more_failure(failures: nat) -> nat {
    if failures < u8::MAX {
        failures + 1
    } else {
        failures
    }
}

/// What the state `s` and the input `input` lead to.
pub open spec fn transition(s: WatcherView, input: WatcherInput) -> (WatcherView, WatcherAction) {
    match input {
        WatcherInput::Clock(now) => {
            let ticked = WatcherView { last_tick: now as int, ..s };
            if now - s.last_tick > s.wake_after {
                (
                    WatcherView { phase: WatcherPhase::DeliveringWake, ..ticked },
                    WatcherAction::Send(InventoryEvent::SystemWake),
                )
            } else {
                (
                    WatcherView { phase: WatcherPhase::Enumerating, ..ticked },
                    WatcherAction::Enumerate,
                )
            }
        },
        WatcherInput::Delivered(received) => if !received {
            (WatcherView { phase: WatcherPhase::Stopped, ..s }, WatcherAction::Stop)
        } else if s.phase == WatcherPhase::DeliveringWake {
            (WatcherView { phase: WatcherPhase::Enumerating, ..s }, WatcherAction::Enumerate)
        } else {
            (WatcherView { phase: WatcherPhase::Sleeping, ..s }, WatcherAction::Sleep)
        },
        WatcherInput::Enumerated(inventories) => (
            WatcherView { succeeded: true, phase: WatcherPhase::DeliveringReport, ..s },
            WatcherAction::Send(InventoryEvent::Snapshot(inventories)),
        ),
        WatcherInput::EnumerateFailed => if s.succeeded {
            (WatcherView { phase: WatcherPhase::Sleeping, ..s }, WatcherAction::Sleep)
        } else {
            let failures = one_more_failure(s.initial_failures);
            let failed = WatcherView { initial_failures: failures, ..s };
            if failures == INITIAL_FAILURE_LIMIT {
                (
                    WatcherView { phase: WatcherPhase::DeliveringReport, ..failed },
                    WatcherAction::Send(InventoryEvent::Unavailable),
                )
            } else {
                (WatcherView { phase: WatcherPhase::Sleeping, ..failed }, WatcherAction::Sleep)
            }
        },
        WatcherInput::Slept => (
            WatcherView { phase: WatcherPhase::ReadingClock, ..s },
            WatcherAction::ReadClock,
        ),
    }
}

impl Watcher {
    /// A watcher that polls every `period` nanoseconds, started when the wall
    /// clock reads `now`. The first action is to read the clock.
    pub fn new(period: u128, now: i128) -> (res: Self)
        requires
            period <= MAX_PERIOD,
        ensures
            res@ == fresh(period as nat, now as int),
            res@.wake_after == period + 60_000_000_000,
            !res@.succeeded,
            res@.initial_failures == 0,
            res@.last_tick == now,
            res@.phase == WatcherPhase::ReadingClock,
    {
        Watcher {
            wake_after: period + WAKE_GAP,
            succeeded: false,
            initial_failures: 0,
            last_tick: now,
            phase: WatcherPhase::ReadingClock,
        }
    }

    /// What the watcher waits for.
    pub fn phase(&self) -> (res: WatcherPhase)
        ensures
            res == self@.phase,
    {
        self.phase
    }

    /// Takes what came of the last action and says what to do next.
    pub fn step(&mut self, input: WatcherInput) -> (action: WatcherAction)
        requires
            accepts(old(self)@.phase, input),
        ensures
            (final(self)@, action) == transition(old(self)@, input),
            final(self)@.wake_after == old(self)@.wake_after,
            input is Clock ==> {
                &&& final(self)@.last_tick == input->Clock_0
                &&& input->Clock_0 - old(self)@.last_tick > old(self)@.wake_after ==> action
                    == WatcherAction::Send(InventoryEvent::SystemWake)
                &&& input->Clock_0 - old(self)@.last_tick <= old(self)@.wake_after ==> action
                    == WatcherAction::Enumerate
            },
            input is Enumerated ==> {
                &&& final(self)@.succeeded
                &&& action == WatcherAction::Send(InventoryEvent::Snapshot(input->Enumerated_0))
            },
            input is EnumerateFailed ==> {
                &&& final(self)@.succeeded == old(self)@.succeeded
                &&& !old(self)@.succeeded && old(self)@.initial_failures == 2 ==> action
                    == WatcherAction::Send(InventoryEvent::Unavailable)
                &&& old(self)@.succeeded || old(self)@.initial_failures != 2 ==> action
                    == WatcherAction::Sleep
            },
            input is Delivered && !input->Delivered_0 ==> action == WatcherAction::Stop,
            input is Delivered && input->Delivered_0 ==> action == if old(self)@.phase
                == WatcherPhase::DeliveringWake {
                WatcherAction::Enumerate
            } else {
                WatcherAction::Sleep
            },
            input is Slept ==> action == WatcherAction::ReadClock,
    {
        match input {
            WatcherInput::Clock(now) => {
                let woke = self.woke_before(now);
                self.last_tick = now;
                if woke {
                    self.phase = WatcherPhase::DeliveringWake;
                    WatcherAction::Send(InventoryEvent::SystemWake)
                } else {
                    self.phase = WatcherPhase::Enumerating;
                    WatcherAction::Enumerate
                }
            },
            WatcherInput::Delivered(received) => {
                if !received {
                    self.phase = WatcherPhase::Stopped;
                    WatcherAction::Stop
                } else if self.phase == WatcherPhase::DeliveringWake {
                    self.phase = WatcherPhase::Enumerating;
                    WatcherAction::Enumerate
                } else {
                    self.phase = WatcherPhase::Sleeping;
                    WatcherAction::Sleep
                }
            },
            WatcherInput::Enumerated(inventories) => {
                self.succeeded = true;
                self.phase = WatcherPhase::DeliveringReport;
                WatcherAction::Send(InventoryEvent::Snapshot(inventories))
            },
            WatcherInput::EnumerateFailed => {
                if !self.succeeded {
                    self.initial_failures = self.initial_failures.saturating_add(1);
                    if self.initial_failures == INITIAL_FAILURE_LIMIT {
                        self.phase = WatcherPhase::DeliveringReport;
                        return WatcherAction::Send(InventoryEvent::Unavailable);
                    }
                }
                self.phase = WatcherPhase::Sleeping;
                WatcherAction::Sleep
            },
            WatcherInput::Slept => {
                self.phase = WatcherPhase::ReadingClock;
                WatcherAction::ReadClock
            },
        }
    }

    /// Whether the tick at `now` comes so late that the system must have slept.
    /// A clock that was set back says nothing.
    fn woke_before(&self, now: i128) -> (res: bool)
        ensures
            res == (now - self@.last_tick > self@.wake_after),
    {
        if now < self.last_tick {
            return false;
        }
        let elapsed: u128 = if self.last_tick >= 0 || now < 0 {
            (now - self.last_tick) as u128
        } else {
            // The readings lie on both sides of the origin; their distance may
            // exceed the signed range.
            now as u128 + (-(self.last_tick + 1)) as u128 + 1
        };
        elapsed > self.wake_after
    }
}

/// What to report right after starting the watcher thread: that enumeration is
/// unavailable if the thread could not be started, and nothing otherwise. (An
/// empty snapshot would claim a check that never happened.)
pub fn startup_report(started: bool) -> (res: Option<InventoryEvent>)
    ensures
        res == if started {
            None
        } else {
            Some(InventoryEvent::Unavailable)
        },
{
    if started {
        None
    } else {
        Some(InventoryEvent::Unavailable)
    }
}

// ---------------------------------------------------------------------------
// Runs
// ---------------------------------------------------------------------------

/// The state after the inputs `inputs`, from `s` on.
pub open spec fn state_after(s: WatcherView, inputs: Seq<WatcherInput>) -> WatcherView
    decreases inputs.len(),
{
    if inputs.len() == 0 {
        s
    } else {
        transition(state_after(s, inputs.drop_last()), inputs.last()).0
    }
}

/// The action that each of the inputs `inputs` leads to, from `s` on.
pub open spec fn actions_for(s: WatcherView, inputs: Seq<WatcherInput>) -> Seq<WatcherAction>
    decreases inputs.len(),
{
    if inputs.len() == 0 {
        seq![]
    } else {
        actions_for(s, inputs.drop_last()).push(
            transition(state_after(s, inputs.drop_last()), inputs.last()).1,
        )
    }
}

/// Whether each of the inputs answers the action before it.
pub open spec fn is_run(s: WatcherView, inputs: Seq<WatcherInput>) -> bool
    decreases inputs.len(),
{
    inputs.len() > 0 ==> {
        &&& is_run(s, inputs.drop_last())
        &&& accepts(state_after(s, inputs.drop_last()).phase, inputs.last())
    }
}

/// The successful enumerations among `inputs`, in order.
pub open spec fn enumerations(inputs: Seq<WatcherInput>) -> Seq<Vec<DeviceInventory>>
    decreases inputs.len(),
{
    if inputs.len() == 0 {
        seq![]
    } else {
        match inputs.last() {
            WatcherInput::Enumerated(inventories) => enumerations(inputs.drop_last()).push(
                inventories,
            ),
            _ => enumerations(inputs.drop_last()),
        }
    }
}

/// How many enumerations among `inputs` failed before the first success.
pub open spec fn initial_failures(inputs: Seq<WatcherInput>) -> nat
    decreases inputs.len(),
{
    if inputs.len() == 0 {
        0
    } else if inputs.last() is EnumerateFailed && enumerations(inputs.drop_last()).len() == 0 {
        initial_failures(inputs.drop_last()) + 1
    } else {
        initial_failures(inputs.drop_last())
    }
}

/// The last clock reading among `inputs`, or `start` if there is none.
pub open spec fn last_reading(start: int, inputs: Seq<WatcherInput>) -> int
    decreases inputs.len(),
{
    if inputs.len() == 0 {
        start
    } else {
        match inputs.last() {
            WatcherInput::Clock(now) => now as int,
            _ => last_reading(start, inputs.drop_last()),
        }
    }
}

/// The snapshots sent among `actions`, in order.
pub open spec fn snapshots(actions: Seq<WatcherAction>) -> Seq<Vec<DeviceInventory>>
    decreases actions.len(),
{
    if actions.len() == 0 {
        seq![]
    } else {
        match actions.last() {
            WatcherAction::Send(InventoryEvent::Snapshot(inventories)) => snapshots(
                actions.drop_last(),
            ).push(inventories),
            _ => snapshots(actions.drop_last()),
        }
    }
}

/// How often `actions` report that enumeration is unavailable.
pub open spec fn unavailable_reports(actions: Seq<WatcherAction>) -> nat
    decreases actions.len(),
{
    if actions.len() == 0 {
        0
    } else if actions.last() == WatcherAction::Send(InventoryEvent::Unavailable) {
        unavailable_reports(actions.drop_last()) + 1
    } else {
        unavailable_reports(actions.drop_last())
    }
}

// ---------------------------------------------------------------------------
// Laws
// ---------------------------------------------------------------------------

/// What a run has counted: whether any enumeration succeeded, and the failures
/// before that, up to the limit of the counter.
proof fn lemma_counters(period: nat, now: int, inputs: Seq<WatcherInput>)
    ensures
        ({
            let s = state_after(fresh(period, now), inputs);
            &&& s.succeeded <==> enumerations(inputs).len() > 0
            &&& s.initial_failures == if initial_failures(inputs) <= u8::MAX {
                initial_failures(inputs)
            } else {
                u8::MAX as nat
            }
        }),
    decreases inputs.len(),
{
    if inputs.len() > 0 {
        lemma_counters(period, now, inputs.drop_last());
    }
}

/// Unavailability is reported once, and only where it is due: a run reports it
/// exactly once if at least [`INITIAL_FAILURE_LIMIT`] enumerations failed before
/// any succeeded, and never otherwise, however many failures follow.
pub proof fn lemma_unavailable_is_reported_once(
    period: nat,
    now: int,
    inputs: Seq<WatcherInput>,
)
    ensures
        unavailable_reports(actions_for(fresh(period, now), inputs)) == if initial_failures(inputs)
            >= INITIAL_FAILURE_LIMIT {
            1nat
        } else {
            0nat
        },
    decreases inputs.len(),
{
    if inputs.len() > 0 {
        let before = inputs.drop_last();
        lemma_unavailable_is_reported_once(period, now, before);
        lemma_counters(period, now, before);
        let actions = actions_for(fresh(period, now), inputs);
        assert(actions.drop_last() =~= actions_for(fresh(period, now), before));
    }
}

/// The agent sees every completed enumeration, an empty one too, and nothing else
/// as a snapshot: the snapshots sent are the successful enumerations, in order.
pub proof fn lemma_snapshots_are_the_enumerations(s: WatcherView, inputs: Seq<WatcherInput>)
    ensures
        snapshots(actions_for(s, inputs)) == enumerations(inputs),
    decreases inputs.len(),
{
    if inputs.len() > 0 {
        lemma_snapshots_are_the_enumerations(s, inputs.drop_last());
        assert(actions_for(s, inputs).drop_last() =~= actions_for(s, inputs.drop_last()));
    }
}

/// Once an enumeration has succeeded, a failed one sends nothing, so that the
/// agent keeps its last good snapshot.
pub proof fn lemma_failure_keeps_last_snapshot(
    period: nat,
    now: int,
    inputs: Seq<WatcherInput>,
)
    requires
        inputs.len() > 0,
        inputs.last() is EnumerateFailed,
        enumerations(inputs).len() > 0,
    ensures
        actions_for(fresh(period, now), inputs).last() == WatcherAction::Sleep,
{
    lemma_counters(period, now, inputs.drop_last());
}

/// A wake is reported exactly for the ticks that come more than the period and
/// the wake gap after the tick before; a clock that was set back is only taken as
/// the new starting point.
pub proof fn lemma_wakes_are_late_ticks(
    period: nat,
    start: int,
    inputs: Seq<WatcherInput>,
    now: i128,
)
    ensures
        actions_for(fresh(period, start), inputs.push(WatcherInput::Clock(now))).last()
            == WatcherAction::Send(InventoryEvent::SystemWake) <==> now - last_reading(
            start,
            inputs,
        ) > period + WAKE_GAP,
{
    let s = fresh(period, start);
    lemma_readings(s, inputs);
    let all = inputs.push(WatcherInput::Clock(now));
    assert(all.drop_last() =~= inputs);
}

proof fn lemma_readings(s: WatcherView, inputs: Seq<WatcherInput>)
    ensures
        state_after(s, inputs).last_tick == last_reading(s.last_tick, inputs),
        state_after(s, inputs).wake_after == s.wake_after,
    decreases inputs.len(),
{
    if inputs.len() > 0 {
        lemma_readings(s, inputs.drop_last());
    }
}

/// The watcher ends with its receiver: it stops exactly when an event could not
/// be delivered, and that is the last thing it does.
pub proof fn lemma_stops_when_receiver_is_gone(
    s: WatcherView,
    inputs: Seq<WatcherInput>,
    i: int,
)
    requires
        is_run(s, inputs),
        0 <= i < inputs.len(),
    ensures
        actions_for(s, inputs).len() == inputs.len(),
        actions_for(s, inputs)[i] == WatcherAction::Stop <==> inputs[i] == WatcherInput::Delivered(
            false,
        ),
        actions_for(s, inputs)[i] == WatcherAction::Stop ==> i == inputs.len() - 1,
    decreases inputs.len(),
{
    let before = inputs.drop_last();
    lemma_actions_len(s, before);
    if i < before.len() {
        lemma_stops_when_receiver_is_gone(s, before, i);
        if actions_for(s, before)[i] == WatcherAction::Stop {
            assert(state_after(s, before).phase == WatcherPhase::Stopped);
        }
    }
}

proof fn lemma_actions_len(s: WatcherView, inputs: Seq<WatcherInput>)
    ensures
        actions_for(s, inputs).len() == inputs.len(),
    decreases inputs.len(),
{
    if inputs.len() > 0 {
        lemma_actions_len(s, inputs.drop_last());
    }
}

/// What each input leads to, said of the inputs before it. A clock reading more than
/// the period and one minute after the latest one is reported as a wake, any other
/// starts an enumeration. A completed enumeration is sent as it is. A failed one is
/// reported only as the third failure of a run in which none succeeded; after any
/// other the watcher sleeps. A delivered wake is followed by the enumeration that it
/// put off, any other delivered event by a sleep, and a sleep by the next reading of
/// the clock. A lost receiver ends the loop.
pub proof fn lemma_what_each_input_leads_to(
    period: nat,
    start: int,
    inputs: Seq<WatcherInput>,
    input: WatcherInput,
)
    requires
        is_run(fresh(period, start), inputs.push(input)),
    ensures
        ({
            let action = actions_for(fresh(period, start), inputs.push(input)).last();
            let none_succeeded = forall|i: int|
                0 <= i < inputs.len() ==> !(#[trigger] inputs[i] is Enumerated);
            let failures = inputs.filter(|earlier: WatcherInput| earlier is EnumerateFailed).len();
            match input {
                WatcherInput::Clock(now) => if now - last_reading(start, inputs) > period
                    + 60_000_000_000 {
                    action == WatcherAction::Send(InventoryEvent::SystemWake)
                } else {
                    action == WatcherAction::Enumerate
                },
                WatcherInput::Enumerated(found) => action == WatcherAction::Send(
                    InventoryEvent::Snapshot(found),
                ),
                WatcherInput::EnumerateFailed => if none_succeeded && failures == 2 {
                    action == WatcherAction::Send(InventoryEvent::Unavailable)
                } else {
                    action == WatcherAction::Sleep
                },
                WatcherInput::Delivered(received) => {
                    &&& !received ==> action == WatcherAction::Stop
                    &&& received && inputs.last() is Clock ==> action == WatcherAction::Enumerate
                    &&& received && !(inputs.last() is Clock) ==> action == WatcherAction::Sleep
                },
                WatcherInput::Slept => action == WatcherAction::ReadClock,
            }
        }),
{
    let s = fresh(period, start);
    lemma_one_more(s, inputs, input);
    lemma_readings(s, inputs);
    lemma_counters(period, start, inputs);
    lemma_failures_before_any_success(inputs);
}

/// Before the first success every failure is an initial one.
proof fn lemma_failures_before_any_success(inputs: Seq<WatcherInput>)
    ensures
        enumerations(inputs).len() == 0 <==> forall|i: int|
            0 <= i < inputs.len() ==> !(#[trigger] inputs[i] is Enumerated),
        enumerations(inputs).len() == 0 ==> initial_failures(inputs) == inputs.filter(
            |earlier: WatcherInput| earlier is EnumerateFailed,
        ).len(),
    decreases inputs.len(),
{
    reveal(Seq::filter);
    if inputs.len() > 0 {
        let before = inputs.drop_last();
        lemma_failures_before_any_success(before);
        assert(inputs[inputs.len() - 1] == inputs.last());
        if enumerations(inputs).len() == 0 {
            assert forall|i: int| 0 <= i < inputs.len() implies !(
            #[trigger] inputs[i] is Enumerated) by {
                if i < before.len() {
                    assert(!(before[i] is Enumerated));
                }
            }
        } else if enumerations(before).len() > 0 {
            let i = choose|i: int| 0 <= i < before.len() && #[trigger] before[i] is Enumerated;
            assert(inputs[i] is Enumerated);
        }
    }
}

/// The latest clock reading is the one that no other follows, and the start where
/// there is none.
pub proof fn lemma_last_reading_is_the_latest(start: int, inputs: Seq<WatcherInput>, j: int)
    requires
        -1 <= j < inputs.len(),
        j >= 0 ==> inputs[j] is Clock,
        forall|i: int| j < i < inputs.len() ==> !(#[trigger] inputs[i] is Clock),
    ensures
        j >= 0 ==> last_reading(start, inputs) == inputs[j]->Clock_0,
        j < 0 ==> last_reading(start, inputs) == start,
    decreases inputs.len(),
{
    if inputs.len() > 0 && j < inputs.len() - 1 {
        let before = inputs.drop_last();
        assert(!(inputs[inputs.len() - 1] is Clock));
        assert forall|i: int| j < i < before.len() implies !(#[trigger] before[i] is Clock) by {
            assert(before[i] == inputs[i]);
        }
        lemma_last_reading_is_the_latest(start, before, j);
    }
}

/// Which inputs can follow: what the driver was told to do last decides, and after
/// the loop has ended there is nothing more to hand in.
pub proof fn lemma_inputs_answer_actions(
    period: nat,
    start: int,
    inputs: Seq<WatcherInput>,
    input: WatcherInput,
)
    requires
        is_run(fresh(period, start), inputs),
    ensures
        inputs.len() == 0 ==> (is_run(fresh(period, start), inputs.push(input))
            <==> input is Clock),
        inputs.len() > 0 ==> {
            let told = actions_for(fresh(period, start), inputs).last();
            is_run(fresh(period, start), inputs.push(input)) <==> match told {
                WatcherAction::ReadClock => input is Clock,
                WatcherAction::Send(_) => input is Delivered,
                WatcherAction::Enumerate => input is Enumerated || input is EnumerateFailed,
                WatcherAction::Sleep => input is Slept,
                WatcherAction::Stop => false,
            }
        },
{
    lemma_one_more(fresh(period, start), inputs, input);
}

/// How often `actions` start an enumeration.
pub open spec fn enumerate_actions(actions: Seq<WatcherAction>) -> nat
    decreases actions.len(),
{
    if actions.len() == 0 {
        0
    } else if actions.last() is Enumerate {
        enumerate_actions(actions.drop_last()) + 1
    } else {
        enumerate_actions(actions.drop_last())
    }
}

/// How often `actions` wait for a polling period.
pub open spec fn sleep_actions(actions: Seq<WatcherAction>) -> nat
    decreases actions.len(),
{
    if actions.len() == 0 {
        0
    } else if actions.last() is Sleep {
        sleep_actions(actions.drop_last()) + 1
    } else {
        sleep_actions(actions.drop_last())
    }
}

/// How many clock readings `inputs` hold: one for each tick.
pub open spec fn ticks(inputs: Seq<WatcherInput>) -> nat
    decreases inputs.len(),
{
    if inputs.len() == 0 {
        0
    } else if inputs.last() is Clock {
        ticks(inputs.drop_last()) + 1
    } else {
        ticks(inputs.drop_last())
    }
}

/// Whether every event among `inputs` reached a receiver.
pub open spec fn all_delivered(inputs: Seq<WatcherInput>) -> bool {
    forall|i: int| 0 <= i < inputs.len() ==> #[trigger] inputs[i] != WatcherInput::Delivered(false)
}

/// The loop keeps retrying: as long as every event is delivered it never stops,
/// and it enumerates once and then sleeps once in each tick, after failures and
/// after it has reported unavailability too. Behind a finished tick there are as
/// many enumerations, and as many sleeps, as ticks; within a tick its enumeration
/// or its sleep may still be due.
pub proof fn lemma_polling_goes_on(period: nat, now: int, inputs: Seq<WatcherInput>)
    requires
        is_run(fresh(period, now), inputs),
        all_delivered(inputs),
    ensures
        ({
            let s = fresh(period, now);
            let phase = state_after(s, inputs).phase;
            let enumerated = enumerate_actions(actions_for(s, inputs));
            let slept = sleep_actions(actions_for(s, inputs));
            &&& phase != WatcherPhase::Stopped
            &&& enumerated == ticks(inputs) - if phase == WatcherPhase::DeliveringWake {
                1int
            } else {
                0int
            }
            &&& slept == ticks(inputs) - if phase == WatcherPhase::ReadingClock || phase
                == WatcherPhase::Sleeping {
                0int
            } else {
                1int
            }
        }),
    decreases inputs.len(),
{
    if inputs.len() > 0 {
        let s = fresh(period, now);
        let before = inputs.drop_last();
        assert forall|i: int| 0 <= i < before.len() implies #[trigger] before[i]
            != WatcherInput::Delivered(false) by {
            assert(before[i] == inputs[i]);
        }
        assert(inputs[inputs.len() - 1] != WatcherInput::Delivered(false));
        lemma_polling_goes_on(period, now, before);
        assert(actions_for(s, inputs).drop_last() =~= actions_for(s, before));
    }
}

/// The inputs of one tick in the state `s`, with the clock at `now`, when the
/// enumeration ends in `outcome` and every event is delivered.
pub open spec fn tick_inputs(s: WatcherView, now: i128, outcome: WatcherInput) -> Seq<WatcherInput> {
    let woken = if transition(s, WatcherInput::Clock(now)).1 is Send {
        seq![WatcherInput::Clock(now), WatcherInput::Delivered(true)]
    } else {
        seq![WatcherInput::Clock(now)]
    };
    let reported = if transition(state_after(s, woken), outcome).1 is Send {
        woken.push(outcome).push(WatcherInput::Delivered(true))
    } else {
        woken.push(outcome)
    };
    reported.push(WatcherInput::Slept)
}

/// One tick, whatever the clock reads and however the enumeration ends, can be
/// taken from every state that awaits one: it enumerates once, sleeps once, and
/// ends where the next tick begins.
pub proof fn lemma_one_tick(s: WatcherView, now: i128, outcome: WatcherInput)
    requires
        s.phase == WatcherPhase::ReadingClock,
        outcome is Enumerated || outcome is EnumerateFailed,
    ensures
        is_run(s, tick_inputs(s, now, outcome)),
        enumerate_actions(actions_for(s, tick_inputs(s, now, outcome))) == 1,
        sleep_actions(actions_for(s, tick_inputs(s, now, outcome))) == 1,
        actions_for(s, tick_inputs(s, now, outcome)).last() == WatcherAction::ReadClock,
        state_after(s, tick_inputs(s, now, outcome)).phase == WatcherPhase::ReadingClock,
{
    let clock = WatcherInput::Clock(now);
    let delivered = WatcherInput::Delivered(true);
    let none = Seq::<WatcherInput>::empty();
    lemma_one_more(s, none, clock);
    assert(seq![clock] =~= none.push(clock));
    let woken = if transition(s, clock).1 is Send {
        lemma_one_more(s, seq![clock], delivered);
        assert(seq![clock, delivered] =~= seq![clock].push(delivered));
        seq![clock, delivered]
    } else {
        seq![clock]
    };
    lemma_one_more(s, woken, outcome);
    let reported = if transition(state_after(s, woken), outcome).1 is Send {
        lemma_one_more(s, woken.push(outcome), delivered);
        woken.push(outcome).push(delivered)
    } else {
        woken.push(outcome)
    };
    lemma_one_more(s, reported, WatcherInput::Slept);
}

/// What one more input adds to a run.
proof fn lemma_one_more(s: WatcherView, inputs: Seq<WatcherInput>, input: WatcherInput)
    ensures
        state_after(s, inputs.push(input)) == transition(state_after(s, inputs), input).0,
        actions_for(s, inputs.push(input)) == actions_for(s, inputs).push(
            transition(state_after(s, inputs), input).1,
        ),
        is_run(s, inputs.push(input)) <==> is_run(s, inputs) && accepts(
            state_after(s, inputs).phase,
            input,
        ),
        enumerate_actions(actions_for(s, inputs.push(input))) == enumerate_actions(
            actions_for(s, inputs),
        ) + if transition(state_after(s, inputs), input).1 is Enumerate {
            1nat
        } else {
            0nat
        },
        sleep_actions(actions_for(s, inputs.push(input))) == sleep_actions(actions_for(s, inputs))
            + if transition(state_after(s, inputs), input).1 is Sleep {
            1nat
        } else {
            0nat
        },
{
    let action = transition(state_after(s, inputs), input).1;
    assert(inputs.push(input).drop_last() =~= inputs);
    assert(actions_for(s, inputs).push(action).drop_last() =~= actions_for(s, inputs));
}

} // verus!
