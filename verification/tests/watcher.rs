use openlogi_inventory::device::{DeviceInventory, ReceiverInfo};
use openlogi_inventory::watcher::{
    startup_report, InventoryEvent, Watcher, WatcherAction, WatcherInput, WatcherPhase,
    INITIAL_FAILURE_LIMIT, MAX_PERIOD, WAKE_GAP,
};

const PERIOD: u128 = 2_000_000_000;

fn inventory() -> DeviceInventory {
    DeviceInventory {
        receiver: ReceiverInfo {
            unique_id: None,
            vendor_id: 1,
            product_id: 2,
        },
        paired: vec![],
    }
}

/// Feeds one tick without a wake, with a receiver that takes every event, and
/// returns the events sent.
fn tick(watcher: &mut Watcher, now: i128, outcome: Option<Vec<DeviceInventory>>) -> Vec<InventoryEvent> {
    let mut sent = Vec::new();
    let mut outcome = Some(outcome);
    let mut action = watcher.step(WatcherInput::Clock(now));
    loop {
        action = match action {
            WatcherAction::Send(event) => {
                sent.push(event);
                watcher.step(WatcherInput::Delivered(true))
            }
            WatcherAction::Enumerate => match outcome.take().unwrap() {
                Some(found) => watcher.step(WatcherInput::Enumerated(found)),
                None => watcher.step(WatcherInput::EnumerateFailed),
            },
            WatcherAction::Sleep => {
                assert_eq!(watcher.phase(), WatcherPhase::Sleeping);
                assert_eq!(watcher.step(WatcherInput::Slept), WatcherAction::ReadClock);
                return sent;
            }
            WatcherAction::ReadClock | WatcherAction::Stop => unreachable!(),
        };
    }
}

#[test]
fn snapshots_are_forwarded_even_when_empty() {
    let mut watcher = Watcher::new(PERIOD, 0);
    assert_eq!(
        tick(&mut watcher, 1, Some(vec![inventory()])),
        vec![InventoryEvent::Snapshot(vec![inventory()])]
    );
    assert_eq!(
        tick(&mut watcher, 2, Some(vec![])),
        vec![InventoryEvent::Snapshot(vec![])]
    );
}

#[test]
fn unavailable_is_reported_once_after_the_third_initial_failure() {
    assert_eq!(INITIAL_FAILURE_LIMIT, 3);
    let mut watcher = Watcher::new(PERIOD, 0);
    assert_eq!(tick(&mut watcher, 1, None), vec![]);
    assert_eq!(tick(&mut watcher, 2, None), vec![]);
    assert_eq!(tick(&mut watcher, 3, None), vec![InventoryEvent::Unavailable]);
    for now in 4..600 {
        assert_eq!(tick(&mut watcher, now, None), vec![]);
    }
    assert_eq!(
        tick(&mut watcher, 600, Some(vec![])),
        vec![InventoryEvent::Snapshot(vec![])]
    );
    for now in 601..610 {
        assert_eq!(tick(&mut watcher, now, None), vec![]);
    }
}

#[test]
fn failures_after_a_success_are_silent() {
    let mut watcher = Watcher::new(PERIOD, 0);
    assert_eq!(tick(&mut watcher, 1, None), vec![]);
    assert_eq!(tick(&mut watcher, 2, None), vec![]);
    assert_eq!(
        tick(&mut watcher, 3, Some(vec![])),
        vec![InventoryEvent::Snapshot(vec![])]
    );
    for now in 4..20 {
        assert_eq!(tick(&mut watcher, now, None), vec![]);
    }
}

#[test]
fn late_ticks_are_wakes() {
    let limit = (PERIOD + WAKE_GAP) as i128;
    assert_eq!(limit, 62_000_000_000);
    let mut watcher = Watcher::new(PERIOD, -5);
    assert_eq!(tick(&mut watcher, limit - 5, None), vec![]);
    assert_eq!(
        tick(&mut watcher, 2 * limit - 4, None),
        vec![InventoryEvent::SystemWake]
    );
    // The late tick is the new starting point.
    assert_eq!(
        tick(&mut watcher, 3 * limit - 4, None),
        vec![InventoryEvent::Unavailable]
    );
}

#[test]
fn a_clock_set_back_only_moves_the_starting_point() {
    let limit = (PERIOD + WAKE_GAP) as i128;
    let mut watcher = Watcher::new(PERIOD, 1_000_000);
    assert_eq!(tick(&mut watcher, -10 * limit, None), vec![]);
    assert_eq!(tick(&mut watcher, -9 * limit, None), vec![]);
    assert_eq!(
        tick(&mut watcher, -8 * limit + 1, Some(vec![])),
        vec![InventoryEvent::SystemWake, InventoryEvent::Snapshot(vec![])]
    );
}

#[test]
fn extreme_clock_readings_do_not_overflow() {
    let mut watcher = Watcher::new(MAX_PERIOD, i128::MIN);
    assert_eq!(
        tick(&mut watcher, i128::MAX, Some(vec![])),
        vec![InventoryEvent::SystemWake, InventoryEvent::Snapshot(vec![])]
    );
    assert_eq!(
        tick(&mut watcher, i128::MIN, Some(vec![])),
        vec![InventoryEvent::Snapshot(vec![])]
    );
}

#[test]
fn watcher_stops_when_the_receiver_is_gone() {
    let mut watcher = Watcher::new(PERIOD, 0);
    assert_eq!(watcher.phase(), WatcherPhase::ReadingClock);
    assert_eq!(watcher.step(WatcherInput::Clock(0)), WatcherAction::Enumerate);
    assert_eq!(
        watcher.step(WatcherInput::Enumerated(vec![])),
        WatcherAction::Send(InventoryEvent::Snapshot(vec![]))
    );
    assert_eq!(watcher.step(WatcherInput::Delivered(false)), WatcherAction::Stop);
    assert_eq!(watcher.phase(), WatcherPhase::Stopped);

    let mut watcher = Watcher::new(PERIOD, 0);
    let late = (PERIOD + WAKE_GAP) as i128 + 1;
    assert_eq!(
        watcher.step(WatcherInput::Clock(late)),
        WatcherAction::Send(InventoryEvent::SystemWake)
    );
    assert_eq!(watcher.step(WatcherInput::Delivered(false)), WatcherAction::Stop);
}

#[test]
fn longest_period_matches_the_duration_range() {
    let longest = std::time::Duration::MAX - std::time::Duration::from_secs(60);
    assert_eq!(longest.as_nanos(), MAX_PERIOD);
}

#[test]
fn a_thread_that_did_not_start_is_reported() {
    assert_eq!(startup_report(false), Some(InventoryEvent::Unavailable));
    assert_eq!(startup_report(true), None);
}

#[test]
fn every_tick_enumerates_once_and_sleeps_once() {
    let mut watcher = Watcher::new(PERIOD, 0);
    let late = (PERIOD + WAKE_GAP) as i128 + 1;
    let (mut enumerated, mut slept) = (0, 0);
    let mut action = WatcherAction::ReadClock;
    let mut ticks: i128 = 0;
    loop {
        let input = match action {
            WatcherAction::ReadClock => {
                assert_eq!((enumerated, slept), (ticks, ticks));
                if ticks == 12 {
                    return;
                }
                ticks += 1;
                // Every other tick comes late.
                WatcherInput::Clock(ticks / 2 * late)
            }
            WatcherAction::Send(_) => WatcherInput::Delivered(true),
            WatcherAction::Enumerate => {
                enumerated += 1;
                if ticks % 5 == 0 {
                    WatcherInput::Enumerated(vec![])
                } else {
                    WatcherInput::EnumerateFailed
                }
            }
            WatcherAction::Sleep => {
                slept += 1;
                WatcherInput::Slept
            }
            WatcherAction::Stop => panic!("stopped"),
        };
        action = watcher.step(input);
    }
}
