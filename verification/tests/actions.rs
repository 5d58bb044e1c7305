use std::collections::HashMap;
use vault::actions::{
    collect_action_stats, ActionStatistics, ActionTiming, ResolvedActionStatistics,
    ResolvedActionTiming,
};
use vault::clock::{Duration, Instant};

fn at(nanos: u64) -> Instant {
    Instant { nanos }
}

fn names() -> HashMap<u64, &'static str> {
    HashMap::from([(1, "editor::Save"), (2, "editor::Open")])
}

#[test]
fn new_statistics_are_empty() {
    let stats = ActionStatistics::new();
    assert!(stats.is_empty());
    assert!(stats.resolve(&names()).is_empty());
    assert!(ResolvedActionStatistics::empty().is_empty());
}

#[test]
fn elapsed_time_saturates() {
    assert_eq!(at(7).duration_since(at(3)), Duration { nanos: 4 });
    assert_eq!(at(3).duration_since(at(7)), Duration { nanos: 0 });
    assert_eq!(Duration::from_millis(600).nanos, 600_000_000);
}

#[test]
fn a_saved_action_is_kept_as_it_ran() {
    let mut stats = ActionStatistics::new();
    stats.update_running_action(1, at(100));
    stats.save_action_timing(at(350));
    assert!(!stats.is_empty());
    let resolved = stats.resolve(&names());
    assert_eq!(resolved.0.len(), 1);
    assert_eq!(resolved.0[0].action_name, "editor::Save");
    assert_eq!(resolved.0[0].start, at(100));
    assert_eq!(resolved.0[0].end, at(350));
    assert_eq!(resolved.0[0].runtime(), Duration { nanos: 250 });
}

fn millis(n: u64) -> Instant {
    Instant { nanos: n * 1_000_000 }
}

#[test]
fn the_longest_action_is_kept() {
    let mut stats = ActionStatistics::new();
    stats.update_running_action(1, millis(0));
    stats.save_action_timing(millis(100));
    stats.update_running_action(2, millis(1000));
    stats.save_action_timing(millis(1900));
    let longest = ActionTiming { id: 2, start: millis(1000), end: millis(1900) };
    assert_eq!(stats.longest_runtimes(), &[longest]);
    stats.update_running_action(1, millis(2000));
    stats.save_action_timing(millis(2899));
    assert_eq!(stats.longest_runtimes(), &[longest]);
    let resolved = stats.resolve(&names());
    assert_eq!(resolved.0.len(), 1);
    assert_eq!(resolved.0[0].action_name, "editor::Open");
    assert_eq!(resolved.0[0].runtime(), Duration::from_millis(900));
}

#[test]
fn an_action_as_long_as_the_kept_one_takes_its_place() {
    let mut stats = ActionStatistics::new();
    stats.update_running_action(1, at(5));
    stats.save_action_timing(at(5));
    stats.update_running_action(2, at(20));
    stats.save_action_timing(at(30));
    stats.update_running_action(1, at(40));
    stats.save_action_timing(at(50));
    assert_eq!(
        stats.longest_runtimes(),
        &[ActionTiming { id: 1, start: at(40), end: at(50) }]
    );
}

#[test]
fn an_action_on_a_clock_that_ran_backwards_took_no_time() {
    let mut stats = ActionStatistics::new();
    stats.update_running_action(2, at(100));
    stats.save_action_timing(at(60));
    assert_eq!(stats.longest_runtimes()[0].runtime(), Duration { nanos: 0 });
    stats.update_running_action(1, at(100));
    stats.save_action_timing(at(101));
    stats.update_running_action(2, at(200));
    stats.save_action_timing(at(160));
    assert_eq!(stats.longest_runtimes()[0].id, 1);
}

#[test]
fn actions_without_a_name_are_left_out() {
    let mut stats = ActionStatistics::new();
    stats.update_running_action(99, at(0));
    stats.save_action_timing(at(10));
    assert!(!stats.is_empty());
    assert!(stats.resolve(&names()).is_empty());
    let timing = ActionTiming { id: 99, start: at(0), end: at(10) };
    assert!(timing.try_resolve(&names()).is_none());
    assert_eq!(timing.runtime(), Duration { nanos: 10 });
}

#[test]
fn a_snapshot_does_not_change() {
    let mut stats = ActionStatistics::new();
    let empty = collect_action_stats(&stats);
    stats.update_running_action(1, at(0));
    stats.save_action_timing(at(10));
    let full = collect_action_stats(&stats);
    assert!(empty.is_empty());
    assert!(!full.is_empty());
    assert_eq!(full.resolve(&names()).0[0].end, at(10));
}

#[test]
fn the_report_has_a_line_for_each_action() {
    assert_eq!(
        ResolvedActionStatistics::empty().to_text(),
        "Actions that blocked the longest"
    );
    let stats = ResolvedActionStatistics(vec![
        ResolvedActionTiming {
            action_name: "editor::Save",
            start: at(0),
            end: at(1_500_000_000),
        },
        ResolvedActionTiming { action_name: "editor::Open", start: at(0), end: at(2_000_000) },
    ]);
    assert_eq!(
        stats.clone().to_text(),
        "Actions that blocked the longest\n 1.5s: editor::Save\n\n 2ms: editor::Open\n"
    );
}
