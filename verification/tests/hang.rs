use vault::actions::{ResolvedActionStatistics, ResolvedActionTiming};
use vault::clock::{Duration, Instant};
use vault::hang::{
    action_statistics, cleanup_old_hang_traces, format_task_statistics, report_hanging_actions,
    report_hanging_background_tasks, report_hanging_foreground_tasks, save_traces,
    trace_stamp, trace_thread_name, StatisticsReply, TaskStatistics, ThreadTaskStatistics,
    TraceFile, MAX_HANG_TRACES,
};

fn thread(id: &str, name: Option<&str>, millis: &[u32], summary: &str) -> ThreadTaskStatistics {
    ThreadTaskStatistics {
        thread_name: name.map(|name| name.to_string()),
        thread_id: id.to_string(),
        stats: TaskStatistics {
            longest_poll_times: millis.iter().map(|ms| Duration::from_millis(*ms)).collect(),
            summary: summary.to_string(),
        },
    }
}

fn id(id: &str) -> String {
    id.to_string()
}

#[test]
fn a_hanging_foreground_is_reported() {
    let stats = vec![
        thread("ThreadId(2)", None, &[9000], "two"),
        thread("ThreadId(1)", Some("main"), &[10, 601], "one"),
    ];
    assert_eq!(
        report_hanging_foreground_tasks(&stats, &id("ThreadId(1)")),
        Some("Foreground hang detected:\n\tone".to_string())
    );
}

#[test]
fn six_hundred_milliseconds_are_no_hang() {
    let stats = vec![thread("ThreadId(1)", None, &[600, 5], "one")];
    assert_eq!(report_hanging_foreground_tasks(&stats, &id("ThreadId(1)")), None);
    let mut stats = stats;
    stats[0].stats.longest_poll_times.push(Duration { nanos: 600_000_001 });
    assert!(report_hanging_foreground_tasks(&stats, &id("ThreadId(1)")).is_some());
}

#[test]
fn hanging_workers_are_reported_one_by_one() {
    let stats = vec![
        thread("ThreadId(1)", Some("main"), &[9000], "one"),
        thread("ThreadId(2)", Some("worker"), &[700], "two"),
        thread("ThreadId(3)", Some("idle"), &[5], "three"),
        thread("ThreadId(4)", None, &[1, 800], "four"),
    ];
    assert_eq!(
        report_hanging_background_tasks(&stats, &id("ThreadId(1)")),
        vec![
            "Background hang detected on worker worker:\n\ttwo".to_string(),
            "Background hang detected on worker Unknown:\n\tfour".to_string(),
        ]
    );
    assert!(report_hanging_background_tasks(&stats[..1].iter().map(|_| {
        thread("ThreadId(1)", None, &[9000], "one")
    }).collect(), &id("ThreadId(1)")).is_empty());
}

#[test]
fn statistics_are_formatted_thread_by_thread() {
    let stats = vec![
        thread("ThreadId(1)", Some("main"), &[], " a"),
        thread("ThreadId(2)", None, &[], " b"),
    ];
    assert_eq!(
        format_task_statistics(&stats),
        Some("thread: main athread: ThreadId(2) b".to_string())
    );
    assert_eq!(format_task_statistics(&Vec::new()), Some(String::new()));
}

fn timing(millis: u64) -> ResolvedActionTiming {
    ResolvedActionTiming {
        action_name: "dev::HangAction",
        start: Instant { nanos: 0 },
        end: Instant { nanos: millis * 1_000_000 },
    }
}

#[test]
fn a_hanging_action_is_reported() {
    let stats = Some(ResolvedActionStatistics(vec![timing(1), timing(5000)]));
    assert_eq!(
        report_hanging_actions(&stats),
        Some(
            "Action hang detected:\n\tActions that blocked the longest\n 1ms: dev::HangAction\n\
             \n 5s: dev::HangAction\n"
                .to_string()
        )
    );
    let stats = Some(ResolvedActionStatistics(vec![timing(600)]));
    assert_eq!(report_hanging_actions(&stats), None);
    assert_eq!(report_hanging_actions(&None), None);
}

#[test]
fn the_statistics_follow_from_the_reply() {
    assert!(action_statistics(StatisticsReply::Refused).is_none());
    assert!(action_statistics(StatisticsReply::Closed).is_none());
    assert!(action_statistics(StatisticsReply::TimedOut).unwrap().is_empty());
    let reply = StatisticsReply::Resolved(ResolvedActionStatistics(vec![timing(3)]));
    assert_eq!(action_statistics(reply).unwrap().0.len(), 1);
}

fn trace(name: &str, extension: Option<&str>) -> TraceFile {
    TraceFile {
        file_name: name.as_bytes().to_vec(),
        extension: extension.map(|extension| extension.to_string()),
    }
}

#[test]
fn the_oldest_traces_are_removed() {
    let files = vec![
        trace("hang-3.json", Some("json")),
        trace("hang-1.json", Some("json")),
        trace("aaa.txt", Some("txt")),
        trace("hang-5.miniprof", Some("miniprof")),
        trace("hang-2.json", Some("json")),
        trace("hang-4.JSON", Some("JSON")),
        trace("hang-4.json", Some("json")),
        trace("none", None),
    ];
    assert_eq!(
        cleanup_old_hang_traces(&files),
        vec![b"hang-1.json".to_vec(), b"hang-2.json".to_vec()]
    );
}

#[test]
fn three_traces_are_kept() {
    assert_eq!(MAX_HANG_TRACES, 3);
    let files: Vec<TraceFile> =
        ["b", "a", "c"].iter().map(|name| trace(name, Some("json"))).collect();
    assert!(cleanup_old_hang_traces(&files).is_empty());
    assert!(cleanup_old_hang_traces(&Vec::new()).is_empty());
}

#[test]
fn the_main_thread_is_called_main() {
    assert_eq!(
        trace_thread_name(&id("ThreadId(1)"), Some(id("zed")), &id("ThreadId(1)")),
        Some(id("main"))
    );
    assert_eq!(
        trace_thread_name(&id("ThreadId(2)"), Some(id("zed")), &id("ThreadId(1)")),
        Some(id("zed"))
    );
    assert_eq!(trace_thread_name(&id("ThreadId(2)"), None, &id("ThreadId(1)")), None);
}

#[test]
fn a_trace_is_written_unless_tracing_is_enabled() {
    let saved = save_traces(Some(id("[]")), false, "2024-05-06_07-08-09").unwrap();
    assert_eq!(saved.file_name, "hang-2024-05-06_07-08-09.miniprof.json");
    assert_eq!(saved.contents, "[]");
    assert!(save_traces(Some(id("[]")), true, "x").is_none());
    assert!(save_traces(None, false, "x").is_none());
}

#[test]
fn stamps_show_local_time() {
    assert_eq!(trace_stamp(0, 0), Some(id("1970-01-01_00-00-00")));
    assert_eq!(trace_stamp(1431648000, 3600), Some(id("2015-05-15_01-00-00")));
    assert_eq!(trace_stamp(0, -3600), Some(id("1969-12-31_23-00-00")));
    assert_eq!(trace_stamp(0, 86_400), None);
    assert_eq!(trace_stamp(i64::MAX, 0), None);
}
