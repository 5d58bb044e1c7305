//! Detecting and reporting hangs: what is logged about tasks and actions that
//! took too long, and which hang traces are kept on disk.
use vstd::prelude::*;

use crate::actions::{report, ResolvedActionStatistics, ResolvedActionTiming};
use crate::clock::{elapsed, Duration};
use crate::order::{
    arranged, arranged_keeps_items, bytes_le, bytes_le_total, positions, precedes, ranks_of,
    sort_positions, stable_order, stable_order_is_stable, Rank, SortKey,
};
use crate::text::{same_text, texts};
use crate::entries::{copy_bytes, text_in};

verus! {

// ---------------------------------------------------------------------------
// Hanging tasks
// ---------------------------------------------------------------------------

/// How the tasks of one thread fared.
pub struct TaskStatistics {
    /// How long the slowest polls took until they yielded.
    pub longest_poll_times: Vec<Duration>,
    /// The statistics in words.
    pub summary: String,
}

/// The task statistics of a thread.
pub struct ThreadTaskStatistics {
    pub thread_name: Option<String>,
    /// The id of the thread as it prints; no two threads share it.
    pub thread_id: String,
    pub stats: TaskStatistics,
}

/// Whether a span of time is too long for the application to stay responsive:
/// longer than 600 milliseconds.
pub open spec fn too_long(d: Duration) -> bool {
    d.nanos > 600_000_000
}

/// Whether one of some spans is too long.
pub open spec fn any_too_long(spans: Seq<Duration>) -> bool {
    exists|i: int| 0 <= i < spans.len() && too_long(#[trigger] spans[i])
}

/// Whether a thread had a task that hung.
pub open spec fn hung(thread: ThreadTaskStatistics) -> bool {
    any_too_long(thread.stats.longest_poll_times@)
}

fn is_too_long(d: Duration) -> (b: bool)
    ensures
        b == too_long(d),
{
    d.nanos > Duration::from_millis(600).nanos
}

fn has_hung(thread: &ThreadTaskStatistics) -> (b: bool)
    ensures
        b == hung(*thread),
{
    let times = &thread.stats.longest_poll_times;
    let mut i: usize = 0;
    while i < times.len()
        invariant
            times@ == thread.stats.longest_poll_times@,
            i <= times.len(),
            forall|j: int| 0 <= j < i ==> !too_long(#[trigger] times@[j]),
        decreases times.len() - i,
    {
        if is_too_long(times[i]) {
            assert(too_long(times@[i as int]));
            return true;
        }
        i += 1;
    }
    false
}

/// The position of the first thread with the id `id`; their number where there
/// is none.
pub open spec fn thread_position(threads: Seq<ThreadTaskStatistics>, id: Seq<char>) -> int
    decreases threads.len(),
{
    if threads.len() == 0 || threads.first().thread_id@ == id {
        0
    } else {
        1 + thread_position(threads.drop_first(), id)
    }
}

proof fn lemma_thread_position(threads: Seq<ThreadTaskStatistics>, id: Seq<char>, n: int)
    requires
        0 <= n < threads.len(),
        threads[n].thread_id@ == id,
        forall|i: int| 0 <= i < n ==> (#[trigger] threads[i]).thread_id@ != id,
    ensures
        thread_position(threads, id) == n,
    decreases n,
{
    if n > 0 {
        assert(threads[0].thread_id@ != id);
        let rest = threads.drop_first();
        assert forall|i: int| 0 <= i < n - 1 implies (#[trigger] rest[i]).thread_id@ != id by {
            assert(threads[i + 1].thread_id@ != id);
        }
        lemma_thread_position(rest, id, n - 1);
    }
}

/// What is logged of a foreground thread that hung.
pub open spec fn foreground_report(thread: ThreadTaskStatistics) -> Seq<char> {
    "Foreground hang detected:\n\t"@ + thread.stats.summary@
}

/// What to log about the foreground thread: a report where one of its tasks
/// hung. The foreground thread is in all statistics.
pub fn report_hanging_foreground_tasks(
    task_stats: &Vec<ThreadTaskStatistics>,
    foreground_thread: &String,
) -> (message: Option<String>)
    requires
        exists|i: int|
            0 <= i < task_stats@.len() && (#[trigger] task_stats@[i]).thread_id@
                == foreground_thread@,
    ensures
        ({
            let foreground = task_stats@[thread_position(task_stats@, foreground_thread@)];
            &&& foreground.thread_id@ == foreground_thread@
            &&& message is Some <==> hung(foreground)
            &&& message matches Some(text) ==> text@ == foreground_report(foreground)
        }),
{
    let mut i: usize = 0;
    while i < task_stats.len()
        invariant
            i <= task_stats.len(),
            forall|j: int|
                0 <= j < i ==> (#[trigger] task_stats@[j]).thread_id@ != foreground_thread@,
            exists|j: int|
                0 <= j < task_stats@.len() && (#[trigger] task_stats@[j]).thread_id@
                    == foreground_thread@,
        decreases task_stats.len() - i,
    {
        if task_stats[i].thread_id == *foreground_thread {
            proof {
                lemma_thread_position(task_stats@, foreground_thread@, i as int);
            }
            if !has_hung(&task_stats[i]) {
                return None;
            }
            let mut message = "Foreground hang detected:\n\t".to_owned();
            message.append(task_stats[i].stats.summary.as_str());
            return Some(message);
        }
        i += 1;
    }
    assert(false);
    None
}

/// What is logged of a background thread that hung.
pub open spec fn background_report(thread: ThreadTaskStatistics) -> Seq<char> {
    "Background hang detected on worker "@ + (match text_in(thread.thread_name) {
        Some(name) => name,
        None => "Unknown"@,
    }) + ":\n\t"@ + thread.stats.summary@
}

/// Whether a thread other than the foreground thread hung.
pub open spec fn hung_worker(thread: ThreadTaskStatistics, foreground: Seq<char>) -> bool {
    thread.thread_id@ != foreground && hung(thread)
}

/// What is logged of the background threads, in order: one report for each
/// that hung.
pub open spec fn background_reports(
    threads: Seq<ThreadTaskStatistics>,
    foreground: Seq<char>,
) -> Seq<Seq<char>> {
    threads.filter(|thread: ThreadTaskStatistics| hung_worker(thread, foreground)).map_values(|thread: ThreadTaskStatistics| background_report(thread))
}

fn background_message(thread: &ThreadTaskStatistics) -> (message: String)
    ensures
        message@ == background_report(*thread),
{
    let mut message = "Background hang detected on worker ".to_owned();
    match &thread.thread_name {
        Some(name) => {
            message.append(name.as_str());
        },
        None => {
            message.append("Unknown");
        },
    }
    message.append(":\n\t");
    message.append(thread.stats.summary.as_str());
    message
}

/// What to log about the background threads: one report for each with a task
/// that hung.
pub fn report_hanging_background_tasks(
    task_stats: &Vec<ThreadTaskStatistics>,
    foreground_thread: &String,
) -> (messages: Vec<String>)
    ensures
        texts(messages@) == background_reports(task_stats@, foreground_thread@),
{
    let ghost keep = |thread: ThreadTaskStatistics| hung_worker(thread, foreground_thread@);
    let ghost make = |thread: ThreadTaskStatistics| background_report(thread);
    let ghost all = task_stats@;
    let mut messages: Vec<String> = Vec::new();
    let mut i: usize = 0;
    assert(texts(messages@) =~= background_reports(all.take(0), foreground_thread@));
    while i < task_stats.len()
        invariant
            keep == (|thread: ThreadTaskStatistics| hung_worker(thread, foreground_thread@)),
            make == (|thread: ThreadTaskStatistics| background_report(thread)),
            all == task_stats@,
            i <= task_stats.len(),
            texts(messages@) == background_reports(all.take(i as int), foreground_thread@),
        decreases task_stats.len() - i,
    {
        let ghost earlier = messages@;
        let thread = &task_stats[i];
        proof {
            let taken = all.take(i as int);
            assert(all.take(i + 1) =~= taken.push(*thread));
            taken.lemma_filter_push(*thread, keep);
            taken.filter(keep).lemma_push_map_commute(make, *thread);
        }
        if thread.thread_id != *foreground_thread && has_hung(thread) {
            messages.push(background_message(thread));
            assert(texts(messages@) =~= texts(earlier).push(background_report(*thread)));
        }
        i += 1;
    }
    assert(all.take(all.len() as int) =~= all);
    messages
}

/// The statistics of all threads in words.
pub open spec fn statistics_text(threads: Seq<ThreadTaskStatistics>) -> Seq<char>
    decreases threads.len(),
{
    if threads.len() == 0 {
        Seq::empty()
    } else {
        let last = threads.last();
        statistics_text(threads.drop_last()) + "thread: "@ + (match text_in(last.thread_name) {
            Some(name) => name,
            None => last.thread_id@,
        }) + last.stats.summary@
    }
}

/// The statistics of all threads in words. Threads without a name are shown by
/// their ids.
pub fn format_task_statistics(stats: &Vec<ThreadTaskStatistics>) -> (text: Option<String>)
    ensures
        text is Some,
        text->0@ == statistics_text(stats@),
{
    let mut res = String::new();
    let mut i: usize = 0;
    assert(res@ =~= statistics_text(stats@.take(0)));
    while i < stats.len()
        invariant
            i <= stats.len(),
            res@ == statistics_text(stats@.take(i as int)),
        decreases stats.len() - i,
    {
        let thread = &stats[i];
        assert(stats@.take(i + 1).drop_last() =~= stats@.take(i as int));
        res.append("thread: ");
        match &thread.thread_name {
            Some(name) => {
                res.append(name.as_str());
            },
            None => {
                res.append(thread.thread_id.as_str());
            },
        }
        res.append(thread.stats.summary.as_str());
        i += 1;
    }
    assert(stats@.take(stats@.len() as int) =~= stats@);
    Some(res)
}

// ---------------------------------------------------------------------------
// Hanging actions
// ---------------------------------------------------------------------------

/// What became of a request for the resolved action statistics.
pub enum StatisticsReply {
    /// The foreground takes no more requests: the application is closing.
    Refused,
    /// The foreground sends no more replies: the application is closing.
    Closed,
    /// The foreground did not reply in time.
    TimedOut,
    /// The foreground resolved the statistics.
    Resolved(ResolvedActionStatistics),
}

/// The statistics to report on: none while the application is closing, and
/// empty ones where the foreground hangs so badly that it does not reply.
pub fn action_statistics(reply: StatisticsReply) -> (stats: Option<ResolvedActionStatistics>)
    ensures
        stats is None <==> reply is Refused || reply is Closed,
        reply is TimedOut ==> (stats->0).0@.len() == 0,
        reply matches StatisticsReply::Resolved(resolved) ==> stats == Some(resolved),
{
    match reply {
        StatisticsReply::Refused => None,
        StatisticsReply::Closed => None,
        StatisticsReply::TimedOut => Some(ResolvedActionStatistics::empty()),
        StatisticsReply::Resolved(stats) => Some(stats),
    }
}

/// Whether one of some actions ran too long.
pub open spec fn any_action_too_long(timings: Seq<ResolvedActionTiming>) -> bool {
    exists|i: int|
        0 <= i < timings.len() && too_long(elapsed((#[trigger] timings[i]).start, timings[i].end))
}

fn has_action_too_long(stats: &ResolvedActionStatistics) -> (b: bool)
    ensures
        b == any_action_too_long(stats.0@),
{
    let mut i: usize = 0;
    while i < stats.0.len()
        invariant
            i <= stats.0.len(),
            forall|j: int|
                0 <= j < i ==> !too_long(elapsed((#[trigger] stats.0@[j]).start, stats.0@[j].end)),
        decreases stats.0.len() - i,
    {
        if is_too_long(stats.0[i].runtime()) {
            assert(too_long(elapsed(stats.0@[i as int].start, stats.0@[i as int].end)));
            return true;
        }
        i += 1;
    }
    false
}

/// What to log about the actions: a report where one of them ran too long.
pub fn report_hanging_actions(stats: &Option<ResolvedActionStatistics>) -> (message: Option<
    String,
>)
    ensures
        message is Some <==> stats is Some && any_action_too_long((stats->0).0@),
        message matches Some(text) ==> text@ == "Action hang detected:\n\t"@ + report(
            (stats->0).0@,
        ),
{
    match stats {
        Some(resolved) => {
            if !has_action_too_long(resolved) {
                return None;
            }
            let text = resolved.to_text();
            let mut message = "Action hang detected:\n\t".to_owned();
            message.append(text.as_str());
            Some(message)
        },
        None => None,
    }
}

// ---------------------------------------------------------------------------
// Hang traces
// ---------------------------------------------------------------------------

/// A file in the directory of the hang traces. Its name is given by its bytes.
pub struct TraceFile {
    pub file_name: Vec<u8>,
    pub extension: Option<String>,
}

/// Whether a file is a hang trace.
pub open spec fn is_trace(file: TraceFile) -> bool {
    file.extension matches Some(extension) && (extension@ == "json"@ || extension@ == "miniprof"@)
}

/// How many hang traces are kept when another is about to be written.
pub const MAX_HANG_TRACES: usize = 3;

/// The names of the hang traces among some files, in order.
pub open spec fn trace_names(files: Seq<TraceFile>) -> Seq<Seq<u8>> {
    files.filter(|file: TraceFile| is_trace(file)).map_values(|file: TraceFile| file.file_name@)
}

/// Files are sorted by name.
pub open spec fn name_rank(name: Seq<u8>) -> Rank {
    Rank { first: name, second: Seq::empty(), third: 0 }
}

/// Names in ascending order.
pub open spec fn sorted_names(names: Seq<Seq<u8>>) -> Seq<Seq<u8>> {
    arranged(names, stable_order(names.map_values(|name: Seq<u8>| name_rank(name))))
}

/// The traces that are removed: the first by name, until three are left.
pub open spec fn removed_traces(names: Seq<Seq<u8>>) -> Seq<Seq<u8>> {
    if names.len() > MAX_HANG_TRACES {
        sorted_names(names).take(names.len() - MAX_HANG_TRACES)
    } else {
        Seq::empty()
    }
}

/// The traces that stay.
pub open spec fn kept_traces(names: Seq<Seq<u8>>) -> Seq<Seq<u8>> {
    if names.len() > MAX_HANG_TRACES {
        sorted_names(names).skip(names.len() - MAX_HANG_TRACES)
    } else {
        sorted_names(names)
    }
}

/// Names as byte sequences.
pub open spec fn name_views(names: Seq<Vec<u8>>) -> Seq<Seq<u8>> {
    names.map_values(|name: Vec<u8>| name@)
}

fn has_trace_extension(file: &TraceFile) -> (b: bool)
    ensures
        b == is_trace(*file),
{
    match &file.extension {
        Some(extension) => same_text(extension.as_str(), "json") || same_text(
            extension.as_str(),
            "miniprof",
        ),
        None => false,
    }
}

/// The names of the hang traces to remove, given the files in their directory:
/// all but the last three by name.
pub fn cleanup_old_hang_traces(files: &Vec<TraceFile>) -> (removed: Vec<Vec<u8>>)
    ensures
        name_views(removed@) == removed_traces(trace_names(files@)),
{
    let ghost keep = |file: TraceFile| is_trace(file);
    let ghost name_of = |file: TraceFile| file.file_name@;
    let ghost all = files@;
    let mut names: Vec<Vec<u8>> = Vec::new();
    let mut keys: Vec<SortKey> = Vec::new();
    let mut i: usize = 0;
    assert(name_views(names@) =~= trace_names(all.take(0)));
    while i < files.len()
        invariant
            keep == (|file: TraceFile| is_trace(file)),
            name_of == (|file: TraceFile| file.file_name@),
            all == files@,
            i <= files.len(),
            name_views(names@) == trace_names(all.take(i as int)),
            ranks_of(keys@) == name_views(names@).map_values(|name: Seq<u8>| name_rank(name)),
        decreases files.len() - i,
    {
        let ghost earlier = names@;
        let ghost earlier_keys = keys@;
        let file = &files[i];
        proof {
            let taken = all.take(i as int);
            assert(all.take(i + 1) =~= taken.push(*file));
            taken.lemma_filter_push(*file, keep);
            taken.filter(keep).lemma_push_map_commute(name_of, *file);
        }
        if has_trace_extension(file) {
            names.push(copy_bytes(&file.file_name));
            let key = SortKey {
                first: copy_bytes(&file.file_name),
                second: Vec::new(),
                third: 0,
            };
            keys.push(key);
            proof {
                assert(name_views(names@) =~= name_views(earlier).push(file.file_name@));
                assert(key@.second =~= Seq::<u8>::empty());
                assert(ranks_of(keys@) =~= ranks_of(earlier_keys).push(
                    name_rank(file.file_name@),
                ));
                assert(name_views(names@).map_values(|name: Seq<u8>| name_rank(name))
                    =~= name_views(earlier).map_values(|name: Seq<u8>| name_rank(name)).push(
                    name_rank(file.file_name@),
                ));
            }
        }
        i += 1;
    }
    assert(all.take(all.len() as int) =~= all);
    let mut removed: Vec<Vec<u8>> = Vec::new();
    if names.len() <= MAX_HANG_TRACES {
        assert(name_views(removed@) =~= Seq::<Seq<u8>>::empty());
        return removed;
    }
    let ghost sorted = sorted_names(name_views(names@));
    let ghost order_spec = stable_order(ranks_of(keys@));
    proof {
        stable_order_is_stable(ranks_of(keys@));
    }
    let order = sort_positions(&keys);
    let count: usize = names.len() - MAX_HANG_TRACES;
    let mut j: usize = 0;
    assert(name_views(removed@) =~= sorted.take(0));
    while j < count
        invariant
            sorted == arranged(name_views(names@), order_spec),
            positions(order@) == order_spec,
            order_spec.len() == names.len(),
            forall|k: int|
                0 <= k < order_spec.len() ==> 0 <= #[trigger] order_spec[k] < names.len(),
            j <= count <= names.len(),
            name_views(removed@) == sorted.take(j as int),
        decreases count - j,
    {
        let ghost earlier = removed@;
        assert(order_spec[j as int] == order@[j as int]);
        let name = copy_bytes(&names[order[j]]);
        removed.push(name);
        proof {
            assert(name@ == sorted[j as int]);
            assert(name_views(removed@) =~= name_views(earlier).push(name@));
            assert(sorted.take(j + 1) =~= sorted.take(j as int).push(sorted[j as int]));
        }
        j += 1;
    }
    removed
}

/// A hang trace to write.
pub struct HangTrace {
    pub file_name: String,
    pub contents: String,
}

/// The name of the thread with the id `thread_id` in a trace: the main thread
/// is called `main`, the others keep their names.
pub fn trace_thread_name(
    thread_id: &String,
    thread_name: Option<String>,
    main_thread: &String,
) -> (name: Option<String>)
    ensures
        thread_id@ == main_thread@ ==> text_in(name) == Some("main"@),
        thread_id@ != main_thread@ ==> name == thread_name,
{
    if *thread_id == *main_thread {
        Some("main".to_owned())
    } else {
        thread_name
    }
}

/// The trace to write for the serialized timings: none where they could not be
/// serialized, nor while tracing is enabled anyhow.
pub fn save_traces(
    timings: Option<String>,
    trace_enabled: bool,
    stamp: &str,
) -> (trace: Option<HangTrace>)
    ensures
        trace is Some <==> timings is Some && !trace_enabled,
        trace matches Some(t) ==> {
            &&& t.file_name@ == "hang-"@ + stamp@ + ".miniprof.json"@
            &&& t.contents == timings->0
        },
{
    match timings {
        Some(contents) => {
            if trace_enabled {
                return None;
            }
            let mut file_name = "hang-".to_owned();
            file_name.append(stamp);
            file_name.append(".miniprof.json");
            Some(HangTrace { file_name, contents })
        },
        None => None,
    }
}

/// What `chrono` writes for a point in time, given in seconds since 1970 and
/// seconds east of Greenwich, in a format of `strftime`.
pub uninterp spec fn local_time(secs: i64, offset: i32, format: Seq<char>) -> Option<Seq<char>>;

/// `chrono::DateTime::format` on the point in time `secs`, seen at the fixed
/// offset `offset`. The text depends on the three arguments alone and is
/// called [`local_time`]; there is none where the point in time or the offset
/// is out of range, or the format is not one. The calendar is left unsaid.
#[verifier::external_body]
fn format_local_time(secs: i64, offset: i32, format: &str) -> (text: Option<String>)
    ensures
        text_in(text) == local_time(secs, offset, format@),
{
    let offset = chrono::FixedOffset::east_opt(offset)?;
    let time = chrono::DateTime::from_timestamp(secs, 0)?.with_timezone(&offset);
    let mut text = String::new();
    time.format(format).write_to(&mut text).ok()?;
    Some(text)
}

/// The stamp in the name of a trace that is written at the point in time
/// `secs`, where the clocks are `offset` seconds ahead of Greenwich.
pub fn trace_stamp(secs: i64, offset: i32) -> (stamp: Option<String>)
    ensures
        text_in(stamp) == local_time(secs, offset, "%Y-%m-%d_%H-%M-%S"@),
{
    format_local_time(secs, offset, "%Y-%m-%d_%H-%M-%S")
}

// ---------------------------------------------------------------------------
// Laws
// ---------------------------------------------------------------------------

/// A cleanup removes traces that are there, and leaves all of them where there
/// are at most three, and otherwise exactly three, none of which comes before a
/// removed one by name.
pub proof fn cleanup_keeps_the_last(names: Seq<Seq<u8>>)
    ensures
        (removed_traces(names) + kept_traces(names)).to_multiset() == names.to_multiset(),
        names.len() <= 3 ==> removed_traces(names).len() == 0,
        names.len() > 3 ==> kept_traces(names).len() == 3,
        forall|i: int, j: int|
            0 <= i < removed_traces(names).len() && 0 <= j < kept_traces(names).len() ==> bytes_le(
                #[trigger] removed_traces(names)[i],
                #[trigger] kept_traces(names)[j],
            ),
{
    let ranks = names.map_values(|name: Seq<u8>| name_rank(name));
    let order = stable_order(ranks);
    let sorted = sorted_names(names);
    stable_order_is_stable(ranks);
    arranged_keeps_items(names, ranks);
    assert(removed_traces(names) + kept_traces(names) =~= sorted);
    assert forall|i: int, j: int|
        0 <= i < removed_traces(names).len() && 0 <= j < kept_traces(names).len() implies bytes_le(
        #[trigger] removed_traces(names)[i],
        #[trigger] kept_traces(names)[j],
    ) by {
        let k = j + removed_traces(names).len();
        assert(precedes(ranks, order[i], order[k]));
        bytes_le_total(sorted[i], sorted[k]);
    }
}

/// A second cleanup right after the first removes nothing.
pub proof fn cleanup_twice(names: Seq<Seq<u8>>)
    ensures
        removed_traces(kept_traces(names)).len() == 0,
{
    cleanup_keeps_the_last(names);
    cleanup_keeps_the_last(kept_traces(names));
    arranged_keeps_items(names, names.map_values(|name: Seq<u8>| name_rank(name)));
}

/// Something is reported of the background if and only if a thread other than
/// the foreground thread hung.
pub proof fn background_report_iff_hung(threads: Seq<ThreadTaskStatistics>, foreground: Seq<char>)
    ensures
        background_reports(threads, foreground).len() > 0 <==> exists|i: int|
            0 <= i < threads.len() && hung_worker(#[trigger] threads[i], foreground),
{
    let keep = |thread: ThreadTaskStatistics| hung_worker(thread, foreground);
    let kept = threads.filter(keep);
    if kept.len() > 0 {
        threads.lemma_filter_pred(keep, 0);
        threads.lemma_filter_contains_rev(keep, kept[0]);
        let i = choose|i: int| 0 <= i < threads.len() && threads[i] == kept[0];
        assert(hung_worker(threads[i], foreground));
    }
    if exists|i: int| 0 <= i < threads.len() && hung_worker(#[trigger] threads[i], foreground) {
        let i = choose|i: int|
            0 <= i < threads.len() && hung_worker(#[trigger] threads[i], foreground);
        threads.lemma_filter_contains(keep, i);
    }
}

/// A thread hung if and only if one of its polls, whichever, took longer than
/// 600 milliseconds, and actions hung if and only if one of them did.
pub proof fn one_long_poll_is_a_hang(
    thread: ThreadTaskStatistics,
    timings: Seq<ResolvedActionTiming>,
)
    ensures
        hung(thread) <==> exists|i: int|
            0 <= i < thread.stats.longest_poll_times@.len() && (
            #[trigger] thread.stats.longest_poll_times@[i]).nanos > 600_000_000,
        any_action_too_long(timings) <==> exists|i: int|
            0 <= i < timings.len() && elapsed(
                (#[trigger] timings[i]).start,
                timings[i].end,
            ).nanos > 600_000_000,
{
    let polls = thread.stats.longest_poll_times@;
    assert forall|i: int| 0 <= i < polls.len() implies (#[trigger] polls[i]).nanos > 600_000_000
        <==> too_long(polls[i]) by {}
}

/// A further thread adds a report behind the others if and only if it is not
/// the foreground thread and one of its polls took longer than 600
/// milliseconds. The report names the thread and holds its statistics.
pub proof fn workers_are_reported_one_by_one(
    threads: Seq<ThreadTaskStatistics>,
    thread: ThreadTaskStatistics,
    foreground: Seq<char>,
)
    ensures
        background_reports(Seq::empty(), foreground) == Seq::<Seq<char>>::empty(),
        thread.thread_id@ != foreground && (exists|i: int|
            0 <= i < thread.stats.longest_poll_times@.len() && (
            #[trigger] thread.stats.longest_poll_times@[i]).nanos > 600_000_000) ==> background_reports(
            threads.push(thread),
            foreground,
        ) == background_reports(threads, foreground).push(
            "Background hang detected on worker "@ + (if thread.thread_name is Some {
                thread.thread_name->0@
            } else {
                "Unknown"@
            }) + ":\n\t"@ + thread.stats.summary@,
        ),
        !(thread.thread_id@ != foreground && (exists|i: int|
            0 <= i < thread.stats.longest_poll_times@.len() && (
            #[trigger] thread.stats.longest_poll_times@[i]).nanos > 600_000_000)) ==> background_reports(
            threads.push(thread),
            foreground,
        ) == background_reports(threads, foreground),
{
    let keep = |t: ThreadTaskStatistics| hung_worker(t, foreground);
    let make = |t: ThreadTaskStatistics| background_report(t);
    one_long_poll_is_a_hang(thread, Seq::empty());
    threads.lemma_filter_push(thread, keep);
    threads.filter(keep).lemma_push_map_commute(make, thread);
    assert(background_reports(Seq::empty(), foreground) =~= Seq::<Seq<char>>::empty());
}

/// The foreground thread is the first with its id, and what is logged of it
/// holds its statistics.
pub proof fn foreground_is_found_by_its_id(
    threads: Seq<ThreadTaskStatistics>,
    id: Seq<char>,
    n: int,
)
    requires
        0 <= n < threads.len(),
        threads[n].thread_id@ == id,
        forall|i: int| 0 <= i < n ==> (#[trigger] threads[i]).thread_id@ != id,
    ensures
        thread_position(threads, id) == n,
        foreground_report(threads[n]) == "Foreground hang detected:\n\t"@
            + threads[n].stats.summary@,
{
    lemma_thread_position(threads, id, n);
}

/// The statistics of a further thread follow those of the others, under its
/// name, or under its id where it has none.
pub proof fn statistics_grow_by_a_thread(
    threads: Seq<ThreadTaskStatistics>,
    thread: ThreadTaskStatistics,
)
    ensures
        statistics_text(Seq::empty()) == Seq::<char>::empty(),
        statistics_text(threads.push(thread)) == statistics_text(threads) + "thread: "@ + (
        if thread.thread_name is Some {
            thread.thread_name->0@
        } else {
            thread.thread_id@
        }) + thread.stats.summary@,
{
    assert(threads.push(thread).drop_last() =~= threads);
}

/// A file is a trace if and only if its extension is `json` or `miniprof`;
/// traces are told by their names, in the order of the files.
pub proof fn traces_are_found_one_by_one(files: Seq<TraceFile>, file: TraceFile)
    ensures
        trace_names(Seq::empty()) == Seq::<Seq<u8>>::empty(),
        file.extension is Some && (file.extension->0@ == "json"@ || file.extension->0@
            == "miniprof"@) ==> trace_names(files.push(file)) == trace_names(files).push(
            file.file_name@,
        ),
        !(file.extension is Some && (file.extension->0@ == "json"@ || file.extension->0@
            == "miniprof"@)) ==> trace_names(files.push(file)) == trace_names(files),
{
    let keep = |f: TraceFile| is_trace(f);
    let make = |f: TraceFile| f.file_name@;
    files.lemma_filter_push(file, keep);
    files.filter(keep).lemma_push_map_commute(make, file);
    assert(trace_names(Seq::empty()) =~= Seq::<Seq<u8>>::empty());
}

/// Traces are removed in the order of their names, as many as there are beyond
/// three, and each of them is one that is there. No name that is left comes
/// before a removed one.
pub proof fn first_traces_are_removed(names: Seq<Seq<u8>>, name: Seq<u8>)
    ensures
        removed_traces(names).len() == if names.len() > 3 {
            names.len() - 3
        } else {
            0
        },
        removed_traces(names).to_multiset().count(name) <= names.to_multiset().count(name),
        forall|i: int, j: int|
            0 <= i < j < removed_traces(names).len() ==> bytes_le(
                #[trigger] removed_traces(names)[i],
                #[trigger] removed_traces(names)[j],
            ),
        forall|i: int|
            0 <= i < removed_traces(names).len() && removed_traces(names).to_multiset().count(name)
                < names.to_multiset().count(name) ==> bytes_le(
                #[trigger] removed_traces(names)[i],
                name,
            ),
{
    let ranks = names.map_values(|n: Seq<u8>| name_rank(n));
    let order = stable_order(ranks);
    let sorted = sorted_names(names);
    let removed = removed_traces(names);
    let kept = kept_traces(names);
    stable_order_is_stable(ranks);
    arranged_keeps_items(names, ranks);
    cleanup_keeps_the_last(names);
    vstd::seq_lib::lemma_multiset_commutative(removed, kept);
    assert(names.to_multiset().count(name) == removed.to_multiset().count(name)
        + kept.to_multiset().count(name));
    assert forall|i: int, j: int| 0 <= i < j < removed.len() implies bytes_le(
        #[trigger] removed[i],
        #[trigger] removed[j],
    ) by {
        assert(precedes(ranks, order[i], order[j]));
        bytes_le_total(sorted[i], sorted[j]);
    }
    assert forall|i: int|
        0 <= i < removed.len() && removed.to_multiset().count(name) < names.to_multiset().count(
            name,
        ) implies bytes_le(#[trigger] removed[i], name) by {
        vstd::seq_lib::to_multiset_contains(kept, name);
        let j = choose|j: int| 0 <= j < kept.len() && kept[j] == name;
        assert(bytes_le(removed[i], kept[j]));
    }
}

/// Names stand for their bytes, one for one.
pub proof fn names_are_one_for_one(names: Seq<Vec<u8>>)
    ensures
        name_views(names).len() == names.len(),
        forall|i: int| 0 <= i < names.len() ==> #[trigger] name_views(names)[i] == names[i]@,
{
}

} // verus!
