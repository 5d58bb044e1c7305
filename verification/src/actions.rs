//! Which actions kept the foreground busy: statistics gathered while actions
//! run, and their resolved form with names in place of ids.
use std::collections::HashMap;
use vstd::prelude::*;

use crate::clock::{duration_text, elapsed, Duration, Instant};

verus! {

// ---------------------------------------------------------------------------
// Timings
// ---------------------------------------------------------------------------

/// One run of an action: which action it was, and from when to when it ran.
#[derive(Clone, Copy, Debug, PartialEq, Eq, Structural)]
pub struct ActionTiming {
    pub id: u64,
    pub start: Instant,
    pub end: Instant,
}

/// Resolved variant of [`ActionTiming`] with the id replaced by the action's
/// name.
#[derive(Debug)]
pub struct ResolvedActionTiming {
    pub action_name: &'static str,
    pub start: Instant,
    pub end: Instant,
}

/// Resolved variant of the retained timings, where the actions have names
/// instead of ids.
#[derive(Debug)]
pub struct ResolvedActionStatistics(pub Vec<ResolvedActionTiming>);

/// How long a run took.
pub open spec fn runtime_of(timing: ActionTiming) -> Duration {
    elapsed(timing.start, timing.end)
}

/// What a timing becomes when the actions have the given names: nothing, where
/// its action has none.
pub open spec fn resolved(
    timing: ActionTiming,
    names: Map<u64, &'static str>,
) -> Option<ResolvedActionTiming> {
    if names.contains_key(timing.id) {
        Some(
            ResolvedActionTiming {
                action_name: names[timing.id],
                start: timing.start,
                end: timing.end,
            },
        )
    } else {
        None
    }
}

impl ActionTiming {
    /// How long the action ran.
    pub fn runtime(&self) -> (d: Duration)
        ensures
            d == runtime_of(*self),
    {
        self.end.duration_since(self.start)
    }

    /// The timing under the action's name, where `names` holds it.
    pub fn try_resolve(self, names: &HashMap<u64, &'static str>) -> (r: Option<
        ResolvedActionTiming,
    >)
        ensures
            r == resolved(self, names@),
    {
        broadcast use vstd::std_specs::hash::group_hash_axioms;

        match names.get(&self.id) {
            Some(action_name) => Some(
                ResolvedActionTiming {
                    action_name: *action_name,
                    start: self.start,
                    end: self.end,
                },
            ),
            None => None,
        }
    }
}

impl Clone for ResolvedActionTiming {
    fn clone(&self) -> (copy: Self)
        ensures
            copy == *self,
    {
        ResolvedActionTiming { action_name: self.action_name, start: self.start, end: self.end }
    }
}

impl Clone for ResolvedActionStatistics {
    fn clone(&self) -> (copy: Self)
        ensures
            copy.0@ == self.0@,
    {
        let timings = self.0.clone();
        assert(timings@ =~= self.0@);
        ResolvedActionStatistics(timings)
    }
}

impl ResolvedActionTiming {
    /// How long the action ran.
    pub fn runtime(&self) -> (d: Duration)
        ensures
            d == elapsed(self.start, self.end),
    {
        self.end.duration_since(self.start)
    }
}

// ---------------------------------------------------------------------------
// The retained timings
// ---------------------------------------------------------------------------

/// The timings that are kept, in a vector of fixed capacity.
#[verifier::external_body]
pub struct LongestRuntimes {
    timings: heapless::Vec<ActionTiming, 5>,
}

/// What a [`LongestRuntimes`] holds, in order.
pub uninterp spec fn retained(table: LongestRuntimes) -> Seq<ActionTiming>;

/// `heapless::Vec::new`: an empty vector.
#[verifier::external_body]
fn table_new() -> (table: LongestRuntimes)
    ensures
        retained(table) == Seq::<ActionTiming>::empty(),
{
    LongestRuntimes { timings: heapless::Vec::new() }
}

/// `heapless::Vec::is_empty`: whether nothing is kept.
#[verifier::external_body]
fn table_is_empty(table: &LongestRuntimes) -> (b: bool)
    ensures
        b == (retained(*table).len() == 0),
{
    table.timings.is_empty()
}

/// `heapless::Vec::as_slice`: the timings that are kept, in order.
#[verifier::external_body]
fn table_as_slice(table: &LongestRuntimes) -> (timings: &[ActionTiming])
    ensures
        timings@ == retained(*table),
{
    table.timings.as_slice()
}

/// Assignment through `heapless::Vec`'s mutable index: the timing at `at` is
/// replaced, the others stay.
#[verifier::external_body]
fn table_replace(table: &mut LongestRuntimes, at: usize, timing: ActionTiming)
    requires
        at < retained(*old(table)).len(),
    ensures
        retained(*final(table)) == retained(*old(table)).update(at as int, timing),
{
    table.timings[at] = timing;
}

/// `heapless::Vec::push`: appends the timing where there is room for it, and
/// otherwise hands it back and keeps what there is.
#[verifier::external_body]
fn table_push(table: &mut LongestRuntimes, timing: ActionTiming) -> (r: Result<(), ActionTiming>)
    ensures
        r is Ok <==> retained(*old(table)).len() < 5,
        r is Ok ==> retained(*final(table)) == retained(*old(table)).push(timing),
        r is Err ==> retained(*final(table)) == retained(*old(table)) && r->Err_0 == timing,
{
    table.timings.push(timing)
}

/// `heapless::Vec::clone`: a second vector with the same timings.
#[verifier::external_body]
fn table_clone(table: &LongestRuntimes) -> (copy: LongestRuntimes)
    ensures
        retained(copy) == retained(*table),
{
    LongestRuntimes { timings: table.timings.clone() }
}

/// `itertools::Itertools::position_min_by_key`, with the runtime as the key:
/// the position of a shortest timing, the first of them where there are
/// several, and none where there is no timing.
#[verifier::external_body]
fn position_min_runtime(timings: &[ActionTiming]) -> (at: Option<usize>)
    ensures
        at is None <==> timings@.len() == 0,
        at matches Some(i) ==> {
            &&& i < timings@.len()
            &&& forall|j: int|
                0 <= j < timings@.len() ==> runtime_of(timings@[i as int]).nanos <= runtime_of(
                    #[trigger] timings@[j],
                ).nanos
            &&& forall|j: int|
                0 <= j < i ==> runtime_of(timings@[i as int]).nanos < runtime_of(
                    #[trigger] timings@[j],
                ).nanos
        },
{
    itertools::Itertools::position_min_by_key(timings.iter(), |timing| timing.runtime().nanos)
}

// ---------------------------------------------------------------------------
// Statistics
// ---------------------------------------------------------------------------

/// The statistics as the contracts speak of them.
pub ghost struct StatisticsView {
    pub runtime_to_beat: Duration,
    pub longest_runtimes: Seq<ActionTiming>,
    pub running: Option<(u64, Instant)>,
}

/// The length of the shortest of some runs, zero where there are none.
pub open spec fn shortest(timings: Seq<ActionTiming>) -> Duration
    decreases timings.len(),
{
    if timings.len() == 0 {
        Duration { nanos: 0 }
    } else if timings.len() == 1 || runtime_of(timings.last()).nanos < shortest(
        timings.drop_last(),
    ).nanos {
        runtime_of(timings.last())
    } else {
        shortest(timings.drop_last())
    }
}

/// The position of the shortest of some runs, the first of them where there
/// are several.
pub open spec fn shortest_position(timings: Seq<ActionTiming>) -> int
    decreases timings.len(),
{
    if timings.len() <= 1 {
        0
    } else if runtime_of(timings.last()).nanos < shortest(timings.drop_last()).nanos {
        timings.len() - 1
    } else {
        shortest_position(timings.drop_last())
    }
}

proof fn lemma_shortest(timings: Seq<ActionTiming>)
    requires
        timings.len() > 0,
    ensures
        0 <= shortest_position(timings) < timings.len(),
        runtime_of(timings[shortest_position(timings)]) == shortest(timings),
        forall|i: int|
            0 <= i < timings.len() ==> shortest(timings).nanos <= runtime_of(
                #[trigger] timings[i],
            ).nanos,
        forall|i: int|
            0 <= i < shortest_position(timings) ==> shortest(timings).nanos < runtime_of(
                #[trigger] timings[i],
            ).nanos,
    decreases timings.len(),
{
    if timings.len() > 1 {
        let shorter = timings.drop_last();
        lemma_shortest(shorter);
        assert forall|i: int| 0 <= i < timings.len() implies shortest(timings).nanos <= runtime_of(
            #[trigger] timings[i],
        ).nanos by {
            if i < shorter.len() {
                assert(shorter[i] == timings[i]);
            }
        }
        assert forall|i: int| 0 <= i < shortest_position(timings) implies shortest(timings).nanos
            < runtime_of(#[trigger] timings[i]).nanos by {
            assert(shorter[i] == timings[i]);
        }
    }
}

/// Whether a run took at least as long as each of some others.
pub open spec fn outlasts(timing: ActionTiming, others: Seq<ActionTiming>) -> bool {
    forall|i: int|
        0 <= i < others.len() ==> runtime_of(#[trigger] others[i]).nanos <= runtime_of(timing).nanos
}

impl StatisticsView {
    /// There are at most five timings, and the runtime to beat is that of the
    /// shortest.
    pub open spec fn wf(self) -> bool {
        &&& self.runtime_to_beat == shortest(self.longest_runtimes)
        &&& self.longest_runtimes.len() <= 5
    }

    /// Nothing kept and nothing running.
    pub open spec fn initial() -> StatisticsView {
        StatisticsView {
            runtime_to_beat: Duration { nanos: 0 },
            longest_runtimes: Seq::empty(),
            running: None,
        }
    }

    /// After `action` started at `started`.
    pub open spec fn with_running(self, action: u64, started: Instant) -> StatisticsView {
        StatisticsView { running: Some((action, started)), ..self }
    }

    /// The timing of the running action, which ended at `now`.
    pub open spec fn ran(self, now: Instant) -> ActionTiming {
        let (action, started) = self.running->0;
        ActionTiming { id: action, start: started, end: now }
    }

    /// The kept timings once the running action, which ended at `now`, has
    /// been entered among them in place of the shortest.
    pub open spec fn entered(self, now: Instant) -> Seq<ActionTiming> {
        if self.longest_runtimes.len() == 0 {
            seq![self.ran(now)]
        } else {
            self.longest_runtimes.update(
                shortest_position(self.longest_runtimes),
                self.ran(now),
            )
        }
    }

    /// After the running action ended at `now`. It is entered where it took at
    /// least the runtime to beat.
    pub open spec fn saved(self, now: Instant) -> StatisticsView {
        if runtime_of(self.ran(now)).nanos >= self.runtime_to_beat.nanos {
            StatisticsView {
                runtime_to_beat: shortest(self.entered(now)),
                longest_runtimes: self.entered(now),
                running: None,
            }
        } else {
            StatisticsView { running: None, ..self }
        }
    }
}

/// Which actions blocked the longest, and which one is running.
pub struct ActionStatistics {
    runtime_to_beat: Duration,
    longest_runtimes: LongestRuntimes,
    running: Option<(u64, Instant)>,
}

impl View for ActionStatistics {
    type V = StatisticsView;

    closed spec fn view(&self) -> StatisticsView {
        StatisticsView {
            runtime_to_beat: self.runtime_to_beat,
            longest_runtimes: retained(self.longest_runtimes),
            running: self.running,
        }
    }
}

fn shortest_runtime(timings: &[ActionTiming]) -> (d: Duration)
    requires
        timings@.len() > 0,
    ensures
        d == shortest(timings@),
{
    let mut least: Duration = timings[0].runtime();
    let mut i: usize = 1;
    assert(timings@.take(1).last() == timings@[0]);
    while i < timings.len()
        invariant
            1 <= i <= timings.len(),
            least == shortest(timings@.take(i as int)),
        decreases timings.len() - i,
    {
        let next: Duration = timings[i].runtime();
        assert(timings@.take(i + 1).drop_last() =~= timings@.take(i as int));
        assert(timings@.take(i + 1).last() == timings@[i as int]);
        if next.nanos < least.nanos {
            least = next;
        }
        i += 1;
    }
    assert(timings@.take(timings@.len() as int) =~= timings@);
    least
}

impl ActionStatistics {
    /// Statistics of no action.
    pub fn new() -> (s: ActionStatistics)
        ensures
            s@ == StatisticsView::initial(),
            s@.wf(),
    {
        ActionStatistics {
            runtime_to_beat: Duration { nanos: 0 },
            longest_runtimes: table_new(),
            running: None,
        }
    }

    /// Whether no timing is kept.
    pub fn is_empty(&self) -> (b: bool)
        ensures
            b == (self@.longest_runtimes.len() == 0),
    {
        table_is_empty(&self.longest_runtimes)
    }

    /// The timings that are kept.
    pub fn longest_runtimes(&self) -> (timings: &[ActionTiming])
        ensures
            timings@ == self@.longest_runtimes,
    {
        table_as_slice(&self.longest_runtimes)
    }

    /// Notes that `action` started at `started`.
    pub fn update_running_action(&mut self, action: u64, started: Instant)
        ensures
            final(self)@ == old(self)@.with_running(action, started),
            old(self)@.wf() ==> final(self)@.wf(),
    {
        self.running = Some((action, started));
    }

    /// Notes that the running action ended at `now`. Only called after
    /// `update_running_action`.
    pub fn save_action_timing(&mut self, now: Instant)
        requires
            old(self)@.running is Some,
        ensures
            final(self)@ == old(self)@.saved(now),
            old(self)@.wf() ==> final(self)@.wf(),
    {
        let ghost before = self@;
        let (action, started) = self.running.take().unwrap();
        let runtime: Duration = now.duration_since(started);
        if runtime.nanos >= self.runtime_to_beat.nanos {
            let timing = ActionTiming { id: action, start: started, end: now };
            match position_min_runtime(table_as_slice(&self.longest_runtimes)) {
                Some(to_replace) => {
                    proof {
                        let kept = before.longest_runtimes;
                        lemma_shortest(kept);
                        let i = to_replace as int;
                        let k = shortest_position(kept);
                        assert(runtime_of(kept[i]).nanos <= runtime_of(kept[k]).nanos);
                        assert(i == k);
                    }
                    table_replace(&mut self.longest_runtimes, to_replace, timing);
                },
                None => {
                    let _ = table_push(&mut self.longest_runtimes, timing);
                    assert(retained(self.longest_runtimes) =~= seq![timing]);
                },
            }
            self.runtime_to_beat = shortest_runtime(table_as_slice(&self.longest_runtimes));
        }
    }

    /// The kept timings under the names of their actions; those of actions
    /// without a name are left out.
    pub fn resolve(self, names: &HashMap<u64, &'static str>) -> (r: ResolvedActionStatistics)
        ensures
            r.0@ == self@.longest_runtimes.filter_map(
                |timing: ActionTiming| resolved(timing, names@),
            ),
            r.0@.len() <= self@.longest_runtimes.len(),
    {
        let timings = table_as_slice(&self.longest_runtimes);
        let ghost f = |timing: ActionTiming| resolved(timing, names@);
        let mut found: Vec<ResolvedActionTiming> = Vec::new();
        let mut i: usize = 0;
        assert(timings@.take(0) =~= Seq::<ActionTiming>::empty());
        while i < timings.len()
            invariant
                i <= timings.len(),
                f == (|timing: ActionTiming| resolved(timing, names@)),
                found@ == timings@.take(i as int).filter_map(f),
                found.len() <= i,
            decreases timings.len() - i,
        {
            proof {
                timings@.lemma_filter_map_take_succ(f, i as int);
            }
            match timings[i].try_resolve(names) {
                Some(timing) => {
                    found.push(timing);
                },
                None => {},
            }
            i += 1;
        }
        assert(timings@.take(timings@.len() as int) =~= timings@);
        ResolvedActionStatistics(found)
    }
}

impl Clone for ActionStatistics {
    fn clone(&self) -> (copy: Self)
        ensures
            copy@ == self@,
    {
        ActionStatistics {
            runtime_to_beat: self.runtime_to_beat,
            longest_runtimes: table_clone(&self.longest_runtimes),
            running: self.running,
        }
    }
}

/// A snapshot of the statistics that are being gathered.
pub fn collect_action_stats(gathered: &ActionStatistics) -> (snapshot: ActionStatistics)
    ensures
        snapshot@ == gathered@,
{
    gathered.clone()
}

// ---------------------------------------------------------------------------
// Reporting
// ---------------------------------------------------------------------------

/// The line that reports one timing.
pub open spec fn timing_line(timing: ResolvedActionTiming) -> Seq<char> {
    "\n "@ + duration_text(
        elapsed(timing.start, timing.end).nanos,
    ) + ": "@ + timing.action_name@ + "\n"@
}

/// The report on some timings.
pub open spec fn report(timings: Seq<ResolvedActionTiming>) -> Seq<char>
    decreases timings.len(),
{
    if timings.len() == 0 {
        "Actions that blocked the longest"@
    } else {
        report(timings.drop_last()) + timing_line(timings.last())
    }
}

impl ResolvedActionStatistics {
    /// Whether there is no timing.
    pub fn is_empty(&self) -> (b: bool)
        ensures
            b == (self.0@.len() == 0),
    {
        self.0.len() == 0
    }

    /// Statistics without timings.
    pub fn empty() -> (s: ResolvedActionStatistics)
        ensures
            s.0@ == Seq::<ResolvedActionTiming>::empty(),
    {
        ResolvedActionStatistics(Vec::new())
    }

    /// The report on the timings, one line for each.
    pub fn to_text(&self) -> (s: String)
        ensures
            s@ == report(self.0@),
    {
        let mut s = "Actions that blocked the longest".to_owned();
        let mut i: usize = 0;
        assert(self.0@.take(0) =~= Seq::<ResolvedActionTiming>::empty());
        while i < self.0.len()
            invariant
                i <= self.0.len(),
                s@ == report(self.0@.take(i as int)),
            decreases self.0.len() - i,
        {
            let ghost so_far = s@;
            let took = self.0[i].runtime().to_text();
            s.append("\n ");
            s.append(took.as_str());
            s.append(": ");
            s.append(self.0[i].action_name);
            s.append("\n");
            assert(self.0@.take(i + 1).drop_last() =~= self.0@.take(i as int));
            assert(s@ =~= so_far + timing_line(self.0@[i as int]));
            i += 1;
        }
        assert(self.0@.take(self.0@.len() as int) =~= self.0@);
        s
    }
}

// ---------------------------------------------------------------------------
// Laws
// ---------------------------------------------------------------------------

/// From the first save on there is one timing: what is saved enters an empty
/// table, takes the place of what is there, or is shorter and left out.
pub proof fn one_timing_is_kept(s: StatisticsView, now: Instant)
    requires
        s.wf(),
        s.running is Some,
        s.longest_runtimes.len() <= 1,
    ensures
        StatisticsView::initial().longest_runtimes.len() <= 1,
        s.saved(now).longest_runtimes.len() == 1,
{
}

proof fn lemma_some_outlasts(timings: Seq<ActionTiming>) -> (k: int)
    requires
        timings.len() > 0,
    ensures
        0 <= k < timings.len(),
        outlasts(timings[k], timings),
    decreases timings.len(),
{
    if timings.len() == 1 {
        0
    } else {
        let shorter = timings.drop_last();
        let k = lemma_some_outlasts(shorter);
        let longest = if runtime_of(timings.last()).nanos >= runtime_of(shorter[k]).nanos {
            timings.len() - 1
        } else {
            k
        };
        assert forall|i: int| 0 <= i < timings.len() implies runtime_of(#[trigger] timings[i]).nanos
            <= runtime_of(timings[longest]).nanos by {
            if i < shorter.len() {
                assert(shorter[i] == timings[i]);
            }
        }
        longest
    }
}

/// The action that blocked the longest is always kept: after a save there is a
/// timing at least as long as every timing kept before and as the one just run.
pub proof fn longest_is_kept(s: StatisticsView, now: Instant)
    requires
        s.wf(),
        s.running is Some,
    ensures
        exists|k: int|
            0 <= k < s.saved(now).longest_runtimes.len() && outlasts(
                #[trigger] s.saved(now).longest_runtimes[k],
                s.longest_runtimes.push(s.ran(now)),
            ),
{
    let kept = s.longest_runtimes;
    let ran = s.ran(now);
    let all = kept.push(ran);
    let after = s.saved(now).longest_runtimes;
    let k = lemma_some_outlasts(all);
    assert(all[kept.len() as int] == ran);
    if kept.len() == 0 {
        assert(after[0] == ran);
        assert(outlasts(after[0], all));
    } else {
        lemma_shortest(kept);
        let p = shortest_position(kept);
        assert(all[p] == kept[p]);
        if runtime_of(ran).nanos < s.runtime_to_beat.nanos {
            assert(after[k] == all[k]);
            assert(outlasts(after[k], all));
        } else if k < kept.len() && k != p {
            assert(after[k] == all[k]);
            assert(outlasts(after[k], all));
        } else {
            assert(runtime_of(all[k]).nanos <= runtime_of(ran).nanos);
            assert(after[p] == ran);
            assert(outlasts(after[p], all));
        }
    }
}

/// An action that took at least the runtime to beat, from start to end, is
/// entered as it ran; one that did not leaves what is kept as it is.
pub proof fn action_is_entered(s: StatisticsView, action: u64, started: Instant, now: Instant)
    requires
        s.wf(),
    ensures
        elapsed(started, now).nanos >= s.runtime_to_beat.nanos ==> s.with_running(
            action,
            started,
        ).saved(now).longest_runtimes.contains(ActionTiming { id: action, start: started, end: now }),
        elapsed(started, now).nanos < s.runtime_to_beat.nanos ==> s.with_running(
            action,
            started,
        ).saved(now) == (StatisticsView { running: None, ..s }),
{
    let after = s.with_running(action, started).saved(now).longest_runtimes;
    let timing = ActionTiming { id: action, start: started, end: now };
    if elapsed(started, now).nanos >= s.runtime_to_beat.nanos {
        if s.longest_runtimes.len() == 0 {
            assert(after[0] == timing);
        } else {
            lemma_shortest(s.longest_runtimes);
            assert(after[shortest_position(s.longest_runtimes)] == timing);
        }
    }
}

/// What is kept never gets shorter: every timing that leaves makes room for
/// one at least as long.
pub proof fn runtime_to_beat_ascends(s: StatisticsView, now: Instant)
    requires
        s.wf(),
        s.running is Some,
    ensures
        s.saved(now).runtime_to_beat.nanos >= s.runtime_to_beat.nanos,
{
    let kept = s.longest_runtimes;
    let after = s.saved(now).longest_runtimes;
    if kept.len() > 0 && runtime_of(s.ran(now)).nanos >= s.runtime_to_beat.nanos {
        lemma_shortest(kept);
        lemma_shortest(after);
        let p = shortest_position(after);
        assert(after[p] == s.ran(now) || after[p] == kept[p]);
    }
}

/// Where every kept action has a name, resolving keeps every timing, in order.
pub proof fn resolve_keeps_named(timings: Seq<ActionTiming>, names: Map<u64, &'static str>)
    requires
        forall|i: int| 0 <= i < timings.len() ==> names.contains_key(#[trigger] timings[i].id),
    ensures
        ({
            let found = timings.filter_map(|timing: ActionTiming| resolved(timing, names));
            &&& found.len() == timings.len()
            &&& forall|i: int|
                0 <= i < timings.len() ==> Some(#[trigger] found[i]) == resolved(timings[i], names)
        }),
    decreases timings.len(),
{
    let f = |timing: ActionTiming| resolved(timing, names);
    if timings.len() > 0 {
        let shorter = timings.drop_last();
        assert forall|i: int| 0 <= i < shorter.len() implies names.contains_key(
            #[trigger] shorter[i].id,
        ) by {
            assert(names.contains_key(timings[i].id));
        }
        resolve_keeps_named(shorter, names);
        assert(names.contains_key(timings[timings.len() - 1].id));
        timings.lemma_filter_map_take_succ(f, timings.len() - 1);
        assert(timings.take(timings.len() as int) =~= timings);
        assert(timings.take(timings.len() - 1) =~= shorter);
    }
}

/// A save, in full. With `kept` before, the running action is entered where
/// nothing was kept or some kept run was no longer than it; it then stands in
/// the place of the first of the shortest. Otherwise what is kept stays. The
/// runtime to beat is afterwards that of a shortest kept run, and nothing runs.
pub proof fn save_enters_what_beats_the_shortest(
    s: StatisticsView,
    action: u64,
    started: Instant,
    now: Instant,
)
    requires
        s.wf(),
    ensures
        ({
            let kept = s.longest_runtimes;
            let timing = ActionTiming { id: action, start: started, end: now };
            let took = elapsed(started, now).nanos;
            let after = s.with_running(action, started).saved(now);
            &&& after.running is None
            &&& kept.len() == 0 ==> after.longest_runtimes == seq![timing]
            &&& kept.len() > 0 && (forall|i: int|
                0 <= i < kept.len() ==> elapsed((#[trigger] kept[i]).start, kept[i].end).nanos
                    > took) ==> after.longest_runtimes == kept
            &&& (exists|i: int|
                0 <= i < kept.len() && elapsed((#[trigger] kept[i]).start, kept[i].end).nanos
                    <= took) ==> exists|p: int|
                0 <= p < kept.len() && after.longest_runtimes == #[trigger] kept.update(p, timing)
                    && (forall|j: int|
                    0 <= j < kept.len() ==> elapsed(kept[p].start, kept[p].end).nanos <= elapsed(
                        (#[trigger] kept[j]).start,
                        kept[j].end,
                    ).nanos) && (forall|j: int|
                    0 <= j < p ==> elapsed(kept[p].start, kept[p].end).nanos < elapsed(
                        (#[trigger] kept[j]).start,
                        kept[j].end,
                    ).nanos)
            &&& forall|i: int|
                0 <= i < after.longest_runtimes.len() ==> after.runtime_to_beat.nanos <= elapsed(
                    (#[trigger] after.longest_runtimes[i]).start,
                    after.longest_runtimes[i].end,
                ).nanos
            &&& exists|i: int|
                0 <= i < after.longest_runtimes.len() && after.runtime_to_beat == elapsed(
                    (#[trigger] after.longest_runtimes[i]).start,
                    after.longest_runtimes[i].end,
                )
        }),
{
    let kept = s.longest_runtimes;
    let timing = ActionTiming { id: action, start: started, end: now };
    let took = elapsed(started, now).nanos;
    let running = s.with_running(action, started);
    let after = running.saved(now);
    assert(running.ran(now) == timing);
    if kept.len() > 0 {
        lemma_shortest(kept);
        let p = shortest_position(kept);
        assert(runtime_of(kept[p]) == s.runtime_to_beat);
        if exists|i: int|
            0 <= i < kept.len() && elapsed((#[trigger] kept[i]).start, kept[i].end).nanos <= took {
            let i = choose|i: int|
                0 <= i < kept.len() && elapsed((#[trigger] kept[i]).start, kept[i].end).nanos
                    <= took;
            assert(runtime_of(kept[p]).nanos <= runtime_of(kept[i]).nanos);
            assert(after.longest_runtimes == kept.update(p, timing));
        }
    }
    lemma_shortest(after.longest_runtimes);
    let q = shortest_position(after.longest_runtimes);
    assert(after.runtime_to_beat == runtime_of(after.longest_runtimes[q]));
}

/// The statistics begin empty, and that an action starts is all that changes
/// when it does. It runs from its start to its end.
pub proof fn a_start_is_only_noted(s: StatisticsView, action: u64, started: Instant)
    ensures
        forall|timing: ActionTiming| #[trigger]
            runtime_of(timing) == elapsed(timing.start, timing.end),
        StatisticsView::initial().longest_runtimes.len() == 0,
        StatisticsView::initial().runtime_to_beat.nanos == 0,
        StatisticsView::initial().running is None,
        s.with_running(action, started).running == Some((action, started)),
        s.with_running(action, started).longest_runtimes == s.longest_runtimes,
        s.with_running(action, started).runtime_to_beat == s.runtime_to_beat,
{
}

/// A further timing is resolved behind the others, from its start to its end
/// and under the name of its action, where that has one, and left out where it
/// has none.
pub proof fn timings_resolve_one_by_one(
    timings: Seq<ActionTiming>,
    timing: ActionTiming,
    names: Map<u64, &'static str>,
)
    ensures
        ({
            let f = |t: ActionTiming| resolved(t, names);
            &&& Seq::<ActionTiming>::empty().filter_map(f) == Seq::<ResolvedActionTiming>::empty()
            &&& names.contains_key(timing.id) ==> timings.push(timing).filter_map(f)
                == timings.filter_map(f).push(
                ResolvedActionTiming {
                    action_name: names[timing.id],
                    start: timing.start,
                    end: timing.end,
                },
            )
            &&& !names.contains_key(timing.id) ==> timings.push(timing).filter_map(f)
                == timings.filter_map(f)
        }),
{
    let f = |t: ActionTiming| resolved(t, names);
    let longer = timings.push(timing);
    longer.lemma_filter_map_take_succ(f, timings.len() as int);
    assert(longer.take(longer.len() as int) =~= longer);
    assert(longer.take(timings.len() as int) =~= timings);
}

/// A report is a heading and, for each timing in order, how long the action ran
/// and its name, on a line of their own.
pub proof fn report_grows_by_a_line(timings: Seq<ResolvedActionTiming>, timing: ResolvedActionTiming)
    ensures
        report(Seq::empty()) == "Actions that blocked the longest"@,
        report(timings.push(timing)) == report(timings) + ("\n "@ + duration_text(
            elapsed(timing.start, timing.end).nanos,
        ) + ": "@ + timing.action_name@ + "\n"@),
{
    assert(timings.push(timing).drop_last() =~= timings);
}

} // verus!
