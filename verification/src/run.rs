//! A run of an experiment: sequences of events, and what the monitors make of them.
use vstd::prelude::*;
use vstd::string::*;

use crate::bgp::{AsId, Prefix, RouterId, Time, TICKS_PER_SECOND};
use crate::controller::{countable, monitors_recording, Controller};
use crate::ground_truth::BugReport;
use crate::keyed::Keyed;
use crate::monitoring::{all_errors, errors_at, MonitoringResults};
use crate::number_set::NumberSet;
use crate::reconfiguration::PreConfig;
use crate::recording::{
    all_bgp, captured, observed_views, recorded, same_sequences, Capture, Recording,
    TimestampedEvent,
};
use crate::simulation::{ExternalEvent, SimulationEvent, SimulationView};
use crate::sorting::{is_sorting_of, Timed};
use crate::strings::is_same;
use crate::text::{append_number, decimal};

verus! {

/// The settings of a run.
#[derive(Debug, Clone, Copy)]
pub struct RunConfig {
    /// The maximum number of sequences in a run. After each of them, the captured messages and the
    /// two networks are monitored
    pub max_sequences: usize,
    /// The number of intervals in a sequence, between which the network converges
    pub intervals_per_sequence: usize,
    /// The number of simulation steps in an interval
    pub steps_per_interval: usize,
    /// How long to wait between intervals
    pub convergence_wait: Time,
    /// The duration of a simulation step
    pub simulation_step: Time,
    /// Whether to stop early when the routing states differ
    pub early_return: bool,
}

/// Events, with the times at which they were triggered.
pub type Interval = Vec<(Time, SimulationEvent)>;

/// A sequence of intervals.
#[derive(Debug)]
pub struct Sequence {
    pub intervals: Vec<Interval>,
}

/// The event is about one of the prefixes, or it is a reconfiguration.
pub open spec fn is_about(event: SimulationView, prefixes: Set<u32>) -> bool {
    match event {
        SimulationView::External(e) => prefixes.contains(e.prefix),
        SimulationView::Reconfiguration => true,
    }
}

/// Whether an event is about one of the prefixes, or a reconfiguration.
fn concerns(event: &SimulationEvent, prefixes: &NumberSet) -> (r: bool)
    requires
        prefixes.wf(),
    ensures
        r == is_about(event@, prefixes@),
{
    match event {
        SimulationEvent::External(e) => prefixes.contains(e.prefix),
        SimulationEvent::Reconfiguration => true,
    }
}

/// The test for events about one of the prefixes.
pub open spec fn about(prefixes: Set<u32>) -> spec_fn((Time, SimulationEvent)) -> bool {
    |e: (Time, SimulationEvent)| is_about(e.1@, prefixes)
}

/// The events of each interval.
pub open spec fn interval_views(s: Seq<Interval>) -> Seq<Seq<(Time, SimulationEvent)>> {
    Seq::new(s.len(), |i: int| s[i]@)
}

/// The events of each interval that are about one of the prefixes.
pub open spec fn each_about(s: Seq<Interval>, prefixes: Set<u32>) -> Seq<
    Seq<(Time, SimulationEvent)>,
> {
    Seq::new(s.len(), |i: int| s[i]@.filter(about(prefixes)))
}

/// The test for intervals that are not empty.
pub open spec fn nonempty() -> spec_fn(Seq<(Time, SimulationEvent)>) -> bool {
    |s: Seq<(Time, SimulationEvent)>| s.len() > 0
}

fn filter_interval(interval: Interval, prefixes: &NumberSet) -> (r: Interval)
    requires
        prefixes.wf(),
    ensures
        r@ == interval@.filter(about(prefixes@)),
{
    let ghost all = interval@;
    let mut kept: Interval = Vec::new();
    proof {
        reveal(Seq::filter);
        assert(all.take(0) =~= Seq::<(Time, SimulationEvent)>::empty());
    }
    for e in it: interval
        invariant
            it.seq() == all,
            prefixes.wf(),
            kept@ == all.take(it.index() as int).filter(about(prefixes@)),
    {
        proof {
            let k = it.index() as int;
            reveal(Seq::filter);
            assert(all.take(k + 1).drop_last() =~= all.take(k));
            assert(all.take(k + 1).last() == e);
        }
        if concerns(&e.1, prefixes) {
            kept.push(e);
        }
    }
    assert(all.take(all.len() as int) =~= all);
    kept
}

impl Sequence {
    /// Keep the events about some prefixes, and the reconfigurations. Intervals without events are
    /// dropped.
    pub fn filter_prefixes(self, prefixes: &NumberSet) -> (r: Self)
        requires
            prefixes.wf(),
        ensures
            interval_views(r.intervals@) == each_about(self.intervals@, prefixes@).filter(
                nonempty(),
            ),
    {
        let ghost all = self.intervals@;
        let ghost filtered = each_about(all, prefixes@);
        let mut kept: Vec<Interval> = Vec::new();
        proof {
            reveal(Seq::filter);
            assert(filtered.take(0) =~= Seq::<Seq<(Time, SimulationEvent)>>::empty());
            assert(interval_views(kept@) =~= filtered.take(0).filter(nonempty()));
        }
        for interval in it: self.intervals
            invariant
                it.seq() == all,
                prefixes.wf(),
                filtered == each_about(all, prefixes@),
                interval_views(kept@) == filtered.take(it.index() as int).filter(nonempty()),
        {
            let ghost before = kept@;
            let i = filter_interval(interval, prefixes);
            proof {
                let k = it.index() as int;
                reveal(Seq::filter);
                assert(filtered.take(k + 1).drop_last() =~= filtered.take(k));
                assert(filtered.take(k + 1).last() == i@);
            }
            if i.len() > 0 {
                kept.push(i);
                assert(interval_views(kept@) =~= interval_views(before).push(i@));
            }
        }
        assert(filtered.take(filtered.len() as int) =~= filtered);
        Sequence { intervals: kept }
    }
}

/// Filtering an interval keeps every reconfiguration, every event about one of the prefixes, and no
/// other event.
pub proof fn law_filtering_keeps_what_matters(
    interval: Seq<(Time, SimulationEvent)>,
    prefixes: Set<u32>,
    e: (Time, SimulationEvent),
)
    ensures
        interval.filter(about(prefixes)).contains(e) <==> interval.contains(e) && is_about(
            e.1@,
            prefixes,
        ),
    decreases interval.len(),
{
    reveal(Seq::filter);
    if interval.len() > 0 {
        let init = interval.drop_last();
        let (f, g) = (init.filter(about(prefixes)), interval.filter(about(prefixes)));
        law_filtering_keeps_what_matters(init, prefixes, e);
        assert(interval =~= init.push(interval.last()));
        broadcast use vstd::seq_lib::group_seq_properties;

        assert(interval.contains(e) <==> init.contains(e) || interval.last() == e);
        if about(prefixes)(interval.last()) {
            assert(g.contains(e) <==> f.contains(e) || interval.last() == e);
        }
    }
}

/// Filtering does nothing to a list whose elements all pass the test.
proof fn lemma_all_pass<A>(s: Seq<A>, test: spec_fn(A) -> bool)
    requires
        forall|i: int| 0 <= i < s.len() ==> test(#[trigger] s[i]),
    ensures
        s.filter(test) == s,
    decreases s.len(),
{
    reveal(Seq::filter);
    if s.len() > 0 {
        let init = s.drop_last();
        assert forall|i: int| 0 <= i < init.len() implies test(#[trigger] init[i]) by {
            assert(init[i] == s[i]);
        }
        lemma_all_pass(init, test);
        assert(test(s[s.len() - 1]));
        assert(init.push(s.last()) =~= s);
    }
}

/// Filtering keeps the order and the times of the events that remain: one after the other, they are
/// those of all intervals that are about one of the prefixes. No interval is left empty.
pub proof fn law_filtering_keeps_the_order(
    all: Seq<Interval>,
    kept: Seq<Interval>,
    prefixes: Set<u32>,
)
    requires
        interval_views(kept) == each_about(all, prefixes).filter(nonempty()),
    ensures
        interval_views(kept).flatten() == interval_views(all).flatten().filter(about(prefixes)),
        forall|i: int| 0 <= i < kept.len() ==> (#[trigger] kept[i])@.len() > 0,
{
    lemma_filtered_events(all, prefixes);
    let s = each_about(all, prefixes);
    assert forall|i: int| 0 <= i < kept.len() implies (#[trigger] kept[i])@.len() > 0 by {
        assert(interval_views(kept)[i] == kept[i]@);
        s.lemma_filter_pred(nonempty(), i);
    }
}

proof fn lemma_filtered_events(all: Seq<Interval>, prefixes: Set<u32>)
    ensures
        each_about(all, prefixes).filter(nonempty()).flatten() == interval_views(
            all,
        ).flatten().filter(about(prefixes)),
    decreases all.len(),
{
    let (s, v) = (each_about(all, prefixes), interval_views(all));
    if all.len() == 0 {
        reveal(Seq::filter);
        assert(s.filter(nonempty()) =~= Seq::<Seq<(Time, SimulationEvent)>>::empty());
        assert(v.flatten().filter(about(prefixes)) =~= Seq::<(Time, SimulationEvent)>::empty());
    } else {
        let init = all.drop_last();
        let (s0, v0) = (each_about(init, prefixes), interval_views(init));
        let (last, rest) = (all.last()@, s0.filter(nonempty()));
        lemma_filtered_events(init, prefixes);
        assert(s.drop_last() =~= s0);
        assert(v =~= v0.push(last));
        v0.lemma_flatten_push(last);
        Seq::filter_distributes_over_add(v0.flatten(), last, about(prefixes));
        let end = last.filter(about(prefixes));
        assert(s.last() == end);
        assert(s.filter(nonempty()) == if end.len() > 0 {
            rest.push(end)
        } else {
            rest
        }) by {
            reveal(Seq::filter);
        }
        rest.lemma_flatten_push(end);
        assert(end.len() == 0 ==> rest.flatten() + end =~= rest.flatten());
    }
}

/// To filter once more for the same prefixes changes nothing.
pub proof fn law_filtering_twice_is_filtering_once(
    all: Seq<Interval>,
    once: Seq<Interval>,
    twice: Seq<Interval>,
    prefixes: Set<u32>,
)
    requires
        interval_views(once) == each_about(all, prefixes).filter(nonempty()),
        interval_views(twice) == each_about(once, prefixes).filter(nonempty()),
    ensures
        interval_views(twice) == interval_views(once),
{
    let s = each_about(all, prefixes);
    let v = interval_views(once);
    assert forall|i: int| 0 <= i < once.len() implies nonempty()(#[trigger] v[i]) && once[i]@.filter(
        about(prefixes),
    ) == v[i] by {
        s.lemma_filter_pred(nonempty(), i);
        assert(s.filter(nonempty()).contains(v[i]));
        s.lemma_filter_contains_rev(nonempty(), v[i]);
        let j = choose|j: int| 0 <= j < s.len() && s[j] == v[i];
        let t = all[j]@;
        assert forall|k: int| 0 <= k < v[i].len() implies about(prefixes)(#[trigger] v[i][k]) by {
            t.lemma_filter_pred(about(prefixes), k);
        }
        lemma_all_pass(v[i], about(prefixes));
    }
    assert(each_about(once, prefixes) =~= v);
    lemma_all_pass(v, nonempty());
}

/// How the selected routes of the two networks compare: for each router, the prefixes with different
/// tables, and whether the same routes are selected.
pub type TablesDiff = Keyed<Keyed<bool>>;

/// All maps are well-formed.
pub open spec fn diffs_wf(diffs: TablesDiff) -> bool {
    diffs.wf() && forall|i: int|
        0 <= i < diffs.entries@.len() ==> (#[trigger] diffs.entries@[i]).1.wf()
}

/// What came of a sequence.
#[derive(Debug)]
pub struct SequenceResult {
    pub start: Time,
    pub finish: Time,
    pub simulated_events: Sequence,
    pub monitored_prefixes: NumberSet,
    pub recording: Recording,
    pub monitoring_results: MonitoringResults,
    pub tables_diff: TablesDiff,
    pub bug_reports: Option<Vec<BugReport>>,
}

/// What came of a run: one result for each of its sequences.
pub type RunResult = Vec<SequenceResult>;

/// The test for routers that have selected different routes for a prefix.
pub open spec fn selects_differently(prefix: Prefix) -> spec_fn((RouterId, Keyed<bool>)) -> bool {
    |e: (RouterId, Keyed<bool>)| e.1@.contains_key(prefix) && !e.1@[prefix]
}

/// The test for routers that have different tables for a prefix.
pub open spec fn differs(prefix: Prefix) -> spec_fn((RouterId, Keyed<bool>)) -> bool {
    |e: (RouterId, Keyed<bool>)| e.1@.contains_key(prefix)
}

/// The test for reports on a prefix.
pub open spec fn reported_on(prefix: Prefix) -> spec_fn(BugReport) -> bool {
    |b: BugReport| b.prefix == prefix
}

/// The number of events about one of the prefixes.
pub open spec fn num_about(s: Seq<Interval>, prefixes: Set<u32>) -> nat
    decreases s.len(),
{
    if s.len() == 0 {
        0
    } else {
        num_about(s.drop_last(), prefixes) + s.last()@.filter(about(prefixes)).len()
    }
}

/// The number of events.
pub open spec fn num_events(s: Seq<Interval>) -> nat
    decreases s.len(),
{
    if s.len() == 0 {
        0
    } else {
        num_events(s.drop_last()) + s.last()@.len()
    }
}

proof fn lemma_num_events(s: Seq<Interval>, prefixes: Set<u32>, i: int)
    requires
        0 <= i <= s.len(),
    ensures
        num_about(s.take(i), prefixes) <= num_events(s.take(i)) <= num_events(s),
    decreases s.len() + i,
{
    if i > 0 {
        let t = s.take(i);
        assert(t.drop_last() =~= s.take(i - 1));
        lemma_num_events(s, prefixes, i - 1);
        t.last()@.lemma_filter_len(about(prefixes));
    }
    if i < s.len() {
        assert(s.drop_last().take(i) =~= s.take(i));
        lemma_num_events(s.drop_last(), prefixes, i);
    } else {
        assert(s.take(i) =~= s);
    }
}

/// Count the events of an interval that are about a prefix, and the reconfigurations.
fn count_about(interval: &Interval, prefix: Prefix) -> (r: usize)
    ensures
        r == interval@.filter(about(set![prefix])).len(),
        r <= interval@.len(),
{
    let ghost all = interval@;
    let mut n: usize = 0;
    proof {
        reveal(Seq::filter);
        assert(all.take(0) =~= Seq::<(Time, SimulationEvent)>::empty());
    }
    for i in 0..interval.len()
        invariant
            all == interval@,
            n <= i,
            n == all.take(i as int).filter(about(set![prefix])).len(),
    {
        proof {
            reveal(Seq::filter);
            assert(all.take(i + 1).drop_last() =~= all.take(i as int));
            assert(all.take(i + 1).last() == all[i as int]);
        }
        let counts: bool = match &interval[i].1 {
            SimulationEvent::External(e) => e.prefix == prefix,
            SimulationEvent::Reconfiguration => true,
        };
        if counts {
            n += 1;
        }
    }
    assert(all.take(all.len() as int) =~= all);
    n
}

/// Count the routers with different tables for a prefix, those that have selected different routes or
/// all of them.
fn count_diffs(diffs: &TablesDiff, prefix: Prefix, only_selected: bool) -> (r: usize)
    requires
        diffs_wf(*diffs),
    ensures
        r == diffs.entries@.filter(
            if only_selected {
                selects_differently(prefix)
            } else {
                differs(prefix)
            },
        ).len(),
{
    let ghost all = diffs.entries@;
    let ghost test = if only_selected {
        selects_differently(prefix)
    } else {
        differs(prefix)
    };
    let mut n: usize = 0;
    proof {
        reveal(Seq::filter);
        assert(all.take(0) =~= Seq::<(RouterId, Keyed<bool>)>::empty());
    }
    for i in 0..diffs.entries.len()
        invariant
            diffs_wf(*diffs),
            all == diffs.entries@,
            test == if only_selected {
                selects_differently(prefix)
            } else {
                differs(prefix)
            },
            n <= i,
            n == all.take(i as int).filter(test).len(),
    {
        proof {
            reveal(Seq::filter);
            assert(all.take(i + 1).drop_last() =~= all.take(i as int));
            assert(all.take(i + 1).last() == all[i as int]);
        }
        match diffs.entries[i].1.get(prefix) {
            Some(equal) => {
                if !only_selected || !*equal {
                    n += 1;
                }
            },
            None => {},
        }
    }
    assert(all.take(all.len() as int) =~= all);
    n
}

/// Count the reports on a prefix.
fn count_reports(reports: &Vec<BugReport>, prefix: Prefix) -> (r: usize)
    ensures
        r == reports@.filter(reported_on(prefix)).len(),
{
    let ghost all = reports@;
    let mut n: usize = 0;
    proof {
        reveal(Seq::filter);
        assert(all.take(0) =~= Seq::<BugReport>::empty());
    }
    for i in 0..reports.len()
        invariant
            all == reports@,
            n <= i,
            n == all.take(i as int).filter(reported_on(prefix)).len(),
    {
        proof {
            reveal(Seq::filter);
            assert(all.take(i + 1).drop_last() =~= all.take(i as int));
            assert(all.take(i + 1).last() == all[i as int]);
        }
        if reports[i].prefix == prefix {
            n += 1;
        }
    }
    assert(all.take(all.len() as int) =~= all);
    n
}

/// A brief overview of the results of a sequence.
#[derive(Debug, Clone, Copy, PartialEq, Eq)]
pub struct SequenceResultSummary {
    /// The run
    pub run: usize,
    /// The prefix
    pub prefix: Prefix,
    /// The sequence
    pub sequence: usize,
    /// How many events were seen
    pub simulated_events: usize,
    /// How many monitoring errors were reported for the prefix
    pub monitoring_errors: usize,
    /// How many routers have selected different routes for the prefix
    pub selected_diff: usize,
    /// How many routers have different tables for the prefix
    pub tables_diff: usize,
    /// How many bugs were reported on the prefix
    pub bug_reports: Option<usize>,
}

/// The overview of a result for a prefix.
pub open spec fn is_summary(
    s: SequenceResultSummary,
    run: usize,
    sequence: usize,
    prefix: Prefix,
    result: SequenceResult,
) -> bool {
    &&& s.run == run
    &&& s.prefix == prefix
    &&& s.sequence == sequence
    &&& s.simulated_events == num_about(result.simulated_events.intervals@, set![prefix])
    &&& s.monitoring_errors == if result.monitoring_results.results@.contains_key(prefix) {
        errors_at(result.monitoring_results.results@[prefix].entries@).len()
    } else {
        0
    }
    &&& s.selected_diff == result.tables_diff.entries@.filter(selects_differently(prefix)).len()
    &&& s.tables_diff == result.tables_diff.entries@.filter(differs(prefix)).len()
    &&& match (s.bug_reports, result.bug_reports) {
        (Some(n), Some(reports)) => n == reports@.filter(reported_on(prefix)).len(),
        (None, None) => true,
        _ => false,
    }
}

impl SequenceResult {
    /// The parts are well-formed, and there are not more events than can be counted.
    pub open spec fn wf(&self) -> bool {
        &&& self.monitored_prefixes.wf()
        &&& self.monitoring_results.wf()
        &&& diffs_wf(self.tables_diff)
        &&& num_events(self.simulated_events.intervals@) <= usize::MAX
    }
}

impl SequenceResultSummary {
    /// The overview of a result for a prefix: the number of the run, the number of the sequence, the
    /// prefix, and the result.
    pub fn from(v: (usize, usize, Prefix, &SequenceResult)) -> (r: Self)
        requires
            v.3.wf(),
        ensures
            is_summary(r, v.0, v.1, v.2, *v.3),
    {
        let (run, sequence, prefix, result) = v;
        let ghost all = result.simulated_events.intervals@;
        let mut simulated_events: usize = 0;
        assert(all.take(0) =~= Seq::<Interval>::empty());
        for i in 0..result.simulated_events.intervals.len()
            invariant
                result.wf(),
                all == result.simulated_events.intervals@,
                simulated_events == num_about(all.take(i as int), set![prefix]),
        {
            proof {
                assert(all.take(i + 1).drop_last() =~= all.take(i as int));
                lemma_num_events(all, set![prefix], i + 1);
            }
            simulated_events += count_about(&result.simulated_events.intervals[i], prefix);
        }
        assert(all.take(all.len() as int) =~= all);
        SequenceResultSummary {
            run,
            prefix,
            sequence,
            simulated_events,
            monitoring_errors: result.monitoring_results.get_errors_per_prefix(prefix),
            selected_diff: count_diffs(&result.tables_diff, prefix, true),
            tables_diff: count_diffs(&result.tables_diff, prefix, false),
            bug_reports: match &result.bug_reports {
                Some(reports) => Some(count_reports(reports, prefix)),
                None => None,
            },
        }
    }
}

/// Routers with different selected routes have different tables.
pub proof fn law_selected_diffs_are_table_diffs(
    s: SequenceResultSummary,
    run: usize,
    sequence: usize,
    prefix: Prefix,
    result: SequenceResult,
)
    requires
        is_summary(s, run, sequence, prefix, result),
    ensures
        s.selected_diff <= s.tables_diff,
{
    lemma_selected_diffs(result.tables_diff.entries@, prefix);
}

proof fn lemma_selected_diffs(s: Seq<(RouterId, Keyed<bool>)>, prefix: Prefix)
    ensures
        s.filter(selects_differently(prefix)).len() <= s.filter(differs(prefix)).len(),
    decreases s.len(),
{
    reveal(Seq::filter);
    if s.len() > 0 {
        lemma_selected_diffs(s.drop_last(), prefix);
    }
}

/// A run, as far as it decides what to do next.
#[derive(Debug)]
pub struct Run {
    /// The number of sequences that were completed
    pub completed: usize,
    pub max_sequences: usize,
    pub early_return: bool,
    /// The prefixes that are still monitored
    pub monitoring_prefixes: NumberSet,
    /// Whether no further sequence is to be executed
    pub stopped: bool,
    /// How many sequences are shown as done
    pub progress: usize,
}

/// The prefix is among the differences, and different routes are selected for it.
pub open spec fn is_unequal(diffs: TablesDiff, p: Prefix) -> bool {
    exists|i: int|
        0 <= i < diffs.entries@.len() && (#[trigger] diffs.entries@[i]).1@.contains_key(p)
            && !diffs.entries@[i].1@[p]
}

/// The prefixes for which some router has selected different routes.
pub fn unequal_prefixes(diffs: &TablesDiff) -> (r: NumberSet)
    requires
        diffs_wf(*diffs),
    ensures
        r.wf(),
        forall|p: Prefix| #[trigger] r@.contains(p) <==> is_unequal(*diffs, p),
{
    let mut r = NumberSet::new();
    let ghost all = diffs.entries@;
    let n: usize = diffs.entries.len();
    let mut i: usize = 0;
    while i < n
        invariant
            i <= n,
            n == all.len(),
            diffs_wf(*diffs),
            all == diffs.entries@,
            r.wf(),
            forall|p: Prefix| #[trigger]
                r@.contains(p) <==> exists|a: int|
                    0 <= a < i && (#[trigger] all[a]).1@.contains_key(p) && !all[a].1@[p],
        decreases n - i,
    {
        let ghost outer = r@;
        let ghost prefixes = all[i as int].1.entries@;
        let ghost m = all[i as int].1@;
        let count: usize = diffs.entries[i].1.entries.len();
        let mut j: usize = 0;
        while j < count
            invariant
                i < n,
                n == all.len(),
                j <= count,
                count == prefixes.len(),
                diffs_wf(*diffs),
                all == diffs.entries@,
                prefixes == all[i as int].1.entries@,
                m == all[i as int].1@,
                r.wf(),
                forall|p: Prefix| #[trigger]
                    r@.contains(p) <==> outer.contains(p) || exists|b: int|
                        0 <= b < j && (#[trigger] prefixes[b]).0 == p && !prefixes[b].1,
            decreases count - j,
        {
            let ghost before = r@;
            let p: Prefix = diffs.entries[i].1.entries[j].0;
            let equal: bool = diffs.entries[i].1.entries[j].1;
            assert(prefixes[j as int].0 == p && prefixes[j as int].1 == equal);
            if !equal {
                r.insert(p);
            }
            proof {
                assert forall|q: Prefix| #[trigger] r@.contains(q) <==> outer.contains(q) || exists|
                    b: int,
                |
                    0 <= b < j + 1 && (#[trigger] prefixes[b]).0 == q && !prefixes[b].1 by {
                    assert(before.contains(q) || !before.contains(q));
                }
            }
            j += 1;
        }
        proof {
            assert(all[i as int].1.wf());
            assert forall|p: Prefix| #[trigger] r@.contains(p) <==> exists|a: int|
                0 <= a < i + 1 && (#[trigger] all[a]).1@.contains_key(p) && !all[a].1@[p] by {
                assert(outer.contains(p) || !outer.contains(p));
                if exists|b: int|
                    0 <= b < prefixes.len() && (#[trigger] prefixes[b]).0 == p && !prefixes[b].1 {
                    let b = choose|b: int|
                        0 <= b < prefixes.len() && (#[trigger] prefixes[b]).0 == p
                            && !prefixes[b].1;
                    crate::keyed::lemma_entry(prefixes, b);
                    assert(all[i as int].1@.contains_key(p));
                }
                if m.contains_key(p) && !m[p] {
                    let b = crate::keyed::lemma_key(prefixes, p);
                    assert(prefixes[b].0 == p && !prefixes[b].1);
                }
            }
        }
        i += 1;
    }
    r
}

impl Run {
    /// A running run shows the sequences that were completed; one that is over shows all of them.
    pub open spec fn wf(&self) -> bool {
        &&& self.monitoring_prefixes.wf()
        &&& self.completed <= self.max_sequences
        &&& self.progress == if self.stopped {
            self.max_sequences
        } else {
            self.completed
        }
    }

    /// The start of a run.
    pub fn new(config: &RunConfig, monitoring_prefixes: NumberSet) -> (r: Self)
        requires
            monitoring_prefixes.wf(),
        ensures
            r.wf(),
            r.completed == 0,
            r.max_sequences == config.max_sequences,
            r.early_return == config.early_return,
            r.monitoring_prefixes@ == monitoring_prefixes@,
            !r.stopped,
    {
        Run {
            completed: 0,
            max_sequences: config.max_sequences,
            early_return: config.early_return,
            monitoring_prefixes,
            stopped: false,
            progress: 0,
        }
    }

    /// A further sequence is to be executed.
    pub open spec fn continues(&self) -> bool {
        !self.stopped && self.completed < self.max_sequences
    }

    /// Whether a further sequence is to be executed.
    pub fn is_running(&self) -> (r: bool)
        ensures
            r == self.continues(),
    {
        !self.stopped && self.completed < self.max_sequences
    }

    /// A sequence was completed. With early return, the prefixes for which different routes are
    /// selected are no longer monitored, and the run is over once none remains.
    pub fn complete_sequence(&mut self, tables_diff: &TablesDiff)
        requires
            old(self).wf(),
            old(self).continues(),
            diffs_wf(*tables_diff),
        ensures
            final(self).wf(),
            final(self).completed == old(self).completed + 1,
            final(self).max_sequences == old(self).max_sequences,
            final(self).early_return == old(self).early_return,
            !old(self).early_return ==> final(self).monitoring_prefixes@ == old(
                self,
            ).monitoring_prefixes@ && !final(self).stopped,
            old(self).early_return ==> forall|p: Prefix| #[trigger]
                final(self).monitoring_prefixes@.contains(p) <==> old(
                    self,
                ).monitoring_prefixes@.contains(p) && !is_unequal(*tables_diff, p),
            old(self).early_return ==> (final(self).stopped <==> (exists|p: Prefix|
                is_unequal(*tables_diff, p)) && final(self).monitoring_prefixes@ == Set::<
                u32,
            >::empty()),
    {
        self.completed += 1;
        self.progress += 1;
        if !self.early_return {
            return;
        }
        let unequal = unequal_prefixes(tables_diff);
        let ghost start = self.monitoring_prefixes@;
        let ghost all = unequal.items@;
        let n: usize = unequal.items.len();
        let mut i: usize = 0;
        while i < n
            invariant
                i <= n,
                n == all.len(),
                all == unequal.items@,
                self.monitoring_prefixes.wf(),
                self.completed == old(self).completed + 1,
                self.max_sequences == old(self).max_sequences,
                self.early_return == old(self).early_return,
                self.progress == self.completed,
                !self.stopped,
                forall|p: Prefix| #[trigger]
                    self.monitoring_prefixes@.contains(p) <==> start.contains(p) && !all.take(
                        i as int,
                    ).contains(p),
            decreases n - i,
        {
            let ghost before = self.monitoring_prefixes@;
            let _ = self.monitoring_prefixes.remove(unequal.items[i]);
            proof {
                broadcast use vstd::seq_lib::group_seq_properties;

                assert(all.take(i + 1) =~= all.take(i as int).push(all[i as int]));
                assert forall|p: Prefix| #[trigger]
                    self.monitoring_prefixes@.contains(p) <==> start.contains(p) && !all.take(
                        i + 1,
                    ).contains(p) by {
                    assert(before.contains(p) || !before.contains(p));
                }
            }
            i += 1;
        }
        proof {
            assert(all.take(n as int) =~= all);
            assert forall|p: Prefix| #[trigger] self.monitoring_prefixes@.contains(p) <==> old(
                self,
            ).monitoring_prefixes@.contains(p) && !is_unequal(*tables_diff, p) by {
                assert(unequal@.contains(p) == all.contains(p));
            }
            if n > 0 {
                assert(all.contains(all[0]));
                assert(unequal@.contains(all[0]));
                assert(is_unequal(*tables_diff, all[0]));
            }
            assert forall|p: Prefix| is_unequal(*tables_diff, p) implies n > 0 by {
                assert(unequal@.contains(p));
                assert(all.contains(p));
            }
            if self.monitoring_prefixes.items@.len() > 0 {
                assert(self.monitoring_prefixes@.contains(self.monitoring_prefixes.items@[0]));
            } else {
                assert(self.monitoring_prefixes@ =~= Set::<u32>::empty());
            }
        }
        if n > 0 && self.monitoring_prefixes.items.len() == 0 {
            self.stopped = true;
            self.progress = self.max_sequences;
        }
    }

    /// A sequence has failed: the run is over.
    pub fn fail(&mut self)
        requires
            old(self).wf(),
            old(self).continues(),
        ensures
            final(self).wf(),
            final(self).stopped,
            final(self).completed == old(self).completed,
            final(self).max_sequences == old(self).max_sequences,
            final(self).early_return == old(self).early_return,
            final(self).monitoring_prefixes == old(self).monitoring_prefixes,
    {
        self.stopped = true;
        self.progress = self.max_sequences;
    }
}

/// When a run is over, for whatever reason, all of its sequences are shown as done.
pub proof fn law_progress_is_complete(state: Run)
    requires
        state.wf(),
        !state.continues(),
    ensures
        state.progress == state.max_sequences,
{
}

/// All tables were always equal.
pub open spec fn always_equal(results: Seq<SequenceResult>) -> bool {
    forall|i: int| 0 <= i < results.len() ==> (#[trigger] results[i]).tables_diff.entries@.len() == 0
}

/// The number of errors in all results.
pub open spec fn num_errors(results: Seq<SequenceResult>) -> nat
    decreases results.len(),
{
    if results.len() == 0 {
        0
    } else {
        num_errors(results.drop_last()) + all_errors(
            results.last().monitoring_results.results.entries@,
        ).len()
    }
}

proof fn lemma_num_errors(results: Seq<SequenceResult>, i: int)
    requires
        0 <= i <= results.len(),
    ensures
        num_errors(results.take(i)) <= num_errors(results),
    decreases results.len(),
{
    if i < results.len() {
        assert(results.drop_last().take(i) =~= results.take(i));
        lemma_num_errors(results.drop_last(), i);
    } else {
        assert(results.take(i) =~= results);
    }
}

/// The text of a truth value.
pub open spec fn truth(b: bool) -> Seq<char> {
    if b {
        "true"@
    } else {
        "false"@
    }
}

/// What is said of a run that was completed.
pub fn completion_message(id: usize, results: &Vec<SequenceResult>) -> (r: String)
    requires
        num_errors(results@) <= usize::MAX,
    ensures
        r@ == "Completed run "@ + decimal(id as nat) + ". Always equal BGP tables: "@ + truth(
            always_equal(results@),
        ) + " | Total monitoring errors: "@ + decimal(num_errors(results@)),
{
    let ghost all = results@;
    let mut all_equal: bool = true;
    let mut total: usize = 0;
    assert(all.take(0) =~= Seq::<SequenceResult>::empty());
    for i in 0..results.len()
        invariant
            all == results@,
            num_errors(all) <= usize::MAX,
            all_equal == forall|j: int|
                0 <= j < i ==> (#[trigger] all[j]).tables_diff.entries@.len() == 0,
            total == num_errors(all.take(i as int)),
    {
        proof {
            assert(all.take(i + 1).drop_last() =~= all.take(i as int));
            assert(all.take(i + 1).last() == all[i as int]);
            lemma_num_errors(all, i + 1);
        }
        if results[i].tables_diff.entries.len() > 0 {
            assert(all[i as int].tables_diff.entries@.len() > 0);
            all_equal = false;
        }
        let errors = results[i].monitoring_results.get_errors();
        assert(crate::monitoring::error_views(errors@).len() == errors@.len());
        total += errors.len();
    }
    assert(all.take(all.len() as int) =~= all);
    let mut r = String::from_str("Completed run ");
    append_number(&mut r, id as u64);
    r.append(". Always equal BGP tables: ");
    if all_equal {
        r.append("true");
    } else {
        r.append("false");
    }
    r.append(" | Total monitoring errors: ");
    append_number(&mut r, total as u64);
    r
}

/// What to do for an event.
#[derive(Debug)]
pub enum Action {
    /// Advertise a route with an AS path at an external router, in both networks
    Advertise { router: RouterId, prefix: Prefix, path: Vec<AsId> },
    /// Withdraw a route at an external router, in both networks
    Withdraw { router: RouterId, prefix: Prefix },
    /// Change the prefix list of a router back and forth, in the emulated network
    FlipPrefixList { router: RouterId },
    /// Nothing
    Ignore,
}

/// The action is the one for an event: a reconfiguration concerns only a network in which a prefix list
/// was set up.
pub open spec fn is_action(
    action: Action,
    event: SimulationView,
    pre_config: Option<PreConfig>,
) -> bool {
    match event {
        SimulationView::External(e) => match e.route {
            Some(p) => action matches Action::Advertise { router, prefix, path } && router
                == e.external_neighbor && prefix == e.prefix && path@ == p,
            None => action == Action::Withdraw { router: e.external_neighbor, prefix: e.prefix },
        },
        SimulationView::Reconfiguration => match pre_config {
            Some(PreConfig::Whitelist { router, .. }) => action == Action::FlipPrefixList { router },
            _ => action == Action::Ignore,
        },
    }
}

/// What to do for an event.
pub fn action_for(event: &SimulationEvent, pre_config: &Option<PreConfig>) -> (r: Action)
    ensures
        is_action(r, event@, *pre_config),
{
    match event {
        SimulationEvent::External(e) => {
            let ExternalEvent { external_neighbor, prefix, route } = e.clone();
            match route {
                Some(path) => Action::Advertise { router: external_neighbor, prefix, path },
                None => Action::Withdraw { router: external_neighbor, prefix },
            }
        },
        SimulationEvent::Reconfiguration => match pre_config {
            Some(PreConfig::Whitelist { router, .. }) => Action::FlipPrefixList { router: *router },
            _ => Action::Ignore,
        },
    }
}

/// The time that a controller allows for MRAI timers: twice the value that is set.
pub fn controller_mrai(monitoring_mrai: Option<u16>) -> (r: Option<Time>)
    requires
        monitoring_mrai matches Some(u) ==> u <= 32767,
    ensures
        r == match monitoring_mrai {
            Some(u) => Some((2 * u * TICKS_PER_SECOND) as Time),
            None => None,
        },
        r is Some <==> monitoring_mrai is Some,
        monitoring_mrai matches Some(u) ==> r->0 == u * 2_000_000_000,
{
    match monitoring_mrai {
        Some(u) => Some((u * 2) as Time * TICKS_PER_SECOND),
        None => None,
    }
}

/// A router of the emulated network.
#[derive(Debug)]
pub struct Device {
    pub router_id: RouterId,
    pub name: String,
    pub internal: bool,
}

/// Router `x` is internal, and it is not the one that only listens.
pub open spec fn is_observed(devices: Seq<Device>, x: RouterId) -> bool {
    exists|i: int|
        0 <= i < devices.len() && (#[trigger] devices[i]).router_id == x && devices[i].internal
            && devices[i].name@ != "Monitor"@
}

/// The internal routers, without the one that only listens.
pub fn observed_routers(devices: &Vec<Device>) -> (r: NumberSet)
    ensures
        r.wf(),
        forall|x: RouterId| #[trigger] r@.contains(x) <==> is_observed(devices@, x),
{
    let mut r = NumberSet::new();
    let ghost all = devices@;
    let n: usize = devices.len();
    let mut i: usize = 0;
    while i < n
        invariant
            i <= n,
            n == all.len(),
            all == devices@,
            r.wf(),
            forall|x: RouterId| #[trigger]
                r@.contains(x) <==> exists|j: int|
                    0 <= j < i && (#[trigger] all[j]).router_id == x && all[j].internal
                        && all[j].name@ != "Monitor"@,
        decreases n - i,
    {
        let ghost before = r@;
        let observed: bool = devices[i].internal && !is_same(devices[i].name.as_str(), "Monitor");
        if observed {
            r.insert(devices[i].router_id);
        }
        proof {
            assert forall|x: RouterId| #[trigger] r@.contains(x) <==> exists|j: int|
                0 <= j < i + 1 && (#[trigger] all[j]).router_id == x && all[j].internal
                    && all[j].name@ != "Monitor"@ by {
                assert(before.contains(x) || !before.contains(x));
                assert(all[i as int].router_id == all[i as int].router_id);
            }
        }
        i += 1;
    }
    r
}

/// The recording holds what was captured of some prefixes at the observed routers, sorted by time, and
/// nothing else.
pub open spec fn records_sequence(
    r: Recording,
    pcaps: Seq<Capture>,
    devices: Seq<Device>,
    prefixes: Set<u32>,
) -> bool {
    forall|p: Prefix, x: RouterId|
        #![trigger r.at(p, x)]
        #![trigger r.has(p, x)]
        if prefixes.contains(p) && is_observed(devices, x) {
            &&& r.has(p, x) == (recorded(captured(pcaps), p, x).len() > 0)
            &&& exists|s: Seq<TimestampedEvent>| #[trigger]
                is_sorting_of(s, r.at(p, x)) && observed_views(s) == recorded(
                    captured(pcaps),
                    p,
                    x,
                )
        } else {
            !r.has(p, x)
        }
}

/// The recording of a sequence: what was captured of the monitored prefixes at the observed routers.
pub fn record_sequence(
    pcaps: Vec<Capture>,
    devices: &Vec<Device>,
    prefixes: &NumberSet,
) -> (r: Recording)
    requires
        forall|i: int| 0 <= i < pcaps@.len() ==> all_bgp((#[trigger] pcaps@[i]).1@),
        prefixes.wf(),
    ensures
        r.wf(),
        records_sequence(r, pcaps@, devices@, prefixes@),
{
    let ghost entries = captured(pcaps@);
    let routers = observed_routers(devices);
    let all = Recording::from_pcaps(pcaps);
    let observed = all.filter_routers(&routers);
    let ghost (a, b) = (all, observed);
    let r = observed.filter_prefixes(prefixes);
    proof {
        assert forall|p: Prefix, x: RouterId|
            #![trigger r.at(p, x)]
            #![trigger r.has(p, x)]
            if prefixes@.contains(p) && is_observed(devices@, x) {
                &&& r.has(p, x) == (recorded(entries, p, x).len() > 0)
                &&& exists|s: Seq<TimestampedEvent>| #[trigger]
                    is_sorting_of(s, r.at(p, x)) && observed_views(s) == recorded(entries, p, x)
            } else {
                !r.has(p, x)
            } by {
            assert(routers@.contains(x) == is_observed(devices@, x));
            assert(b.has(p, x) == (a.has(p, x) && routers@.contains(x)));
            if prefixes@.contains(p) && is_observed(devices@, x) {
                assert(b.at(p, x) == a.at(p, x));
                assert(r.has(p, x) == b.has(p, x));
                assert(r.at(p, x) == b.at(p, x));
                assert(a.has(p, x) == (recorded(entries, p, x).len() > 0));
                let s = choose|s: Seq<TimestampedEvent>| #[trigger]
                    is_sorting_of(s, a.at(p, x)) && observed_views(s) == recorded(entries, p, x);
                assert(is_sorting_of(s, r.at(p, x)));
            }
        }
    }
    r
}

/// Let the monitors go over the recording of a sequence, and put together what came of it. The
/// controller must have monitors for all that is recorded.
pub fn conclude_sequence(
    controller: &mut Controller,
    start: Time,
    finish: Time,
    simulated_events: Sequence,
    monitored_prefixes: NumberSet,
    recording: Recording,
    tables_diff: TablesDiff,
    bug_reports: Option<Vec<BugReport>>,
) -> (r: SequenceResult)
    requires
        old(controller).wf(),
        recording.wf(),
        monitored_prefixes.wf(),
        diffs_wf(tables_diff),
        num_events(simulated_events.intervals@) <= usize::MAX,
        old(controller).can_count(recording),
        old(controller).can_monitor(recording),
    ensures
        final(controller).wf(),
        r.wf(),
        r.start == start,
        r.finish == finish,
        r.simulated_events == simulated_events,
        r.monitored_prefixes == monitored_prefixes,
        r.recording == recording,
        r.tables_diff == tables_diff,
        r.bug_reports == bug_reports,
        exists|copy: Recording| #[trigger]
            recording.same(&copy) && monitors_recording(
                *old(controller),
                *final(controller),
                copy,
                r.monitoring_results,
            ),
{
    let copy = recording.copy();
    proof {
        assert forall|p: Prefix| #[trigger] copy.sequences@.contains_key(
            p,
        ) implies controller.net_planes@.contains_key(p) && forall|x: RouterId| #[trigger]
            copy.sequences@[p]@.contains_key(x) ==> controller.net_planes@[p]@.contains_key(x) by {
            assert(recording.sequences@.contains_key(p));
            assert forall|x: RouterId| #[trigger] copy.sequences@[p]@.contains_key(
                x,
            ) implies controller.net_planes@[p]@.contains_key(x) by {
                assert(recording.sequences@[p]@.contains_key(x));
            }
        }
        assert(controller.can_monitor(copy));
        assert(controller.can_count(copy)) by {
            assert forall|p: Prefix| #[trigger]
                copy.sequences@.contains_key(p) && controller.net_planes@.contains_key(
                    p,
                ) implies countable(controller.net_planes@[p], copy.sequences@[p]) by {
                let (a, b) = (recording.sequences@[p], copy.sequences@[p]);
                assert(recording.sequences@.contains_key(p));
                assert(same_sequences(a, b));
                assert forall|x: RouterId| b@.contains_key(x) implies #[trigger] b@[x]@.len()
                    == a@[x]@.len() by {
                    assert(a@.contains_key(x));
                    assert(observed_views(a@[x]@).len() == observed_views(b@[x]@).len());
                }
            }
        }
    }
    let ghost c = copy;
    let monitoring_results = match controller.monitor_recording(copy) {
        Ok(results) => results,
        Err(_) => MonitoringResults::new(),
    };
    assert(recording.same(&c));
    SequenceResult {
        start,
        finish,
        simulated_events,
        monitored_prefixes,
        recording,
        monitoring_results,
        tables_diff,
        bug_reports,
    }
}

/// Events of other prefixes do not count, and reconfigurations always do: a further event adds one to the
/// number of events about a prefix, or nothing.
pub proof fn law_counting_events_about_a_prefix(
    s: Seq<Interval>,
    t: Seq<Interval>,
    time: Time,
    event: SimulationEvent,
    prefix: Prefix,
)
    requires
        t.len() == s.len() + 1,
        t.drop_last() == s,
        t.last()@ == seq![(time, event)],
    ensures
        event is Reconfiguration ==> num_about(t, set![prefix]) == num_about(s, set![prefix]) + 1,
        event matches SimulationEvent::External(e) ==> num_about(t, set![prefix]) == num_about(
            s,
            set![prefix],
        ) + if e.prefix == prefix {
            1nat
        } else {
            0
        },
        num_about(Seq::empty(), set![prefix]) == 0,
{
    let one = seq![(time, event)];
    reveal_with_fuel(Seq::filter, 2);
    assert(one.drop_last() =~= Seq::empty());
    assert(one.last() == (time, event));
}

/// A further router adds one to the number of routers with different tables if it has different tables for
/// the prefix, and one to the number of those with different selected routes if these differ too.
pub proof fn law_counting_differences(
    s: Seq<(RouterId, Keyed<bool>)>,
    e: (RouterId, Keyed<bool>),
    prefix: Prefix,
)
    ensures
        s.push(e).filter(differs(prefix)).len() == s.filter(differs(prefix)).len()
            + if e.1@.contains_key(prefix) {
            1nat
        } else {
            0
        },
        s.push(e).filter(selects_differently(prefix)).len() == s.filter(
            selects_differently(prefix),
        ).len() + if e.1@.contains_key(prefix) && e.1@[prefix] == false {
            1nat
        } else {
            0
        },
{
    reveal(Seq::filter);
    assert(s.push(e).drop_last() =~= s);
}

/// A further report counts for its own prefix, and for no other one.
pub proof fn law_counting_reports(s: Seq<BugReport>, b: BugReport, prefix: Prefix)
    ensures
        b.prefix == prefix ==> s.push(b).filter(reported_on(prefix)).len() == s.filter(
            reported_on(prefix),
        ).len() + 1,
        b.prefix != prefix ==> s.push(b).filter(reported_on(prefix)) == s.filter(
            reported_on(prefix),
        ),
{
    reveal(Seq::filter);
    assert(s.push(b).drop_last() =~= s);
}

/// A prefix is no longer monitored exactly if the overview of the sequence counts a router that has
/// selected another route for it.
pub proof fn law_unequal_prefixes_are_counted(
    s: SequenceResultSummary,
    run: usize,
    sequence: usize,
    prefix: Prefix,
    result: SequenceResult,
)
    requires
        is_summary(s, run, sequence, prefix, result),
    ensures
        is_unequal(result.tables_diff, prefix) <==> s.selected_diff > 0,
        s.run == run && s.sequence == sequence && s.prefix == prefix,
        s.bug_reports is None <==> result.bug_reports is None,
        result.bug_reports matches Some(reports) ==> s.bug_reports->0 <= reports@.len(),
{
    broadcast use vstd::seq_lib::group_filter_ensures;

    let all = result.tables_diff.entries@;
    let test = selects_differently(prefix);
    if is_unequal(result.tables_diff, prefix) {
        let i = choose|i: int|
            0 <= i < all.len() && (#[trigger] all[i]).1@.contains_key(prefix) && !all[i].1@[prefix];
        assert(test(all[i]));
        all.lemma_filter_contains(test, i);
    }
    if all.filter(test).len() > 0 {
        let e = all.filter(test)[0];
        all.lemma_filter_pred(test, 0);
        assert(all.filter(test).contains(e));
        all.lemma_filter_contains_rev(test, e);
        let i = all.index_of(e);
        assert(all[i].1@.contains_key(prefix));
    }
    if let Some(reports) = result.bug_reports {
        reports@.lemma_filter_len(reported_on(prefix));
    }
}

/// The tables were always equal exactly if no sequence has left a difference, and the errors of all
/// sequences add up.
pub proof fn law_conclusion_of_a_run(s: Seq<SequenceResult>, t: Seq<SequenceResult>)
    requires
        t.len() == s.len() + 1,
        t.drop_last() == s,
    ensures
        t.last().tables_diff.entries@.len() > 0 ==> !always_equal(t),
        t.last().tables_diff.entries@.len() == 0 ==> always_equal(t) == always_equal(s),
        always_equal(Seq::empty()),
        num_errors(Seq::empty()) == 0,
        num_errors(t) == num_errors(s) + all_errors(
            t.last().monitoring_results.results.entries@,
        ).len(),
        truth(always_equal(s)) == truth(always_equal(t)) <==> always_equal(s) == always_equal(t),
{
    assert(t[t.len() - 1] == t.last());
    assert forall|i: int| 0 <= i < s.len() implies s[i] == #[trigger] t[i] by {}
    reveal_strlit("true");
    reveal_strlit("false");
    assert("true"@.len() != "false"@.len());
}

/// An announcement is advertised and a withdrawal is withdrawn, at its router and for its prefix. A
/// reconfiguration flips the prefix list of the whitelisted router, and does nothing where there is none.
pub proof fn law_actions_for_events(action: Action, event: SimulationView, pre_config: Option<PreConfig>)
    requires
        is_action(action, event, pre_config),
    ensures
        action matches Action::Advertise { router, prefix, path } ==> event matches
            SimulationView::External(e) && e.external_neighbor == router && e.prefix == prefix
            && e.route == Some(path@),
        action matches Action::Withdraw { router, prefix } ==> event matches
            SimulationView::External(e) && e.external_neighbor == router && e.prefix == prefix
            && e.route is None,
        action matches Action::FlipPrefixList { router } ==> event is Reconfiguration && (pre_config
            matches Some(PreConfig::Whitelist { router: x, .. }) && x == router),
        action is Ignore ==> event is Reconfiguration && !(pre_config matches Some(
            PreConfig::Whitelist { .. },
        )),
{
}

/// External routers are not observed, nor is the one that only listens. All other routers are.
pub proof fn law_observed_routers(devices: Seq<Device>, i: int)
    requires
        0 <= i < devices.len(),
        forall|j: int| 0 <= j < devices.len() && j != i ==> (#[trigger] devices[j]).router_id
            != devices[i].router_id,
    ensures
        !devices[i].internal ==> !is_observed(devices, devices[i].router_id),
        devices[i].name@ == "Monitor"@ ==> !is_observed(devices, devices[i].router_id),
        devices[i].internal && devices[i].name@ != "Monitor"@ ==> is_observed(
            devices,
            devices[i].router_id,
        ),
{
}

/// A run goes on exactly as long as nothing has stopped it and a sequence is left.
pub proof fn law_when_a_run_goes_on(state: Run)
    ensures
        state.stopped ==> !state.continues(),
        state.completed >= state.max_sequences ==> !state.continues(),
        !state.stopped && state.completed < state.max_sequences ==> state.continues(),
{
}

/// What is recorded of a sequence is all that was captured of the monitored prefixes at the observed
/// routers, by time, and nothing of other prefixes or routers.
pub proof fn law_recording_of_a_sequence(
    r: Recording,
    pcaps: Seq<Capture>,
    devices: Seq<Device>,
    prefixes: Set<u32>,
    p: Prefix,
    x: RouterId,
)
    requires
        records_sequence(r, pcaps, devices, prefixes),
    ensures
        !prefixes.contains(p) || !is_observed(devices, x) ==> !r.has(p, x),
        prefixes.contains(p) && is_observed(devices, x) ==> {
            let all = recorded(captured(pcaps), p, x);
            &&& r.has(p, x) <==> all.len() > 0
            &&& r.at(p, x).len() == all.len()
            &&& forall|i: int| 0 <= i < r.at(p, x).len() ==> all.contains((#[trigger] r.at(p, x)[i])@)
            &&& forall|i: int, j: int|
                0 <= i <= j < r.at(p, x).len() ==> #[trigger] r.at(p, x)[i].time()
                    <= #[trigger] r.at(p, x)[j].time()
        },
{
    assert(r.has(p, x) || !r.has(p, x));
    if prefixes.contains(p) && is_observed(devices, x) {
        let all = recorded(captured(pcaps), p, x);
        let s = choose|s: Seq<TimestampedEvent>| #[trigger]
            is_sorting_of(s, r.at(p, x)) && observed_views(s) == all;
        crate::sorting::law_sorting_keeps_elements(s, r.at(p, x));
        assert(observed_views(s).len() == s.len());
        assert forall|i: int| 0 <= i < r.at(p, x).len() implies all.contains(
            (#[trigger] r.at(p, x)[i])@,
        ) by {
            assert(r.at(p, x).contains(r.at(p, x)[i]));
            let k = s.index_of(r.at(p, x)[i]);
            assert(observed_views(s)[k] == s[k]@);
        }
    }
}

} // verus!
