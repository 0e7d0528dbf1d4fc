//! The controller, which runs the monitors of all routers over a recording.
use vstd::prelude::*;

use crate::arena::MonitorArena;
use crate::bgp::{Prefix, RouterId, Time, SINGLE_PREFIX};
use crate::forking_monitor::no_accusation;
use crate::import::{is_single_of, Message, Router};
use crate::keyed::{as_map, lemma_entry, lemma_key, lemma_same_keys, unique_keys, Keyed};
use crate::monitoring::{all_errors, error_view, outcome_view, outcome_views};
use crate::monitoring::{ErrorView, MonitoringResult, MonitoringResults, Outcome};
use crate::monitoring::{OutcomeView, RouterResults};
use crate::number_set::NumberSet;
use crate::recording::{sequences_wf, Recording, RouterSequences, TimestampedEvent};
use crate::reordering_monitoring::{deadline_steps, final_steps, is_monitor_for, is_monitor_of};
use crate::reordering_monitoring::{message_step, outcome, ReorderingMonitor};
use crate::session_queue::{later, later_than};
use crate::traces::{before, correct, keeps_up, law_deadline_spares_correct};
use crate::traces::{law_message_spares_correct, lemma_no_deadline, num_incoming, time_before, Run};

verus! {

/// Why the controller cannot monitor a recording.
#[derive(Debug, Clone, Copy, PartialEq, Eq, Structural)]
pub enum ControllerError {
    /// There is no plane for the prefix.
    NoPrefix(Prefix),
    /// The plane has no monitor for the router.
    NoRouter(RouterId),
}

/// The monitors of all routers, for a single prefix.
pub type PrefixPlane<'a> = Keyed<ReorderingMonitor<'a>>;

/// A plane for each prefix that is monitored.
pub struct Controller<'a> {
    pub net_planes: Keyed<PrefixPlane<'a>>,
    pub mrai: Option<Time>,
}

/// All monitors of a plane are well-formed.
pub open spec fn plane_wf(plane: PrefixPlane) -> bool {
    &&& plane.wf()
    &&& forall|r: RouterId| #[trigger] plane@.contains_key(r) ==> plane@[r].wf()
}

/// The messages of a sequence.
pub open spec fn messages(s: Seq<TimestampedEvent>) -> Seq<Message> {
    Seq::new(s.len(), |i: int| s[i].0)
}

/// The outcome of a message on the plane of a prefix.
pub open spec fn on_prefix(r: MonitoringResult, prefix: Prefix) -> Option<ErrorView> {
    match error_view(r) {
        Some(e) => Some(e.with_prefix(prefix)),
        None => None,
    }
}

/// The timeout that comes with a message was passed, or not.
pub open spec fn timeout<'a>(
    pre: ReorderingMonitor<'a>,
    mid: ReorderingMonitor<'a>,
    time: Time,
    r: MonitoringResult,
) -> bool {
    &&& mid.same_setup(&pre)
    &&& mid.incoming_counter == pre.incoming_counter
    &&& exists|results: Map<RouterId, MonitoringResult>| #[trigger]
        outcome(results, r) && deadline_steps(pre, mid, time, results)
}

/// What comes of a message, after the timeout that comes with it, and the time that goes with it: if
/// the timeout has failed, then that is only noticed later.
pub open spec fn monitored<'a>(
    pre: ReorderingMonitor<'a>,
    post: ReorderingMonitor<'a>,
    message: Message,
    mrai: Option<Time>,
    r: MonitoringResult,
    time: Time,
) -> bool {
    let p = message.event@.priority();
    match mrai {
        None => message_step(pre, post, message, r) && time == p,
        Some(d) => {
            ||| r is Err && timeout(pre, post, before(p, d), r) && time == later(p, d)
            ||| exists|mid: ReorderingMonitor<'a>, r0: MonitoringResult| #[trigger]
                timeout(pre, mid, before(p, d), r0) && r0 is Ok && message_step(
                    mid,
                    post,
                    message,
                    r,
                ) && time == p
        },
    }
}

/// What comes of a sequence of messages: a list of states, and an outcome for each message. Errors do
/// not stop the monitor.
pub open spec fn monitors<'a>(
    states: Seq<ReorderingMonitor<'a>>,
    msgs: Seq<Message>,
    mrai: Option<Time>,
    outcomes: Seq<(MonitoringResult, Time)>,
) -> bool {
    &&& states.len() == msgs.len() + 1
    &&& outcomes.len() == msgs.len()
    &&& forall|i: int| 0 <= i < states.len() ==> (#[trigger] states[i]).same_setup(&states[0])
    &&& forall|i: int|
        0 <= i < msgs.len() ==> monitored(
            states[i],
            states[i + 1],
            #[trigger] msgs[i],
            mrai,
            outcomes[i].0,
            outcomes[i].1,
        )
}

/// The outcomes, on the plane of a prefix.
pub open spec fn reported(
    outcomes: Seq<(MonitoringResult, Time)>,
    prefix: Prefix,
) -> Seq<OutcomeView> {
    Seq::new(
        outcomes.len(),
        |i: int| OutcomeView { error: on_prefix(outcomes[i].0, prefix), time: outcomes[i].1 },
    )
}

/// A monitor works through a sequence of messages and reports what it found.
pub open spec fn reports<'a>(
    pre: ReorderingMonitor<'a>,
    post: ReorderingMonitor<'a>,
    msgs: Seq<Message>,
    mrai: Option<Time>,
    prefix: Prefix,
    r: Seq<OutcomeView>,
) -> bool {
    exists|states: Seq<ReorderingMonitor<'a>>, outcomes: Seq<(MonitoringResult, Time)>| #[trigger]
        monitors(states, msgs, mrai, outcomes) && states[0] == pre && states.last() == post && r
            == reported(outcomes, prefix)
}

/// Let a monitor work through a sequence of messages.
fn run_router<'a>(
    monitor: &mut ReorderingMonitor<'a>,
    sequence: Vec<TimestampedEvent>,
    mrai: Option<Time>,
    prefix: Prefix,
) -> (r: Vec<Outcome>)
    requires
        old(monitor).wf(),
        forall|i: int| 0 <= i < sequence@.len() ==> (#[trigger] sequence@[i]).wf(),
        old(monitor).incoming_counter + sequence@.len() <= usize::MAX,
    ensures
        final(monitor).wf(),
        reports(
            *old(monitor),
            *final(monitor),
            messages(sequence@),
            mrai,
            prefix,
            outcome_views(r@),
        ),
        r@.len() == sequence@.len(),
{
    let ghost all = sequence@;
    let ghost mut states: Seq<ReorderingMonitor<'a>> = seq![*monitor];
    let ghost mut outcomes: Seq<(MonitoringResult, Time)> = seq![];
    let mut r: Vec<Outcome> = Vec::new();
    for t in it: sequence
        invariant
            it.seq() == all,
            forall|i: int| 0 <= i < all.len() ==> (#[trigger] all[i]).wf(),
            monitor.wf(),
            old(monitor).incoming_counter + all.len() <= usize::MAX,
            monitor.incoming_counter <= old(monitor).incoming_counter + it.index(),
            states[0] == *old(monitor),
            states.last() == *monitor,
            states.len() == it.index() + 1,
            r@.len() == it.index(),
            monitors(states, messages(all).take(it.index() as int), mrai, outcomes),
            outcome_views(r@) == reported(outcomes, prefix),
    {
        let ghost k = it.index() as int;
        let ghost pre = *monitor;
        let ghost (states0, outcomes0, r0) = (states, outcomes, r@);
        let TimestampedEvent(message) = t;
        let ghost m = message;
        assert(m == messages(all)[k]);
        assert(all[k].wf());
        let mut time: Time = message.event.priority();
        let mut result: MonitoringResult = Ok(());
        if let Some(d) = mrai {
            result = monitor.assert_messages_processed_before(time_before(time, d));
            assert(timeout(pre, *monitor, before(m.event@.priority(), d), result));
            if result.is_err() {
                time = later_than(time, d);
            }
        }
        let ghost mid = *monitor;
        if result.is_ok() {
            result = monitor.process_message(message);
        }
        proof {
            assert(monitored(pre, *monitor, m, mrai, result, time));
            states = states0.push(*monitor);
            outcomes = outcomes0.push((result, time));
            let (a, b) = (messages(all).take(k), messages(all).take(k + 1));
            assert forall|i: int| 0 <= i < b.len() implies monitored(
                states[i],
                states[i + 1],
                #[trigger] b[i],
                mrai,
                outcomes[i].0,
                outcomes[i].1,
            ) by {
                if i < k {
                    assert(b[i] == a[i]);
                    assert(monitored(
                        states0[i],
                        states0[i + 1],
                        a[i],
                        mrai,
                        outcomes0[i].0,
                        outcomes0[i].1,
                    ));
                }
            }
            assert forall|i: int| 0 <= i < states.len() implies (
            #[trigger] states[i]).same_setup(&states[0]) by {
                if i < states0.len() {
                    assert(states0[i].same_setup(&states0[0]));
                } else {
                    assert(states0[k].same_setup(&states0[0]));
                    assert(monitor.same_setup(&pre));
                }
            }
        }
        let ghost raw = result;
        let o: Outcome = match result {
            Ok(_) => (Ok(()), time),
            Err(e) => (Err(e.with_prefix(prefix)), time),
        };
        r.push(o);
        proof {
            assert(outcome_view(o) == OutcomeView { error: on_prefix(raw, prefix), time });
            assert(outcome_views(r@) =~= outcome_views(r0).push(outcome_view(o)));
            assert(reported(outcomes, prefix) =~= reported(outcomes0, prefix).push(
                outcome_view(o),
            ));
        }
    }
    proof {
        assert(messages(all).take(all.len() as int) =~= messages(all));
    }
    r
}

/// What is recorded for a correct router has no accusation before the first error.
pub proof fn law_monitoring_spares_correct<'a>(
    states: Seq<ReorderingMonitor<'a>>,
    msgs: Seq<Message>,
    mrai: Option<Time>,
    outcomes: Seq<(MonitoringResult, Time)>,
    run: Run,
    k: int,
)
    requires
        monitors(states, msgs, mrai, outcomes),
        correct(states[0], msgs, mrai, run),
        0 <= k <= msgs.len(),
        forall|i: int| 0 <= i < k ==> (#[trigger] outcomes[i]).0 is Ok,
    ensures
        k < msgs.len() ==> no_accusation(outcomes[k].0),
        keeps_up(states[0], states[k], msgs, run, k),
        states[k].incoming_counter == states[0].incoming_counter + num_incoming(
            states[0].router_id,
            msgs.take(k),
        ),
    decreases k,
{
    let pre = states[0];
    if k == 0 {
        assert(msgs.take(0) =~= Seq::<Message>::empty());
    } else {
        law_monitoring_spares_correct(states, msgs, mrai, outcomes, run, k - 1);
        lemma_spared(states, msgs, mrai, outcomes, run, k - 1);
    }
    if k < msgs.len() {
        lemma_spared(states, msgs, mrai, outcomes, run, k);
    }
}

proof fn lemma_spared<'a>(
    states: Seq<ReorderingMonitor<'a>>,
    msgs: Seq<Message>,
    mrai: Option<Time>,
    outcomes: Seq<(MonitoringResult, Time)>,
    run: Run,
    k: int,
)
    requires
        monitors(states, msgs, mrai, outcomes),
        correct(states[0], msgs, mrai, run),
        0 <= k < msgs.len(),
        keeps_up(states[0], states[k], msgs, run, k),
        states[k].incoming_counter == states[0].incoming_counter + num_incoming(
            states[0].router_id,
            msgs.take(k),
        ),
    ensures
        no_accusation(outcomes[k].0),
        outcomes[k].0 is Ok ==> keeps_up(states[0], states[k + 1], msgs, run, k + 1)
            && states[k + 1].incoming_counter == states[0].incoming_counter + num_incoming(
            states[0].router_id,
            msgs.take(k + 1),
        ),
{
    let pre = states[0];
    let (cur, next, r) = (states[k], states[k + 1], outcomes[k].0);
    assert(cur.same_setup(&pre));
    assert(monitored(cur, next, msgs[k], mrai, r, outcomes[k].1));
    match mrai {
        None => {
            lemma_no_deadline(pre, cur, msgs, mrai, run, k);
            law_message_spares_correct(pre, cur, next, msgs, mrai, run, k, r);
        },
        Some(d) => {
            let time = before(msgs[k].event@.priority(), d);
            if r is Err && timeout(cur, next, time, r) {
                let results = choose|results: Map<RouterId, MonitoringResult>| #[trigger]
                    outcome(results, r) && deadline_steps(cur, next, time, results);
                law_deadline_spares_correct(pre, cur, next, msgs, d, run, k, results, r);
            } else {
                let (mid, r0) = choose|mid: ReorderingMonitor<'a>, r0: MonitoringResult| #[trigger]
                    timeout(cur, mid, time, r0) && r0 is Ok && message_step(
                        mid,
                        next,
                        msgs[k],
                        r,
                    );
                let results = choose|results: Map<RouterId, MonitoringResult>| #[trigger]
                    outcome(results, r0) && deadline_steps(cur, mid, time, results);
                law_deadline_spares_correct(pre, cur, mid, msgs, d, run, k, results, r0);
                law_message_spares_correct(pre, mid, next, msgs, mrai, run, k, r);
            }
        },
    }
}

/// The outcomes at a router.
pub open spec fn outcomes_at(results: RouterResults, r: RouterId) -> Seq<Outcome> {
    if results@.contains_key(r) {
        results@[r]@
    } else {
        Seq::empty()
    }
}

/// The monitors of a plane work through the sequences of their routers. The others do nothing.
pub open spec fn plane_runs<'a>(
    pre: PrefixPlane<'a>,
    post: PrefixPlane<'a>,
    routers: RouterSequences,
    mrai: Option<Time>,
    prefix: Prefix,
    results: RouterResults,
) -> bool {
    &&& post@.dom() == pre@.dom()
    &&& results.wf()
    &&& forall|r: RouterId| #[trigger] routers@.contains_key(r) ==> pre@.contains_key(r)
    &&& forall|r: RouterId| #[trigger]
        results@.contains_key(r) <==> routers@.contains_key(r) && routers@[r]@.len() > 0
    &&& forall|r: RouterId| #[trigger]
        routers@.contains_key(r) ==> reports(
            pre@[r],
            post@[r],
            messages(routers@[r]@),
            mrai,
            prefix,
            outcome_views(outcomes_at(results, r)),
        )
    &&& forall|r: RouterId| #[trigger]
        pre@.contains_key(r) && !routers@.contains_key(r) ==> post@[r] == pre@[r]
}

/// The messages of each router can be counted.
pub open spec fn countable(plane: PrefixPlane, routers: RouterSequences) -> bool {
    forall|r: RouterId| #[trigger]
        plane@.contains_key(r) && routers@.contains_key(r) ==> plane@[r].incoming_counter
            + routers@[r]@.len() <= usize::MAX
}

/// Let the monitors of a plane work through the sequences of their routers.
fn run_plane<'a>(
    plane: &mut PrefixPlane<'a>,
    prefix: Prefix,
    routers: RouterSequences,
    mrai: Option<Time>,
) -> (r: Result<RouterResults, ControllerError>)
    requires
        plane_wf(*old(plane)),
        sequences_wf(routers),
        countable(*old(plane), routers),
    ensures
        plane_wf(*final(plane)),
        final(plane)@.dom() == old(plane)@.dom(),
        match r {
            Ok(results) => plane_runs(*old(plane), *final(plane), routers, mrai, prefix, results),
            Err(e) => e matches ControllerError::NoRouter(x) && routers@.contains_key(x) && !old(
                plane,
            )@.contains_key(x),
        },
{
    let ghost pre = *plane;
    let ghost all = routers.entries@;
    let mut results: RouterResults = Keyed::new();
    for e in it: routers.entries
        invariant
            it.seq() == all,
            all == routers.entries@,
            pre == *old(plane),
            sequences_wf(routers),
            countable(pre, routers),
            plane_wf(*plane),
            results.wf(),
            plane@.dom() == pre@.dom(),
            forall|i: int| 0 <= i < it.index() ==> pre@.contains_key((#[trigger] all[i]).0),
            forall|r: RouterId| #[trigger]
                results@.contains_key(r) <==> crate::keyed::has_key(
                    all.take(it.index() as int),
                    r,
                ) && routers@[r]@.len() > 0,
            forall|i: int|
                0 <= i < it.index() ==> reports(
                    pre@[(#[trigger] all[i]).0],
                    plane@[all[i].0],
                    messages(all[i].1@),
                    mrai,
                    prefix,
                    outcome_views(outcomes_at(results, all[i].0)),
                ),
            forall|r: RouterId| #[trigger]
                pre@.contains_key(r) && !crate::keyed::has_key(all.take(it.index() as int), r)
                    ==> plane@[r] == pre@[r],
    {
        let ghost k = it.index() as int;
        let ghost (plane0, results0) = (*plane, results);
        let (router, sequence) = e;
        proof {
            lemma_entry(all, k);
            assert(all[k].0 == router && all[k].1 == sequence);
            assert(routers@.contains_key(router) && routers@[router] == sequence);
            assert forall|i: int| 0 <= i < sequence@.len() implies (
            #[trigger] sequence@[i]).wf() by {
                assert(routers@[router]@[i].wf());
            }
            assert(!crate::keyed::has_key(all.take(k), router)) by {
                if crate::keyed::has_key(all.take(k), router) {
                    let j = choose|j: int| 0 <= j < k && (#[trigger] all.take(k)[j]).0 == router;
                    assert(all[j].0 == all[k].0);
                }
            }
            assert(plane@.dom().contains(router) == pre@.dom().contains(router));
        }
        match plane.get_mut(router) {
            Some(monitor) => {
                assert(pre@.contains_key(router));
                let outcomes = run_router(monitor, sequence, mrai, prefix);
                if outcomes.len() > 0 {
                    results.insert(router, outcomes);
                } else {
                    assert(outcomes@ =~= Seq::<Outcome>::empty());
                }
            },
            None => {
                return Err(ControllerError::NoRouter(router));
            },
        }
        proof {
            assert(plane@.dom() =~= pre@.dom());
            assert forall|r: RouterId| #[trigger] plane@.contains_key(r) implies plane@[r].wf() by {
                if r != router {
                    assert(plane0@.contains_key(r));
                }
            }
            assert forall|r: RouterId| #[trigger] results@.contains_key(r) <==> crate::keyed::has_key(
                all.take(k + 1),
                r,
            ) && routers@[r]@.len() > 0 by {
                crate::keyed::lemma_has_key_take(all, k, r);
                assert(results0@.contains_key(r) || !results0@.contains_key(r));
            }
            assert forall|i: int| 0 <= i < k + 1 implies reports(
                pre@[(#[trigger] all[i]).0],
                plane@[all[i].0],
                messages(all[i].1@),
                mrai,
                prefix,
                outcome_views(outcomes_at(results, all[i].0)),
            ) by {
                if i < k {
                    assert(all[i].0 != router) by {
                        assert(all[i].0 == all[k].0 ==> i == k);
                    }
                    assert(plane@[all[i].0] == plane0@[all[i].0]);
                    assert(outcomes_at(results, all[i].0) == outcomes_at(results0, all[i].0));
                } else {
                    assert(!results0@.contains_key(router)) by {
                        if results0@.contains_key(router) {
                            assert(crate::keyed::has_key(all.take(k), router));
                        }
                    }
                }
            }
            assert forall|r: RouterId| #[trigger]
                pre@.contains_key(r) && !crate::keyed::has_key(all.take(k + 1), r) implies plane@[r]
                == pre@[r] by {
                crate::keyed::lemma_has_key_take(all, k, r);
            }
        }
    }
    proof {
        assert(all.take(all.len() as int) =~= all);
        assert forall|r: RouterId| #[trigger] routers@.contains_key(r) implies pre@.contains_key(r)
            && reports(
            pre@[r],
            plane@[r],
            messages(routers@[r]@),
            mrai,
            prefix,
            outcome_views(outcomes_at(results, r)),
        ) by {
            let i = lemma_key(all, r);
            assert(all[i].0 == r);
        }
        assert forall|r: RouterId| #[trigger] results@.contains_key(r) <==> routers@.contains_key(r)
            && routers@[r]@.len() > 0 by {
            assert(routers@.contains_key(r) == crate::keyed::has_key(all, r));
        }
        assert forall|r: RouterId| #[trigger]
            pre@.contains_key(r) && !routers@.contains_key(r) implies plane@[r] == pre@[r] by {
            assert(routers@.contains_key(r) == crate::keyed::has_key(all, r));
        }
    }
    Ok(results)
}

/// The time of the final check of a prefix at a router: that of the last message, and then the time
/// that messages may be held back.
pub open spec fn final_check_time(
    recording: Recording,
    mrai: Option<Time>,
    p: Prefix,
    r: RouterId,
) -> Option<Time> {
    let s = recording.at(p, r);
    if s.len() > 0 {
        Some(
            later(
                s.last().0.event@.priority(),
                match mrai {
                    Some(d) => d,
                    None => 0,
                },
            ),
        )
    } else {
        None
    }
}

/// The time of the final check of a prefix at a router.
pub open spec fn time_at(times: Keyed<Keyed<Time>>, p: Prefix, r: RouterId) -> Option<Time> {
    if times@.contains_key(p) && times@[p]@.contains_key(r) {
        Some(times@[p]@[r])
    } else {
        None
    }
}

/// All maps are well-formed.
pub open spec fn times_wf(times: Keyed<Keyed<Time>>) -> bool {
    &&& times.wf()
    &&& forall|p: Prefix| #[trigger] times@.contains_key(p) ==> times@[p].wf()
}

/// The times of the final checks of a prefix.
fn plane_times(routers: &RouterSequences, delay: Time) -> (r: Keyed<Time>)
    requires
        routers.wf(),
    ensures
        r.wf(),
        forall|x: RouterId| #[trigger]
            r@.contains_key(x) <==> routers@.contains_key(x) && routers@[x]@.len() > 0,
        forall|x: RouterId| #[trigger]
            r@.contains_key(x) ==> r@[x] == later(
                routers@[x]@.last().0.event@.priority(),
                delay,
            ),
{
    let ghost all = routers.entries@;
    let mut r: Keyed<Time> = Keyed::new();
    for i in 0..routers.entries.len()
        invariant
            all == routers.entries@,
            routers.wf(),
            r.wf(),
            forall|x: RouterId| #[trigger]
                r@.contains_key(x) <==> crate::keyed::has_key(all.take(i as int), x)
                    && routers@[x]@.len() > 0,
            forall|x: RouterId| #[trigger]
                r@.contains_key(x) ==> r@[x] == later(
                    routers@[x]@.last().0.event@.priority(),
                    delay,
                ),
    {
        let ghost before = r@;
        let router: RouterId = routers.entries[i].0;
        let n: usize = routers.entries[i].1.len();
        proof {
            lemma_entry(all, i as int);
        }
        if n > 0 {
            let t: Time = routers.entries[i].1[n - 1].0.event.priority();
            r.insert(router, later_than(t, delay));
        }
        proof {
            assert forall|x: RouterId| #[trigger] r@.contains_key(x) <==> crate::keyed::has_key(
                all.take(i + 1),
                x,
            ) && routers@[x]@.len() > 0 by {
                crate::keyed::lemma_has_key_take(all, i as int, x);
                assert(before.contains_key(x) || !before.contains_key(x));
            }
        }
    }
    proof {
        assert(all.take(all.len() as int) =~= all);
        assert forall|x: RouterId| #[trigger] r@.contains_key(x) <==> routers@.contains_key(x)
            && routers@[x]@.len() > 0 by {
            assert(routers@.contains_key(x) == crate::keyed::has_key(all, x));
        }
    }
    r
}

/// The times of the final checks.
fn final_check_times(recording: &Recording, mrai: Option<Time>) -> (r: Keyed<Keyed<Time>>)
    requires
        recording.wf(),
    ensures
        times_wf(r),
        are_final_times(r, *recording, mrai),
{
    let delay: Time = match mrai {
        Some(d) => d,
        None => 0,
    };
    let ghost all = recording.sequences.entries@;
    let mut r: Keyed<Keyed<Time>> = Keyed::new();
    for i in 0..recording.sequences.entries.len()
        invariant
            all == recording.sequences.entries@,
            recording.wf(),
            times_wf(r),
            delay == (match mrai {
                Some(d) => d,
                None => 0,
            }),
            forall|p: Prefix| #[trigger]
                r@.contains_key(p) <==> crate::keyed::has_key(all.take(i as int), p),
            forall|p: Prefix, x: RouterId|
                r@.contains_key(p) ==> #[trigger] time_at(r, p, x) == final_check_time(
                    *recording,
                    mrai,
                    p,
                    x,
                ),
    {
        let ghost before = r;
        let prefix: Prefix = recording.sequences.entries[i].0;
        proof {
            lemma_entry(all, i as int);
            assert(recording.sequences@.contains_key(prefix));
            assert(sequences_wf(recording.sequences@[prefix]));
        }
        let t = plane_times(&recording.sequences.entries[i].1, delay);
        r.insert(prefix, t);
        proof {
            assert forall|p: Prefix| #[trigger] r@.contains_key(p) <==> crate::keyed::has_key(
                all.take(i + 1),
                p,
            ) by {
                crate::keyed::lemma_has_key_take(all, i as int, p);
                assert(before@.contains_key(p) || !before@.contains_key(p));
            }
            assert forall|p: Prefix, x: RouterId| r@.contains_key(p) implies #[trigger] time_at(
                r,
                p,
                x,
            ) == final_check_time(*recording, mrai, p, x) by {
                if p == prefix {
                    assert(t@.contains_key(x) || !t@.contains_key(x));
                } else {
                    assert(before@.contains_key(p));
                    assert(time_at(before, p, x) == final_check_time(*recording, mrai, p, x));
                }
            }
        }
    }
    proof {
        assert(all.take(all.len() as int) =~= all);
        assert forall|p: Prefix, x: RouterId| #[trigger] time_at(r, p, x) == final_check_time(
            *recording,
            mrai,
            p,
            x,
        ) by {
            assert(recording.sequences@.contains_key(p) == crate::keyed::has_key(all, p));
            assert(r@.contains_key(p) <==> crate::keyed::has_key(all, p));
        }
    }
    r
}

/// What comes of the final check of a monitor.
pub open spec fn finally<'a>(
    pre: ReorderingMonitor<'a>,
    post: ReorderingMonitor<'a>,
    r: MonitoringResult,
) -> bool {
    exists|results: Map<RouterId, MonitoringResult>| #[trigger]
        outcome(results, r) && final_steps(pre, post, results)
}

/// A monitor does its final check at a certain time, or none.
pub open spec fn checks<'a>(
    pre: ReorderingMonitor<'a>,
    post: ReorderingMonitor<'a>,
    prefix: Prefix,
    time: Option<Time>,
    before: Seq<Outcome>,
    after: Seq<Outcome>,
) -> bool {
    match time {
        Some(t) => exists|r: MonitoringResult| #[trigger]
            finally(pre, post, r) && outcome_views(after) == outcome_views(before).push(
                OutcomeView { error: on_prefix(r, prefix), time: t },
            ),
        None => post == pre && after == before,
    }
}

/// The monitors of a plane do their final checks.
pub open spec fn plane_checks<'a>(
    pre: PrefixPlane<'a>,
    post: PrefixPlane<'a>,
    prefix: Prefix,
    times: Keyed<Time>,
    before: RouterResults,
    after: RouterResults,
) -> bool {
    &&& post@.dom() == pre@.dom()
    &&& forall|r: RouterId| #[trigger]
        pre@.contains_key(r) ==> checks(
            pre@[r],
            post@[r],
            prefix,
            if times@.contains_key(r) {
                Some(times@[r])
            } else {
                None
            },
            outcomes_at(before, r),
            outcomes_at(after, r),
        )
    &&& forall|r: RouterId|
        !pre@.contains_key(r) ==> #[trigger] outcomes_at(after, r) == outcomes_at(before, r)
    &&& forall|r: RouterId| #[trigger]
        after@.contains_key(r) <==> before@.contains_key(r) || (pre@.contains_key(r)
            && times@.contains_key(r))
}

/// Append an outcome to those of a router.
fn push_outcome(results: &mut RouterResults, router: RouterId, o: Outcome)
    requires
        old(results).wf(),
    ensures
        final(results).wf(),
        final(results)@.dom() == old(results)@.dom().insert(router),
        outcomes_at(*final(results), router) == outcomes_at(*old(results), router).push(o),
        forall|r: RouterId|
            r != router ==> #[trigger] outcomes_at(*final(results), r) == outcomes_at(
                *old(results),
                r,
            ),
{
    let ghost before = results@;
    if !results.contains(router) {
        results.insert(router, Vec::new());
    }
    match results.get_mut(router) {
        Some(outcomes) => outcomes.push(o),
        None => {
            assert(false);
        },
    }
    assert(results@.dom() =~= before.dom().insert(router));
}

/// Let the monitors of a plane do their final checks.
fn check_plane<'a>(
    plane: &mut PrefixPlane<'a>,
    prefix: Prefix,
    times: &Keyed<Time>,
    results: &mut RouterResults,
)
    requires
        plane_wf(*old(plane)),
        times.wf(),
        old(results).wf(),
    ensures
        plane_wf(*final(plane)),
        final(results).wf(),
        plane_checks(*old(plane), *final(plane), prefix, *times, *old(results), *final(results)),
{
    let ghost pre = *plane;
    let ghost all = plane.entries@;
    let n: usize = plane.entries.len();
    let mut i: usize = 0;
    while i < n
        invariant
            i <= n,
            n == all.len(),
            n == plane.entries@.len(),
            pre == *old(plane),
            all == pre.entries@,
            unique_keys(all),
            times.wf(),
            plane_wf(*plane),
            results.wf(),
            forall|j: int| 0 <= j < n ==> (#[trigger] all[j]).0 == plane.entries@[j].0,
            forall|j: int|
                0 <= j < i ==> checks(
                    (#[trigger] all[j]).1,
                    plane.entries@[j].1,
                    prefix,
                    if times@.contains_key(all[j].0) {
                        Some(times@[all[j].0])
                    } else {
                        None
                    },
                    outcomes_at(*old(results), all[j].0),
                    outcomes_at(*results, all[j].0),
                ),
            forall|j: int| i <= j < n ==> #[trigger] all[j] == plane.entries@[j],
            forall|r: RouterId|
                !crate::keyed::has_key(all.take(i as int), r) ==> #[trigger] outcomes_at(
                    *results,
                    r,
                ) == outcomes_at(*old(results), r),
            forall|r: RouterId| #[trigger]
                results@.contains_key(r) <==> old(results)@.contains_key(r) || (
                crate::keyed::has_key(all.take(i as int), r) && times@.contains_key(r)),
        decreases n - i,
    {
        let ghost (plane0, results0) = (*plane, *results);
        let router: RouterId = plane.entries[i].0;
        proof {
            lemma_entry(plane.entries@, i as int);
            assert(plane@.contains_key(router));
            assert(!crate::keyed::has_key(all.take(i as int), router)) by {
                if crate::keyed::has_key(all.take(i as int), router) {
                    let j = choose|j: int|
                        0 <= j < i && (#[trigger] all.take(i as int)[j]).0 == router;
                    assert(all[j].0 == all[i as int].0);
                }
            }
            assert(outcomes_at(results0, router) == outcomes_at(*old(results), router));
        }
        match times.get(router) {
            Some(t) => {
                let ghost m0 = plane.entries@[i as int].1;
                let result: MonitoringResult = plane.entries[i].1.final_check();
                let ghost raw = result;
                let o: Outcome = match result {
                    Ok(_) => (Ok(()), *t),
                    Err(e) => (Err(e.with_prefix(prefix)), *t),
                };
                push_outcome(results, router, o);
                proof {
                    let m1 = plane.entries@[i as int].1;
                    assert(plane.entries@ =~= plane0.entries@.update(i as int, (router, m1)));
                    crate::keyed::lemma_same_keys_update(plane0.entries@, i as int, m1);
                    assert(finally(m0, m1, raw));
                    assert(outcome_view(o) == OutcomeView {
                        error: on_prefix(raw, prefix),
                        time: *t,
                    });
                    assert(outcome_views(outcomes_at(*results, router)) =~= outcome_views(
                        outcomes_at(*old(results), router),
                    ).push(outcome_view(o)));
                }
            },
            None => {},
        }
        proof {
            assert forall|j: int| 0 <= j < i + 1 implies checks(
                (#[trigger] all[j]).1,
                plane.entries@[j].1,
                prefix,
                if times@.contains_key(all[j].0) {
                    Some(times@[all[j].0])
                } else {
                    None
                },
                outcomes_at(*old(results), all[j].0),
                outcomes_at(*results, all[j].0),
            ) by {
                if j < i {
                    assert(all[j].0 != router) by {
                        assert(all[j].0 == all[i as int].0 ==> j == i);
                    }
                    assert(outcomes_at(*results, all[j].0) == outcomes_at(results0, all[j].0));
                    assert(plane.entries@[j] == plane0.entries@[j]);
                }
            }
            assert forall|r: RouterId| !crate::keyed::has_key(
                all.take(i + 1),
                r,
            ) implies #[trigger] outcomes_at(*results, r) == outcomes_at(*old(results), r) by {
                crate::keyed::lemma_has_key_take(all, i as int, r);
                assert(outcomes_at(results0, r) == outcomes_at(*old(results), r));
            }
            assert forall|r: RouterId| #[trigger] results@.contains_key(r) <==> old(
                results,
            )@.contains_key(r) || (crate::keyed::has_key(all.take(i + 1), r)
                && times@.contains_key(r)) by {
                crate::keyed::lemma_has_key_take(all, i as int, r);
                assert(results0@.contains_key(r) || !results0@.contains_key(r));
                assert(results@.dom().contains(r) == (results0@.dom().contains(r) || (r == router
                    && times@.contains_key(router))));
            }
            assert forall|r: RouterId| #[trigger] plane@.contains_key(r) implies plane@[r].wf() by {
                if r != router {
                    assert(plane0@.contains_key(r));
                }
            }
        }
        i += 1;
    }
    proof {
        assert(all.take(n as int) =~= all);
        lemma_same_keys(all, plane.entries@);
        assert(plane@.dom() =~= pre@.dom());
        assert forall|r: RouterId| #[trigger] pre@.contains_key(r) implies checks(
            pre@[r],
            plane@[r],
            prefix,
            if times@.contains_key(r) {
                Some(times@[r])
            } else {
                None
            },
            outcomes_at(*old(results), r),
            outcomes_at(*results, r),
        ) by {
            assert(as_map(plane.entries@).contains_key(r));
            let j = choose|j: int|
                0 <= j < all.len() && (#[trigger] all[j]).0 == r && as_map(all)[r] == all[j].1
                    && as_map(plane.entries@)[r] == plane.entries@[j].1;
            assert(all[j].0 == r);
        }
        assert forall|r: RouterId| !pre@.contains_key(r) implies #[trigger] outcomes_at(
            *results,
            r,
        ) == outcomes_at(*old(results), r) by {
            assert(pre@.contains_key(r) == crate::keyed::has_key(all, r));
        }
        assert forall|r: RouterId| #[trigger] results@.contains_key(r) <==> old(
            results,
        )@.contains_key(r) || (pre@.contains_key(r) && times@.contains_key(r)) by {
            assert(pre@.contains_key(r) == crate::keyed::has_key(all, r));
        }
    }
}

/// The recorded messages run through the planes of their prefixes.
pub open spec fn recording_runs<'a>(
    pre: Controller<'a>,
    post: Controller<'a>,
    recording: Recording,
    results: MonitoringResults,
) -> bool {
    &&& post.mrai == pre.mrai
    &&& post.net_planes@.dom() == pre.net_planes@.dom()
    &&& results.wf()
    &&& forall|p: Prefix| #[trigger]
        results.results@.contains_key(p) <==> recording.sequences@.contains_key(p)
    &&& forall|p: Prefix| #[trigger]
        recording.sequences@.contains_key(p) ==> pre.net_planes@.contains_key(p) && plane_runs(
            pre.net_planes@[p],
            post.net_planes@[p],
            recording.sequences@[p],
            pre.mrai,
            p,
            results.results@[p],
        )
    &&& forall|p: Prefix| #[trigger]
        pre.net_planes@.contains_key(p) && !recording.sequences@.contains_key(p)
            ==> post.net_planes@[p] == pre.net_planes@[p]
}

/// All monitors do their final checks, as far as a time is given for them.
pub open spec fn final_checks<'a>(
    pre: Controller<'a>,
    post: Controller<'a>,
    times: Keyed<Keyed<Time>>,
    before: MonitoringResults,
    after: MonitoringResults,
) -> bool {
    &&& post.mrai == pre.mrai
    &&& post.net_planes@.dom() == pre.net_planes@.dom()
    &&& forall|p: Prefix, r: RouterId|
        #![trigger time_at(times, p, r)]
        if pre.net_planes@.contains_key(p) && pre.net_planes@[p]@.contains_key(r) {
            &&& post.net_planes@[p]@.contains_key(r)
            &&& checks(
                pre.net_planes@[p]@[r],
                post.net_planes@[p]@[r],
                p,
                time_at(times, p, r),
                before.at(p, r),
                after.at(p, r),
            )
        } else {
            after.at(p, r) == before.at(p, r)
        }
}

/// All monitors of recorded routers do their final checks.
pub open spec fn concludes<'a>(
    pre: Controller<'a>,
    post: Controller<'a>,
    recording: Recording,
    before: MonitoringResults,
    after: MonitoringResults,
) -> bool {
    exists|times: Keyed<Keyed<Time>>| #[trigger]
        final_checks(pre, post, times, before, after) && are_final_times(
            times,
            recording,
            pre.mrai,
        )
}

/// The recorded messages run through the monitors and then, if they give no error, all monitors of
/// recorded routers do their final checks.
pub open spec fn monitors_recording<'a>(
    pre: Controller<'a>,
    post: Controller<'a>,
    recording: Recording,
    results: MonitoringResults,
) -> bool {
    exists|mid: Controller<'a>, during: MonitoringResults| #[trigger]
        recording_runs(pre, mid, recording, during) && if all_errors(
            during.results.entries@,
        ).len() > 0 {
            post == mid && results == during
        } else {
            concludes(mid, post, recording, during, results)
        }
}

/// The times are those of the final checks.
pub open spec fn are_final_times(
    times: Keyed<Keyed<Time>>,
    recording: Recording,
    mrai: Option<Time>,
) -> bool {
    forall|p: Prefix, x: RouterId| #[trigger]
        time_at(times, p, x) == final_check_time(recording, mrai, p, x)
}

impl<'a> Controller<'a> {
    pub open spec fn wf(&self) -> bool {
        &&& self.net_planes.wf()
        &&& forall|p: Prefix| #[trigger]
            self.net_planes@.contains_key(p) ==> plane_wf(self.net_planes@[p])
    }

    /// There is a plane for each prefix of the recording, with a monitor for each of its routers.
    pub open spec fn can_monitor(&self, recording: Recording) -> bool {
        forall|p: Prefix| #[trigger]
            recording.sequences@.contains_key(p) ==> self.net_planes@.contains_key(p) && forall|
                r: RouterId,
            | #[trigger]
                recording.sequences@[p]@.contains_key(r) ==> self.net_planes@[p]@.contains_key(r)
    }

    /// The messages of the recording can be counted.
    pub open spec fn can_count(&self, recording: Recording) -> bool {
        forall|p: Prefix| #[trigger]
            recording.sequences@.contains_key(p) && self.net_planes@.contains_key(p) ==> countable(
                self.net_planes@[p],
                recording.sequences@[p],
            )
    }

    /// Monitor the messages of a prefix.
    pub fn monitor_prefix(&mut self, prefix: Prefix, routers: RouterSequences) -> (r: Result<
        RouterResults,
        ControllerError,
    >)
        requires
            old(self).wf(),
            sequences_wf(routers),
            old(self).net_planes@.contains_key(prefix) ==> countable(
                old(self).net_planes@[prefix],
                routers,
            ),
        ensures
            final(self).wf(),
            final(self).mrai == old(self).mrai,
            final(self).net_planes@.dom() == old(self).net_planes@.dom(),
            forall|p: Prefix| #[trigger]
                old(self).net_planes@.contains_key(p) && p != prefix ==> final(self).net_planes@[p]
                    == old(self).net_planes@[p],
            match r {
                Ok(results) => old(self).net_planes@.contains_key(prefix) && plane_runs(
                    old(self).net_planes@[prefix],
                    final(self).net_planes@[prefix],
                    routers,
                    old(self).mrai,
                    prefix,
                    results,
                ),
                Err(ControllerError::NoPrefix(p)) => p == prefix && !old(
                    self,
                ).net_planes@.contains_key(prefix),
                Err(ControllerError::NoRouter(x)) => old(self).net_planes@.contains_key(prefix)
                    && routers@.contains_key(x) && !old(self).net_planes@[prefix]@.contains_key(x),
            },
    {
        let mrai: Option<Time> = self.mrai;
        let ghost before = self.net_planes@;
        let r = match self.net_planes.get_mut(prefix) {
            Some(plane) => run_plane(plane, prefix, routers, mrai),
            None => Err(ControllerError::NoPrefix(prefix)),
        };
        proof {
            assert(self.net_planes@.dom() =~= before.dom());
            assert forall|p: Prefix| #[trigger] self.net_planes@.contains_key(p) implies plane_wf(
                self.net_planes@[p],
            ) by {
                if p != prefix {
                    assert(before.contains_key(p));
                }
            }
        }
        r
    }

    /// Let all monitors do their final checks at the given times. Monitors without one do nothing.
    pub fn check_final_state(
        &mut self,
        results: &mut MonitoringResults,
        final_check_times: &Keyed<Keyed<Time>>,
    )
        requires
            old(self).wf(),
            old(results).wf(),
            times_wf(*final_check_times),
        ensures
            final(self).wf(),
            final(results).wf(),
            final_checks(
                *old(self),
                *final(self),
                *final_check_times,
                *old(results),
                *final(results),
            ),
    {
        let ghost pre = *self;
        let ghost all = self.net_planes.entries@;
        let n: usize = self.net_planes.entries.len();
        let mut i: usize = 0;
        while i < n
            invariant
                i <= n,
                n == all.len(),
                n == self.net_planes.entries@.len(),
                pre == *old(self),
                all == pre.net_planes.entries@,
                unique_keys(all),
                times_wf(*final_check_times),
                self.wf(),
                self.mrai == pre.mrai,
                results.wf(),
                forall|j: int| 0 <= j < n ==> (#[trigger] all[j]).0 == self.net_planes.entries@[j].0,
                forall|j: int| i <= j < n ==> #[trigger] all[j] == self.net_planes.entries@[j],
                forall|j: int, r: RouterId|
                    #![trigger all[j].1@.contains_key(r)]
                    0 <= j < i && all[j].1@.contains_key(r) ==> {
                        &&& self.net_planes.entries@[j].1@.contains_key(r)
                        &&& checks(
                            all[j].1@[r],
                            self.net_planes.entries@[j].1@[r],
                            all[j].0,
                            time_at(*final_check_times, all[j].0, r),
                            old(results).at(all[j].0, r),
                            results.at(all[j].0, r),
                        )
                    },
                forall|p: Prefix, r: RouterId|
                    !(crate::keyed::has_key(all.take(i as int), p)
                        && pre.net_planes@[p]@.contains_key(r)) ==> #[trigger] results.at(p, r)
                        == old(results).at(p, r),
            decreases n - i,
        {
            let ghost (self0, results0) = (*self, *results);
            let prefix: Prefix = self.net_planes.entries[i].0;
            proof {
                lemma_entry(self.net_planes.entries@, i as int);
                lemma_entry(all, i as int);
                assert(self.net_planes@.contains_key(prefix));
                assert(pre.net_planes@[prefix] == all[i as int].1);
                assert(!crate::keyed::has_key(all.take(i as int), prefix)) by {
                    if crate::keyed::has_key(all.take(i as int), prefix) {
                        let j = choose|j: int|
                            0 <= j < i && (#[trigger] all.take(i as int)[j]).0 == prefix;
                        assert(all[j].0 == all[i as int].0);
                    }
                }
            }
            match final_check_times.get(prefix) {
                Some(times) => {
                    let mut of_prefix: RouterResults = Keyed::new();
                    let ghost fresh = of_prefix;
                    if !results.results.contains(prefix) {
                        check_plane(
                            &mut self.net_planes.entries[i].1,
                            prefix,
                            times,
                            &mut of_prefix,
                        );
                        proof {
                            assert forall|r: RouterId| outcomes_at(fresh, r) == #[trigger] results0.at(
                                prefix,
                                r,
                            ) by {}
                        }
                        if of_prefix.entries.len() > 0 {
                            results.results.insert(prefix, of_prefix);
                        } else {
                            assert forall|r: RouterId| #[trigger] outcomes_at(of_prefix, r)
                                == Seq::<Outcome>::empty() by {
                                if of_prefix@.contains_key(r) {
                                    let j = lemma_key(of_prefix.entries@, r);
                                }
                            }
                        }
                        proof {
                            assert forall|r: RouterId| #[trigger] results.at(prefix, r)
                                == outcomes_at(of_prefix, r) by {
                                assert(outcomes_at(of_prefix, r) == outcomes_at(of_prefix, r));
                            }
                        }
                    } else {
                        match results.results.get_mut(prefix) {
                            Some(routers) => check_plane(
                                &mut self.net_planes.entries[i].1,
                                prefix,
                                times,
                                routers,
                            ),
                            None => {
                                assert(false);
                            },
                        }
                    }
                    proof {
                        let plane = self.net_planes.entries@[i as int].1;
                        let entries0 = self0.net_planes.entries@;
                        assert(self.net_planes.entries@ =~= entries0.update(
                            i as int,
                            (prefix, plane),
                        ));
                        crate::keyed::lemma_same_keys_update(entries0, i as int, plane);
                        assert forall|r: RouterId| #[trigger]
                            all[i as int].1@.contains_key(r) implies plane@.contains_key(r)
                            && checks(
                            all[i as int].1@[r],
                            plane@[r],
                            prefix,
                            time_at(*final_check_times, prefix, r),
                            results0.at(prefix, r),
                            results.at(prefix, r),
                        ) by {
                            assert(plane@.dom().contains(r));
                        }
                        assert forall|r: RouterId| !all[i as int].1@.contains_key(
                            r,
                        ) implies #[trigger] results.at(prefix, r) == results0.at(prefix, r) by {
                            if results0.results@.contains_key(prefix) {
                                assert(outcomes_at(results.results@[prefix], r) == outcomes_at(
                                    results0.results@[prefix],
                                    r,
                                ));
                            } else {
                                assert(outcomes_at(fresh, r) == Seq::<Outcome>::empty());
                                assert(outcomes_at(of_prefix, r) == outcomes_at(fresh, r));
                            }
                        }
                    }
                },
                None => {},
            }
            proof {
                assert forall|p: Prefix, r: RouterId| p != prefix implies #[trigger] results.at(p, r)
                    == results0.at(p, r) by {}
                assert forall|r: RouterId| #[trigger] results0.at(prefix, r) == old(results).at(
                    prefix,
                    r,
                ) by {}
                assert forall|j: int, r: RouterId|
                    #![trigger all[j].1@.contains_key(r)]
                    0 <= j < i + 1 && all[j].1@.contains_key(r) implies {
                    &&& self.net_planes.entries@[j].1@.contains_key(r)
                    &&& checks(
                        all[j].1@[r],
                        self.net_planes.entries@[j].1@[r],
                        all[j].0,
                        time_at(*final_check_times, all[j].0, r),
                        old(results).at(all[j].0, r),
                        results.at(all[j].0, r),
                    )
                } by {
                    if j < i {
                        assert(all[j].0 == all[i as int].0 ==> j == i);
                        assert(results.at(all[j].0, r) == results0.at(all[j].0, r));
                        assert(self.net_planes.entries@[j] == self0.net_planes.entries@[j]);
                    } else {
                        assert(results0.at(prefix, r) == old(results).at(prefix, r));
                    }
                }
                assert forall|p: Prefix, r: RouterId|
                    !(crate::keyed::has_key(all.take(i + 1), p) && pre.net_planes@[p]@.contains_key(
                        r,
                    )) implies #[trigger] results.at(p, r) == old(results).at(p, r) by {
                    crate::keyed::lemma_has_key_take(all, i as int, p);
                    assert(results0.at(p, r) == old(results).at(p, r));
                }
                assert forall|p: Prefix| #[trigger] self.net_planes@.contains_key(p) implies
                    plane_wf(self.net_planes@[p]) by {
                    if p != prefix {
                        assert(self0.net_planes@.contains_key(p));
                    }
                }
            }
            i += 1;
        }
        proof {
            assert(all.take(n as int) =~= all);
            lemma_same_keys(all, self.net_planes.entries@);
            assert(self.net_planes@.dom() =~= pre.net_planes@.dom());
            assert forall|p: Prefix, r: RouterId|
                #![trigger time_at(*final_check_times, p, r)]
                if pre.net_planes@.contains_key(p) && pre.net_planes@[p]@.contains_key(r) {
                    &&& self.net_planes@[p]@.contains_key(r)
                    &&& checks(
                        pre.net_planes@[p]@[r],
                        self.net_planes@[p]@[r],
                        p,
                        time_at(*final_check_times, p, r),
                        old(results).at(p, r),
                        results.at(p, r),
                    )
                } else {
                    results.at(p, r) == old(results).at(p, r)
                } by {
                assert(pre.net_planes@.contains_key(p) == crate::keyed::has_key(all, p));
                if pre.net_planes@.contains_key(p) && pre.net_planes@[p]@.contains_key(r) {
                    assert(as_map(self.net_planes.entries@).contains_key(p));
                    let j = choose|j: int|
                        0 <= j < all.len() && (#[trigger] all[j]).0 == p && as_map(all)[p]
                            == all[j].1 && as_map(self.net_planes.entries@)[p]
                            == self.net_planes.entries@[j].1;
                    assert(all[j].1@.contains_key(r));
                }
            }
        }
    }

    /// Monitor a recording: all of its messages, and then, if they give no error, the final state.
    pub fn monitor_recording(&mut self, recording: Recording) -> (r: Result<
        MonitoringResults,
        ControllerError,
    >)
        requires
            old(self).wf(),
            recording.wf(),
            old(self).can_count(recording),
        ensures
            final(self).wf(),
            r is Ok <==> old(self).can_monitor(recording),
            match r {
                Ok(results) => results.wf() && monitors_recording(
                    *old(self),
                    *final(self),
                    recording,
                    results,
                ),
                Err(ControllerError::NoPrefix(p)) => recording.sequences@.contains_key(p) && !old(
                    self,
                ).net_planes@.contains_key(p),
                Err(ControllerError::NoRouter(x)) => exists|p: Prefix| #[trigger]
                    recording.sequences@.contains_key(p) && old(self).net_planes@.contains_key(p)
                        && recording.sequences@[p]@.contains_key(x) && !old(
                        self,
                    ).net_planes@[p]@.contains_key(x),
            },
    {
        let ghost pre = *self;
        let times = final_check_times(&recording, self.mrai);
        let ghost all = recording.sequences.entries@;
        let mut results = MonitoringResults::new();
        for e in it: recording.sequences.entries
            invariant
                it.seq() == all,
                all == recording.sequences.entries@,
                pre == *old(self),
                recording.wf(),
                pre.wf(),
                pre.can_count(recording),
                self.wf(),
                self.mrai == pre.mrai,
                self.net_planes@.dom() == pre.net_planes@.dom(),
                results.wf(),
                forall|p: Prefix| #[trigger]
                    results.results@.contains_key(p) <==> crate::keyed::has_key(
                        all.take(it.index() as int),
                        p,
                    ),
                forall|p: Prefix| #[trigger]
                    results.results@.contains_key(p) ==> pre.net_planes@.contains_key(p)
                        && plane_runs(
                        pre.net_planes@[p],
                        self.net_planes@[p],
                        recording.sequences@[p],
                        pre.mrai,
                        p,
                        results.results@[p],
                    ),
                forall|p: Prefix| #[trigger]
                    pre.net_planes@.contains_key(p) && !crate::keyed::has_key(
                        all.take(it.index() as int),
                        p,
                    ) ==> self.net_planes@[p] == pre.net_planes@[p],
        {
            let ghost k = it.index() as int;
            let ghost (self0, results0) = (*self, results);
            let (prefix, routers) = e;
            proof {
                lemma_entry(all, k);
                assert(all[k].0 == prefix && all[k].1 == routers);
                assert(recording.sequences@.contains_key(prefix));
                assert(!crate::keyed::has_key(all.take(k), prefix)) by {
                    if crate::keyed::has_key(all.take(k), prefix) {
                        let j = choose|j: int|
                            0 <= j < k && (#[trigger] all.take(k)[j]).0 == prefix;
                        assert(all[j].0 == all[k].0);
                    }
                }
                assert(self.net_planes@.dom().contains(prefix) == pre.net_planes@.dom().contains(
                    prefix,
                ));
            }
            match self.monitor_prefix(prefix, routers) {
                Ok(of_prefix) => {
                    results.results.insert(prefix, of_prefix);
                },
                Err(e) => {
                    proof {
                        assert(!pre.can_monitor(recording)) by {
                            assert(recording.sequences@.contains_key(prefix));
                        }
                    }
                    return Err(e);
                },
            }
            proof {
                assert forall|p: Prefix| #[trigger]
                    results.results@.contains_key(p) <==> crate::keyed::has_key(
                        all.take(k + 1),
                        p,
                    ) by {
                    crate::keyed::lemma_has_key_take(all, k, p);
                    assert(results0.results@.contains_key(p) || !results0.results@.contains_key(p));
                }
                assert forall|p: Prefix| #[trigger] results.results@.contains_key(p) implies
                    pre.net_planes@.contains_key(p) && plane_runs(
                    pre.net_planes@[p],
                    self.net_planes@[p],
                    recording.sequences@[p],
                    pre.mrai,
                    p,
                    results.results@[p],
                ) by {
                    if p != prefix {
                        assert(results0.results@.contains_key(p));
                        assert(self0.net_planes@.dom().contains(p));
                        assert(self0.net_planes@.contains_key(p));
                    }
                }
                assert forall|p: Prefix| #[trigger]
                    pre.net_planes@.contains_key(p) && !crate::keyed::has_key(
                        all.take(k + 1),
                        p,
                    ) implies self.net_planes@[p] == pre.net_planes@[p] by {
                    crate::keyed::lemma_has_key_take(all, k, p);
                    assert(self0.net_planes@.dom().contains(p));
                    assert(self0.net_planes@.contains_key(p));
                }
            }
        }
        let ghost (mid, during) = (*self, results);
        proof {
            assert(all.take(all.len() as int) =~= all);
            assert forall|p: Prefix| recording.sequences@.contains_key(p)
                == #[trigger] during.results@.contains_key(p) by {
                assert(recording.sequences@.contains_key(p) == crate::keyed::has_key(all, p));
            }
            assert forall|p: Prefix| #[trigger] recording.sequences@.contains_key(p) implies
                pre.net_planes@.contains_key(p) && plane_runs(
                pre.net_planes@[p],
                mid.net_planes@[p],
                recording.sequences@[p],
                pre.mrai,
                p,
                during.results@[p],
            ) by {
                assert(during.results@.contains_key(p));
            }
            assert forall|p: Prefix| #[trigger]
                pre.net_planes@.contains_key(p) && !recording.sequences@.contains_key(p) implies
                mid.net_planes@[p] == pre.net_planes@[p] by {
                assert(recording.sequences@.contains_key(p) == crate::keyed::has_key(all, p));
            }
            assert(recording_runs(pre, mid, recording, during));
            assert(pre.can_monitor(recording)) by {
                assert forall|p: Prefix| #[trigger] recording.sequences@.contains_key(p) implies
                    pre.net_planes@.contains_key(p) && forall|r: RouterId|
                    #[trigger] recording.sequences@[p]@.contains_key(r)
                        ==> pre.net_planes@[p]@.contains_key(r) by {
                    assert(during.results@.contains_key(p));
                }
            }
        }
        if !results.is_empty() {
            return Ok(results);
        }
        self.check_final_state(&mut results, &times);
        assert(final_checks(mid, *self, times, during, results));
        assert(concludes(mid, *self, recording, during, results));
        Ok(results)
    }
}

/// Router `i` is the last one of a list with its id.
pub open spec fn is_last(routers: Seq<Router>, i: int) -> bool {
    &&& 0 <= i < routers.len()
    &&& forall|j: int| i < j < routers.len() ==> (#[trigger] routers[j]).router_id
        != routers[i].router_id
}

/// Some router has the id.
pub open spec fn has_id(routers: Seq<Router>, r: RouterId) -> bool {
    exists|i: int| 0 <= i < routers.len() && (#[trigger] routers[i]).router_id == r
}

proof fn lemma_has_id_take(routers: Seq<Router>, i: int, r: RouterId)
    requires
        0 <= i < routers.len(),
    ensures
        has_id(routers.take(i + 1), r) <==> (has_id(routers.take(i), r) || r
            == routers[i].router_id),
{
    let (a, b) = (routers.take(i), routers.take(i + 1));
    if has_id(b, r) {
        let j = choose|j: int| 0 <= j < b.len() && (#[trigger] b[j]).router_id == r;
        if j < i {
            assert(a[j].router_id == r);
        }
    }
    if has_id(a, r) {
        let j = choose|j: int| 0 <= j < a.len() && (#[trigger] a[j]).router_id == r;
        assert(b[j].router_id == r);
    }
    if r == routers[i].router_id {
        assert(b[i].router_id == r);
    }
}

/// The routers of a network, each for one prefix only.
fn states_for_prefix<'a>(
    routers: &Vec<Router>,
    prefix: Prefix,
    arena: &'a MonitorArena,
) -> (plane: PrefixPlane<'a>)
    requires
        forall|i: int| 0 <= i < routers@.len() ==> (#[trigger] routers@[i]).is_consistent(),
    ensures
        plane_wf(plane),
        forall|r: RouterId| #[trigger] plane@.contains_key(r) <==> has_id(routers@, r),
        forall|i: int| #[trigger]
            is_last(routers@, i) ==> is_monitor_for(
                plane@[routers@[i].router_id],
                routers@[i],
                prefix,
                arena,
            ),
{
    let ghost all = routers@;
    let mut plane: PrefixPlane<'a> = Keyed::new();
    let mut i: usize = 0;
    while i < routers.len()
        invariant
            i <= all.len(),
            all == routers@,
            forall|j: int| 0 <= j < all.len() ==> (#[trigger] all[j]).is_consistent(),
            plane_wf(plane),
            forall|r: RouterId| #[trigger]
                plane@.contains_key(r) <==> has_id(all.take(i as int), r),
            forall|j: int| #[trigger]
                is_last(all.take(i as int), j) ==> is_monitor_for(
                    plane@[all[j].router_id],
                    all[j],
                    prefix,
                    arena,
                ),
        decreases all.len() - i,
    {
        let ghost before = plane@;
        let id: RouterId = routers[i].router_id;
        assert(all[i as int].is_consistent());
        let copy = routers[i].copy();
        let ghost c = copy;
        let monitor = ReorderingMonitor::new_for_prefix(copy, prefix, arena);
        assert(is_monitor_for(monitor, all[i as int], prefix, arena)) by {
            reveal(is_monitor_for);
            let single = choose|single: Router| #[trigger]
                is_single_of(c, prefix, single) && is_monitor_of(monitor, single, arena);
            assert(is_single_of(all[i as int], prefix, single));
        }
        plane.insert(id, monitor);
        proof {
            assert forall|r: RouterId| #[trigger] plane@.contains_key(r) <==> has_id(
                all.take(i + 1),
                r,
            ) by {
                lemma_has_id_take(all, i as int, r);
                assert(before.contains_key(r) || !before.contains_key(r));
            }
            assert forall|j: int| #[trigger] is_last(all.take(i + 1), j) implies is_monitor_for(
                plane@[all[j].router_id],
                all[j],
                prefix,
                arena,
            ) by {
                if j < i {
                    assert(all.take(i + 1)[i as int].router_id != all.take(i + 1)[j].router_id);
                    assert(is_last(all.take(i as int), j)) by {
                        assert forall|l: int| j < l < i implies (
                        #[trigger] all.take(i as int)[l]).router_id != all.take(
                            i as int,
                        )[j].router_id by {
                            assert(all.take(i + 1)[l].router_id != all.take(i + 1)[j].router_id);
                        }
                    }
                }
            }
            assert forall|r: RouterId| #[trigger] plane@.contains_key(r) implies plane@[r].wf() by {
                if r != id {
                    assert(before.contains_key(r));
                }
            }
        }
        i += 1;
    }
    assert(all.take(all.len() as int) =~= all);
    plane
}

impl<'a> Controller<'a> {
    /// The controller of a single-prefix network, with a monitor for each internal router.
    pub fn new(routers: Vec<Router>, arena: &'a MonitorArena) -> (r: Self)
        requires
            forall|i: int| 0 <= i < routers@.len() ==> (#[trigger] routers@[i]).is_single_prefix(),
        ensures
            r.wf(),
            r.mrai is None,
            r.net_planes@.dom() == set![SINGLE_PREFIX],
            forall|x: RouterId| #[trigger]
                r.net_planes@[SINGLE_PREFIX]@.contains_key(x) <==> has_id(routers@, x),
            forall|i: int| #[trigger]
                is_last(routers@, i) ==> is_monitor_of(
                    r.net_planes@[SINGLE_PREFIX]@[routers@[i].router_id],
                    routers@[i],
                    arena,
                ),
    {
        let ghost all = routers@;
        let mut plane: PrefixPlane<'a> = Keyed::new();
        for router in it: routers
            invariant
                it.seq() == all,
                forall|j: int| 0 <= j < all.len() ==> (#[trigger] all[j]).is_single_prefix(),
                plane_wf(plane),
                forall|x: RouterId| #[trigger]
                    plane@.contains_key(x) <==> has_id(all.take(it.index() as int), x),
                forall|j: int| #[trigger]
                    is_last(all.take(it.index() as int), j) ==> is_monitor_of(
                        plane@[all[j].router_id],
                        all[j],
                        arena,
                    ),
        {
            let ghost i = it.index() as int;
            let ghost before = plane@;
            assert(router == all[i]);
            let id: RouterId = router.router_id;
            plane.insert(id, ReorderingMonitor::new(router, arena));
            proof {
                assert forall|x: RouterId| #[trigger] plane@.contains_key(x) <==> has_id(
                    all.take(i + 1),
                    x,
                ) by {
                    lemma_has_id_take(all, i, x);
                    assert(before.contains_key(x) || !before.contains_key(x));
                }
                assert forall|j: int| #[trigger] is_last(all.take(i + 1), j) implies is_monitor_of(
                    plane@[all[j].router_id],
                    all[j],
                    arena,
                ) by {
                    if j < i {
                        assert(all.take(i + 1)[i].router_id != all.take(i + 1)[j].router_id);
                        assert(is_last(all.take(i), j)) by {
                            assert forall|l: int| j < l < i implies (
                            #[trigger] all.take(i)[l]).router_id != all.take(i)[j].router_id by {
                                assert(all.take(i + 1)[l].router_id != all.take(i + 1)[j].router_id);
                            }
                        }
                    }
                }
                assert forall|x: RouterId| #[trigger] plane@.contains_key(x) implies plane@[x].wf() by {
                    if x != id {
                        assert(before.contains_key(x));
                    }
                }
            }
        }
        assert(all.take(all.len() as int) =~= all);
        let mut net_planes: Keyed<PrefixPlane<'a>> = Keyed::new();
        net_planes.insert(SINGLE_PREFIX, plane);
        assert(net_planes@.dom() =~= set![SINGLE_PREFIX]);
        Controller { net_planes, mrai: None }
    }

    /// The controller of a network, with a plane for each prefix that is to be monitored.
    pub fn new_for_prefixes(
        routers: &Vec<Router>,
        prefix_set: &NumberSet,
        arena: &'a MonitorArena,
    ) -> (r: Self)
        requires
            forall|i: int| 0 <= i < routers@.len() ==> (#[trigger] routers@[i]).is_consistent(),
        ensures
            r.wf(),
            r.mrai is None,
            forall|p: Prefix| #[trigger] r.net_planes@.contains_key(p) <==> prefix_set@.contains(p),
            forall|p: Prefix, x: RouterId|
                r.net_planes@.contains_key(p) ==> (#[trigger] r.net_planes@[p]@.contains_key(x)
                    <==> has_id(routers@, x)),
            forall|p: Prefix, i: int|
                #![trigger r.net_planes@.contains_key(p), is_last(routers@, i)]
                r.net_planes@.contains_key(p) && is_last(routers@, i) ==> is_monitor_for(
                    r.net_planes@[p]@[routers@[i].router_id],
                    routers@[i],
                    p,
                    arena,
                ),
    {
        let ghost prefixes = prefix_set.items@;
        let mut net_planes: Keyed<PrefixPlane<'a>> = Keyed::new();
        for i in 0..prefix_set.items.len()
            invariant
                prefixes == prefix_set.items@,
                forall|j: int| 0 <= j < routers@.len() ==> (#[trigger] routers@[j]).is_consistent(),
                net_planes.wf(),
                forall|p: Prefix| #[trigger]
                    net_planes@.contains_key(p) <==> prefixes.take(i as int).contains(p),
                forall|p: Prefix| #[trigger]
                    net_planes@.contains_key(p) ==> plane_wf(net_planes@[p]),
                forall|p: Prefix, x: RouterId|
                    net_planes@.contains_key(p) ==> (#[trigger] net_planes@[p]@.contains_key(x)
                        <==> has_id(routers@, x)),
                forall|p: Prefix, j: int|
                    #![trigger net_planes@.contains_key(p), is_last(routers@, j)]
                    net_planes@.contains_key(p) && is_last(routers@, j) ==> is_monitor_for(
                        net_planes@[p]@[routers@[j].router_id],
                        routers@[j],
                        p,
                        arena,
                    ),
        {
            let ghost before = net_planes@;
            let prefix: Prefix = prefix_set.items[i];
            net_planes.insert(prefix, states_for_prefix(routers, prefix, arena));
            proof {
                assert(prefixes.take(i + 1) =~= prefixes.take(i as int).push(prefix));
                assert forall|p: Prefix| #[trigger] net_planes@.contains_key(p) <==> prefixes.take(
                    i + 1,
                ).contains(p) by {
                    broadcast use vstd::seq_lib::group_seq_properties;

                    assert(before.contains_key(p) || !before.contains_key(p));
                }
                assert forall|p: Prefix| p != prefix implies net_planes@.contains_key(p)
                    == #[trigger] before.contains_key(p) by {}
            }
        }
        proof {
            assert(prefixes.take(prefixes.len() as int) =~= prefixes);
            assert forall|p: Prefix| #[trigger] net_planes@.contains_key(p) <==> prefix_set@.contains(
                p,
            ) by {
                assert(prefix_set@.contains(p) == prefixes.contains(p));
            }
        }
        Controller { net_planes, mrai: None }
    }
}

/// The error accuses the router of something. The only other error is that the monitor gave up.
pub open spec fn is_accusation(e: ErrorView) -> bool {
    !(e is Killed)
}

/// What is reported for a correct router: the first error, if there is one, is no accusation.
pub proof fn law_reports_spare_correct<'a>(
    pre: ReorderingMonitor<'a>,
    post: ReorderingMonitor<'a>,
    msgs: Seq<Message>,
    mrai: Option<Time>,
    prefix: Prefix,
    r: Seq<OutcomeView>,
    run: Run,
    k: int,
)
    requires
        reports(pre, post, msgs, mrai, prefix, r),
        correct(pre, msgs, mrai, run),
        0 <= k < msgs.len(),
        forall|i: int| 0 <= i < k ==> (#[trigger] r[i]).error is None,
    ensures
        r.len() == msgs.len(),
        r[k].error matches Some(e) ==> !is_accusation(e),
{
    let (states, outcomes) = choose|
        states: Seq<ReorderingMonitor<'a>>,
        outcomes: Seq<(MonitoringResult, Time)>,
    | #[trigger]
        monitors(states, msgs, mrai, outcomes) && states[0] == pre && states.last() == post && r
            == reported(outcomes, prefix);
    assert forall|i: int| 0 <= i < k implies (#[trigger] outcomes[i]).0 is Ok by {
        assert(r[i].error is None);
    }
    law_monitoring_spares_correct(states, msgs, mrai, outcomes, run, k);
}

/// The final check of a prefix at a router takes place at the time of the last message there, plus the time
/// for which messages may be held back. There is none where nothing was recorded.
pub proof fn law_time_of_the_final_check(
    recording: Recording,
    mrai: Option<Time>,
    p: Prefix,
    r: RouterId,
)
    ensures
        recording.at(p, r).len() == 0 ==> final_check_time(recording, mrai, p, r) is None,
        recording.at(p, r).len() > 0 ==> ({
            let t = recording.at(p, r).last().0.event@.priority();
            let f = final_check_time(recording, mrai, p, r);
            &&& f is Some
            &&& mrai is None ==> f->0 == t
            &&& mrai matches Some(d) ==> (i64::MIN <= t + d <= i64::MAX ==> f->0 == t + d)
        }),
{
}

/// What is reported for a message says whether there was an error, and at which time. The error is about
/// the prefix of the plane and no other one, and about the same router.
pub proof fn law_reports_on_a_prefix(
    outcomes: Seq<(MonitoringResult, Time)>,
    prefix: Prefix,
    i: int,
    q: Prefix,
)
    requires
        0 <= i < outcomes.len(),
    ensures
        reported(outcomes, prefix).len() == outcomes.len(),
        reported(outcomes, prefix)[i].time == outcomes[i].1,
        reported(outcomes, prefix)[i].error is None <==> outcomes[i].0 is Ok,
        outcomes[i].0 matches Err(e) ==> reported(outcomes, prefix)[i].error matches Some(f)
            && f.router() == e@.router() && (f.concerns(q) ==> q == prefix) && is_accusation(f)
            == is_accusation(e@),
{
}

/// An error accuses a router unless it says that the monitor gave up.
pub proof fn law_accusations(e: ErrorView)
    ensures
        is_accusation(e) <==> e is UnexpectedEvent || e is UnsentEvents || e is MissingOutgoingEvent
            || e is Unserializable,
{
}

/// Without a time for which messages may be held back, a message has the time at which it was sent. With
/// one, an error can also have the time at which it is noticed, which lies that much later.
pub proof fn law_time_of_an_outcome<'a>(
    pre: ReorderingMonitor<'a>,
    post: ReorderingMonitor<'a>,
    message: Message,
    mrai: Option<Time>,
    r: MonitoringResult,
    time: Time,
)
    requires
        monitored(pre, post, message, mrai, r, time),
    ensures
        ({
            let p = message.event@.priority();
            &&& mrai is None ==> time == p
            &&& r is Ok ==> time == p
            &&& mrai matches Some(d) ==> (i64::MIN <= p + d <= i64::MAX ==> time == p || time == p + d)
        }),
{
}

/// Each router of a list has a last entry with its id, and only one.
pub proof fn law_last_router_with_an_id(routers: Seq<Router>, i: int, j: int)
    requires
        0 <= i < routers.len(),
        0 <= j < routers.len(),
        routers[i].router_id == routers[j].router_id,
    ensures
        is_last(routers, i) && is_last(routers, j) ==> i == j,
        is_last(routers, i) ==> j <= i,
        (forall|k: int| i < k < routers.len() ==> (#[trigger] routers[k]).router_id
            != routers[i].router_id) ==> is_last(routers, i),
        has_id(routers, routers[i].router_id),
{
}

/// There is an outcome for each recorded message, in their order. If none of these is an error then there
/// is one more for each router with a message, that of the final check. Otherwise there is none.
pub proof fn law_outcomes_of_a_recording<'a>(
    pre: Controller<'a>,
    post: Controller<'a>,
    recording: Recording,
    results: MonitoringResults,
    p: Prefix,
    r: RouterId,
)
    requires
        pre.wf(),
        monitors_recording(pre, post, recording, results),
        recording.at(p, r).len() > 0,
    ensures
        results.at(p, r).len() == recording.at(p, r).len() || results.at(p, r).len()
            == recording.at(p, r).len() + 1,
        (exists|i: int|
            0 <= i < recording.at(p, r).len() && (#[trigger] results.at(p, r)[i]).0 is Err)
            ==> results.at(p, r).len() == recording.at(p, r).len(),
        results.at(p, r).len() == recording.at(p, r).len() ==> all_errors(
            results.results.entries@,
        ).len() > 0,
{
    let n = recording.at(p, r).len() as int;
    let (mid, during) = choose|mid: Controller<'a>, during: MonitoringResults| #[trigger]
        recording_runs(pre, mid, recording, during) && if all_errors(
            during.results.entries@,
        ).len() > 0 {
            post == mid && results == during
        } else {
            concludes(mid, post, recording, during, results)
        };
    assert(recording.sequences@.contains_key(p));
    let routers = recording.sequences@[p];
    assert(routers@.contains_key(r) && routers@[r]@ == recording.at(p, r));
    assert(plane_runs(
        pre.net_planes@[p],
        mid.net_planes@[p],
        routers,
        pre.mrai,
        p,
        during.results@[p],
    ));
    assert(during.results@.contains_key(p) && during.results@[p]@.contains_key(r));
    let list = outcomes_at(during.results@[p], r);
    assert(list == during.at(p, r));
    assert(reports(
        pre.net_planes@[p]@[r],
        mid.net_planes@[p]@[r],
        messages(routers@[r]@),
        pre.mrai,
        p,
        outcome_views(list),
    ));
    assert(list.len() == n) by {
        assert(outcome_views(list).len() == list.len());
        assert(messages(routers@[r]@).len() == n);
    }
    if all_errors(during.results.entries@).len() == 0 {
        let times = choose|times: Keyed<Keyed<Time>>| #[trigger]
            final_checks(mid, post, times, during, results) && are_final_times(
                times,
                recording,
                mid.mrai,
            );
        assert(time_at(times, p, r) == final_check_time(recording, mid.mrai, p, r));
        assert(mid.net_planes@.contains_key(p));
        assert(mid.net_planes@[p]@.contains_key(r)) by {
            assert(pre.net_planes@[p]@.contains_key(r));
        }
        let after = results.at(p, r);
        assert(checks(
            mid.net_planes@[p]@[r],
            post.net_planes@[p]@[r],
            p,
            time_at(times, p, r),
            list,
            after,
        ));
        assert(outcome_views(after).len() == after.len() && outcome_views(list).len() == n);
        lemma_no_errors(during, p, r);
        assert forall|i: int| 0 <= i < n implies (#[trigger] after[i]).0 is Ok by {
            assert(outcome_views(after)[i] == outcome_views(list)[i]);
            assert(list[i].0 is Ok);
        }
    }
}

/// Without errors, all outcomes at a router are fine.
proof fn lemma_no_errors(results: MonitoringResults, p: Prefix, r: RouterId)
    requires
        results.wf(),
        all_errors(results.results.entries@).len() == 0,
    ensures
        forall|i: int| 0 <= i < results.at(p, r).len() ==> (#[trigger] results.at(p, r)[i]).0 is Ok,
{
    if results.results@.contains_key(p) && results.results@[p]@.contains_key(r) {
        let s = results.results.entries@;
        let a = lemma_key(s, p);
        let b = lemma_key(s[a].1.entries@, r);
        crate::monitoring::lemma_all_errors(s);
        assert(s[a].1 == results.results@[p]);
        assert(s[a].1.entries@[b].1@ == results.at(p, r));
        assert(!crate::monitoring::has_error(s[a].1.entries@[b].1@));
        assert forall|i: int| 0 <= i < results.at(p, r).len() implies (
        #[trigger] results.at(p, r)[i]).0 is Ok by {
            assert(s[a].1.entries@[b].1@[i] == results.at(p, r)[i]);
        }
    }
}

} // verus!
