//! Testing whether a monitor accepts a trace.
use vstd::prelude::*;

use crate::bgp::{RouterId, Time};
use crate::controller::{law_monitoring_spares_correct, monitored, monitors, timeout};
use crate::forking_monitor::{everything, no_accusation, ForkingMonitorPerSession};
use crate::import::Message;
use crate::monitoring::{MonitoringError, MonitoringResult};
use crate::reordering_monitoring::{final_steps, outcome, ReorderingMonitor};
use crate::session_monitor::exports;
use crate::session_queue::later;
use crate::traces::{
    before, correct, correct_at, law_final_check_spares, received_by, sent_by, session_keeps_up,
    time_before, Run,
};

verus! {

/// What came of testing a trace.
#[derive(Debug, Clone, Copy, PartialEq, Eq)]
pub struct TraceOutcome {
    /// The largest number of forks of a session
    pub max_forks: usize,
    /// Whether the monitor has accepted the trace. It has if it gave up.
    pub ok: bool,
    /// Whether the monitor gave up
    pub killed: bool,
}

/// The number of forks of a session.
pub open spec fn num_forks(m: ReorderingMonitor, n: RouterId) -> nat {
    m.per_session@[n].forks@.len()
}

/// The largest number of forks of a session in a state after the first, and at least 1.
pub open spec fn is_max_forks(states: Seq<ReorderingMonitor>, max: nat) -> bool {
    &&& max >= 1
    &&& forall|i: int, n: RouterId|
        0 < i < states.len() && states[i].per_session@.contains_key(n) ==> #[trigger] num_forks(
            states[i],
            n,
        ) <= max
    &&& max == 1 || exists|i: int, n: RouterId|
        0 < i < states.len() && states[i].per_session@.contains_key(n) && #[trigger] num_forks(
            states[i],
            n,
        ) == max
}

/// The first `k` messages give no error.
pub open spec fn accepts(outcomes: Seq<(MonitoringResult, Time)>, k: int) -> bool {
    forall|i: int| 0 <= i < k ==> (#[trigger] outcomes[i]).0 is Ok
}

/// What comes of the first error.
pub open spec fn rejected(
    states: Seq<ReorderingMonitor>,
    error: MonitoringError,
    r: TraceOutcome,
) -> bool {
    match error {
        MonitoringError::Killed { num_forks, .. } => r == TraceOutcome {
            max_forks: num_forks,
            ok: true,
            killed: true,
        },
        _ => !r.ok && !r.killed && is_max_forks(states, r.max_forks as nat),
    }
}

/// The monitor does its final check, with result `last`.
pub open spec fn checked<'a>(
    pre: ReorderingMonitor<'a>,
    post: ReorderingMonitor<'a>,
    last: MonitoringResult,
) -> bool {
    exists|results: Map<RouterId, MonitoringResult>| #[trigger]
        outcome(results, last) && final_steps(pre, post, results)
}

/// What comes of a trace: the monitor goes through the states until the first error, and if there is
/// none it does its final check, with result `last`.
pub open spec fn tests<'a>(
    states: Seq<ReorderingMonitor<'a>>,
    outcomes: Seq<(MonitoringResult, Time)>,
    last: MonitoringResult,
    post: ReorderingMonitor<'a>,
    msgs: Seq<Message>,
    delay: Option<Time>,
    r: TraceOutcome,
) -> bool {
    let k = outcomes.len() as int;
    &&& k <= msgs.len()
    &&& monitors(states, msgs.take(k), delay, outcomes)
    &&& if k > 0 && outcomes[k - 1].0 is Err {
        &&& accepts(outcomes, k - 1)
        &&& post == states[k]
        &&& rejected(states.take(k), outcomes[k - 1].0->Err_0, r)
    } else {
        &&& accepts(outcomes, k)
        &&& k == msgs.len()
        &&& states[k].wf()
        &&& checked(states[k], post, last)
        &&& r.ok == (last is Ok)
        &&& !r.killed
        &&& is_max_forks(states, r.max_forks as nat)
    }
}

/// What comes of a trace.
pub open spec fn tested<'a>(
    pre: ReorderingMonitor<'a>,
    post: ReorderingMonitor<'a>,
    msgs: Seq<Message>,
    delay: Option<Time>,
    r: TraceOutcome,
) -> bool {
    exists|
        states: Seq<ReorderingMonitor<'a>>,
        outcomes: Seq<(MonitoringResult, Time)>,
        last: MonitoringResult,
    | #[trigger]
        tests(states, outcomes, last, post, msgs, delay, r) && states[0] == pre
}

proof fn lemma_next_state<'a>(
    states: Seq<ReorderingMonitor<'a>>,
    outcomes: Seq<(MonitoringResult, Time)>,
    msgs: Seq<Message>,
    delay: Option<Time>,
    next: ReorderingMonitor<'a>,
    o: (MonitoringResult, Time),
)
    requires
        outcomes.len() < msgs.len(),
        monitors(states, msgs.take(outcomes.len() as int), delay, outcomes),
        monitored(states.last(), next, msgs[outcomes.len() as int], delay, o.0, o.1),
        next.same_setup(&states.last()),
    ensures
        monitors(states.push(next), msgs.take(outcomes.len() as int + 1), delay, outcomes.push(o)),
{
    let k = outcomes.len() as int;
    let (a, b) = (msgs.take(k), msgs.take(k + 1));
    let (s, t) = (states.push(next), outcomes.push(o));
    assert forall|i: int| 0 <= i < b.len() implies monitored(
        s[i],
        s[i + 1],
        #[trigger] b[i],
        delay,
        t[i].0,
        t[i].1,
    ) by {
        if i < k {
            assert(b[i] == a[i]);
            assert(monitored(states[i], states[i + 1], a[i], delay, outcomes[i].0, outcomes[i].1));
        }
    }
    assert forall|i: int| 0 <= i < s.len() implies (#[trigger] s[i]).same_setup(&s[0]) by {
        if i < states.len() {
            assert(states[i].same_setup(&states[0]));
        } else {
            assert(states[k].same_setup(&states[0]));
        }
    }
}

proof fn lemma_max_forks<'a>(
    states: Seq<ReorderingMonitor<'a>>,
    next: ReorderingMonitor<'a>,
    max: nat,
    forks: nat,
)
    requires
        states.len() > 0,
        is_max_forks(states, max),
        forall|n: RouterId| #[trigger]
            next.per_session@.contains_key(n) ==> next.per_session@[n].forks@.len() <= forks,
        (exists|n: RouterId| next.per_session@.contains_key(n)) ==> exists|n: RouterId| #[trigger]
            next.per_session@.contains_key(n) && next.per_session@[n].forks@.len() == forks,
        (forall|n: RouterId| !next.per_session@.contains_key(n)) ==> forks == 0,
    ensures
        is_max_forks(
            states.push(next),
            if forks > max {
                forks
            } else {
                max
            },
        ),
{
    let s = states.push(next);
    let k = states.len() as int;
    let larger = if forks > max {
        forks
    } else {
        max
    };
    assert forall|i: int, n: RouterId|
        0 < i < s.len() && s[i].per_session@.contains_key(n) implies #[trigger] num_forks(s[i], n)
        <= larger by {
        if i < k {
            assert(num_forks(states[i], n) <= max);
        } else {
            assert(next.per_session@.contains_key(n));
        }
    }
    if forks > max {
        let n = choose|n: RouterId| #[trigger]
            next.per_session@.contains_key(n) && next.per_session@[n].forks@.len() == forks;
        assert(num_forks(s[k], n) == larger);
    } else if max > 1 {
        let (i, n) = choose|i: int, n: RouterId|
            0 < i < states.len() && states[i].per_session@.contains_key(n) && #[trigger] num_forks(
                states[i],
                n,
            ) == max;
        assert(num_forks(s[i], n) == larger);
    }
}

/// Let a monitor go through a trace. If a processing time is assumed, then before each message the
/// router must have processed what arrived that long before.
pub fn test_trace<'a>(
    monitor: &mut ReorderingMonitor<'a>,
    trace: Vec<Message>,
    assumed_processing_time: Option<Time>,
) -> (r: TraceOutcome)
    requires
        old(monitor).wf(),
        forall|k: int| 0 <= k < trace@.len() ==> (#[trigger] trace@[k]).wf(),
        old(monitor).incoming_counter + trace@.len() <= usize::MAX,
    ensures
        final(monitor).wf(),
        final(monitor).same_setup(old(monitor)),
        tested(*old(monitor), *final(monitor), trace@, assumed_processing_time, r),
{
    let ghost msgs = trace@;
    let ghost delay = assumed_processing_time;
    let ghost mut states: Seq<ReorderingMonitor<'a>> = seq![*monitor];
    let ghost mut outcomes: Seq<(MonitoringResult, Time)> = seq![];
    let mut max_forks: usize = 1;
    for message in it: trace
        invariant
            it.seq() == msgs,
            msgs == trace@,
            delay == assumed_processing_time,
            forall|k: int| 0 <= k < msgs.len() ==> (#[trigger] msgs[k]).wf(),
            monitor.wf(),
            monitor.same_setup(old(monitor)),
            old(monitor).incoming_counter + msgs.len() <= usize::MAX,
            monitor.incoming_counter <= old(monitor).incoming_counter + it.index(),
            states[0] == *old(monitor),
            states.last() == *monitor,
            states.len() == it.index() + 1,
            outcomes.len() == it.index(),
            monitors(states, msgs.take(it.index() as int), delay, outcomes),
            accepts(outcomes, it.index() as int),
            is_max_forks(states, max_forks as nat),
    {
        let ghost k = it.index() as int;
        let ghost pre = *monitor;
        let ghost (states0, outcomes0) = (states, outcomes);
        let ghost m = message;
        assert(m == msgs[k]);
        let time: Time = message.event.priority();
        let mut result: MonitoringResult = Ok(());
        let ghost mut at = time;
        if let Some(d) = assumed_processing_time {
            result = monitor.assert_messages_processed_before(time_before(time, d));
            assert(timeout(pre, *monitor, before(m.event@.priority(), d), result));
            proof {
                if result is Err {
                    at = later(time, d);
                }
            }
        }
        if result.is_ok() {
            result = monitor.process_message(message);
        }
        proof {
            assert(monitored(pre, *monitor, m, delay, result, at));
            lemma_next_state(states0, outcomes0, msgs, delay, *monitor, (result, at));
            states = states0.push(*monitor);
            outcomes = outcomes0.push((result, at));
            assert(states.take(k + 1) =~= states0);
        }
        match result {
            Ok(_) => {},
            Err(e) => {
                let r = match e {
                    MonitoringError::Killed { num_forks, .. } => {
                        TraceOutcome { max_forks: num_forks, ok: true, killed: true }
                    },
                    _ => TraceOutcome { max_forks, ok: false, killed: false },
                };
                assert(tests(states, outcomes, Ok(()), *monitor, msgs, delay, r));
                return r;
            },
        }
        let forks: usize = monitor.max_num_active_forks();
        proof {
            lemma_max_forks(states0, *monitor, max_forks as nat, forks as nat);
        }
        if forks > max_forks {
            max_forks = forks;
        }
    }
    let ghost end = *monitor;
    let result = monitor.final_check();
    assert(checked(end, *monitor, result));
    let r = TraceOutcome { max_forks, ok: result.is_ok(), killed: false };
    assert(tests(states, outcomes, result, *monitor, msgs, delay, r));
    r
}

/// What the router has sent to each neighbor last is what its table leads to once it has processed
/// everything.
pub open spec fn settled(pre: ReorderingMonitor, msgs: Seq<Message>, run: Run) -> bool {
    forall|n: RouterId| #[trigger]
        pre.per_session@.contains_key(n) ==> exports(
            everything(
                pre.per_session@[n].base@,
                received_by(
                    pre.per_session@[n].received@,
                    pre.router_id,
                    pre.incoming_counter as nat,
                    msgs,
                    n,
                ),
            ),
            sent_by(run.last[n], pre.router_id, msgs, n),
        )
}

/// A router that works correctly on a trace does so on the start of it.
proof fn lemma_correct_start(
    pre: ReorderingMonitor,
    msgs: Seq<Message>,
    delay: Option<Time>,
    run: Run,
    j: int,
)
    requires
        correct(pre, msgs, delay, run),
        0 <= j <= msgs.len(),
    ensures
        correct(pre, msgs.take(j), delay, run),
{
    let m = msgs.take(j);
    assert forall|k: int, n: RouterId|
        0 <= k < m.len() && pre.per_session@.contains_key(n) implies #[trigger] correct_at(
        pre,
        m,
        delay,
        run,
        k,
        n,
    ) by {
        assert(correct_at(pre, msgs, delay, run, k, n));
        assert(m.take(k) =~= msgs.take(k));
        assert(m[k] == msgs[k]);
    }
}

/// No trace of a correct router is rejected: if the router works correctly on the trace, and in the
/// end it has processed everything, then the monitor accepts the trace, unless it gives up in its final
/// check.
pub proof fn law_correct_traces_are_accepted<'a>(
    states: Seq<ReorderingMonitor<'a>>,
    outcomes: Seq<(MonitoringResult, Time)>,
    last: MonitoringResult,
    post: ReorderingMonitor<'a>,
    msgs: Seq<Message>,
    delay: Option<Time>,
    r: TraceOutcome,
    run: Run,
)
    requires
        tests(states, outcomes, last, post, msgs, delay, r),
        correct(states[0], msgs, delay, run),
        settled(states[0], msgs, run),
    ensures
        r.ok || (outcomes.len() == msgs.len() && accepts(outcomes, msgs.len() as int) && (
        last matches Err(e) && e is Killed)),
{
    let pre = states[0];
    let k = outcomes.len() as int;
    lemma_correct_start(pre, msgs, delay, run, k);
    if k > 0 && outcomes[k - 1].0 is Err {
        law_monitoring_spares_correct(states, msgs.take(k), delay, outcomes, run, k - 1);
        assert(no_accusation(outcomes[k - 1].0));
    } else {
        assert(msgs.take(k) =~= msgs);
        law_monitoring_spares_correct(states, msgs, delay, outcomes, run, k);
        let results = choose|results: Map<RouterId, MonitoringResult>| #[trigger]
            outcome(results, last) && final_steps(states[k], post, results);
        if last is Err {
            let n = choose|n: RouterId| #[trigger] results.contains_key(n) && results[n] == last;
            let end = states[k];
            assert(end.same_setup(&pre));
            assert(end.per_session@.contains_key(n));
            assert(pre.per_session@.contains_key(n));
            let s: ForkingMonitorPerSession<'a> = end.per_session@[n];
            assert(session_keeps_up(pre, s, msgs, run, k, n));
            law_final_check_spares(
                s,
                post.per_session@[n],
                end.process_withdraws,
                end.router_id,
                n,
                results[n],
                sent_by(run.last[n], pre.router_id, msgs, n),
            );
        }
    }
}

/// There is only one largest number of forks, it is at least 1, and no session has more.
pub proof fn law_largest_number_of_forks(
    states: Seq<ReorderingMonitor>,
    a: nat,
    b: nat,
    i: int,
    n: RouterId,
)
    requires
        is_max_forks(states, a),
        is_max_forks(states, b),
    ensures
        a == b,
        a >= 1,
        0 < i < states.len() && states[i].per_session@.contains_key(n)
            ==> states[i].per_session@[n].forks@.len() <= a,
{
    if 0 < i < states.len() && states[i].per_session@.contains_key(n) {
        assert(num_forks(states[i], n) <= a);
    }
}

/// A trace on which the monitor gave up counts as accepted. One that is not accepted ends with an error,
/// and a trace without any error is accepted.
pub proof fn law_accepted_traces<'a>(
    states: Seq<ReorderingMonitor<'a>>,
    outcomes: Seq<(MonitoringResult, Time)>,
    last: MonitoringResult,
    post: ReorderingMonitor<'a>,
    msgs: Seq<Message>,
    delay: Option<Time>,
    r: TraceOutcome,
)
    requires
        tests(states, outcomes, last, post, msgs, delay, r),
    ensures
        r.killed ==> r.ok,
        r.killed <==> outcomes.len() > 0 && (outcomes.last().0 matches Err(e) && e is Killed),
        r.killed ==> r.max_forks == outcomes.last().0->Err_0->Killed_num_forks,
        !r.ok <==> (exists|i: int|
            0 <= i < outcomes.len() && ((#[trigger] outcomes[i]).0 matches Err(e) && !(e is Killed)))
            || (outcomes.len() == msgs.len() && last is Err && forall|i: int|
            0 <= i < outcomes.len() ==> (#[trigger] outcomes[i]).0 is Ok),
        outcomes.len() <= msgs.len(),
        outcomes.len() < msgs.len() ==> outcomes.len() > 0 && outcomes.last().0 is Err,
{
    let k = outcomes.len() as int;
    if k > 0 && outcomes[k - 1].0 is Err {
        assert forall|i: int|
            0 <= i < k && ((#[trigger] outcomes[i]).0 matches Err(e) && !(e is Killed)) implies i == k
            - 1 by {
            if i < k - 1 {
                assert(outcomes[i].0 is Ok);
            }
        }
        if !(outcomes[k - 1].0->Err_0 is Killed) {
            assert(outcomes[k - 1].0 is Err);
        }
    }
}

} // verus!
