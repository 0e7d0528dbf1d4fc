//! Whole sequences of messages: a router that processes its messages correctly is not accused.
use vstd::prelude::*;

use crate::bgp::{Event, RouteView, RouterId, Time, INFINITY};
use crate::forking_monitor::{behind, caught_up, everything, in_order, incoming_step, no_accusation};
use crate::forking_monitor::{switch_step, timeout_step, outgoing_step, within};
use crate::forking_monitor::{ForkingMonitorPerSession, ProcessWithdraws};
use crate::import::Message;
use crate::monitoring::MonitoringResult;
use crate::reordering_monitoring::{answer_step, deadline_step, final_step, observed, then_switch};
use crate::reordering_monitoring::{deadline_steps, message_step, outcome};
use crate::reordering_monitoring::ReorderingMonitor;
use crate::session_monitor::{advanced, exports, Counts, Pending};

verus! {

/// A time that lies some ticks before another one. Nothing lies before an infinite time.
pub open spec fn before(time: Time, ticks: Time) -> Time {
    if time == INFINITY {
        INFINITY
    } else if time - ticks < i64::MIN {
        i64::MIN
    } else if time - ticks > i64::MAX {
        INFINITY
    } else {
        (time - ticks) as Time
    }
}

/// A time that lies some ticks before another one.
pub fn time_before(time: Time, ticks: Time) -> (r: Time)
    ensures
        r == before(time, ticks),
{
    if time == INFINITY {
        INFINITY
    } else {
        match time.checked_sub(ticks) {
            Some(t) => t,
            None => if ticks > 0 {
                i64::MIN
            } else {
                INFINITY
            },
        }
    }
}

/// A router that has moved on is covered, too.
pub proof fn lemma_covers_later(s: ForkingMonitorPerSession, counts: Counts, later: Counts)
    requires
        s.covers(counts),
        within(later, s.received@),
        forall|n: RouterId| #[trigger] counts[n] <= later[n],
    ensures
        s.covers(later),
{
    let i = choose|i: int|
        0 <= i < s.forks@.len() && behind(#[trigger] s.forks@[i], s.received@, counts);
    assert(behind(s.forks@[i], s.received@, later)) by {
        reveal(behind);
        assert forall|n: RouterId|
            s.received@[n].len() - (#[trigger] s.forks@[i].pending()[n]).len() <= later[n] by {
            assert(counts[n] <= later[n]);
        }
    }
}

/// No session accuses a router at a timeout if the router has processed the messages that are due,
/// and if it still sends what it has sent last.
pub proof fn law_deadline_spares<'a>(
    pre: ForkingMonitorPerSession<'a>,
    post: ForkingMonitorPerSession<'a>,
    time: Time,
    mode: ProcessWithdraws,
    router_id: RouterId,
    neighbor: RouterId,
    r: MonitoringResult,
    counts: Counts,
    route: Option<RouteView>,
)
    requires
        deadline_step(pre, post, time, mode, router_id, neighbor, r),
        pre.tracks(),
        time == INFINITY || in_order(pre.received@),
        pre.covers(counts),
        caught_up(counts, pre.received@, time),
        pre.last_sent(route),
        pre.explains(counts, route),
    ensures
        no_accusation(r),
        r is Ok ==> post.tracks() && post.covers(counts) && post.last_sent(route) && post.base
            == pre.base && post.received == pre.received,
{
    let (mid, r0) = choose|mid: ForkingMonitorPerSession<'a>, r0: MonitoringResult| #[trigger]
        timeout_step(pre, mid, time, r0) && then_switch(
            mid,
            post,
            mode,
            router_id,
            neighbor,
            r0,
            r,
        );
    if r0 is Ok {
        assert(mid.last_sent(route));
        assert(mid.covers(counts) && mid.explains(counts, route));
        let end = choose|end: ForkingMonitorPerSession<'a>| #[trigger]
            switch_step(mid, end, mode, r) && match r {
                Err(_) => crate::forking_monitor::recover_step(
                    end,
                    post,
                    router_id,
                    neighbor,
                    crate::forking_monitor::enables(mode, 1),
                ),
                Ok(_) => post == end,
            };
    }
}

/// No session accuses a router for a message that its table leads to.
pub proof fn law_answer_spares<'a>(
    pre: ForkingMonitorPerSession<'a>,
    post: ForkingMonitorPerSession<'a>,
    route: Option<RouteView>,
    mode: ProcessWithdraws,
    router_id: RouterId,
    neighbor: RouterId,
    r: MonitoringResult,
    counts: Counts,
)
    requires
        answer_step(pre, post, route, mode, router_id, neighbor, r),
        pre.tracks(),
        pre.covers(counts),
        pre.explains(counts, route),
    ensures
        no_accusation(r),
        r is Ok ==> post.tracks() && post.covers(counts) && post.last_sent(route) && post.base
            == pre.base && post.received == pre.received,
{
    let (mid, r0) = choose|mid: ForkingMonitorPerSession<'a>, r0: MonitoringResult| #[trigger]
        outgoing_step(pre, mid, route, r0) && then_switch(
            mid,
            post,
            mode,
            router_id,
            neighbor,
            r0,
            r,
        );
    if r0 is Ok {
        assert(mid.last_sent(route));
        assert(mid.covers(counts) && mid.explains(counts, route));
        let end = choose|end: ForkingMonitorPerSession<'a>| #[trigger]
            switch_step(mid, end, mode, r) && match r {
                Err(_) => crate::forking_monitor::recover_step(
                    end,
                    post,
                    router_id,
                    neighbor,
                    crate::forking_monitor::enables(mode, 1),
                ),
                Ok(_) => post == end,
            };
    }
}

/// The final check does not accuse a router that has processed everything, and whose table leads to
/// what it has sent last.
pub proof fn law_final_check_spares<'a>(
    pre: ForkingMonitorPerSession<'a>,
    post: ForkingMonitorPerSession<'a>,
    mode: ProcessWithdraws,
    router_id: RouterId,
    neighbor: RouterId,
    r: MonitoringResult,
    route: Option<RouteView>,
)
    requires
        pre.ready(),
        final_step(pre, post, mode, router_id, neighbor, r),
        pre.tracks(),
        pre.last_sent(route),
        exports(everything(pre.base@, pre.received@), route),
    ensures
        no_accusation(r),
{
    let all: Counts = Map::new(|n: RouterId| true, |n: RouterId| pre.received@[n].len());
    let mid = choose|mid: ForkingMonitorPerSession<'a>| #[trigger]
        timeout_step(pre, mid, INFINITY, r) && match r {
            Ok(_) => post == mid,
            Err(_) => crate::forking_monitor::recover_step(
                mid,
                post,
                router_id,
                neighbor,
                crate::forking_monitor::enables(mode, 1),
            ),
        };
    assert(behind(pre.forks@[0], pre.received@, all)) by {
        reveal(behind);
        assert forall|n: RouterId|
            pre.received@[n].len() - (#[trigger] pre.forks@[0].pending()[n]).len() <= all[n] by {
            assert(all[n] == pre.received@[n].len());
        }
    }
    assert(within(all, pre.received@)) by {
        assert forall|n: RouterId| #[trigger] all[n] <= pre.received@[n].len() by {}
    }
    assert(caught_up(all, pre.received@, INFINITY)) by {
        assert forall|n: RouterId, i: int|
            0 <= i < pre.received@[n].len() && (#[trigger] pre.received@[n][i]).time
                <= INFINITY implies i < all[n] by {}
    }
    assert(pre.covers(all) && pre.explains(all, route));
}

// ---------------------------------------------------------------------------------------------
// Traces
// ---------------------------------------------------------------------------------------------
/// The number of messages that the router receives.
pub open spec fn num_incoming(router_id: RouterId, msgs: Seq<Message>) -> nat
    decreases msgs.len(),
{
    if msgs.len() == 0 {
        0
    } else {
        let init = num_incoming(router_id, msgs.drop_last());
        match msgs.last().event {
            Event::Bgp { dst, .. } => if dst == router_id {
                init + 1
            } else {
                init
            },
            Event::Ospf { .. } => init,
        }
    }
}

/// What a session has received after some messages.
pub open spec fn received_by<'a>(
    start: Pending<'a>,
    router_id: RouterId,
    first_id: nat,
    msgs: Seq<Message>,
    n: RouterId,
) -> Pending<'a>
    decreases msgs.len(),
{
    if msgs.len() == 0 {
        start
    } else {
        let init = received_by(start, router_id, first_id, msgs.drop_last(), n);
        let id = (first_id + num_incoming(router_id, msgs.drop_last())) as usize;
        match msgs.last().event {
            Event::Bgp { p, src, dst, e } => if dst == router_id {
                init.insert(src, init[src].push(observed(id, p, e, msgs.last().import, n)))
            } else {
                init
            },
            Event::Ospf { .. } => init,
        }
    }
}

/// What neighbor `n` was sent last after some messages.
pub open spec fn sent_by(
    start: Option<RouteView>,
    router_id: RouterId,
    msgs: Seq<Message>,
    n: RouterId,
) -> Option<RouteView>
    decreases msgs.len(),
{
    if msgs.len() == 0 {
        start
    } else {
        let init = sent_by(start, router_id, msgs.drop_last(), n);
        match msgs.last().event {
            Event::Bgp { src, dst, e, .. } => if dst != router_id && src == router_id && dst == n {
                e@.route()
            } else {
                init
            },
            Event::Ospf { .. } => init,
        }
    }
}

/// How a router works through its messages: for each message of a trace, how many messages of every
/// neighbor it has processed, as far as each session is concerned, right before the message and
/// when the message is sent.
pub struct Run {
    /// What each neighbor was sent last, before the trace
    pub last: Map<RouterId, Option<RouteView>>,
    /// How far the router was, before the trace
    pub start: Map<RouterId, Counts>,
    pub held: Seq<Map<RouterId, Counts>>,
    pub sent: Seq<Map<RouterId, Counts>>,
}

impl Run {
    /// How far the router has come after `k` messages.
    pub open spec fn reached(self, k: int, n: RouterId) -> Counts {
        if k == 0 {
            self.start[n]
        } else {
            self.sent[k - 1][n]
        }
    }
}

/// A router never goes back.
pub open spec fn goes_on(a: Counts, b: Counts) -> bool {
    forall|m: RouterId| #[trigger] a[m] <= b[m]
}

/// The router works correctly on message `k`, as far as the session with `n` is concerned: it has
/// processed what it had to, it sent last what its table led to, and if it sends the message then
/// its table leads to it.
pub open spec fn correct_at(
    pre: ReorderingMonitor,
    msgs: Seq<Message>,
    mrai: Option<Time>,
    run: Run,
    k: int,
    n: RouterId,
) -> bool {
    let s = pre.per_session@[n];
    let received = received_by(
        s.received@,
        pre.router_id,
        pre.incoming_counter as nat,
        msgs.take(k),
        n,
    );
    let held = run.held[k][n];
    let sent = run.sent[k][n];
    &&& in_order(received)
    &&& within(held, received)
    &&& within(sent, received)
    &&& goes_on(run.reached(k, n), held)
    &&& goes_on(held, sent)
    &&& mrai matches Some(d) ==> {
        &&& caught_up(held, received, before(msgs[k].event@.priority(), d))
        &&& exports(
            advanced(s.base@, received, held),
            sent_by(run.last[n], pre.router_id, msgs.take(k), n),
        )
    }
    &&& msgs[k].event matches Event::Bgp { src, dst, e, .. } ==> (dst != pre.router_id && src
        == pre.router_id && dst == n ==> exports(advanced(s.base@, received, sent), e@.route()))
}

/// The router works correctly on all messages.
pub open spec fn correct(
    pre: ReorderingMonitor,
    msgs: Seq<Message>,
    mrai: Option<Time>,
    run: Run,
) -> bool {
    &&& forall|n: RouterId| #[trigger]
        pre.per_session@.contains_key(n) ==> pre.per_session@[n].tracks()
            && pre.per_session@[n].covers(run.start[n]) && pre.per_session@[n].last_sent(
            run.last[n],
        )
    &&& forall|k: int, n: RouterId|
        0 <= k < msgs.len() && pre.per_session@.contains_key(n) ==> #[trigger] correct_at(
            pre,
            msgs,
            mrai,
            run,
            k,
            n,
        )
}

/// After `k` messages, every session still allows for what the router does.
pub open spec fn keeps_up<'a>(
    pre: ReorderingMonitor<'a>,
    cur: ReorderingMonitor<'a>,
    msgs: Seq<Message>,
    run: Run,
    k: int,
) -> bool {
    forall|n: RouterId| #[trigger]
        pre.per_session@.contains_key(n) ==> session_keeps_up(
            pre,
            cur.per_session@[n],
            msgs,
            run,
            k,
            n,
        )
}

/// After `k` messages, the session with `n` still allows for what the router does.
pub open spec fn session_keeps_up<'a>(
    pre: ReorderingMonitor<'a>,
    s: ForkingMonitorPerSession<'a>,
    msgs: Seq<Message>,
    run: Run,
    k: int,
    n: RouterId,
) -> bool {
    &&& s.tracks()
    &&& s.base@ == pre.per_session@[n].base@
    &&& s.received@ == received_by(
        pre.per_session@[n].received@,
        pre.router_id,
        pre.incoming_counter as nat,
        msgs.take(k),
        n,
    )
    &&& s.last_sent(sent_by(run.last[n], pre.router_id, msgs.take(k), n))
    &&& s.covers(run.reached(k, n))
}

/// A session gets through the timeout before message `k`.
pub open spec fn session_holds<'a>(
    pre: ReorderingMonitor<'a>,
    s: ForkingMonitorPerSession<'a>,
    msgs: Seq<Message>,
    run: Run,
    k: int,
    n: RouterId,
) -> bool {
    &&& s.tracks()
    &&& s.base@ == pre.per_session@[n].base@
    &&& s.received@ == received_by(
        pre.per_session@[n].received@,
        pre.router_id,
        pre.incoming_counter as nat,
        msgs.take(k),
        n,
    )
    &&& s.last_sent(sent_by(run.last[n], pre.router_id, msgs.take(k), n))
    &&& s.covers(run.held[k][n])
}

/// Every session gets through the timeout before message `k`.
pub open spec fn holds<'a>(
    pre: ReorderingMonitor<'a>,
    cur: ReorderingMonitor<'a>,
    msgs: Seq<Message>,
    run: Run,
    k: int,
) -> bool {
    forall|n: RouterId| #[trigger]
        pre.per_session@.contains_key(n) ==> session_holds(
            pre,
            cur.per_session@[n],
            msgs,
            run,
            k,
            n,
        )
}

/// Without a timeout, a session that keeps up gets to the next message.
pub proof fn lemma_no_deadline<'a>(
    pre: ReorderingMonitor<'a>,
    cur: ReorderingMonitor<'a>,
    msgs: Seq<Message>,
    mrai: Option<Time>,
    run: Run,
    k: int,
)
    requires
        correct(pre, msgs, mrai, run),
        keeps_up(pre, cur, msgs, run, k),
        0 <= k < msgs.len(),
    ensures
        holds(pre, cur, msgs, run, k),
{
    assert forall|n: RouterId| #[trigger] pre.per_session@.contains_key(n) implies session_holds(
        pre,
        cur.per_session@[n],
        msgs,
        run,
        k,
        n,
    ) by {
        assert(correct_at(pre, msgs, mrai, run, k, n));
        let s = cur.per_session@[n];
        assert(session_keeps_up(pre, s, msgs, run, k, n));
        lemma_covers_later(s, run.reached(k, n), run.held[k][n]);
    }
}

/// A correct router gets through the timeout before message `k`.
pub proof fn law_deadline_spares_correct<'a>(
    pre: ReorderingMonitor<'a>,
    cur: ReorderingMonitor<'a>,
    next: ReorderingMonitor<'a>,
    msgs: Seq<Message>,
    d: Time,
    run: Run,
    k: int,
    results: Map<RouterId, MonitoringResult>,
    r: MonitoringResult,
)
    requires
        correct(pre, msgs, Some(d), run),
        keeps_up(pre, cur, msgs, run, k),
        0 <= k < msgs.len(),
        forall|n: RouterId|
            cur.per_session@.contains_key(n) == #[trigger] pre.per_session@.contains_key(n),
        deadline_steps(cur, next, before(msgs[k].event@.priority(), d), results),
        outcome(results, r),
    ensures
        no_accusation(r),
        r is Ok ==> holds(pre, next, msgs, run, k),
{
    let time = before(msgs[k].event@.priority(), d);
    lemma_no_deadline(pre, cur, msgs, Some(d), run, k);
    assert forall|n: RouterId| #[trigger] pre.per_session@.contains_key(n) implies no_accusation(
        results[n],
    ) && (results[n] is Ok ==> session_holds(pre, next.per_session@[n], msgs, run, k, n)) by {
        assert(correct_at(pre, msgs, Some(d), run, k, n));
        let s = cur.per_session@[n];
        assert(cur.per_session@.contains_key(n));
        assert(session_holds(pre, s, msgs, run, k, n));
        law_deadline_spares(
            s,
            next.per_session@[n],
            time,
            cur.process_withdraws,
            cur.router_id,
            n,
            results[n],
            run.held[k][n],
            sent_by(run.last[n], pre.router_id, msgs.take(k), n),
        );
    }
    if r is Err {
        let n = choose|n: RouterId| #[trigger] results.contains_key(n) && results[n] == r;
        assert(cur.per_session@.contains_key(n));
        assert(pre.per_session@.contains_key(n));
    } else {
        assert forall|n: RouterId| #[trigger] pre.per_session@.contains_key(n) implies session_holds(
            pre,
            next.per_session@[n],
            msgs,
            run,
            k,
            n,
        ) by {
            assert(cur.per_session@.contains_key(n));
            assert(results.contains_key(n));
        }
    }
}

/// A correct router gets through message `k`.
pub proof fn law_message_spares_correct<'a>(
    pre: ReorderingMonitor<'a>,
    cur: ReorderingMonitor<'a>,
    next: ReorderingMonitor<'a>,
    msgs: Seq<Message>,
    mrai: Option<Time>,
    run: Run,
    k: int,
    r: MonitoringResult,
)
    requires
        correct(pre, msgs, mrai, run),
        holds(pre, cur, msgs, run, k),
        0 <= k < msgs.len(),
        cur.router_id == pre.router_id,
        cur.incoming_counter == pre.incoming_counter + num_incoming(pre.router_id, msgs.take(k)),
        forall|n: RouterId|
            cur.per_session@.contains_key(n) == #[trigger] pre.per_session@.contains_key(n),
        message_step(cur, next, msgs[k], r),
    ensures
        no_accusation(r),
        r is Ok ==> keeps_up(pre, next, msgs, run, k + 1),
        next.incoming_counter == pre.incoming_counter + num_incoming(
            pre.router_id,
            msgs.take(k + 1),
        ),
{
    let rid = pre.router_id;
    let (a, b) = (msgs.take(k), msgs.take(k + 1));
    assert(b.drop_last() =~= a);
    assert(b.last() == msgs[k]);
    assert forall|n: RouterId| #[trigger] pre.per_session@.contains_key(n) implies no_accusation(r)
        && (r is Ok ==> session_keeps_up(pre, next.per_session@[n], msgs, run, k + 1, n)) by {
        assert(correct_at(pre, msgs, mrai, run, k, n));
        assert(cur.per_session@.contains_key(n));
        let s = cur.per_session@[n];
        assert(session_holds(pre, s, msgs, run, k, n));
        lemma_covers_later(s, run.held[k][n], run.sent[k][n]);
        match msgs[k].event {
            Event::Ospf { .. } => {},
            Event::Bgp { p, src, dst, e } => {
                if dst == rid {
                    let t = next.per_session@[n];
                    let m = observed(cur.incoming_counter, p, e, msgs[k].import, n);
                    assert(incoming_step(s, t, src, m));
                    assert(t.covers(run.sent[k][n]));
                    assert(t.last_sent(sent_by(run.last[n], rid, a, n)));
                } else if src == rid {
                    if dst == n {
                        law_answer_spares(
                            s,
                            next.per_session@[n],
                            e@.route(),
                            cur.process_withdraws,
                            cur.router_id,
                            n,
                            r,
                            run.sent[k][n],
                        );
                    } else if cur.per_session@.contains_key(dst) {
                        // another session explains the message
                        assert(pre.per_session@.contains_key(dst));
                        assert(correct_at(pre, msgs, mrai, run, k, dst));
                        let u = cur.per_session@[dst];
                        assert(session_holds(pre, u, msgs, run, k, dst));
                        lemma_covers_later(u, run.held[k][dst], run.sent[k][dst]);
                        law_answer_spares(
                            u,
                            next.per_session@[dst],
                            e@.route(),
                            cur.process_withdraws,
                            cur.router_id,
                            dst,
                            r,
                            run.sent[k][dst],
                        );
                    }
                }
            },
        }
    }
    // without any session there is nothing to accuse
    match msgs[k].event {
        Event::Ospf { .. } => {},
        Event::Bgp { src, dst, .. } => {
            if dst != rid && src == rid && cur.per_session@.contains_key(dst) {
                assert(pre.per_session@.contains_key(dst));
            }
        },
    }
}

/// What comes of a message, after the timeout that comes with it.
pub open spec fn timed_step<'a>(
    pre: ReorderingMonitor<'a>,
    post: ReorderingMonitor<'a>,
    message: Message,
    mrai: Option<Time>,
    r: MonitoringResult,
) -> bool {
    match mrai {
        None => message_step(pre, post, message, r),
        Some(d) => exists|
            mid: ReorderingMonitor<'a>,
            results: Map<RouterId, MonitoringResult>,
            r0: MonitoringResult,
        |
            #![trigger deadline_steps(
                pre,
                mid,
                before(message.event@.priority(), d),
                results,
            ), outcome(results, r0)]
            deadline_steps(pre, mid, before(message.event@.priority(), d), results) && outcome(
                results,
                r0,
            ) && match r0 {
                Ok(_) => message_step(mid, post, message, r),
                Err(_) => r == r0 && post == mid,
            },
    }
}

/// What comes of a sequence of messages without an error.
pub open spec fn passes<'a>(
    pre: ReorderingMonitor<'a>,
    post: ReorderingMonitor<'a>,
    msgs: Seq<Message>,
    mrai: Option<Time>,
) -> bool
    decreases msgs.len(),
{
    if msgs.len() == 0 {
        post == pre
    } else {
        exists|mid: ReorderingMonitor<'a>, r: MonitoringResult| #[trigger]
            timed_step(mid, post, msgs.last(), mrai, r) && r is Ok && passes(
                pre,
                mid,
                msgs.drop_last(),
                mrai,
            )
    }
}

/// What comes of a sequence of messages, up to the first error.
pub open spec fn ingests<'a>(
    pre: ReorderingMonitor<'a>,
    post: ReorderingMonitor<'a>,
    msgs: Seq<Message>,
    mrai: Option<Time>,
    r: MonitoringResult,
) -> bool {
    match r {
        Ok(_) => passes(pre, post, msgs, mrai),
        Err(_) => exists|k: int, mid: ReorderingMonitor<'a>|
            0 <= k < msgs.len() && passes(pre, mid, #[trigger] msgs.take(k), mrai)
                && #[trigger] timed_step(mid, post, msgs[k], mrai, r),
    }
}

impl<'a> ReorderingMonitor<'a> {
    /// Process a sequence of messages, and return the first error that occurs. The final check is
    /// not done.
    ///
    /// If `mrai` is given, then before each message the router must have processed everything that
    /// arrived up to `mrai` before it.
    pub fn ingest_message_sequence(
        &mut self,
        message_sequence: Vec<Message>,
        mrai: Option<Time>,
    ) -> (r: MonitoringResult)
        requires
            old(self).wf(),
            forall|k: int|
                0 <= k < message_sequence@.len() ==> (#[trigger] message_sequence@[k]).wf(),
            old(self).incoming_counter + message_sequence@.len() <= usize::MAX,
        ensures
            final(self).wf(),
            final(self).same_setup(old(self)),
            ingests(*old(self), *final(self), message_sequence@, mrai, r),
            forall|run: Run| #[trigger]
                correct(*old(self), message_sequence@, mrai, run) ==> no_accusation(r) && (r is Ok
                    ==> keeps_up(
                    *old(self),
                    *final(self),
                    message_sequence@,
                    run,
                    message_sequence@.len() as int,
                )),
    {
        let ghost pre = *self;
        let ghost msgs = message_sequence@;
        assert(msgs.take(0) =~= Seq::<Message>::empty());
        for msg in it: message_sequence
            invariant
                msgs == message_sequence@,
                it.seq() == msgs,
                pre == *old(self),
                self.wf(),
                self.same_setup(&pre),
                forall|k: int| 0 <= k < msgs.len() ==> (#[trigger] msgs[k]).wf(),
                pre.incoming_counter + msgs.len() <= usize::MAX,
                pre.incoming_counter <= self.incoming_counter <= pre.incoming_counter + it.index(),
                self.incoming_counter == pre.incoming_counter + num_incoming(
                    pre.router_id,
                    msgs.take(it.index() as int),
                ),
                passes(pre, *self, msgs.take(it.index() as int), mrai),
                forall|run: Run| #[trigger]
                    correct(pre, msgs, mrai, run) ==> keeps_up(
                        pre,
                        *self,
                        msgs,
                        run,
                        it.index() as int,
                    ),
        {
            let ghost k = it.index() as int;
            let ghost start = *self;
            assert(msg == msgs[k]);
            assert(msgs.take(k + 1).drop_last() =~= msgs.take(k));
            assert(msgs.take(k + 1).last() == msgs[k]);
            if let Some(d) = mrai {
                let r0: MonitoringResult = self.assert_messages_processed_before(
                    time_before(msg.event.priority(), d),
                );
                proof {
                    let time = before(msg.event@.priority(), d);
                    let results = choose|results: Map<RouterId, MonitoringResult>| #[trigger]
                        outcome(results, r0) && deadline_steps(start, *self, time, results);
                    assert(deadline_steps(start, *self, time, results));
                    assert forall|run: Run| #[trigger] correct(pre, msgs, mrai, run) implies
                        no_accusation(r0) && (r0 is Ok ==> holds(pre, *self, msgs, run, k)) by {
                        law_deadline_spares_correct(
                            pre,
                            start,
                            *self,
                            msgs,
                            d,
                            run,
                            k,
                            results,
                            r0,
                        );
                    }
                    if r0 is Err {
                        assert(timed_step(start, *self, msgs[k], mrai, r0));
                        assert(passes(pre, start, msgs.take(k), mrai));
                    }
                }
                match r0 {
                    Ok(_) => {},
                    Err(e) => {
                        return Err(e);
                    },
                }
            }
            let ghost mid = *self;
            proof {
                if mrai is None {
                    assert forall|run: Run| #[trigger] correct(pre, msgs, mrai, run) implies holds(
                        pre,
                        mid,
                        msgs,
                        run,
                        k,
                    ) by {
                        lemma_no_deadline(pre, mid, msgs, mrai, run, k);
                    }
                }
            }
            let r1: MonitoringResult = self.process_message(msg);
            proof {
                assert(timed_step(start, *self, msgs[k], mrai, r1)) by {
                    if mrai is Some {
                        let d = mrai->0;
                        let time = before(msg.event@.priority(), d);
                        let (results, r0) = choose|
                            results: Map<RouterId, MonitoringResult>,
                            r0: MonitoringResult,
                        | #[trigger]
                            outcome(results, r0) && deadline_steps(start, mid, time, results) && r0
                                is Ok;
                        assert(deadline_steps(start, mid, time, results));
                    }
                }
                assert forall|run: Run| #[trigger] correct(pre, msgs, mrai, run) implies
                    no_accusation(r1) && (r1 is Ok ==> keeps_up(pre, *self, msgs, run, k + 1)) by {
                    law_message_spares_correct(pre, mid, *self, msgs, mrai, run, k, r1);
                }
                if r1 is Err {
                    assert(passes(pre, start, msgs.take(k), mrai));
                } else {
                    assert(passes(pre, *self, msgs.take(k + 1), mrai));
                }
            }
            match r1 {
                Ok(_) => {},
                Err(e) => {
                    return Err(e);
                },
            }
        }
        assert(msgs.take(msgs.len() as int) =~= msgs);
        Ok(())
    }
}

/// A time some ticks before another one is the difference. Nothing is before an infinite time.
pub proof fn law_times_before(time: Time, ticks: Time)
    ensures
        time != i64::MAX && i64::MIN <= time - ticks <= i64::MAX ==> before(time, ticks) == time - ticks,
        before(i64::MAX, ticks) == i64::MAX,
        time != i64::MAX && time - ticks < i64::MIN ==> before(time, ticks) == i64::MIN,
        ticks >= 0 ==> before(time, ticks) <= time,
{
}

/// Without messages nothing happens. Without a time for which messages may be held back, a sequence is
/// accepted exactly if its last message is, once those before it are.
pub proof fn law_sequences_of_messages<'a>(
    pre: ReorderingMonitor<'a>,
    post: ReorderingMonitor<'a>,
    msgs: Seq<Message>,
    m: Message,
    mrai: Option<Time>,
    r: MonitoringResult,
)
    ensures
        ingests(pre, post, Seq::empty(), mrai, r) ==> r is Ok && post == pre,
        passes(pre, post, msgs.push(m), None) <==> exists|
            mid: ReorderingMonitor<'a>,
            r: MonitoringResult,
        | #[trigger]
            message_step(mid, post, m, r) && r is Ok && passes(pre, mid, msgs, None),
{
    assert(msgs.push(m).drop_last() =~= msgs);
    assert(msgs.push(m).last() == m);
    if passes(pre, post, msgs.push(m), None) {
        let (mid, r1) = choose|mid: ReorderingMonitor<'a>, r1: MonitoringResult| #[trigger]
            timed_step(mid, post, m, None, r1) && r1 is Ok && passes(pre, mid, msgs, None);
        assert(message_step(mid, post, m, r1));
    }
    if exists|mid: ReorderingMonitor<'a>, r: MonitoringResult| #[trigger]
        message_step(mid, post, m, r) && r is Ok && passes(pre, mid, msgs, None) {
        let (mid, r1) = choose|mid: ReorderingMonitor<'a>, r1: MonitoringResult| #[trigger]
            message_step(mid, post, m, r1) && r1 is Ok && passes(pre, mid, msgs, None);
        assert(timed_step(mid, post, m, None, r1));
    }
}

} // verus!
