//! Setting up the sessions of a reordering queue, and collecting what was logged on them.
use vstd::prelude::*;

use crate::bgp::{Event, EventView, RouterId, Time};
use crate::dispatch_queue::{event_views, QueueInit, Session};
use crate::keyed::{as_map, lemma_entry, lemma_same_keys, lemma_same_keys_update, Keyed};
use crate::reordering_queue::{waits, ScramblingQueue};
use crate::reordering_session::{is_part_of, lemma_work, part_drawn, Bug, FailureLocation};
use crate::reordering_session::{ReorderingSessionQueue, ReorderingSessionQueueInit};
use crate::session_filter::SessionFilter;
use crate::session_queue::{later, views, Message, MessageView, SessionQueue};
use crate::sorting::{is_sorting_of, sort_by_time};

verus! {

pub type ReorderingQueue = ScramblingQueue<ReorderingSessionQueue, ReorderingSessionQueueInit>;

/// A bug of a router on the session with a neighbor.
#[derive(Debug, Clone, Copy, PartialEq, Eq)]
pub struct Failure {
    pub router: RouterId,
    pub neighbor: RouterId,
    pub location: FailureLocation,
    pub bug: Bug,
}

impl Failure {
    /// The session that the bug is on.
    pub open spec fn session(self) -> Session {
        match self.location {
            FailureLocation::Ingress => (self.neighbor, self.router),
            FailureLocation::Egress => (self.router, self.neighbor),
        }
    }
}

/// Two sessions have the same messages, bugs and logs.
pub open spec fn same_load(a: ReorderingSessionQueue, b: ReorderingSessionQueue) -> bool {
    &&& b.a.queue.inner.queue == a.a.queue.inner.queue
    &&& b.a.queue.last_dequeued == a.a.queue.last_dequeued
    &&& b.a.post == a.a.post
    &&& b.b.a.pre.log == a.b.a.pre.log
    &&& b.b.a.pre.enabled == a.b.a.pre.enabled
    &&& b.b.a.queue.queue == a.b.a.queue.queue
    &&& b.b.a.post.log == a.b.a.post.log
    &&& b.b.a.post.enabled == a.b.a.post.enabled
    &&& b.b.b.pre == a.b.b.pre
    &&& b.b.b.queue.queue == a.b.b.queue.queue
}

/// A session is set up with or without random times, and with or without debouncing.
pub open spec fn configured(
    a: ReorderingSessionQueue,
    with_reordering: bool,
    with_debouncing: bool,
    time_scale: Time,
    b: ReorderingSessionQueue,
) -> bool {
    &&& same_load(a, b)
    &&& b.a.queue.enable == (a.a.queue.enable && with_debouncing)
    &&& b.a.queue.rng == a.a.queue.rng
    &&& b.a.queue.inner.rng == a.a.queue.inner.rng
    &&& if with_reordering {
        &&& b.b.a.queue.rng == a.b.a.queue.rng
        &&& b.b.b.queue.rng == a.b.b.queue.rng
        &&& b.a.queue.inner.fixed_delay == a.a.queue.inner.fixed_delay
        &&& b.b.a.queue.fixed_delay == a.b.a.queue.fixed_delay
        &&& b.b.b.queue.fixed_delay == a.b.b.queue.fixed_delay
        &&& b.b.a.pre.use_msg_time == a.b.a.pre.use_msg_time
        &&& b.b.a.post.use_msg_time == a.b.a.post.use_msg_time
    } else {
        &&& b.a.queue.inner.fixed_delay == Some(later(time_scale, time_scale))
        &&& b.b.a.queue.fixed_delay matches Some(d) && is_part_of(d, time_scale) && (
            d,
            b.b.a.queue.rng,
        ) == part_drawn(a.b.a.queue.rng, time_scale)
        &&& b.b.b.queue.fixed_delay matches Some(d) && is_part_of(d, time_scale) && (
            d,
            b.b.b.queue.rng,
        ) == part_drawn(a.b.b.queue.rng, time_scale)
        &&& b.b.a.pre.use_msg_time
        &&& b.b.a.post.use_msg_time
    }
}

/// A bug is added to a session.
pub open spec fn with_bug(
    a: ReorderingSessionQueue,
    failure: Failure,
    b: ReorderingSessionQueue,
) -> bool {
    &&& b.a.pre == a.a.pre
    &&& b.a.queue == a.a.queue
    &&& b.b.a == a.b.a
    &&& b.b.b.queue == a.b.b.queue
    &&& b.b.b.post == a.b.b.post
    &&& b.a.post.num_triggered == a.a.post.num_triggered
    &&& b.a.post.rng == a.a.post.rng
    &&& b.b.b.pre.num_triggered == a.b.b.pre.num_triggered
    &&& b.b.b.pre.rng == a.b.b.pre.rng
    &&& match failure.location {
        FailureLocation::Ingress => b.b.b.pre.bugs@ == a.b.b.pre.bugs@.push(failure.bug)
            && b.a.post.bugs@ == a.a.post.bugs@,
        FailureLocation::Egress => b.a.post.bugs@ == a.a.post.bugs@.push(failure.bug)
            && b.b.b.pre.bugs@ == a.b.b.pre.bugs@,
    }
}

/// A session on which only the messages of one router are logged.
pub open spec fn restricted(
    k: Session,
    a: ReorderingSessionQueue,
    router: RouterId,
    b: ReorderingSessionQueue,
) -> bool {
    &&& b.a == a.a
    &&& b.b.b == a.b.b
    &&& b.b.a.queue == a.b.a.queue
    &&& b.b.a.pre.log == a.b.a.pre.log
    &&& b.b.a.pre.use_msg_time == a.b.a.pre.use_msg_time
    &&& b.b.a.pre.enabled == (k.0 == router)
    &&& b.b.a.post.log == a.b.a.post.log
    &&& b.b.a.post.use_msg_time == a.b.a.post.use_msg_time
    &&& b.b.a.post.enabled == (k.1 == router)
}

/// The sum of a number over the sessions.
pub open spec fn sum_over(
    entries: Seq<(Session, ReorderingSessionQueue)>,
    f: spec_fn((Session, ReorderingSessionQueue)) -> nat,
) -> nat
    decreases entries.len(),
{
    if entries.len() == 0 {
        0
    } else {
        sum_over(entries.drop_last(), f) + f(entries.last())
    }
}

proof fn lemma_sum_take(
    entries: Seq<(Session, ReorderingSessionQueue)>,
    f: spec_fn((Session, ReorderingSessionQueue)) -> nat,
    i: int,
)
    requires
        0 <= i <= entries.len(),
    ensures
        sum_over(entries.take(i), f) <= sum_over(entries, f),
        i < entries.len() ==> sum_over(entries.take(i + 1), f) == sum_over(entries.take(i), f) + f(
            entries[i],
        ),
    decreases entries.len() - i,
{
    if i < entries.len() {
        assert(entries.take(i + 1).drop_last() =~= entries.take(i));
        lemma_sum_take(entries, f, i + 1);
    } else {
        assert(entries.take(i) =~= entries);
    }
}

/// How often the bugs of a session were triggered.
pub open spec fn triggered(e: (Session, ReorderingSessionQueue)) -> nat {
    e.1.a.post.num_triggered as nat + e.1.b.b.pre.num_triggered as nat
}

/// How often the bugs of a router on a session were triggered.
pub open spec fn triggered_at(router: RouterId, e: (Session, ReorderingSessionQueue)) -> nat {
    (if e.0.0 == router {
        e.1.a.post.num_triggered as nat
    } else {
        0
    }) + (if e.0.1 == router {
        e.1.b.b.pre.num_triggered as nat
    } else {
        0
    })
}

/// Replacing the queue of a session by one with the same work keeps the sessions well-formed.
proof fn lemma_replaced(
    before: ReorderingQueue,
    i: int,
    q: ReorderingSessionQueue,
    after: ReorderingQueue,
)
    requires
        before.wf(),
        0 <= i < before.bgp_queues.entries@.len(),
        after.bgp_queues.entries@ == before.bgp_queues.entries@.update(
            i,
            (before.bgp_queues.entries@[i].0, q),
        ),
        after.bgp_queue_heap == before.bgp_queue_heap,
        after.queue_init.wf(),
        q.wf(),
        q.work() == before.bgp_queues.entries@[i].1.work(),
    ensures
        after.wf(),
        after.bgp_queues@ == before.bgp_queues@.insert(before.bgp_queues.entries@[i].0, q),
{
    let entries = before.bgp_queues.entries@;
    let k = entries[i].0;
    lemma_same_keys_update(entries, i, q);
    lemma_entry(entries, i);
    assert forall|u: Session, t: Time| #[trigger]
        after.bgp_queue_heap@.contains((u, t)) implies after.bgp_queues@.contains_key(u) by {
        assert(before.bgp_queue_heap@.contains((u, t)));
    }
    assert forall|u: Session| #[trigger]
        after.bgp_queues@.contains_key(u) && after.bgp_queues@[u].work() > 0 implies waits(
        after.bgp_queue_heap@,
        u,
    ) by {
        assert(before.bgp_queues@.contains_key(u));
        assert(before.bgp_queues@[u].work() > 0);
    }
}

impl ReorderingQueue {
    /// All but the sessions is the same.
    pub open spec fn same_rest(a: Self, b: Self) -> bool {
        &&& b.bgp_queue_heap == a.bgp_queue_heap
        &&& b.base_queue == a.base_queue
        &&& b.current_time == a.current_time
        &&& b.clock == a.clock
    }

    /// Set up a session, which is created if there is none.
    pub fn init_session(
        &mut self,
        src: RouterId,
        dst: RouterId,
        with_reordering: bool,
        with_debouncing: bool,
        time_scale: Time,
    )
        requires
            old(self).wf(),
        ensures
            final(self).wf(),
            Self::same_rest(*old(self), *final(self)),
            exists|start: ReorderingSessionQueue, q: ReorderingSessionQueue|
                #![trigger configured(start, with_reordering, with_debouncing, time_scale, q)]
                Self::opened(*old(self), (src, dst), start, *final(self)) && configured(
                    start,
                    with_reordering,
                    with_debouncing,
                    time_scale,
                    q,
                ) && final(self).bgp_queues@ == old(self).bgp_queues@.insert((src, dst), q),
    {
        let i: usize = self.open_session(src, dst);
        let ghost mid = *self;
        let ghost start = self.bgp_queues.entries@[i as int].1;
        if !with_reordering {
            self.bgp_queues.entries[i].1.a.queue.use_fixed_timing(time_scale);
            self.bgp_queues.entries[i].1.b.a.queue.use_fixed_timing(time_scale);
            self.bgp_queues.entries[i].1.b.b.queue.use_fixed_timing(time_scale);
            self.bgp_queues.entries[i].1.b.a.pre.use_msg_time = true;
            self.bgp_queues.entries[i].1.b.a.post.use_msg_time = true;
        }
        if !with_debouncing {
            self.bgp_queues.entries[i].1.a.queue.disable();
        }
        proof {
            let q = self.bgp_queues.entries@[i as int].1;
            assert(mid.bgp_queues.entries@[i as int].1.wf());
            assert(self.bgp_queues.entries@ =~= mid.bgp_queues.entries@.update(
                i as int,
                ((src, dst), q),
            ));
            lemma_work(start);
            lemma_work(q);
            lemma_replaced(mid, i as int, q, *self);
            assert(configured(start, with_reordering, with_debouncing, time_scale, q));
            assert(self.bgp_queues@ =~= old(self).bgp_queues@.insert((src, dst), q));
        }
    }

    /// Log only on the sessions of `router`: what it sends where it is the source, and what it
    /// receives where it is the destination.
    pub fn restrict_monitoring_to(&mut self, router: RouterId)
        requires
            old(self).wf(),
        ensures
            final(self).wf(),
            Self::same_rest(*old(self), *final(self)),
            final(self).queue_init == old(self).queue_init,
            final(self).bgp_queues@.dom() == old(self).bgp_queues@.dom(),
            forall|k: Session| #[trigger]
                final(self).bgp_queues@.contains_key(k) ==> restricted(
                    k,
                    old(self).bgp_queues@[k],
                    router,
                    final(self).bgp_queues@[k],
                ),
    {
        let ghost entries = self.bgp_queues.entries@;
        let n: usize = self.bgp_queues.entries.len();
        let mut i: usize = 0;
        while i < n
            invariant
                i <= n,
                n == entries.len(),
                n == self.bgp_queues.entries@.len(),
                self.wf(),
                Self::same_rest(*old(self), *self),
                self.queue_init == old(self).queue_init,
                forall|j: int|
                    0 <= j < n ==> (#[trigger] entries[j]).0 == self.bgp_queues.entries@[j].0,
                forall|j: int|
                    0 <= j < i ==> restricted(
                        (#[trigger] entries[j]).0,
                        entries[j].1,
                        router,
                        self.bgp_queues.entries@[j].1,
                    ),
                forall|j: int| i <= j < n ==> #[trigger] entries[j] == self.bgp_queues.entries@[j],
            decreases n - i,
        {
            let ghost mid = *self;
            let (src, dst) = self.bgp_queues.entries[i].0;
            self.bgp_queues.entries[i].1.b.a.pre.enabled = src == router;
            self.bgp_queues.entries[i].1.b.a.post.enabled = dst == router;
            proof {
                let q = self.bgp_queues.entries@[i as int].1;
                assert(mid.bgp_queues.entries@[i as int].1.wf());
                assert(self.bgp_queues.entries@ =~= mid.bgp_queues.entries@.update(
                    i as int,
                    ((src, dst), q),
                ));
                lemma_work(mid.bgp_queues.entries@[i as int].1);
                lemma_work(q);
                lemma_replaced(mid, i as int, q, *self);
            }
            i += 1;
        }
        proof {
            lemma_same_keys(entries, self.bgp_queues.entries@);
            assert(old(self).bgp_queues@.dom() =~= self.bgp_queues@.dom());
        }
    }

    /// Add a bug to a session, which is created if there is none.
    pub fn add_failure(&mut self, failure: Failure)
        requires
            old(self).wf(),
            failure.bug.probability().is_valid(),
        ensures
            final(self).wf(),
            Self::same_rest(*old(self), *final(self)),
            exists|start: ReorderingSessionQueue, q: ReorderingSessionQueue|
                #![trigger with_bug(start, failure, q)]
                Self::opened(*old(self), failure.session(), start, *final(self)) && with_bug(
                    start,
                    failure,
                    q,
                ) && final(self).bgp_queues@ == old(self).bgp_queues@.insert(failure.session(), q),
    {
        let (src, dst) = match failure.location {
            FailureLocation::Ingress => (failure.neighbor, failure.router),
            FailureLocation::Egress => (failure.router, failure.neighbor),
        };
        let i: usize = self.open_session(src, dst);
        let ghost mid = *self;
        let ghost start = self.bgp_queues.entries@[i as int].1;
        match failure.location {
            FailureLocation::Ingress => {
                self.bgp_queues.entries[i].1.b.b.pre.bugs.push(failure.bug);
            },
            FailureLocation::Egress => {
                self.bgp_queues.entries[i].1.a.post.bugs.push(failure.bug);
            },
        }
        proof {
            let q = self.bgp_queues.entries@[i as int].1;
            assert(mid.bgp_queues.entries@[i as int].1.wf());
            assert(self.bgp_queues.entries@ =~= mid.bgp_queues.entries@.update(
                i as int,
                ((src, dst), q),
            ));
            lemma_work(start);
            lemma_work(q);
            assert(q.wf());
            lemma_replaced(mid, i as int, q, *self);
            assert(with_bug(start, failure, q));
            assert(self.bgp_queues@ =~= old(self).bgp_queues@.insert((src, dst), q));
        }
    }

    /// The time that the sessions of the queue share for what they log.
    pub fn get_global_time(&self) -> (r: Time)
        ensures
            r == self.clock,
    {
        self.clock
    }

    /// How often a bug was triggered.
    pub fn num_failures_triggered(&self) -> (r: usize)
        requires
            sum_over(self.bgp_queues.entries@, |e| triggered(e)) <= usize::MAX,
        ensures
            r == sum_over(self.bgp_queues.entries@, |e| triggered(e)),
    {
        let ghost entries = self.bgp_queues.entries@;
        let ghost f: spec_fn((Session, ReorderingSessionQueue)) -> nat = |e| triggered(e);
        let mut sum: usize = 0;
        for i in 0..self.bgp_queues.entries.len()
            invariant
                entries == self.bgp_queues.entries@,
                f == (|e: (Session, ReorderingSessionQueue)| triggered(e)),
                sum_over(entries, f) <= usize::MAX,
                sum == sum_over(entries.take(i as int), f),
        {
            proof {
                lemma_sum_take(entries, f, i as int);
                lemma_sum_take(entries, f, i + 1);
            }
            sum = sum + (self.bgp_queues.entries[i].1.a.post.num_triggered
                + self.bgp_queues.entries[i].1.b.b.pre.num_triggered);
        }
        assert(entries.take(entries.len() as int) =~= entries);
        sum
    }

    /// How often a bug was triggered on a router.
    pub fn num_failures_for_router(&self, router: RouterId) -> (r: usize)
        requires
            sum_over(self.bgp_queues.entries@, |e| triggered_at(router, e)) <= usize::MAX,
        ensures
            r == sum_over(self.bgp_queues.entries@, |e| triggered_at(router, e)),
    {
        let ghost entries = self.bgp_queues.entries@;
        let ghost f: spec_fn((Session, ReorderingSessionQueue)) -> nat = |e| triggered_at(router, e);
        let mut sum: usize = 0;
        for i in 0..self.bgp_queues.entries.len()
            invariant
                entries == self.bgp_queues.entries@,
                f == (|e: (Session, ReorderingSessionQueue)| triggered_at(router, e)),
                sum_over(entries, f) <= usize::MAX,
                sum == sum_over(entries.take(i as int), f),
        {
            proof {
                lemma_sum_take(entries, f, i as int);
                lemma_sum_take(entries, f, i + 1);
            }
            let (src, dst) = self.bgp_queues.entries[i].0;
            if src == router {
                sum = sum + self.bgp_queues.entries[i].1.a.post.num_triggered;
            }
            if dst == router {
                sum = sum + self.bgp_queues.entries[i].1.b.b.pre.num_triggered;
            }
        }
        assert(entries.take(entries.len() as int) =~= entries);
        sum
    }
}

/// How often the bugs of some routers were triggered on all sessions, one router after the other.
pub open spec fn triggered_at_all(
    routers: Seq<RouterId>,
    entries: Seq<(Session, ReorderingSessionQueue)>,
) -> nat
    decreases routers.len(),
{
    if routers.len() == 0 {
        0
    } else {
        triggered_at_all(routers.drop_last(), entries) + sum_over(
            entries,
            |e| triggered_at(routers.last(), e),
        )
    }
}

/// What the last session adds for some routers: what was triggered at those of its ends that are among
/// them.
proof fn lemma_last_session(
    routers: Seq<RouterId>,
    entries: Seq<(Session, ReorderingSessionQueue)>,
)
    requires
        routers.no_duplicates(),
        entries.len() > 0,
    ensures
        triggered_at_all(routers, entries) == triggered_at_all(routers, entries.drop_last()) + (
        if routers.contains(entries.last().0.0) {
            entries.last().1.a.post.num_triggered as nat
        } else {
            0
        }) + (if routers.contains(entries.last().0.1) {
            entries.last().1.b.b.pre.num_triggered as nat
        } else {
            0
        }),
    decreases routers.len(),
{
    if routers.len() > 0 {
        let (init, r) = (routers.drop_last(), routers.last());
        lemma_last_session(init, entries);
        let (a, b) = entries.last().0;
        assert(routers =~= init.push(r));
        assert(forall|x: RouterId| routers.contains(x) <==> init.contains(x) || x == r) by {
            broadcast use vstd::seq_lib::group_seq_properties;

        }
        assert(!init.contains(r)) by {
            if init.contains(r) {
                let i = choose|i: int| 0 <= i < init.len() && init[i] == r;
                assert(routers[i] == routers[routers.len() - 1]);
            }
        }
    }
}

/// The counts for the routers add up to the total: each trigger of a bug is counted for one router.
pub proof fn law_counts_add_up(
    routers: Seq<RouterId>,
    entries: Seq<(Session, ReorderingSessionQueue)>,
)
    requires
        routers.no_duplicates(),
        forall|x: RouterId| #[trigger] is_end(entries, x) ==> routers.contains(x),
    ensures
        triggered_at_all(routers, entries) == sum_over(entries, |e| triggered(e)),
    decreases entries.len(),
{
    if entries.len() == 0 {
        lemma_no_sessions(routers, entries);
    } else {
        let init = entries.drop_last();
        let e = entries[entries.len() - 1];
        assert forall|x: RouterId| #[trigger] is_end(init, x) implies routers.contains(x) by {
            let i = choose|i: int|
                0 <= i < init.len() && ((#[trigger] init[i]).0.0 == x || init[i].0.1 == x);
            assert(entries[i].0.0 == x || entries[i].0.1 == x);
            assert(is_end(entries, x));
        }
        law_counts_add_up(routers, init);
        lemma_last_session(routers, entries);
        assert(is_end(entries, e.0.0) && is_end(entries, e.0.1));
    }
}

proof fn lemma_no_sessions(
    routers: Seq<RouterId>,
    entries: Seq<(Session, ReorderingSessionQueue)>,
)
    requires
        entries.len() == 0,
    ensures
        triggered_at_all(routers, entries) == 0,
    decreases routers.len(),
{
    if routers.len() > 0 {
        lemma_no_sessions(routers.drop_last(), entries);
    }
}

/// Nothing is counted for a router that is no end of any session.
pub proof fn law_nothing_counted_for_strangers(
    entries: Seq<(Session, ReorderingSessionQueue)>,
    router: RouterId,
)
    requires
        !is_end(entries, router),
    ensures
        sum_over(entries, |e| triggered_at(router, e)) == 0,
    decreases entries.len(),
{
    if entries.len() > 0 {
        let init = entries.drop_last();
        if is_end(init, router) {
            let i = choose|i: int|
                0 <= i < init.len() && ((#[trigger] init[i]).0.0 == router || init[i].0.1
                    == router);
            assert(entries[i].0.0 == router || entries[i].0.1 == router);
        }
        law_nothing_counted_for_strangers(init, router);
        let e = entries[entries.len() - 1];
        assert(e.0.0 != router && e.0.1 != router);
    }
}

/// How often the bugs were triggered on that side of a session on which a bug sits.
pub open spec fn triggered_beside(failure: Failure, q: ReorderingSessionQueue) -> nat {
    match failure.location {
        FailureLocation::Ingress => q.b.b.pre.num_triggered as nat,
        FailureLocation::Egress => q.a.post.num_triggered as nat,
    }
}

/// Nothing was triggered on the other side of a session than that on which a bug sits.
pub open spec fn only_triggered_beside(
    failure: Failure,
    a: ReorderingSessionQueue,
    b: ReorderingSessionQueue,
) -> bool {
    match failure.location {
        FailureLocation::Ingress => b.a.post.num_triggered == a.a.post.num_triggered,
        FailureLocation::Egress => b.b.b.pre.num_triggered == a.b.b.pre.num_triggered,
    }
}

/// A bug counts for the router that it is added at, and never for another one, such as the neighbor: if it
/// is triggered, then the count for that router grows, and those for the others stay.
pub proof fn law_bugs_count_for_their_router(
    failure: Failure,
    a: ReorderingSessionQueue,
    b: ReorderingSessionQueue,
    x: RouterId,
)
    requires
        only_triggered_beside(failure, a, b),
    ensures
        triggered_at(failure.router, (failure.session(), b)) - triggered_at(
            failure.router,
            (failure.session(), a),
        ) == triggered_beside(failure, b) - triggered_beside(failure, a),
        x != failure.router ==> triggered_at(x, (failure.session(), b)) == triggered_at(
            x,
            (failure.session(), a),
        ),
{
}

// ---------------------------------------------------------------------------------------------
// Traces
// ---------------------------------------------------------------------------------------------
/// Logged messages, as events on their session.
pub open spec fn on_session(log: Seq<MessageView>, k: Session) -> Seq<EventView<Time>> {
    Seq::new(log.len(), |i: int| log[i].on(k.0, k.1))
}

/// What was logged on a session for one router: what it sent, or else what it received.
pub open spec fn logged_for(router: RouterId, e: (Session, ReorderingSessionQueue)) -> Seq<
    EventView<Time>,
> {
    if e.0.0 == router {
        on_session(views(e.1.b.a.pre.log@), e.0)
    } else if e.0.1 == router {
        on_session(views(e.1.b.a.post.log@), e.0)
    } else {
        Seq::empty()
    }
}

/// What was logged on a session at either end, for one router.
pub open spec fn logged_at(router: RouterId, e: (Session, ReorderingSessionQueue)) -> Seq<
    EventView<Time>,
> {
    (if e.0.0 == router {
        on_session(views(e.1.b.a.pre.log@), e.0)
    } else {
        Seq::empty()
    }) + (if e.0.1 == router {
        on_session(views(e.1.b.a.post.log@), e.0)
    } else {
        Seq::empty()
    })
}

/// What was logged on all sessions for one router, one session after the other.
pub open spec fn gathered_for(
    entries: Seq<(Session, ReorderingSessionQueue)>,
    router: RouterId,
) -> Seq<EventView<Time>>
    decreases entries.len(),
{
    if entries.len() == 0 {
        Seq::empty()
    } else {
        gathered_for(entries.drop_last(), router) + logged_for(router, entries.last())
    }
}

/// What was logged on all sessions at either end, for one router, one session after the other.
pub open spec fn gathered_at(
    entries: Seq<(Session, ReorderingSessionQueue)>,
    router: RouterId,
) -> Seq<EventView<Time>>
    decreases entries.len(),
{
    if entries.len() == 0 {
        Seq::empty()
    } else {
        gathered_at(entries.drop_last(), router) + logged_at(router, entries.last())
    }
}

/// A trace is what was gathered, sorted by time.
pub open spec fn is_trace(gathered: Seq<EventView<Time>>, trace: Seq<Event<Time>>) -> bool {
    exists|g: Seq<Event<Time>>| #[trigger]
        is_sorting_of(g, trace) && event_views(g) == gathered
}

/// The session is another one but for the logs: each is as before, or emptied.
pub open spec fn emptied(
    a: ReorderingSessionQueue,
    pre: bool,
    post: bool,
    b: ReorderingSessionQueue,
) -> bool {
    &&& b.a == a.a
    &&& b.b.b == a.b.b
    &&& b.b.a.queue == a.b.a.queue
    &&& b.b.a.pre.use_msg_time == a.b.a.pre.use_msg_time
    &&& b.b.a.pre.enabled == a.b.a.pre.enabled
    &&& b.b.a.post.use_msg_time == a.b.a.post.use_msg_time
    &&& b.b.a.post.enabled == a.b.a.post.enabled
    &&& if pre {
        b.b.a.pre.log@.len() == 0
    } else {
        b.b.a.pre.log == a.b.a.pre.log
    }
    &&& if post {
        b.b.a.post.log@.len() == 0
    } else {
        b.b.a.post.log == a.b.a.post.log
    }
}

/// Append logged messages to a trace.
fn extend_trace(trace: &mut Vec<Event<Time>>, log: Vec<Message>, src: RouterId, dst: RouterId)
    ensures
        event_views(final(trace)@) == event_views(old(trace)@) + on_session(
            views(log@),
            (src, dst),
        ),
{
    let ghost all = log@;
    let ghost start = event_views(trace@);
    assert(start =~= start + on_session(views(all.take(0)), (src, dst)));
    for m in it: log
        invariant
            it.seq() == all,
            event_views(trace@) == start + on_session(
                views(all.take(it.index() as int)),
                (src, dst),
            ),
    {
        let ghost i = it.index() as int;
        let ghost before = trace@;
        trace.push(m.into_event(src, dst));
        proof {
            assert(event_views(trace@) =~= event_views(before).push(m@.on(src, dst)));
            assert(on_session(views(all.take(i + 1)), (src, dst)) =~= on_session(
                views(all.take(i)),
                (src, dst),
            ).push(m@.on(src, dst)));
            assert(event_views(trace@) =~= start + on_session(
                views(all.take(i + 1)),
                (src, dst),
            ));
        }
    }
    assert(all.take(all.len() as int) =~= all);
}

/// Append logged messages to the trace of a router.
fn extend_router(
    traces: &mut Keyed<Vec<Event<Time>>>,
    router: RouterId,
    log: Vec<Message>,
    src: RouterId,
    dst: RouterId,
)
    requires
        old(traces).wf(),
    ensures
        final(traces).wf(),
        final(traces)@.dom() == old(traces)@.dom().insert(router),
        forall|r: RouterId|
            #![trigger final(traces)@[r]]
            r != router && old(traces)@.contains_key(r) ==> final(traces)@[r] == old(traces)@[r],
        event_views(final(traces)@[router]@) == (if old(traces)@.contains_key(router) {
            event_views(old(traces)@[router]@)
        } else {
            Seq::empty()
        }) + on_session(views(log@), (src, dst)),
{
    let ghost before = traces@;
    if !traces.contains(router) {
        let fresh: Vec<Event<Time>> = Vec::new();
        assert(event_views(fresh@) =~= Seq::<EventView<Time>>::empty());
        traces.insert(router, fresh);
    }
    match traces.get_mut(router) {
        Some(trace) => extend_trace(trace, log, src, dst),
        None => {
            assert(false);
        },
    }
    assert(traces@.dom() =~= before.dom().insert(router));
}

/// The trace of a router so far.
spec fn trace_so_far(traces: Map<RouterId, Vec<Event<Time>>>, r: RouterId) -> Seq<EventView<Time>> {
    if traces.contains_key(r) {
        event_views(traces[r]@)
    } else {
        Seq::empty()
    }
}

/// A router is an end of some session.
pub open spec fn is_end(entries: Seq<(Session, ReorderingSessionQueue)>, r: RouterId) -> bool {
    exists|i: int|
        0 <= i < entries.len() && ((#[trigger] entries[i]).0.0 == r || entries[i].0.1 == r)
}

impl ReorderingQueue {
    /// Collect what was logged for a router: what it sent and what it received, by time.
    pub fn measurement_trace(&mut self, router: RouterId) -> (r: Vec<Event<Time>>)
        requires
            old(self).wf(),
        ensures
            final(self).wf(),
            Self::same_rest(*old(self), *final(self)),
            final(self).queue_init == old(self).queue_init,
            is_trace(gathered_for(old(self).bgp_queues.entries@, router), r@),
            final(self).bgp_queues@.dom() == old(self).bgp_queues@.dom(),
            forall|k: Session| #[trigger]
                final(self).bgp_queues@.contains_key(k) ==> emptied(
                    old(self).bgp_queues@[k],
                    k.0 == router,
                    k.0 != router && k.1 == router,
                    final(self).bgp_queues@[k],
                ),
    {
        let ghost entries = self.bgp_queues.entries@;
        let n: usize = self.bgp_queues.entries.len();
        let mut messages: Vec<Event<Time>> = Vec::new();
        let mut i: usize = 0;
        assert(event_views(messages@) =~= gathered_for(entries.take(0), router));
        while i < n
            invariant
                i <= n,
                n == entries.len(),
                n == self.bgp_queues.entries@.len(),
                self.wf(),
                Self::same_rest(*old(self), *self),
                self.queue_init == old(self).queue_init,
                event_views(messages@) == gathered_for(entries.take(i as int), router),
                forall|j: int|
                    0 <= j < n ==> (#[trigger] entries[j]).0 == self.bgp_queues.entries@[j].0,
                forall|j: int|
                    0 <= j < i ==> emptied(
                        (#[trigger] entries[j]).1,
                        entries[j].0.0 == router,
                        entries[j].0.0 != router && entries[j].0.1 == router,
                        self.bgp_queues.entries@[j].1,
                    ),
                forall|j: int| i <= j < n ==> #[trigger] entries[j] == self.bgp_queues.entries@[j],
            decreases n - i,
        {
            let ghost mid = *self;
            let ghost so_far = event_views(messages@);
            let (src, dst) = self.bgp_queues.entries[i].0;
            let mut log: Vec<Message> = Vec::new();
            if src == router {
                std::mem::swap(&mut log, &mut self.bgp_queues.entries[i].1.b.a.pre.log);
                extend_trace(&mut messages, log, src, dst);
            } else if dst == router {
                std::mem::swap(&mut log, &mut self.bgp_queues.entries[i].1.b.a.post.log);
                extend_trace(&mut messages, log, src, dst);
            }
            proof {
                let q = self.bgp_queues.entries@[i as int].1;
                assert(mid.bgp_queues.entries@[i as int].1.wf());
                assert(self.bgp_queues.entries@ =~= mid.bgp_queues.entries@.update(
                    i as int,
                    ((src, dst), q),
                ));
                lemma_work(mid.bgp_queues.entries@[i as int].1);
                lemma_work(q);
                lemma_replaced(mid, i as int, q, *self);
                assert(entries.take(i + 1).drop_last() =~= entries.take(i as int));
                assert(entries.take(i + 1).last() == entries[i as int]);
                assert(event_views(messages@) =~= gathered_for(entries.take(i + 1), router));
            }
            i += 1;
        }
        proof {
            assert(entries.take(n as int) =~= entries);
            lemma_same_keys(entries, self.bgp_queues.entries@);
            assert(old(self).bgp_queues@.dom() =~= self.bgp_queues@.dom());
        }
        sort_by_time(messages)
    }

    /// Collect what was logged for all routers.
    pub fn all_measurement_traces(&mut self) -> (r: Keyed<Vec<Event<Time>>>)
        requires
            old(self).wf(),
        ensures
            final(self).wf(),
            Self::same_rest(*old(self), *final(self)),
            final(self).queue_init == old(self).queue_init,
            r.wf(),
            forall|x: RouterId| #[trigger]
                r@.contains_key(x) <==> is_end(old(self).bgp_queues.entries@, x),
            forall|x: RouterId| #[trigger]
                r@.contains_key(x) ==> is_trace(
                    gathered_at(old(self).bgp_queues.entries@, x),
                    r@[x]@,
                ),
            final(self).bgp_queues@.dom() == old(self).bgp_queues@.dom(),
            forall|k: Session| #[trigger]
                final(self).bgp_queues@.contains_key(k) ==> emptied(
                    old(self).bgp_queues@[k],
                    true,
                    true,
                    final(self).bgp_queues@[k],
                ),
    {
        let ghost entries = self.bgp_queues.entries@;
        let n: usize = self.bgp_queues.entries.len();
        let mut traces: Keyed<Vec<Event<Time>>> = Keyed::new();
        let mut i: usize = 0;
        while i < n
            invariant
                i <= n,
                n == entries.len(),
                n == self.bgp_queues.entries@.len(),
                self.wf(),
                Self::same_rest(*old(self), *self),
                self.queue_init == old(self).queue_init,
                traces.wf(),
                forall|x: RouterId| #[trigger]
                    traces@.contains_key(x) <==> is_end(entries.take(i as int), x),
                forall|x: RouterId| #[trigger]
                    trace_so_far(traces@, x) == gathered_at(entries.take(i as int), x),
                forall|j: int|
                    0 <= j < n ==> (#[trigger] entries[j]).0 == self.bgp_queues.entries@[j].0,
                forall|j: int|
                    0 <= j < i ==> emptied(
                        (#[trigger] entries[j]).1,
                        true,
                        true,
                        self.bgp_queues.entries@[j].1,
                    ),
                forall|j: int| i <= j < n ==> #[trigger] entries[j] == self.bgp_queues.entries@[j],
            decreases n - i,
        {
            let ghost mid = *self;
            let ghost so_far = traces@;
            let (src, dst) = self.bgp_queues.entries[i].0;
            let mut sent: Vec<Message> = Vec::new();
            let mut received: Vec<Message> = Vec::new();
            std::mem::swap(&mut sent, &mut self.bgp_queues.entries[i].1.b.a.pre.log);
            std::mem::swap(&mut received, &mut self.bgp_queues.entries[i].1.b.a.post.log);
            extend_router(&mut traces, src, sent, src, dst);
            let ghost halfway = traces@;
            extend_router(&mut traces, dst, received, src, dst);
            proof {
                let q = self.bgp_queues.entries@[i as int].1;
                assert(mid.bgp_queues.entries@[i as int].1.wf());
                assert(self.bgp_queues.entries@ =~= mid.bgp_queues.entries@.update(
                    i as int,
                    ((src, dst), q),
                ));
                lemma_work(mid.bgp_queues.entries@[i as int].1);
                lemma_work(q);
                lemma_replaced(mid, i as int, q, *self);
                let e = entries[i as int];
                let (s, t) = (entries.take(i as int), entries.take(i + 1));
                assert(t.drop_last() =~= s);
                assert(t.last() == e);
                assert forall|x: RouterId| #[trigger] traces@.contains_key(x) <==> is_end(t, x) by {
                    assert(traces@.dom().contains(x) == (so_far.dom().contains(x) || x == src || x
                        == dst));
                    assert(so_far.contains_key(x) <==> is_end(s, x));
                    if is_end(s, x) {
                        let j = choose|j: int|
                            0 <= j < s.len() && ((#[trigger] s[j]).0.0 == x || s[j].0.1 == x);
                        assert(t[j].0.0 == x || t[j].0.1 == x);
                    }
                    if x == src || x == dst {
                        assert(t[i as int].0.0 == x || t[i as int].0.1 == x);
                    }
                    if is_end(t, x) {
                        let j = choose|j: int|
                            0 <= j < t.len() && ((#[trigger] t[j]).0.0 == x || t[j].0.1 == x);
                        if j < i {
                            assert(s[j].0.0 == x || s[j].0.1 == x);
                        }
                    }
                }
                assert forall|x: RouterId| #[trigger] trace_so_far(traces@, x) == gathered_at(
                    t,
                    x,
                ) by {
                    assert(trace_so_far(so_far, x) == gathered_at(s, x));
                    assert(halfway.dom().contains(x) == (so_far.dom().contains(x) || x == src));
                    assert(traces@.dom().contains(x) == (halfway.dom().contains(x) || x == dst));
                    let first = if x == src {
                        on_session(views(e.1.b.a.pre.log@), e.0)
                    } else {
                        Seq::empty()
                    };
                    assert(trace_so_far(halfway, x) =~= trace_so_far(so_far, x) + first);
                    let second = if x == dst {
                        on_session(views(e.1.b.a.post.log@), e.0)
                    } else {
                        Seq::empty()
                    };
                    assert(trace_so_far(traces@, x) =~= trace_so_far(halfway, x) + second);
                    assert(trace_so_far(traces@, x) =~= gathered_at(s, x) + logged_at(x, e));
                }
            }
            i += 1;
        }
        proof {
            assert(entries.take(n as int) =~= entries);
            lemma_same_keys(entries, self.bgp_queues.entries@);
            assert(old(self).bgp_queues@.dom() =~= self.bgp_queues@.dom());
        }
        let ghost unsorted = traces.entries@;
        let ghost gathered = traces@;
        proof {
            assert(gathered == as_map(unsorted));
            assert forall|x: RouterId| #[trigger] gathered.contains_key(x) <==> is_end(entries, x) by {
                assert(traces@.contains_key(x) <==> is_end(entries.take(n as int), x));
            }
            assert forall|x: RouterId| #[trigger] trace_so_far(gathered, x) == gathered_at(
                entries,
                x,
            ) by {
                assert(trace_so_far(traces@, x) == gathered_at(entries.take(n as int), x));
            }
        }
        let r = sort_traces(traces);
        proof {
            lemma_same_keys(unsorted, r.entries@);
            assert forall|x: RouterId| #[trigger] r@.contains_key(x) <==> is_end(entries, x) by {
                assert(as_map(unsorted).contains_key(x) == as_map(r.entries@).contains_key(x));
                assert(gathered.contains_key(x) <==> is_end(entries, x));
            }
            assert forall|x: RouterId| #[trigger] r@.contains_key(x) implies is_trace(
                gathered_at(entries, x),
                r@[x]@,
            ) by {
                assert(as_map(unsorted).contains_key(x));
                assert(trace_so_far(gathered, x) == gathered_at(entries, x));
                let j = choose|j: int|
                    0 <= j < unsorted.len() && (#[trigger] unsorted[j]).0 == x && as_map(unsorted)[x]
                        == unsorted[j].1 && as_map(r.entries@)[x] == r.entries@[j].1;
                assert(is_sorting_of(unsorted[j].1@, r.entries@[j].1@));
            }
        }
        r
    }
}

/// Sort each trace by time.
fn sort_traces(traces: Keyed<Vec<Event<Time>>>) -> (r: Keyed<Vec<Event<Time>>>)
    ensures
        r.entries@.len() == traces.entries@.len(),
        forall|i: int|
            0 <= i < r.entries@.len() ==> (#[trigger] traces.entries@[i]).0 == r.entries@[i].0
                && is_sorting_of(traces.entries@[i].1@, r.entries@[i].1@),
{
    let ghost all = traces.entries@;
    let mut entries: Vec<(u32, Vec<Event<Time>>)> = Vec::new();
    for e in it: traces.entries
        invariant
            it.seq() == all,
            entries@.len() == it.index(),
            forall|i: int|
                0 <= i < entries@.len() ==> (#[trigger] all[i]).0 == entries@[i].0 && is_sorting_of(
                    all[i].1@,
                    entries@[i].1@,
                ),
    {
        let (k, trace) = e;
        entries.push((k, sort_by_time(trace)));
    }
    Keyed { entries }
}

/// A bug on the egress is on the session on which its router sends, and one on the ingress is on that on
/// which its router receives.
pub proof fn law_sessions_of_bugs(f: Failure)
    ensures
        f.location is Egress ==> f.session().0 == f.router && f.session().1 == f.neighbor,
        f.location is Ingress ==> f.session().0 == f.neighbor && f.session().1 == f.router,
{
}

/// A bug is added to one side of its session, behind those that are there: where the router sends, or
/// where it receives. Nothing has been triggered by that, and nothing is logged.
pub proof fn law_adding_a_bug(
    a: ReorderingSessionQueue,
    failure: Failure,
    b: ReorderingSessionQueue,
)
    requires
        with_bug(a, failure, b),
    ensures
        failure.location is Egress ==> b.a.post.bugs@.last() == failure.bug && b.a.post.bugs@.len()
            == a.a.post.bugs@.len() + 1 && b.b.b.pre.bugs@.len() == a.b.b.pre.bugs@.len(),
        failure.location is Ingress ==> b.b.b.pre.bugs@.last() == failure.bug && b.b.b.pre.bugs@.len()
            == a.b.b.pre.bugs@.len() + 1 && b.a.post.bugs@.len() == a.a.post.bugs@.len(),
        triggered((failure.session(), b)) == triggered((failure.session(), a)),
        b.b.a.pre.log == a.b.a.pre.log,
        b.b.a.post.log == a.b.a.post.log,
{
}

/// Without reordering, a message is held back for twice the time scale, and the delays on the way are
/// fixed. With it nothing is fixed that was not. Without debouncing the debouncer is off, and with it the
/// debouncer stays as it was.
pub proof fn law_set_up_of_a_session(
    a: ReorderingSessionQueue,
    with_reordering: bool,
    with_debouncing: bool,
    time_scale: Time,
    b: ReorderingSessionQueue,
)
    requires
        configured(a, with_reordering, with_debouncing, time_scale, b),
        i64::MIN <= 2 * time_scale <= i64::MAX,
    ensures
        !with_debouncing ==> !b.a.queue.enable,
        with_debouncing ==> b.a.queue.enable == a.a.queue.enable,
        !with_reordering ==> (b.a.queue.inner.fixed_delay matches Some(d) && d == 2 * time_scale)
            && b.b.a.queue.fixed_delay is Some && b.b.b.queue.fixed_delay is Some
            && b.b.a.pre.use_msg_time && b.b.a.post.use_msg_time,
        with_reordering ==> b.b.a.queue.fixed_delay == a.b.a.queue.fixed_delay
            && b.b.b.queue.fixed_delay == a.b.b.queue.fixed_delay && b.a.queue.inner.fixed_delay
            == a.a.queue.inner.fixed_delay,
        b.b.a.pre.log == a.b.a.pre.log,
        b.b.a.post.log == a.b.a.post.log,
{
}

/// After a restriction, a session logs what the router sends and what it receives, and nothing of others.
pub proof fn law_restricted_logs(
    k: Session,
    a: ReorderingSessionQueue,
    router: RouterId,
    b: ReorderingSessionQueue,
)
    requires
        restricted(k, a, router, b),
    ensures
        k.0 == router ==> b.b.a.pre.enabled,
        k.1 == router ==> b.b.a.post.enabled,
        k.0 != router ==> !b.b.a.pre.enabled,
        k.1 != router ==> !b.b.a.post.enabled,
        b.b.a.pre.log == a.b.a.pre.log && b.b.a.post.log == a.b.a.post.log,
        triggered((k, b)) == triggered((k, a)),
{
}

/// What is logged for a router is what it sends, or what it receives. Each logged message keeps its time.
/// Nothing is logged for it on the sessions of others.
pub proof fn law_logs_of_a_router(
    router: RouterId,
    e: (Session, ReorderingSessionQueue),
    i: int,
)
    ensures
        e.0.0 != router && e.0.1 != router ==> logged_for(router, e).len() == 0,
        e.0.0 == router ==> logged_for(router, e).len() == e.1.b.a.pre.log@.len(),
        e.0.0 != router && e.0.1 == router ==> logged_for(router, e).len()
            == e.1.b.a.post.log@.len(),
        e.0.0 != e.0.1 ==> logged_at(router, e) == logged_for(router, e),
        0 <= i < logged_for(router, e).len() ==> {
            let x = logged_for(router, e)[i];
            &&& x.source() == e.0.0
            &&& x.router() == e.0.1
            &&& e.0.0 == router ==> x.priority() == views(e.1.b.a.pre.log@)[i].t
            &&& e.0.0 != router ==> x.priority() == views(e.1.b.a.post.log@)[i].t
        },
{
    if e.0.0 != e.0.1 {
        assert(logged_at(router, e) =~= logged_for(router, e));
    }
}

/// What is gathered for a router is what is logged on each session, one after the other.
pub proof fn law_gathering_logs(
    entries: Seq<(Session, ReorderingSessionQueue)>,
    e: (Session, ReorderingSessionQueue),
    router: RouterId,
)
    ensures
        gathered_for(entries.push(e), router) == gathered_for(entries, router) + logged_for(router, e),
        gathered_at(entries.push(e), router) == gathered_at(entries, router) + logged_at(router, e),
        gathered_for(Seq::empty(), router).len() == 0,
        gathered_at(Seq::empty(), router).len() == 0,
        is_end(entries.push(e), router) <==> is_end(entries, router) || e.0.0 == router || e.0.1
            == router,
{
    let all = entries.push(e);
    assert(all.drop_last() =~= entries);
    if is_end(entries, router) {
        let i = choose|i: int|
            0 <= i < entries.len() && ((#[trigger] entries[i]).0.0 == router || entries[i].0.1
                == router);
        assert(all[i] == entries[i]);
    }
    if is_end(all, router) {
        let i = choose|i: int|
            0 <= i < all.len() && ((#[trigger] all[i]).0.0 == router || all[i].0.1 == router);
        if i < entries.len() {
            assert(entries[i] == all[i]);
        }
    }
    assert(all[entries.len() as int] == e);
}

/// What was triggered on a session was triggered at one of its ends.
pub proof fn law_triggered_at_the_ends(e: (Session, ReorderingSessionQueue), r: RouterId)
    ensures
        e.0.0 != e.0.1 ==> triggered(e) == triggered_at(e.0.0, e) + triggered_at(e.0.1, e),
        e.0.0 == e.0.1 ==> triggered(e) == triggered_at(e.0.0, e),
        r != e.0.0 && r != e.0.1 ==> triggered_at(r, e) == 0,
        e.0.0 != e.0.1 ==> triggered_at(e.0.0, e) == e.1.a.post.num_triggered,
{
}

} // verus!
