//! Session queues with propagation delays, debouncing and failures.
use vstd::prelude::*;

use crate::bgp::{same_event, BgpEvent, BgpEventView, RouterId, Time, TICKS_PER_SECOND};
use crate::dispatch_queue::{all_wf, DispatchQueue, QueueInit, Session};
use crate::failure::Failure;
use crate::geo_distances::{GeoDistance, Routing};
use crate::keyed::lemma_same_keys;
use crate::pairs::Pairs;
use crate::session_filter::{message_view, FilteredSessionQueue, SessionFilter};
use crate::session_queue::{later, later_than, Message, MessageView, Poll, PollView};
use crate::session_queue::{RandomizedFifoSessionQueue, SessionQueue, SessionQueueSequence};

verus! {

pub type BgpSessionQueue = SessionQueueSequence<
    DebounceQueue,
    FilteredSessionQueue<(Vec<Failure>,), RandomizedFifoSessionQueue, ()>,
>;

pub type BgpQueue = DispatchQueue<BgpSessionQueue, BgpSessionQueueInit>;

/// Holds back each message for some time, and forgets it if another one comes meanwhile.
#[derive(Debug)]
pub struct DebounceQueue {
    pub queue: Option<Message>,
    pub last_dequeued: Option<BgpEvent>,
    pub debounce_time: Time,
}

/// The message says the same as the one that left last.
pub open spec fn is_repeated(last: Option<BgpEvent>, e: BgpEventView) -> bool {
    match last {
        Some(x) => same_event(e, x@),
        None => false,
    }
}

/// Two optional BGP messages are equal.
pub open spec fn event_view(e: Option<BgpEvent>) -> Option<BgpEventView> {
    match e {
        Some(e) => Some(e@),
        None => None,
    }
}

impl DebounceQueue {
    pub fn new(debounce_time: Time) -> (r: Self)
        ensures
            r.queue is None,
            r.last_dequeued is None,
            r.debounce_time == debounce_time,
    {
        DebounceQueue { queue: None, last_dequeued: None, debounce_time }
    }
}

impl SessionQueue for DebounceQueue {
    open spec fn wf(&self) -> bool {
        true
    }

    open spec fn size(&self) -> nat {
        if self.queue is Some {
            1
        } else {
            0
        }
    }

    open spec fn work(&self) -> nat {
        if self.queue is Some {
            1
        } else {
            0
        }
    }

    open spec fn push_work() -> nat {
        1
    }

    open spec fn punctual(&self) -> bool {
        true
    }

    open spec fn due(&self) -> Option<Time> {
        match self.queue {
            Some(m) => Some(m.t),
            None => None,
        }
    }

    open spec fn pushed(
        before: Self,
        clock: Time,
        msg: MessageView,
        after: Self,
        new_clock: Time,
    ) -> bool {
        &&& message_view(after.queue) == if is_repeated(before.last_dequeued, msg.e) {
            None
        } else {
            Some(msg.at(later(msg.t, before.debounce_time)))
        }
        &&& after.last_dequeued == before.last_dequeued
        &&& after.debounce_time == before.debounce_time
        &&& new_clock == clock
    }

    open spec fn polled(
        before: Self,
        clock: Time,
        r: PollView,
        after: Self,
        new_clock: Time,
    ) -> bool {
        &&& after.queue is None
        &&& after.debounce_time == before.debounce_time
        &&& new_clock == clock
        &&& match message_view(before.queue) {
            Some(m) => r == PollView::Msg(m) && event_view(after.last_dequeued) == Some(m.e),
            None => r == PollView::Empty && after.last_dequeued == before.last_dequeued,
        }
    }

    open spec fn timed(before: Self, t: Option<Time>, after: Self) -> bool {
        &&& t == before.due()
        &&& after == before
    }

    open spec fn cleared(before: Self, after: Self) -> bool {
        &&& after.queue is None
        &&& after.last_dequeued == before.last_dequeued
        &&& after.debounce_time == before.debounce_time
    }

    fn push(&mut self, msg: Message, clock: &mut Time) {
        let repeated: bool = match &self.last_dequeued {
            Some(e) => msg.e.same(e),
            None => false,
        };
        if repeated {
            // The same message was delivered already, so neither it nor the one that waits is needed.
            self.queue = None;
            return;
        }
        let t: Time = later_than(msg.t, self.debounce_time);
        self.queue = Some(Message { e: msg.e, t });
    }

    fn poll(&mut self, clock: &mut Time) -> (r: Poll) {
        match self.queue.take() {
            Some(msg) => {
                self.last_dequeued = Some(msg.e.clone());
                Poll::Msg(msg)
            },
            None => Poll::Empty,
        }
    }

    fn next_t(&mut self) -> (r: Option<Time>) {
        match &self.queue {
            Some(m) => Some(m.t),
            None => None,
        }
    }

    fn len(&self) -> (r: usize) {
        if self.queue.is_some() {
            1
        } else {
            0
        }
    }

    fn is_empty(&self) -> (r: bool) {
        self.queue.is_none()
    }

    fn clear(&mut self) {
        self.queue = None;
    }
}

/// Creates the session queues: messages are debounced, hit by the failures of the session, and then
/// delayed by the time that they travel, and a random variation.
pub struct BgpSessionQueueInit {
    pub geo_distance: GeoDistance,
    pub variation: Time,
    pub debounce_time: Time,
    pub failures: Vec<Failure>,
}

/// A failure affects the messages of a session.
pub open spec fn affecting(src: RouterId, dst: RouterId) -> spec_fn(Failure) -> bool {
    |f: Failure| f.affects(src, dst)
}

/// The failures that affect the messages of a session.
pub open spec fn failures_on(failures: Seq<Failure>, src: RouterId, dst: RouterId) -> Seq<Failure> {
    failures.filter(affecting(src, dst))
}

impl BgpSessionQueueInit {
    /// A new model of the sessions, with the distances between the routers.
    pub fn new(
        distances: Pairs<Time>,
        default_delay: Time,
        variation: Time,
        debounce_time: Time,
        failures: Vec<Failure>,
    ) -> (r: Self)
        requires
            distances.wf(),
            0 <= variation,
            forall|i: int| 0 <= i < failures@.len() ==> (#[trigger] failures@[i]).is_valid(),
        ensures
            r.wf(),
            r.geo_distance.distances == distances,
            r.geo_distance.default_delay == default_delay,
            r.geo_distance.paths@ == Map::<Session, (Time, usize)>::empty(),
            r.variation == variation,
            r.debounce_time == debounce_time,
            r.failures == failures,
    {
        BgpSessionQueueInit {
            geo_distance: GeoDistance::new(distances, default_delay),
            variation,
            debounce_time,
            failures,
        }
    }

    /// The least delay of a session: that of the path, or a second if there is none.
    pub open spec fn least_delay(&self, k: Session) -> Time {
        if self.geo_distance.paths@.contains_key(k) {
            self.geo_distance.paths@[k].0
        } else {
            TICKS_PER_SECOND
        }
    }

    fn delay_of(&self, src: RouterId, dst: RouterId) -> (r: Time)
        requires
            self.geo_distance.wf(),
        ensures
            r == self.least_delay((src, dst)),
    {
        match self.geo_distance.get_path_distance(src, dst) {
            Some((delay, _)) => delay,
            None => TICKS_PER_SECOND,
        }
    }
}

/// The queue delays its messages by at least `least`, and at most `variation` more.
pub open spec fn delays(q: BgpSessionQueue, least: Time, variation: Time) -> bool {
    &&& q.b.queue.delay_min == least
    &&& q.b.queue.delay_max == later(least, variation)
}

/// The queue is another one but for the delays.
pub open spec fn redelayed(before: BgpSessionQueue, after: BgpSessionQueue) -> bool {
    &&& after.a == before.a
    &&& after.b.pre == before.b.pre
    &&& after.b.post == before.b.post
    &&& after.b.queue.queue == before.b.queue.queue
}

impl QueueInit<BgpSessionQueue> for BgpSessionQueueInit {
    open spec fn wf(&self) -> bool {
        &&& self.geo_distance.wf()
        &&& 0 <= self.variation
        &&& forall|i: int| 0 <= i < self.failures@.len() ==> (#[trigger] self.failures@[i]).is_valid()
    }

    open spec fn punctual(&self) -> bool {
        true
    }

    open spec fn initial(
        before: Self,
        src: RouterId,
        dst: RouterId,
        q: BgpSessionQueue,
        after: Self,
    ) -> bool {
        &&& after == before
        &&& q.a.queue is None
        &&& q.a.last_dequeued is None
        &&& q.a.debounce_time == before.debounce_time
        &&& q.b.pre.0@ == failures_on(before.failures@, src, dst)
        &&& q.b.queue.queue@.len() == 0
        &&& delays(q, before.least_delay((src, dst)), before.variation)
    }

    open spec fn updated(
        before: Self,
        routing: Routing,
        queues: Map<Session, BgpSessionQueue>,
        after: Self,
        new_queues: Map<Session, BgpSessionQueue>,
    ) -> bool {
        &&& after.geo_distance.follows(routing)
        &&& after.geo_distance.distances == before.geo_distance.distances
        &&& after.geo_distance.default_delay == before.geo_distance.default_delay
        &&& after.variation == before.variation
        &&& after.debounce_time == before.debounce_time
        &&& after.failures == before.failures
        &&& forall|k: Session| #[trigger]
            new_queues.contains_key(k) ==> redelayed(queues[k], new_queues[k]) && delays(
                new_queues[k],
                after.least_delay(k),
                after.variation,
            )
    }

    fn init(&mut self, src: RouterId, dst: RouterId) -> (q: BgpSessionQueue) {
        let delay: Time = self.delay_of(src, dst);
        let mut failures: Vec<Failure> = Vec::new();
        let ghost keep = affecting(src, dst);
        assert(self.failures@.take(0) =~= Seq::<Failure>::empty());
        for i in 0..self.failures.len()
            invariant
                self.wf(),
                keep == affecting(src, dst),
                failures@ == self.failures@.take(i as int).filter(keep),
                forall|j: int| 0 <= j < failures@.len() ==> (#[trigger] failures@[j]).is_valid(),
        {
            let f: Failure = self.failures[i];
            proof {
                let s = self.failures@.take(i + 1);
                assert(s.drop_last() =~= self.failures@.take(i as int));
                reveal(Seq::filter);
            }
            if f.matches_locality(src, dst) {
                failures.push(f);
            }
        }
        assert(self.failures@.take(self.failures@.len() as int) =~= self.failures@);
        let q = SessionQueueSequence {
            a: DebounceQueue::new(self.debounce_time),
            b: FilteredSessionQueue {
                pre: (failures,),
                queue: RandomizedFifoSessionQueue::new(delay, later_than(delay, self.variation)),
                post: (),
            },
        };
        proof {
            assert(crate::session_queue::views(q.b.queue.queue@).len() == q.b.queue.queue@.len());
            assert(q.a.work() * (1 + q.b.work()) == 0) by (nonlinear_arith)
                requires
                    q.a.work() == 0,
            ;
        }
        q
    }

    fn update_params(&mut self, routing: &Routing, bgp_queues: &mut Pairs<BgpSessionQueue>) {
        self.geo_distance.update_params(routing);
        let ghost entries = bgp_queues.entries@;
        let n: usize = bgp_queues.entries.len();
        let mut i: usize = 0;
        while i < n
            invariant
                i <= n,
                n == entries.len(),
                n == bgp_queues.entries@.len(),
                self.wf(),
                all_wf(bgp_queues.entries@),
                forall|j: int| 0 <= j < n ==> (#[trigger] entries[j]).0 == bgp_queues.entries@[j].0,
                forall|j: int|
                    0 <= j < i ==> redelayed((#[trigger] entries[j]).1, bgp_queues.entries@[j].1)
                        && delays(
                        bgp_queues.entries@[j].1,
                        self.least_delay(entries[j].0),
                        self.variation,
                    ),
                forall|j: int| i <= j < n ==> (#[trigger] entries[j]) == bgp_queues.entries@[j],
            decreases n - i,
        {
            let ghost prev = bgp_queues.entries@;
            let (src, dst) = bgp_queues.entries[i].0;
            let delay: Time = self.delay_of(src, dst);
            bgp_queues.entries[i].1.b.queue.delay_min = delay;
            bgp_queues.entries[i].1.b.queue.delay_max = later_than(delay, self.variation);
            proof {
                assert(bgp_queues.entries@ =~= prev.update(i as int, bgp_queues.entries@[i as int]));
                assert(prev[i as int].1.wf());
            }
            i += 1;
        }
        proof {
            lemma_same_keys(entries, bgp_queues.entries@);
            assert(old(bgp_queues)@.dom() =~= bgp_queues@.dom());
        }
    }
}

/// Debouncing suppresses a message that was delivered last: nothing waits after it is pushed.
pub proof fn law_repeated_messages_are_suppressed(
    before: DebounceQueue,
    clock: Time,
    msg: MessageView,
    after: DebounceQueue,
    new_clock: Time,
)
    requires
        DebounceQueue::pushed(before, clock, msg, after, new_clock),
        is_repeated(before.last_dequeued, msg.e),
    ensures
        after.size() == 0,
{
}

/// What is done with a debouncing queue: a push, or a poll with its result.
pub enum DebounceOp {
    Push(MessageView),
    Poll(PollView),
}

/// What was done with a debouncing queue since it was created, step by step.
pub open spec fn is_debounce_run(
    states: Seq<DebounceQueue>,
    clocks: Seq<Time>,
    ops: Seq<DebounceOp>,
    debounce_time: Time,
) -> bool {
    &&& states.len() == ops.len() + 1
    &&& clocks.len() == ops.len() + 1
    &&& states[0].queue is None
    &&& states[0].last_dequeued is None
    &&& states[0].debounce_time == debounce_time
    &&& forall|i: int|
        0 <= i < ops.len() ==> match #[trigger] ops[i] {
            DebounceOp::Push(m) => DebounceQueue::pushed(
                states[i],
                clocks[i],
                m,
                states[i + 1],
                clocks[i + 1],
            ),
            DebounceOp::Poll(r) => DebounceQueue::polled(
                states[i],
                clocks[i],
                r,
                states[i + 1],
                clocks[i + 1],
            ),
        }
}

/// What was delivered last.
pub open spec fn last_delivered(ops: Seq<DebounceOp>) -> Option<BgpEventView>
    decreases ops.len(),
{
    if ops.len() == 0 {
        None
    } else {
        match ops.last() {
            DebounceOp::Poll(PollView::Msg(m)) => Some(m.e),
            _ => last_delivered(ops.drop_last()),
        }
    }
}

/// What was pushed last since the last poll.
pub open spec fn last_pushed(ops: Seq<DebounceOp>) -> Option<MessageView> {
    if ops.len() == 0 {
        None
    } else {
        match ops.last() {
            DebounceOp::Push(m) => Some(m),
            DebounceOp::Poll(_) => None,
        }
    }
}

/// The message says the same as the one that was delivered last.
pub open spec fn repeats(last: Option<BgpEventView>, e: BgpEventView) -> bool {
    match last {
        Some(x) => same_event(e, x),
        None => false,
    }
}

/// What waits after some pushes and polls: what was pushed last since the last poll, unless that was
/// delivered already.
pub open spec fn debounced(ops: Seq<DebounceOp>, debounce_time: Time) -> Option<MessageView> {
    match last_pushed(ops) {
        Some(m) => if repeats(last_delivered(ops), m.e) {
            None
        } else {
            Some(m.at(later(m.t, debounce_time)))
        },
        None => None,
    }
}

/// The state of a debouncing queue after the first so many steps.
proof fn lemma_debounced(
    states: Seq<DebounceQueue>,
    clocks: Seq<Time>,
    ops: Seq<DebounceOp>,
    debounce_time: Time,
    n: int,
)
    requires
        is_debounce_run(states, clocks, ops, debounce_time),
        0 <= n <= ops.len(),
    ensures
        states[n].debounce_time == debounce_time,
        event_view(states[n].last_dequeued) == last_delivered(ops.take(n)),
        message_view(states[n].queue) == debounced(ops.take(n), debounce_time),
    decreases n,
{
    if n > 0 {
        lemma_debounced(states, clocks, ops, debounce_time, n - 1);
        let done = ops.take(n);
        assert(done.drop_last() =~= ops.take(n - 1));
        assert(done.last() == ops[n - 1]);
    }
}

/// A poll of a debouncing queue delivers what was pushed last, once the debounce time has passed. It
/// delivers nothing if nothing was pushed since the last poll, or if what was pushed last says the same
/// as what was delivered last.
pub proof fn law_last_message_leaves(
    states: Seq<DebounceQueue>,
    clocks: Seq<Time>,
    ops: Seq<DebounceOp>,
    debounce_time: Time,
    i: int,
)
    requires
        is_debounce_run(states, clocks, ops, debounce_time),
        0 <= i < ops.len(),
        ops[i] is Poll,
    ensures
        ops[i] == DebounceOp::Poll(
            match debounced(ops.take(i), debounce_time) {
                Some(m) => PollView::Msg(m),
                None => PollView::Empty,
            },
        ),
        i == 0 || ops[i - 1] is Poll ==> ops[i] == DebounceOp::Poll(PollView::Empty),
        i > 0 ==> (ops[i - 1] matches DebounceOp::Push(m) ==> ops[i] == if repeats(
            last_delivered(ops.take(i)),
            m.e,
        ) {
            DebounceOp::Poll(PollView::Empty)
        } else {
            DebounceOp::Poll(PollView::Msg(m.at(later(m.t, debounce_time))))
        }),
{
    lemma_debounced(states, clocks, ops, debounce_time, i);
    if i > 0 {
        assert(ops.take(i).last() == ops[i - 1]);
    }
}

/// A debouncing queue never delivers the same twice in a row.
pub proof fn law_nothing_is_delivered_twice_in_a_row(
    states: Seq<DebounceQueue>,
    clocks: Seq<Time>,
    ops: Seq<DebounceOp>,
    debounce_time: Time,
    i: int,
    j: int,
    a: MessageView,
    b: MessageView,
)
    requires
        is_debounce_run(states, clocks, ops, debounce_time),
        0 <= i < j < ops.len(),
        ops[i] == DebounceOp::Poll(PollView::Msg(a)),
        ops[j] == DebounceOp::Poll(PollView::Msg(b)),
        forall|k: int|
            i < k < j ==> !(#[trigger] ops[k] matches DebounceOp::Poll(PollView::Msg(_))),
    ensures
        !same_event(b.e, a.e),
{
    law_last_message_leaves(states, clocks, ops, debounce_time, j);
    lemma_last_delivered(ops, i, j, a);
}

/// What was delivered stays the last until something else is delivered.
proof fn lemma_last_delivered(ops: Seq<DebounceOp>, i: int, j: int, a: MessageView)
    requires
        0 <= i < j <= ops.len(),
        ops[i] == DebounceOp::Poll(PollView::Msg(a)),
        forall|k: int|
            i < k < j ==> !(#[trigger] ops[k] matches DebounceOp::Poll(PollView::Msg(_))),
    ensures
        last_delivered(ops.take(j)) == Some(a.e),
    decreases j,
{
    assert(ops.take(j).last() == ops[j - 1]);
    assert(ops.take(j).drop_last() =~= ops.take(j - 1));
    if i < j - 1 {
        lemma_last_delivered(ops, i, j - 1, a);
    }
}

/// The failures of a session are those of all failures that take hold of what `src` sends to `dst`, in
/// their order.
pub proof fn law_failures_of_a_session(
    failures: Seq<Failure>,
    f: Failure,
    src: RouterId,
    dst: RouterId,
)
    ensures
        failures_on(failures, src, dst).contains(f) <==> failures.contains(f) && ({
            let (a, b) = f.locality();
            (a is None || a == Some(src)) && (b is None || b == Some(dst))
        }),
        failures_on(failures, src, dst).len() <= failures.len(),
{
    broadcast use vstd::seq_lib::group_filter_ensures;

    let keep = affecting(src, dst);
    failures.lemma_filter_len(keep);
    if failures.contains(f) && f.affects(src, dst) {
        assert(keep(f));
        assert(failures.filter(keep).contains(f));
    }
    if failures.filter(keep).contains(f) {
        let i = choose|i: int| 0 <= i < failures.filter(keep).len() && failures.filter(keep)[i] == f;
        failures.lemma_filter_pred(keep, i);
        failures.lemma_filter_contains_rev(keep, f);
    }
}

/// Messages on a session with a path take at least as long as the path, and at most the variation longer.
/// Without a path they take a second in place of that.
pub proof fn law_delays_of_a_session(init: BgpSessionQueueInit, k: Session, q: BgpSessionQueue)
    requires
        delays(q, init.least_delay(k), init.variation),
        i64::MIN <= init.least_delay(k) + init.variation <= i64::MAX,
    ensures
        init.geo_distance.paths@.contains_key(k) ==> q.b.queue.delay_min
            == init.geo_distance.paths@[k].0,
        !init.geo_distance.paths@.contains_key(k) ==> q.b.queue.delay_min == 1_000_000_000,
        q.b.queue.delay_max - q.b.queue.delay_min == init.variation,
{
}

/// A message that differs from the one delivered last waits for the debounce time, and takes the place of
/// the one that waits. One that repeats it leaves nothing waiting.
pub proof fn law_waiting_for_the_debounce_time(
    before: DebounceQueue,
    clock: Time,
    msg: MessageView,
    after: DebounceQueue,
    new_clock: Time,
)
    requires
        DebounceQueue::pushed(before, clock, msg, after, new_clock),
        i64::MIN <= msg.t + before.debounce_time <= i64::MAX,
    ensures
        before.last_dequeued is None ==> after.queue is Some,
        before.last_dequeued matches Some(last) ==> (after.queue is None <==> same_event(
            msg.e,
            last@,
        )),
        after.queue matches Some(m) ==> m@.e == msg.e && m@.t == msg.t + before.debounce_time,
        after.queue is Some <==> after.size() == 1,
        after.last_dequeued == before.last_dequeued,
{
}

/// If the routes change, then each session gets the delay of its new path. The messages that are under way
/// stay, and so do those that wait.
pub proof fn law_new_routes_change_the_delays(
    before: BgpSessionQueueInit,
    routing: Routing,
    queues: Map<Session, BgpSessionQueue>,
    after: BgpSessionQueueInit,
    new_queues: Map<Session, BgpSessionQueue>,
    k: Session,
)
    requires
        BgpSessionQueueInit::updated(before, routing, queues, after, new_queues),
        new_queues.contains_key(k),
    ensures
        new_queues[k].a == queues[k].a,
        new_queues[k].b.queue.queue == queues[k].b.queue.queue,
        after.geo_distance.paths@.contains_key(k) ==> new_queues[k].b.queue.delay_min
            == after.geo_distance.paths@[k].0,
        !after.geo_distance.paths@.contains_key(k) ==> new_queues[k].b.queue.delay_min
            == 1_000_000_000,
        after.variation == before.variation,
        after.debounce_time == before.debounce_time,
        after.failures == before.failures,
{
}

/// A new session has no messages, and it has the failures that take hold of it.
pub proof fn law_new_sessions(
    before: BgpSessionQueueInit,
    src: RouterId,
    dst: RouterId,
    q: BgpSessionQueue,
    after: BgpSessionQueueInit,
    f: Failure,
)
    requires
        BgpSessionQueueInit::initial(before, src, dst, q, after),
    ensures
        q.size() == 0,
        q.a.debounce_time == before.debounce_time,
        q.b.pre.0@.contains(f) <==> before.failures@.contains(f) && f.affects(src, dst),
        after == before,
{
    law_failures_of_a_session(before.failures@, f, src, dst);
}

} // verus!
