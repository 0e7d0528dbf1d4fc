//! Queues on single BGP sessions, and queues one after the other.
use std::collections::VecDeque;
use vstd::prelude::*;

use crate::bgp::{BgpEvent, BgpEventView, Event, EventView, RouterId, Time, INFINITY};
use crate::random::thread_range;

verus! {

/// The time `delay` ticks after `t`. Times are kept within range.
pub open spec fn later(t: Time, delay: Time) -> Time {
    if t + delay > INFINITY {
        INFINITY
    } else if t + delay < i64::MIN {
        i64::MIN
    } else {
        (t + delay) as Time
    }
}

/// The time `delay` ticks after `t`.
pub fn later_than(t: Time, delay: Time) -> (r: Time)
    ensures
        r == later(t, delay),
{
    let sum: i128 = t as i128 + delay as i128;
    if sum > INFINITY as i128 {
        INFINITY
    } else if sum < i64::MIN as i128 {
        i64::MIN
    } else {
        sum as Time
    }
}

/// A BGP message and the time at which it is dequeued.
#[derive(Debug)]
pub struct Message {
    pub e: BgpEvent,
    pub t: Time,
}

/// What a message says.
pub struct MessageView {
    pub e: BgpEventView,
    pub t: Time,
}

impl View for Message {
    type V = MessageView;

    open spec fn view(&self) -> MessageView {
        MessageView { e: self.e@, t: self.t }
    }
}

impl MessageView {
    /// The same message, at another time.
    pub open spec fn at(self, t: Time) -> MessageView {
        MessageView { e: self.e, t }
    }

    /// The message on a session.
    pub open spec fn on(self, src: RouterId, dst: RouterId) -> EventView<Time> {
        EventView::Bgp { p: self.t, src, dst, e: self.e }
    }
}

/// The views of messages.
pub open spec fn views(s: Seq<Message>) -> Seq<MessageView> {
    Seq::new(s.len(), |i: int| s[i]@)
}

impl Clone for Message {
    fn clone(&self) -> (r: Self)
        ensures
            r@ == self@,
    {
        Message { e: self.e.clone(), t: self.t }
    }
}

impl Message {
    /// The message on a session.
    pub fn into_event(self, src: RouterId, dst: RouterId) -> (r: Event<Time>)
        ensures
            r@ == self@.on(src, dst),
    {
        Event::Bgp { p: self.t, src, dst, e: self.e }
    }

    /// The message that an event carries, which must be one of BGP.
    pub fn from_event(event: Event<Time>) -> (r: Self)
        requires
            event is Bgp,
        ensures
            event@ == r@.on(event@.source(), event@.router()),
    {
        match event {
            Event::Bgp { p, e, src, dst } => {
                let r = Message { e, t: p };
                assert(event@ == r@.on(src, dst));
                r
            },
            Event::Ospf { .. } => {
                assert(false);
                Message { e: BgpEvent::Withdraw(0), t: 0 }
            },
        }
    }
}

/// What a queue answers when it is asked to work.
#[derive(Debug)]
pub enum Poll {
    /// A message left the queue.
    Msg(Message),
    /// Something changed inside the queue, at the given time.
    NotReadyYet(Time),
    /// The queue is empty. Nothing was done.
    Empty,
}

/// What the answer of a queue says.
pub enum PollView {
    Msg(MessageView),
    NotReadyYet(Time),
    Empty,
}

impl View for Poll {
    type V = PollView;

    open spec fn view(&self) -> PollView {
        match self {
            Poll::Msg(m) => PollView::Msg(m@),
            Poll::NotReadyYet(t) => PollView::NotReadyYet(*t),
            Poll::Empty => PollView::Empty,
        }
    }
}

impl PollView {
    /// The time at which the work was done.
    pub open spec fn time(self) -> Option<Time> {
        match self {
            PollView::Msg(m) => Some(m.t),
            PollView::NotReadyYet(t) => Some(t),
            PollView::Empty => None,
        }
    }
}

/// A queue on a single BGP session. All work that is logged takes its time stamps from a `clock` that
/// the sessions of a network share.
pub trait SessionQueue: Sized {
    spec fn wf(&self) -> bool;

    /// The number of messages inside.
    spec fn size(&self) -> nat;

    /// How often, at most, the queue can be asked to work before it is empty. It is 0 exactly if the
    /// queue is empty.
    spec fn work(&self) -> nat;

    /// How much work, at most, a message brings.
    spec fn push_work() -> nat;

    /// The queue does its work at fixed times, not at random ones.
    spec fn punctual(&self) -> bool;

    /// The time of the next work of a punctual queue.
    spec fn due(&self) -> Option<Time>;

    /// Pushing `msg` can turn a queue into another one.
    spec fn pushed(
        before: Self,
        clock: Time,
        msg: MessageView,
        after: Self,
        new_clock: Time,
    ) -> bool;

    /// Asking a queue to work can give `r` and turn the queue into another one.
    spec fn polled(before: Self, clock: Time, r: PollView, after: Self, new_clock: Time) -> bool;

    /// Asking a queue for its next time can give `t` and turn the queue into another one.
    spec fn timed(before: Self, t: Option<Time>, after: Self) -> bool;

    /// Clearing a queue turns it into another one.
    spec fn cleared(before: Self, after: Self) -> bool;

    /// Push a message into the queue.
    fn push(&mut self, msg: Message, clock: &mut Time)
        requires
            old(self).wf(),
        ensures
            final(self).wf(),
            Self::pushed(*old(self), *old(clock), msg@, *final(self), *final(clock)),
            final(self).work() <= old(self).work() + Self::push_work(),
            old(self).punctual() ==> final(self).punctual(),
    ;

    /// Do work on the queue: produce a message, change something inside, or find that the queue is
    /// empty.
    fn poll(&mut self, clock: &mut Time) -> (r: Poll)
        requires
            old(self).wf(),
        ensures
            final(self).wf(),
            Self::polled(*old(self), *old(clock), r@, *final(self), *final(clock)),
            r is Empty <==> old(self).work() == 0,
            r is Empty ==> final(self).work() == 0,
            !(r is Empty) ==> final(self).work() < old(self).work(),
            old(self).punctual() ==> final(self).punctual() && r@.time() == old(self).due(),
    ;

    /// The time at which the next work has to be done. `None` if the queue is empty.
    fn next_t(&mut self) -> (r: Option<Time>)
        requires
            old(self).wf(),
        ensures
            final(self).wf(),
            Self::timed(*old(self), r, *final(self)),
            r is None <==> old(self).work() == 0,
            final(self).work() == old(self).work(),
            old(self).punctual() ==> final(self).punctual() && r == old(self).due()
                && final(self).due() == r,
    ;

    /// The number of messages in the queue.
    fn len(&self) -> (r: usize)
        requires
            self.wf(),
            self.size() <= usize::MAX,
        ensures
            r == self.size(),
    ;

    /// Whether there are no messages in the queue.
    fn is_empty(&self) -> (r: bool)
        requires
            self.wf(),
        ensures
            r == (self.size() == 0),
    ;

    /// Clear all messages in the queue.
    fn clear(&mut self)
        requires
            old(self).wf(),
        ensures
            final(self).wf(),
            Self::cleared(*old(self), *final(self)),
            final(self).work() == 0,
            old(self).punctual() ==> final(self).punctual(),
    ;
}

/// Taking the first message of a queue.
pub open spec fn took_first(before: Seq<MessageView>, r: PollView, after: Seq<MessageView>) -> bool {
    if before.len() > 0 {
        &&& r == PollView::Msg(before[0])
        &&& after == before.skip(1)
    } else {
        &&& r == PollView::Empty
        &&& after == before
    }
}

/// The time of the first message.
pub open spec fn first_time(q: Seq<MessageView>) -> Option<Time> {
    if q.len() > 0 {
        Some(q[0].t)
    } else {
        None
    }
}

/// Append a message to a queue.
pub(crate) fn append(queue: &mut VecDeque<Message>, msg: Message)
    ensures
        views(final(queue)@) == views(old(queue)@).push(msg@),
{
    queue.push_back(msg);
    assert(views(queue@) =~= views(old(queue)@).push(msg@));
}

/// Take the first message of a queue.
pub(crate) fn take_first(queue: &mut VecDeque<Message>) -> (r: Poll)
    ensures
        took_first(views(old(queue)@), r@, views(final(queue)@)),
{
    match queue.pop_front() {
        Some(m) => {
            assert(views(queue@) =~= views(old(queue)@).skip(1));
            Poll::Msg(m)
        },
        None => Poll::Empty,
    }
}

/// The time of the first message of a queue.
pub(crate) fn front_time(queue: &VecDeque<Message>) -> (r: Option<Time>)
    ensures
        r == first_time(views(queue@)),
{
    if queue.len() == 0 {
        None
    } else {
        Some(queue[0].t)
    }
}

/// A deterministic queue that delays all messages by the same time.
#[derive(Debug)]
pub struct DeterministicSessionQueue {
    pub queue: VecDeque<Message>,
    pub delay: Time,
}

impl DeterministicSessionQueue {
    /// A new queue with the given delay.
    pub fn new(delay: Time) -> (r: Self)
        ensures
            r.wf(),
            views(r.queue@) == Seq::<MessageView>::empty(),
            r.delay == delay,
    {
        let r = DeterministicSessionQueue { queue: VecDeque::new(), delay };
        assert(views(r.queue@) =~= Seq::<MessageView>::empty());
        r
    }
}

impl SessionQueue for DeterministicSessionQueue {
    open spec fn wf(&self) -> bool {
        true
    }

    open spec fn size(&self) -> nat {
        self.queue@.len()
    }

    open spec fn work(&self) -> nat {
        self.queue@.len()
    }

    open spec fn push_work() -> nat {
        1
    }

    open spec fn punctual(&self) -> bool {
        true
    }

    open spec fn due(&self) -> Option<Time> {
        first_time(views(self.queue@))
    }

    open spec fn pushed(
        before: Self,
        clock: Time,
        msg: MessageView,
        after: Self,
        new_clock: Time,
    ) -> bool {
        &&& views(after.queue@) == views(before.queue@).push(msg.at(later(msg.t, before.delay)))
        &&& after.delay == before.delay
        &&& new_clock == clock
    }

    open spec fn polled(
        before: Self,
        clock: Time,
        r: PollView,
        after: Self,
        new_clock: Time,
    ) -> bool {
        &&& took_first(views(before.queue@), r, views(after.queue@))
        &&& after.delay == before.delay
        &&& new_clock == clock
    }

    open spec fn timed(before: Self, t: Option<Time>, after: Self) -> bool {
        &&& t == first_time(views(before.queue@))
        &&& after == before
    }

    open spec fn cleared(before: Self, after: Self) -> bool {
        &&& after.queue@.len() == 0
        &&& after.delay == before.delay
    }

    fn push(&mut self, msg: Message, clock: &mut Time) {
        let t: Time = later_than(msg.t, self.delay);
        append(&mut self.queue, Message { e: msg.e, t });
        proof {
            assert(views(self.queue@).len() == views(old(self).queue@).len() + 1);
        }
    }

    fn poll(&mut self, clock: &mut Time) -> (r: Poll) {
        let r = take_first(&mut self.queue);
        proof {
            assert(views(self.queue@).len() == self.queue@.len());
            assert(views(old(self).queue@).len() == old(self).queue@.len());
        }
        r
    }

    fn next_t(&mut self) -> (r: Option<Time>) {
        front_time(&self.queue)
    }

    fn len(&self) -> (r: usize) {
        self.queue.len()
    }

    fn is_empty(&self) -> (r: bool) {
        self.queue.len() == 0
    }

    fn clear(&mut self) {
        self.queue.clear();
    }
}

/// A queue that delays each message by a random time within the given range. All messages are
/// dequeued in the order in which they were pushed, as TCP ensures.
#[derive(Debug)]
pub struct RandomizedFifoSessionQueue {
    pub queue: VecDeque<Message>,
    pub delay_min: Time,
    pub delay_max: Time,
}

/// The time at which a message leaves that is pushed behind `queue` with a certain delay: not before
/// those in front of it.
pub open spec fn in_order(queue: Seq<MessageView>, t: Time, delay: Time) -> Time {
    if queue.len() > 0 && queue.last().t > later(t, delay) {
        queue.last().t
    } else {
        later(t, delay)
    }
}

impl RandomizedFifoSessionQueue {
    /// A new queue with the given range of delays.
    pub fn new(delay_min: Time, delay_max: Time) -> (r: Self)
        requires
            delay_min <= delay_max,
        ensures
            r.wf(),
            views(r.queue@) == Seq::<MessageView>::empty(),
            r.delay_min == delay_min,
            r.delay_max == delay_max,
    {
        let r = RandomizedFifoSessionQueue { queue: VecDeque::new(), delay_min, delay_max };
        assert(views(r.queue@) =~= Seq::<MessageView>::empty());
        r
    }

    /// Push a message that is delayed by the given time.
    pub fn push_delayed(&mut self, msg: Message, delay: Time)
        ensures
            views(final(self).queue@) == views(old(self).queue@).push(
                msg@.at(in_order(views(old(self).queue@), msg@.t, delay)),
            ),
            final(self).delay_min == old(self).delay_min,
            final(self).delay_max == old(self).delay_max,
            old(self).monotone() ==> final(self).monotone(),
    {
        let mut t: Time = later_than(msg.t, delay);
        if self.queue.len() > 0 {
            let last: Time = self.queue[self.queue.len() - 1].t;
            if last > t {
                t = last;
            }
        }
        append(&mut self.queue, Message { e: msg.e, t });
        proof {
            let (a, b) = (views(old(self).queue@), views(self.queue@));
            if old(self).monotone() {
                assert forall|i: int, j: int| 0 <= i <= j < b.len() implies (#[trigger] b[i]).t <= (
                #[trigger] b[j]).t by {
                    if i < a.len() {
                        assert(a[i].t <= a.last().t);
                    }
                    if j < a.len() {
                        assert(a[i].t <= a[j].t);
                    }
                }
            }
        }
    }

    /// Messages leave no earlier than those in front of them.
    pub open spec fn monotone(&self) -> bool {
        let q = views(self.queue@);
        forall|i: int, j: int| 0 <= i <= j < q.len() ==> (#[trigger] q[i]).t <= (#[trigger] q[j]).t
    }
}

impl SessionQueue for RandomizedFifoSessionQueue {
    open spec fn wf(&self) -> bool {
        &&& self.delay_min <= self.delay_max
        &&& self.monotone()
    }

    open spec fn size(&self) -> nat {
        self.queue@.len()
    }

    open spec fn work(&self) -> nat {
        self.queue@.len()
    }

    open spec fn push_work() -> nat {
        1
    }

    open spec fn punctual(&self) -> bool {
        true
    }

    open spec fn due(&self) -> Option<Time> {
        first_time(views(self.queue@))
    }

    open spec fn pushed(
        before: Self,
        clock: Time,
        msg: MessageView,
        after: Self,
        new_clock: Time,
    ) -> bool {
        &&& exists|delay: Time|
            before.delay_min <= delay <= before.delay_max && views(after.queue@) == views(
                before.queue@,
            ).push(msg.at(#[trigger] in_order(views(before.queue@), msg.t, delay)))
        &&& after.delay_min == before.delay_min
        &&& after.delay_max == before.delay_max
        &&& new_clock == clock
    }

    open spec fn polled(
        before: Self,
        clock: Time,
        r: PollView,
        after: Self,
        new_clock: Time,
    ) -> bool {
        &&& took_first(views(before.queue@), r, views(after.queue@))
        &&& after.delay_min == before.delay_min
        &&& after.delay_max == before.delay_max
        &&& new_clock == clock
    }

    open spec fn timed(before: Self, t: Option<Time>, after: Self) -> bool {
        &&& t == first_time(views(before.queue@))
        &&& after == before
    }

    open spec fn cleared(before: Self, after: Self) -> bool {
        &&& after.queue@.len() == 0
        &&& after.delay_min == before.delay_min
        &&& after.delay_max == before.delay_max
    }

    fn push(&mut self, msg: Message, clock: &mut Time) {
        let delay: Time = thread_range(self.delay_min, self.delay_max);
        self.push_delayed(msg, delay);
        proof {
            assert(views(self.queue@).len() == views(old(self).queue@).len() + 1);
        }
    }

    fn poll(&mut self, clock: &mut Time) -> (r: Poll) {
        let r = take_first(&mut self.queue);
        proof {
            let (a, b) = (views(old(self).queue@), views(self.queue@));
            assert(a.len() == old(self).queue@.len() && b.len() == self.queue@.len());
            assert forall|i: int, j: int| 0 <= i <= j < b.len() implies (#[trigger] b[i]).t <= (
            #[trigger] b[j]).t by {
                if a.len() > 0 {
                    assert(b[i] == a[i + 1] && b[j] == a[j + 1]);
                }
            }
        }
        r
    }

    fn next_t(&mut self) -> (r: Option<Time>) {
        front_time(&self.queue)
    }

    fn len(&self) -> (r: usize) {
        self.queue.len()
    }

    fn is_empty(&self) -> (r: bool) {
        self.queue.len() == 0
    }

    fn clear(&mut self) {
        self.queue.clear();
    }
}

/// Messages leave in the order in which they were pushed, whatever their delays are: a message comes
/// behind all that were there before, and it leaves no earlier than any of them.
pub proof fn law_messages_leave_in_order(
    before: RandomizedFifoSessionQueue,
    clock: Time,
    msg: MessageView,
    after: RandomizedFifoSessionQueue,
    new_clock: Time,
)
    requires
        before.wf(),
        RandomizedFifoSessionQueue::pushed(before, clock, msg, after, new_clock),
    ensures
        views(after.queue@).drop_last() == views(before.queue@),
        views(after.queue@).last().e == msg.e,
        views(after.queue@).last().t >= later(msg.t, before.delay_min),
        forall|i: int|
            0 <= i < before.queue@.len() ==> (#[trigger] views(before.queue@)[i]).t <= views(
                after.queue@,
            ).last().t,
{
    let (a, b) = (views(before.queue@), views(after.queue@));
    assert(b.drop_last() =~= a);
    assert forall|i: int| 0 <= i < before.queue@.len() implies (#[trigger] a[i]).t <= b.last().t by {
        assert(a[i].t <= a[a.len() - 1].t);
    }
}

// ---------------------------------------------------------------------------------------------
// Queues one after the other
// ---------------------------------------------------------------------------------------------
/// Two queues: what leaves `a` enters `b`.
#[derive(Debug)]
pub struct SessionQueueSequence<A, B> {
    pub a: A,
    pub b: B,
}

/// The next work is on the second queue.
pub open spec fn second_first(ta: Option<Time>, tb: Option<Time>) -> bool {
    match (ta, tb) {
        (_, None) => false,
        (None, Some(_)) => true,
        (Some(x), Some(y)) => y <= x,
    }
}

/// The time of the next work of both queues.
pub open spec fn earlier(ta: Option<Time>, tb: Option<Time>) -> Option<Time> {
    if second_first(ta, tb) {
        tb
    } else {
        ta
    }
}

/// Work on the first queue, and on the second one if a message moves there.
pub open spec fn moved<A: SessionQueue, B: SessionQueue>(
    before: SessionQueueSequence<A, B>,
    clock: Time,
    ra: PollView,
    mid_clock: Time,
    after: SessionQueueSequence<A, B>,
    new_clock: Time,
) -> bool {
    &&& A::polled(before.a, clock, ra, after.a, mid_clock)
    &&& match ra {
        PollView::Msg(m) => B::pushed(before.b, mid_clock, m, after.b, new_clock),
        _ => after.b == before.b && new_clock == mid_clock,
    }
}

/// Work on two queues of which the next times are known.
pub open spec fn sequence_polled<A: SessionQueue, B: SessionQueue>(
    before: SessionQueueSequence<A, B>,
    clock: Time,
    ta: Option<Time>,
    tb: Option<Time>,
    r: PollView,
    after: SessionQueueSequence<A, B>,
    new_clock: Time,
) -> bool {
    if ta is None && tb is None {
        &&& r == PollView::Empty
        &&& after == before
        &&& new_clock == clock
    } else if second_first(ta, tb) {
        &&& after.a == before.a
        &&& B::polled(before.b, clock, r, after.b, new_clock)
    } else {
        exists|ra: PollView, mid_clock: Time| #[trigger]
            moved(before, clock, ra, mid_clock, after, new_clock) && ra.time() is Some && r
                == PollView::NotReadyYet(ra.time()->0)
    }
}

/// Both queues give their next times.
pub open spec fn both_timed<A: SessionQueue, B: SessionQueue>(
    before: SessionQueueSequence<A, B>,
    ta: Option<Time>,
    tb: Option<Time>,
    after: SessionQueueSequence<A, B>,
) -> bool {
    &&& A::timed(before.a, ta, after.a)
    &&& B::timed(before.b, tb, after.b)
}

impl<A: SessionQueue, B: SessionQueue> SessionQueue for SessionQueueSequence<A, B> {
    open spec fn wf(&self) -> bool {
        self.a.wf() && self.b.wf()
    }

    open spec fn size(&self) -> nat {
        self.a.size() + self.b.size()
    }

    open spec fn work(&self) -> nat {
        self.a.work() * (1 + B::push_work()) + self.b.work()
    }

    open spec fn push_work() -> nat {
        A::push_work() * (1 + B::push_work())
    }

    open spec fn punctual(&self) -> bool {
        self.a.punctual() && self.b.punctual()
    }

    open spec fn due(&self) -> Option<Time> {
        earlier(self.a.due(), self.b.due())
    }

    open spec fn pushed(
        before: Self,
        clock: Time,
        msg: MessageView,
        after: Self,
        new_clock: Time,
    ) -> bool {
        &&& A::pushed(before.a, clock, msg, after.a, new_clock)
        &&& after.b == before.b
    }

    open spec fn polled(
        before: Self,
        clock: Time,
        r: PollView,
        after: Self,
        new_clock: Time,
    ) -> bool {
        exists|ta: Option<Time>, tb: Option<Time>, mid: Self| #[trigger]
            both_timed(before, ta, tb, mid) && sequence_polled(
                mid,
                clock,
                ta,
                tb,
                r,
                after,
                new_clock,
            )
    }

    open spec fn timed(before: Self, t: Option<Time>, after: Self) -> bool {
        exists|ta: Option<Time>, tb: Option<Time>| #[trigger]
            both_timed(before, ta, tb, after) && t == earlier(ta, tb)
    }

    open spec fn cleared(before: Self, after: Self) -> bool {
        &&& A::cleared(before.a, after.a)
        &&& B::cleared(before.b, after.b)
    }

    fn push(&mut self, msg: Message, clock: &mut Time) {
        self.a.push(msg, clock);
        proof {
            let k = 1 + B::push_work();
            let (w0, w1, p) = (old(self).a.work(), self.a.work(), A::push_work());
            assert(w1 * k <= w0 * k + p * k) by (nonlinear_arith)
                requires
                    w1 <= w0 + p,
                    0 <= k,
            ;
        }
    }

    fn poll(&mut self, clock: &mut Time) -> (r: Poll) {
        let ta = self.a.next_t();
        let tb = self.b.next_t();
        let ghost mid = *self;
        let ghost k = 1 + B::push_work();
        assert(both_timed(*old(self), ta, tb, mid));
        let b_first: bool = match (ta, tb) {
            (_, None) => false,
            (None, Some(_)) => true,
            (Some(x), Some(y)) => y <= x,
        };
        if ta.is_none() && tb.is_none() {
            assert(0nat * k == 0) by (nonlinear_arith);
            return Poll::Empty;
        }
        proof {
            let (wa, wb) = (old(self).a.work(), old(self).b.work());
            assert(wa * k + wb > 0) by (nonlinear_arith)
                requires
                    wa > 0 || wb > 0,
                    wa >= 0,
                    wb >= 0,
                    k >= 1,
            ;
        }
        if b_first {
            let r = self.b.poll(clock);
            assert(sequence_polled(mid, *old(clock), ta, tb, r@, *self, *clock));
            return r;
        }
        let ra = self.a.poll(clock);
        let ghost mid_clock = *clock;
        proof {
            let (w0, w1) = (mid.a.work(), self.a.work());
            assert(w1 * k + k <= w0 * k) by (nonlinear_arith)
                requires
                    w1 + 1 <= w0,
                    k >= 0,
            ;
        }
        match ra {
            Poll::Msg(msg) => {
                let t: Time = msg.t;
                let ghost v = msg@;
                self.b.push(msg, clock);
                assert(moved(mid, *old(clock), PollView::Msg(v), mid_clock, *self, *clock));
                assert(PollView::Msg(v).time() == Some(t));
                assert(sequence_polled(
                    mid,
                    *old(clock),
                    ta,
                    tb,
                    PollView::NotReadyYet(t),
                    *self,
                    *clock,
                ));
                Poll::NotReadyYet(t)
            },
            Poll::NotReadyYet(t) => {
                assert(moved(
                    mid,
                    *old(clock),
                    PollView::NotReadyYet(t),
                    mid_clock,
                    *self,
                    *clock,
                ));
                assert(PollView::NotReadyYet(t).time() == Some(t));
                assert(sequence_polled(
                    mid,
                    *old(clock),
                    ta,
                    tb,
                    PollView::NotReadyYet(t),
                    *self,
                    *clock,
                ));
                Poll::NotReadyYet(t)
            },
            Poll::Empty => {
                assert(false);
                Poll::Empty
            },
        }
    }

    fn next_t(&mut self) -> (r: Option<Time>) {
        let ta = self.a.next_t();
        let tb = self.b.next_t();
        assert(both_timed(*old(self), ta, tb, *self));
        proof {
            let k = 1 + B::push_work();
            let (wa, wb) = (old(self).a.work(), old(self).b.work());
            assert((wa * k + wb == 0) == (wa == 0 && wb == 0)) by (nonlinear_arith)
                requires
                    wa >= 0,
                    wb >= 0,
                    k >= 1,
            ;
        }
        match (ta, tb) {
            (None, None) => None,
            (None, Some(b)) => Some(b),
            (Some(a), Some(b)) => if b <= a {
                Some(b)
            } else {
                Some(a)
            },
            (Some(a), None) => Some(a),
        }
    }

    fn len(&self) -> (r: usize) {
        self.a.len() + self.b.len()
    }

    fn is_empty(&self) -> (r: bool) {
        self.a.is_empty() && self.b.is_empty()
    }

    fn clear(&mut self) {
        self.a.clear();
        self.b.clear();
        assert(0nat * (1 + B::push_work()) == 0) by (nonlinear_arith);
    }
}

/// Times add up. A sum that is too large is the last time, and one that is too small is the first one.
pub proof fn law_adding_times(t: Time, delay: Time)
    ensures
        i64::MIN <= t + delay <= i64::MAX ==> later(t, delay) == t + delay,
        t + delay > i64::MAX ==> later(t, delay) == i64::MAX,
        t + delay < i64::MIN ==> later(t, delay) == i64::MIN,
{
}

/// The message that leaves a queue was its first one, and the others stay behind it in their order. Its
/// time is the one that was announced. An empty queue announces nothing and gives nothing.
pub proof fn law_first_message_leaves(
    before: Seq<MessageView>,
    r: PollView,
    after: Seq<MessageView>,
)
    requires
        took_first(before, r, after),
    ensures
        r matches PollView::Msg(m) ==> before == seq![m] + after && first_time(before) == Some(m.t),
        r is Msg <==> before.len() > 0,
        r is Empty <==> before.len() == 0,
        before.len() == 0 ==> after.len() == 0 && first_time(before) is None,
{
    if let PollView::Msg(m) = r {
        assert(before =~= seq![m] + after);
    }
}

/// A queue with a fixed delay gives every message that delay.
pub proof fn law_deterministic_delay(
    before: DeterministicSessionQueue,
    clock: Time,
    msg: MessageView,
    after: DeterministicSessionQueue,
    new_clock: Time,
)
    requires
        DeterministicSessionQueue::pushed(before, clock, msg, after, new_clock),
        i64::MIN <= msg.t + before.delay <= i64::MAX,
    ensures
        views(after.queue@).drop_last() == views(before.queue@),
        views(after.queue@).last().e == msg.e,
        views(after.queue@).last().t == msg.t + before.delay,
        after.delay == before.delay,
{
    assert(views(after.queue@).drop_last() =~= views(before.queue@));
}

/// A message is delayed by no less than the least delay and by no more than the largest one, unless it has
/// to wait for the message in front of it: then it leaves together with that.
pub proof fn law_random_delay(
    before: RandomizedFifoSessionQueue,
    clock: Time,
    msg: MessageView,
    after: RandomizedFifoSessionQueue,
    new_clock: Time,
)
    requires
        RandomizedFifoSessionQueue::pushed(before, clock, msg, after, new_clock),
        i64::MIN <= msg.t + before.delay_min,
        msg.t + before.delay_max <= i64::MAX,
        before.delay_min <= before.delay_max,
    ensures
        ({
            let (q, t) = (views(before.queue@), views(after.queue@).last().t);
            &&& t >= msg.t + before.delay_min
            &&& t <= msg.t + before.delay_max || (q.len() > 0 && t == q.last().t)
            &&& q.len() > 0 ==> t >= q.last().t
        }),
{
}

/// Of two queues in a row the one works next that is due first. If both are due at the same time, the
/// second one works. A message leaves only the second queue, and what leaves the first one moves on.
pub proof fn law_queues_in_a_row<A: SessionQueue, B: SessionQueue>(
    before: SessionQueueSequence<A, B>,
    clock: Time,
    ta: Option<Time>,
    tb: Option<Time>,
    r: PollView,
    after: SessionQueueSequence<A, B>,
    new_clock: Time,
)
    requires
        sequence_polled(before, clock, ta, tb, r, after, new_clock),
    ensures
        earlier(ta, tb) is None <==> ta is None && tb is None,
        earlier(ta, tb) matches Some(t) ==> (Some(t) == ta || Some(t) == tb) && (ta matches Some(x)
            ==> t <= x) && (tb matches Some(y) ==> t <= y),
        r is Msg ==> tb is Some && (ta is None || tb->0 <= ta->0),
        tb is Some && (ta is None || tb->0 <= ta->0) ==> after.a == before.a && B::polled(
            before.b,
            clock,
            r,
            after.b,
            new_clock,
        ),
        ta is Some && (tb is None || ta->0 < tb->0) ==> r is NotReadyYet && exists|
            ra: PollView,
            mid_clock: Time,
        | #[trigger]
            A::polled(before.a, clock, ra, after.a, mid_clock) && ra.time() == Some(
                r->NotReadyYet_0,
            ) && (ra matches PollView::Msg(m) ==> B::pushed(
                before.b,
                mid_clock,
                m,
                after.b,
                new_clock,
            )) && (!(ra is Msg) ==> after.b == before.b),
        ta is None && tb is None ==> r is Empty && after == before,
{
}

/// A message on a session says the same, at the same time.
pub proof fn law_messages_on_a_session(m: MessageView, src: RouterId, dst: RouterId, t: Time)
    ensures
        m.on(src, dst).source() == src,
        m.on(src, dst).router() == dst,
        m.on(src, dst).priority() == m.t,
        m.on(src, dst) is Bgp && m.on(src, dst)->Bgp_e == m.e,
        m.at(t).t == t,
        m.at(t).e == m.e,
        PollView::Msg(m).time() == Some(m.t),
        PollView::NotReadyYet(t).time() == Some(t),
        PollView::Empty.time() is None,
{
}

} // verus!
