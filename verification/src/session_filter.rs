//! Filters on BGP sessions, and the queue with a filter in front of it and another one behind it.
use vstd::prelude::*;

use crate::bgp::Time;
use crate::failure::Failure;
use crate::session_queue::{Message, MessageView, Poll, PollView, SessionQueue};

verus! {

/// A filter of messages, or something that captures the messages of a session. What it logs is
/// stamped by the `clock` that the sessions of a network share.
pub trait SessionFilter: Sized {
    spec fn wf(&self) -> bool;

    /// Applying the filter to `msg` can give `r` and turn the filter into another one.
    spec fn applied(
        before: Self,
        clock: Time,
        msg: MessageView,
        r: Option<MessageView>,
        after: Self,
        new_clock: Time,
    ) -> bool;

    /// Clearing the filter turns it into another one.
    spec fn reset(before: Self, after: Self) -> bool;

    /// Apply the filter or transformation to the message.
    fn apply(&mut self, msg: Message, clock: &mut Time) -> (r: Option<Message>)
        requires
            old(self).wf(),
        ensures
            final(self).wf(),
            Self::applied(
                *old(self),
                *old(clock),
                msg@,
                message_view(r),
                *final(self),
                *final(clock),
            ),
    ;

    /// Forget what was captured.
    fn clear(&mut self)
        requires
            old(self).wf(),
        ensures
            final(self).wf(),
            Self::reset(*old(self), *final(self)),
    ;
}

/// The view of an optional message.
pub open spec fn message_view(m: Option<Message>) -> Option<MessageView> {
    match m {
        Some(m) => Some(m@),
        None => None,
    }
}

/// The filter that lets everything pass.
impl SessionFilter for () {
    open spec fn wf(&self) -> bool {
        true
    }

    open spec fn applied(
        before: Self,
        clock: Time,
        msg: MessageView,
        r: Option<MessageView>,
        after: Self,
        new_clock: Time,
    ) -> bool {
        r == Some(msg) && new_clock == clock
    }

    open spec fn reset(before: Self, after: Self) -> bool {
        true
    }

    fn apply(&mut self, msg: Message, clock: &mut Time) -> (r: Option<Message>) {
        Some(msg)
    }

    fn clear(&mut self) {
    }
}

impl<F1: SessionFilter> SessionFilter for (F1,) {
    open spec fn wf(&self) -> bool {
        self.0.wf()
    }

    open spec fn applied(
        before: Self,
        clock: Time,
        msg: MessageView,
        r: Option<MessageView>,
        after: Self,
        new_clock: Time,
    ) -> bool {
        F1::applied(before.0, clock, msg, r, after.0, new_clock)
    }

    open spec fn reset(before: Self, after: Self) -> bool {
        F1::reset(before.0, after.0)
    }

    fn apply(&mut self, msg: Message, clock: &mut Time) -> (r: Option<Message>) {
        self.0.apply(msg, clock)
    }

    fn clear(&mut self) {
        self.0.clear();
    }
}

/// Filter `g` is applied to what `f` lets pass.
pub open spec fn chained<F: SessionFilter, G: SessionFilter>(
    f: F,
    g: G,
    clock: Time,
    msg: MessageView,
    r: Option<MessageView>,
    new_f: F,
    new_g: G,
    new_clock: Time,
) -> bool {
    exists|mid: Option<MessageView>, t: Time| #[trigger]
        F::applied(f, clock, msg, mid, new_f, t) && match mid {
            Some(m) => G::applied(g, t, m, r, new_g, new_clock),
            None => r is None && new_g == g && new_clock == t,
        }
}

/// Apply two filters in turn.
fn apply_both<F: SessionFilter, G: SessionFilter>(
    f: &mut F,
    g: &mut G,
    msg: Message,
    clock: &mut Time,
) -> (r: Option<Message>)
    requires
        old(f).wf(),
        old(g).wf(),
    ensures
        final(f).wf(),
        final(g).wf(),
        chained(
            *old(f),
            *old(g),
            *old(clock),
            msg@,
            message_view(r),
            *final(f),
            *final(g),
            *final(clock),
        ),
{
    let mid = f.apply(msg, clock);
    let ghost t = *clock;
    let ghost v = message_view(mid);
    assert(F::applied(*old(f), *old(clock), msg@, v, *f, t));
    let r = match mid {
        Some(m) => g.apply(m, clock),
        None => None,
    };
    r
}

impl<F1: SessionFilter, F2: SessionFilter> SessionFilter for (F1, F2) {
    open spec fn wf(&self) -> bool {
        self.0.wf() && self.1.wf()
    }

    open spec fn applied(
        before: Self,
        clock: Time,
        msg: MessageView,
        r: Option<MessageView>,
        after: Self,
        new_clock: Time,
    ) -> bool {
        chained(before.0, before.1, clock, msg, r, after.0, after.1, new_clock)
    }

    open spec fn reset(before: Self, after: Self) -> bool {
        F1::reset(before.0, after.0) && F2::reset(before.1, after.1)
    }

    fn apply(&mut self, msg: Message, clock: &mut Time) -> (r: Option<Message>) {
        apply_both(&mut self.0, &mut self.1, msg, clock)
    }

    fn clear(&mut self) {
        self.0.clear();
        self.1.clear();
    }
}

impl<F1: SessionFilter, F2: SessionFilter, F3: SessionFilter> SessionFilter for (F1, F2, F3) {
    open spec fn wf(&self) -> bool {
        self.0.wf() && self.1.wf() && self.2.wf()
    }

    open spec fn applied(
        before: Self,
        clock: Time,
        msg: MessageView,
        r: Option<MessageView>,
        after: Self,
        new_clock: Time,
    ) -> bool {
        exists|mid: Option<MessageView>, t: Time| #[trigger]
            F1::applied(before.0, clock, msg, mid, after.0, t) && match mid {
                Some(m) => chained(
                    before.1,
                    before.2,
                    t,
                    m,
                    r,
                    after.1,
                    after.2,
                    new_clock,
                ),
                None => r is None && after.1 == before.1 && after.2 == before.2 && new_clock == t,
            }
    }

    open spec fn reset(before: Self, after: Self) -> bool {
        F1::reset(before.0, after.0) && F2::reset(before.1, after.1) && F3::reset(
            before.2,
            after.2,
        )
    }

    fn apply(&mut self, msg: Message, clock: &mut Time) -> (r: Option<Message>) {
        let mid = self.0.apply(msg, clock);
        let ghost t = *clock;
        assert(F1::applied(old(self).0, *old(clock), msg@, message_view(mid), self.0, t));
        match mid {
            Some(m) => apply_both(&mut self.1, &mut self.2, m, clock),
            None => None,
        }
    }

    fn clear(&mut self) {
        self.0.clear();
        self.1.clear();
        self.2.clear();
    }
}

impl<F1: SessionFilter, F2: SessionFilter, F3: SessionFilter, F4: SessionFilter> SessionFilter for (
    F1,
    F2,
    F3,
    F4,
) {
    open spec fn wf(&self) -> bool {
        self.0.wf() && self.1.wf() && self.2.wf() && self.3.wf()
    }

    open spec fn applied(
        before: Self,
        clock: Time,
        msg: MessageView,
        r: Option<MessageView>,
        after: Self,
        new_clock: Time,
    ) -> bool {
        exists|mid: Option<MessageView>, t: Time| #[trigger]
            chained(before.0, before.1, clock, msg, mid, after.0, after.1, t) && match mid {
                Some(m) => chained(
                    before.2,
                    before.3,
                    t,
                    m,
                    r,
                    after.2,
                    after.3,
                    new_clock,
                ),
                None => r is None && after.2 == before.2 && after.3 == before.3 && new_clock == t,
            }
    }

    open spec fn reset(before: Self, after: Self) -> bool {
        F1::reset(before.0, after.0) && F2::reset(before.1, after.1) && F3::reset(
            before.2,
            after.2,
        ) && F4::reset(before.3, after.3)
    }

    fn apply(&mut self, msg: Message, clock: &mut Time) -> (r: Option<Message>) {
        let mid = apply_both(&mut self.0, &mut self.1, msg, clock);
        let ghost t = *clock;
        assert(chained(
            old(self).0,
            old(self).1,
            *old(clock),
            msg@,
            message_view(mid),
            self.0,
            self.1,
            t,
        ));
        match mid {
            Some(m) => apply_both(&mut self.2, &mut self.3, m, clock),
            None => None,
        }
    }

    fn clear(&mut self) {
        self.0.clear();
        self.1.clear();
        self.2.clear();
        self.3.clear();
    }
}

/// A filter of a list turns `msg`, if the filters in front of it let it pass, into `r`.
pub open spec fn turned<F: SessionFilter>(
    before: F,
    clock: Time,
    msg: Option<MessageView>,
    r: Option<MessageView>,
    after: F,
    new_clock: Time,
) -> bool {
    match msg {
        Some(m) => F::applied(before, clock, m, r, after, new_clock),
        None => r is None && after == before && new_clock == clock,
    }
}

/// The filters of a list turn `msgs[0]` into `msgs[1]`, that one into `msgs[2]`, and so on.
pub open spec fn applied_in_turn<F: SessionFilter>(
    before: Seq<F>,
    clocks: Seq<Time>,
    msgs: Seq<Option<MessageView>>,
    after: Seq<F>,
) -> bool {
    &&& after.len() == before.len()
    &&& clocks.len() == before.len() + 1
    &&& msgs.len() == before.len() + 1
    &&& forall|i: int|
        0 <= i < before.len() ==> turned(
            #[trigger] before[i],
            clocks[i],
            msgs[i],
            msgs[i + 1],
            after[i],
            clocks[i + 1],
        )
}

impl<F: SessionFilter> SessionFilter for Vec<F> {
    open spec fn wf(&self) -> bool {
        forall|i: int| 0 <= i < self@.len() ==> (#[trigger] self@[i]).wf()
    }

    open spec fn applied(
        before: Self,
        clock: Time,
        msg: MessageView,
        r: Option<MessageView>,
        after: Self,
        new_clock: Time,
    ) -> bool {
        exists|clocks: Seq<Time>, msgs: Seq<Option<MessageView>>| #[trigger]
            applied_in_turn(before@, clocks, msgs, after@) && clocks[0] == clock && clocks.last()
                == new_clock && msgs[0] == Some(msg) && msgs.last() == r
    }

    open spec fn reset(before: Self, after: Self) -> bool {
        &&& after@.len() == before@.len()
        &&& forall|i: int| 0 <= i < before@.len() ==> F::reset(#[trigger] before@[i], after@[i])
    }

    fn apply(&mut self, msg: Message, clock: &mut Time) -> (r: Option<Message>) {
        let ghost all = self@;
        let ghost mut clocks: Seq<Time> = seq![*clock];
        let ghost mut msgs: Seq<Option<MessageView>> = seq![Some(msg@)];
        let mut r: Option<Message> = Some(msg);
        let n: usize = self.len();
        let mut i: usize = 0;
        while i < n
            invariant
                i <= n,
                n == self@.len(),
                n == all.len(),
                self.wf(),
                clocks.len() == i + 1,
                msgs.len() == i + 1,
                clocks[0] == *old(clock),
                clocks[i as int] == *clock,
                msgs[0] == Some(msg@),
                msgs[i as int] == message_view(r),
                forall|j: int|
                    0 <= j < i ==> turned(
                        #[trigger] all[j],
                        clocks[j],
                        msgs[j],
                        msgs[j + 1],
                        self@[j],
                        clocks[j + 1],
                    ),
                forall|j: int| i <= j < n ==> self@[j] == #[trigger] all[j],
            decreases n - i,
        {
            r = match r {
                Some(m) => self[i].apply(m, clock),
                None => None,
            };
            proof {
                clocks = clocks.push(*clock);
                msgs = msgs.push(message_view(r));
            }
            i += 1;
        }
        assert(applied_in_turn(all, clocks, msgs, self@));
        r
    }

    fn clear(&mut self) {
        let ghost all = self@;
        let n: usize = self.len();
        let mut i: usize = 0;
        while i < n
            invariant
                i <= n,
                n == self@.len(),
                n == all.len(),
                self.wf(),
                forall|j: int| 0 <= j < i ==> F::reset(#[trigger] all[j], self@[j]),
                forall|j: int| i <= j < n ==> self@[j] == #[trigger] all[j],
            decreases n - i,
        {
            self[i].clear();
            i += 1;
        }
    }
}

/// A failure affects each message of the session that it is put on.
impl SessionFilter for Failure {
    open spec fn wf(&self) -> bool {
        self.is_valid()
    }

    open spec fn applied(
        before: Self,
        clock: Time,
        msg: MessageView,
        r: Option<MessageView>,
        after: Self,
        new_clock: Time,
    ) -> bool {
        &&& after == before
        &&& new_clock == clock
        &&& r == match before.garbled(msg.e) {
            Some(e) => Some(MessageView { e, t: msg.t }),
            None => None,
        }
    }

    open spec fn reset(before: Self, after: Self) -> bool {
        after == before
    }

    fn apply(&mut self, msg: Message, clock: &mut Time) -> (r: Option<Message>) {
        match self.garble(msg.e) {
            Some(e) => Some(Message { e, t: msg.t }),
            None => None,
        }
    }

    fn clear(&mut self) {
    }
}

/// Captures all messages of the session.
#[derive(Debug)]
pub struct Capture {
    pub stream: Vec<Message>,
}

impl SessionFilter for Capture {
    open spec fn wf(&self) -> bool {
        true
    }

    open spec fn applied(
        before: Self,
        clock: Time,
        msg: MessageView,
        r: Option<MessageView>,
        after: Self,
        new_clock: Time,
    ) -> bool {
        &&& r == Some(msg)
        &&& crate::session_queue::views(after.stream@) == crate::session_queue::views(
            before.stream@,
        ).push(msg)
        &&& new_clock == clock
    }

    open spec fn reset(before: Self, after: Self) -> bool {
        after.stream@.len() == 0
    }

    fn apply(&mut self, msg: Message, clock: &mut Time) -> (r: Option<Message>) {
        self.stream.push(msg.clone());
        proof {
            let (a, b) = (old(self).stream@, self.stream@);
            assert(crate::session_queue::views(b) =~= crate::session_queue::views(a).push(msg@));
        }
        Some(msg)
    }

    fn clear(&mut self) {
        self.stream.clear();
    }
}

/// A queue with a filter in front of it and another one behind it.
#[derive(Debug)]
pub struct FilteredSessionQueue<Pre, Q, Post> {
    pub pre: Pre,
    pub queue: Q,
    pub post: Post,
}

/// The filter in front lets `mid` of the message pass.
pub open spec fn filtered_push<Pre: SessionFilter, Q: SessionQueue, Post>(
    before: FilteredSessionQueue<Pre, Q, Post>,
    clocks: (Time, Time, Time),
    msg: MessageView,
    mid: Option<MessageView>,
    after: FilteredSessionQueue<Pre, Q, Post>,
) -> bool {
    &&& Pre::applied(before.pre, clocks.0, msg, mid, after.pre, clocks.1)
    &&& after.post == before.post
    &&& match mid {
        Some(m) => Q::pushed(before.queue, clocks.1, m, after.queue, clocks.2),
        None => after.queue == before.queue && clocks.2 == clocks.1,
    }
}

/// The queue answers `rq`, and the filter behind it turns that into `r`.
pub open spec fn filtered_poll<Pre, Q: SessionQueue, Post: SessionFilter>(
    before: FilteredSessionQueue<Pre, Q, Post>,
    clocks: (Time, Time, Time),
    rq: PollView,
    r: PollView,
    after: FilteredSessionQueue<Pre, Q, Post>,
) -> bool {
    &&& Q::polled(before.queue, clocks.0, rq, after.queue, clocks.1)
    &&& after.pre == before.pre
    &&& match (rq, r) {
        (PollView::Msg(m), PollView::Msg(x)) => Post::applied(
            before.post,
            clocks.1,
            m,
            Some(x),
            after.post,
            clocks.2,
        ),
        (PollView::Msg(m), PollView::NotReadyYet(t)) => t == m.t && Post::applied(
            before.post,
            clocks.1,
            m,
            None,
            after.post,
            clocks.2,
        ),
        (PollView::Msg(m), PollView::Empty) => false,
        _ => r == rq && after.post == before.post && clocks.2 == clocks.1,
    }
}

/// The filter keeps the times of messages.
pub open spec fn keeps_time<F: SessionFilter>() -> bool {
    forall|a: F, c: Time, m: MessageView, x: MessageView, b: F, d: Time| #[trigger]
        F::applied(a, c, m, Some(x), b, d) ==> x.t == m.t
}

impl<Pre: SessionFilter, Q: SessionQueue, Post: SessionFilter> SessionQueue for FilteredSessionQueue<
    Pre,
    Q,
    Post,
> {
    open spec fn wf(&self) -> bool {
        self.pre.wf() && self.queue.wf() && self.post.wf()
    }

    open spec fn size(&self) -> nat {
        self.queue.size()
    }

    open spec fn work(&self) -> nat {
        self.queue.work()
    }

    open spec fn push_work() -> nat {
        Q::push_work()
    }

    open spec fn punctual(&self) -> bool {
        self.queue.punctual() && keeps_time::<Post>()
    }

    open spec fn due(&self) -> Option<Time> {
        self.queue.due()
    }

    open spec fn pushed(
        before: Self,
        clock: Time,
        msg: MessageView,
        after: Self,
        new_clock: Time,
    ) -> bool {
        exists|mid: Option<MessageView>, t: Time| #[trigger]
            filtered_push(before, (clock, t, new_clock), msg, mid, after)
    }

    open spec fn polled(
        before: Self,
        clock: Time,
        r: PollView,
        after: Self,
        new_clock: Time,
    ) -> bool {
        exists|rq: PollView, t: Time| #[trigger]
            filtered_poll(before, (clock, t, new_clock), rq, r, after)
    }

    open spec fn timed(before: Self, t: Option<Time>, after: Self) -> bool {
        &&& Q::timed(before.queue, t, after.queue)
        &&& after.pre == before.pre
        &&& after.post == before.post
    }

    open spec fn cleared(before: Self, after: Self) -> bool {
        &&& Q::cleared(before.queue, after.queue)
        &&& Pre::reset(before.pre, after.pre)
        &&& Post::reset(before.post, after.post)
    }

    fn push(&mut self, msg: Message, clock: &mut Time) {
        let mid = self.pre.apply(msg, clock);
        let ghost t = *clock;
        let ghost v = message_view(mid);
        match mid {
            Some(m) => self.queue.push(m, clock),
            None => {},
        }
        assert(filtered_push(*old(self), (*old(clock), t, *clock), msg@, v, *self));
    }

    fn poll(&mut self, clock: &mut Time) -> (r: Poll) {
        let rq = self.queue.poll(clock);
        let ghost c = *clock;
        let ghost v = rq@;
        let r = match rq {
            Poll::Msg(msg) => {
                let t: Time = msg.t;
                match self.post.apply(msg, clock) {
                    Some(m) => Poll::Msg(m),
                    None => Poll::NotReadyYet(t),
                }
            },
            p => p,
        };
        assert(filtered_poll(*old(self), (*old(clock), c, *clock), v, r@, *self));
        r
    }

    fn next_t(&mut self) -> (r: Option<Time>) {
        self.queue.next_t()
    }

    fn len(&self) -> (r: usize) {
        self.queue.len()
    }

    fn is_empty(&self) -> (r: bool) {
        self.queue.is_empty()
    }

    fn clear(&mut self) {
        self.queue.clear();
        self.pre.clear();
        self.post.clear();
    }
}

/// A capture writes down every message that passes, once, and changes none. A failure on a session keeps
/// the time of what it lets pass, and stays the same.
pub proof fn law_filters_on_a_session(
    capture: Capture,
    failure: Failure,
    clock: Time,
    msg: MessageView,
    r: Option<MessageView>,
    s: Option<MessageView>,
    new_capture: Capture,
    new_failure: Failure,
    new_clock: Time,
)
    requires
        Capture::applied(capture, clock, msg, r, new_capture, new_clock),
        <Failure as SessionFilter>::applied(failure, clock, msg, s, new_failure, new_clock),
    ensures
        r == Some(msg),
        crate::session_queue::views(new_capture.stream@).len() == crate::session_queue::views(
            capture.stream@,
        ).len() + 1,
        crate::session_queue::views(new_capture.stream@).last() == msg,
        s matches Some(m) ==> m.t == msg.t,
        s matches Some(m) ==> (m.e is Update <==> msg.e is Update),
        s matches Some(m) ==> m.e.prefix() == msg.e.prefix(),
        s is None ==> failure is BGPDropUpdate || failure is BGPDropWithdraw,
        failure is BGPDropUpdate ==> (s is None <==> msg.e is Update),
        failure is BGPDropWithdraw ==> (s is None <==> msg.e is Withdraw),
        new_failure == failure,
        new_clock == clock,
{
}

/// What the first of two filters drops does not reach the second one, and what it lets pass does. Only what
/// both let pass comes out.
pub proof fn law_filters_in_turn<F: SessionFilter, G: SessionFilter>(
    f: F,
    g: G,
    clock: Time,
    msg: MessageView,
    r: Option<MessageView>,
    new_f: F,
    new_g: G,
    new_clock: Time,
)
    requires
        chained(f, g, clock, msg, r, new_f, new_g, new_clock),
    ensures
        exists|mid: Option<MessageView>, t: Time| #[trigger]
            F::applied(f, clock, msg, mid, new_f, t) && (mid is None ==> r is None && new_g == g) && (
            mid matches Some(m) ==> G::applied(g, t, m, r, new_g, new_clock)),
        new_g != g || r is Some ==> exists|m: MessageView, t: Time| #[trigger]
            F::applied(f, clock, msg, Some(m), new_f, t),
{
    let (mid, t) = choose|mid: Option<MessageView>, t: Time| #[trigger]
        F::applied(f, clock, msg, mid, new_f, t) && match mid {
            Some(m) => G::applied(g, t, m, r, new_g, new_clock),
            None => r is None && new_g == g && new_clock == t,
        };
    if let Some(m) = mid {
        assert(F::applied(f, clock, msg, Some(m), new_f, t));
    }
}

/// What the filter in front of a queue drops does not enter the queue. What the filter behind it drops has
/// left the queue all the same, and the time at which it left is given.
pub proof fn law_filters_around_a_queue<Pre: SessionFilter, Q: SessionQueue, Post: SessionFilter>(
    a: FilteredSessionQueue<Pre, Q, Post>,
    clocks: (Time, Time, Time),
    msg: MessageView,
    mid: Option<MessageView>,
    b: FilteredSessionQueue<Pre, Q, Post>,
    rq: PollView,
    r: PollView,
    c: FilteredSessionQueue<Pre, Q, Post>,
)
    requires
        filtered_push(a, clocks, msg, mid, b),
        filtered_poll(b, clocks, rq, r, c),
    ensures
        mid is None ==> b.queue == a.queue,
        mid matches Some(m) ==> Q::pushed(a.queue, clocks.1, m, b.queue, clocks.2),
        b.post == a.post,
        c.pre == b.pre,
        r is Empty <==> rq is Empty,
        r is Msg ==> rq is Msg,
        rq is NotReadyYet ==> r == rq,
        rq matches PollView::Msg(m) ==> (r is NotReadyYet ==> r->NotReadyYet_0 == m.t),
        !(rq is Msg) ==> c.post == b.post,
{
}

/// What one of several filters drops is dropped: nothing comes out, and the filters behind it see nothing.
pub proof fn law_dropped_messages_stay_dropped<F: SessionFilter>(
    before: Seq<F>,
    clocks: Seq<Time>,
    msgs: Seq<Option<MessageView>>,
    after: Seq<F>,
    i: int,
    j: int,
)
    requires
        applied_in_turn(before, clocks, msgs, after),
        0 <= i <= j < before.len(),
        msgs[i] is None,
    ensures
        msgs[j] is None,
        msgs[j + 1] is None,
        msgs.last() is None,
        after[j] == before[j],
    decreases before.len() - i,
{
    lemma_none_from(before, clocks, msgs, after, i, j);
    lemma_none_from(before, clocks, msgs, after, i, before.len() as int);
    assert(turned(before[j], clocks[j], msgs[j], msgs[j + 1], after[j], clocks[j + 1]));
}

proof fn lemma_none_from<F: SessionFilter>(
    before: Seq<F>,
    clocks: Seq<Time>,
    msgs: Seq<Option<MessageView>>,
    after: Seq<F>,
    i: int,
    j: int,
)
    requires
        applied_in_turn(before, clocks, msgs, after),
        0 <= i <= j <= before.len(),
        msgs[i] is None,
    ensures
        msgs[j] is None,
    decreases j - i,
{
    if i < j {
        assert(turned(before[i], clocks[i], msgs[i], msgs[i + 1], after[i], clocks[i + 1]));
        lemma_none_from(before, clocks, msgs, after, i + 1, j);
    }
}

} // verus!
