//! What changes, and what does not, if messages are logged on some sessions only.
use vstd::prelude::*;

use crate::bgp::{timeless, Event, EventView, RouterId, Time};
use crate::dispatch_queue::{event_views, Session};
use crate::keyed::lemma_entry;
use crate::reordering_measurement::{gathered_at, is_trace, logged_at, on_session, restricted};
use crate::reordering_measurement::ReorderingQueue;
use crate::reordering_queue::{Loading, Waiting, Working};
use crate::reordering_session::{Failures, Monitor, RandomDebouncer, RandomQueue};
use crate::reordering_session::ReorderingSessionQueue;
use crate::session_filter::{filtered_poll, filtered_push, FilteredSessionQueue, SessionFilter};
use crate::session_queue::{both_timed, earlier, moved, second_first, sequence_polled, views};
use crate::session_queue::{MessageView, PollView, SessionQueue, SessionQueueSequence};
use crate::sorting::{is_sorted_from, is_sorting_of};

verus! {

/// The sender's part of a session.
pub type Sender = FilteredSessionQueue<(), RandomDebouncer, Failures>;

/// The network between both routers.
pub type Wire = FilteredSessionQueue<Monitor, RandomQueue, Monitor>;

/// The receiver's part of a session.
pub type Receiver = FilteredSessionQueue<Failures, RandomQueue, ()>;

/// What follows the sender.
pub type Journey = SessionQueueSequence<Wire, Receiver>;

/// What passes the monitors of a session in a piece of work.
pub enum Passage {
    /// A message enters the network.
    Sent(MessageView),
    /// A message leaves the network.
    Received(MessageView),
    Nothing,
}

/// The monitors of a session note what passes them.
pub open spec fn notes(before: Wire, clock: Time, p: Passage, after: Wire, new_clock: Time) -> bool {
    match p {
        Passage::Sent(m) => Monitor::applied(before.pre, clock, m, Some(m), after.pre, new_clock)
            && after.post == before.post,
        Passage::Received(m) => Monitor::applied(
            before.post,
            clock,
            m,
            Some(m),
            after.post,
            new_clock,
        ) && after.pre == before.pre,
        Passage::Nothing => after.pre == before.pre && after.post == before.post && new_clock
            == clock,
    }
}

/// Two wires differ in nothing but their logs, and in whether they log.
pub open spec fn same_wire(a: Wire, b: Wire) -> bool {
    &&& b.queue == a.queue
    &&& b.pre.use_msg_time == a.pre.use_msg_time
    &&& b.post.use_msg_time == a.post.use_msg_time
}

/// Two journeys differ in nothing but their logs, and in whether they log.
pub open spec fn same_journey(a: Journey, b: Journey) -> bool {
    same_wire(a.a, b.a) && b.b == a.b
}

/// Two sessions differ in nothing but their logs, and in whether they log.
pub open spec fn same_session(a: ReorderingSessionQueue, b: ReorderingSessionQueue) -> bool {
    b.a == a.a && same_journey(a.b, b.b)
}

// ---------------------------------------------------------------------------------------------
// The parts without a monitor do not care for the clock
// ---------------------------------------------------------------------------------------------
proof fn lemma_sender_pushed(x: Sender, c: Time, msg: MessageView, y: Sender, c2: Time, d: Time)
    requires
        Sender::pushed(x, c, msg, y, c2),
    ensures
        c2 == c,
        Sender::pushed(x, d, msg, y, d),
{
    let (mid, t) = choose|mid: Option<MessageView>, t: Time| #[trigger]
        filtered_push(x, (c, t, c2), msg, mid, y);
    assert(filtered_push(x, (d, d, d), msg, mid, y));
}

proof fn lemma_sender_polled(x: Sender, c: Time, r: PollView, y: Sender, c2: Time, d: Time)
    requires
        Sender::polled(x, c, r, y, c2),
    ensures
        c2 == c,
        Sender::polled(x, d, r, y, d),
{
    let (rq, t) = choose|rq: PollView, t: Time| #[trigger] filtered_poll(x, (c, t, c2), rq, r, y);
    assert(filtered_poll(x, (d, d, d), rq, r, y));
}

proof fn lemma_receiver_pushed(
    x: Receiver,
    c: Time,
    msg: MessageView,
    y: Receiver,
    c2: Time,
    d: Time,
)
    requires
        Receiver::pushed(x, c, msg, y, c2),
    ensures
        c2 == c,
        Receiver::pushed(x, d, msg, y, d),
{
    let (mid, t) = choose|mid: Option<MessageView>, t: Time| #[trigger]
        filtered_push(x, (c, t, c2), msg, mid, y);
    assert(filtered_push(x, (d, d, d), msg, mid, y));
}

proof fn lemma_receiver_polled(x: Receiver, c: Time, r: PollView, y: Receiver, c2: Time, d: Time)
    requires
        Receiver::polled(x, c, r, y, c2),
    ensures
        c2 == c,
        Receiver::polled(x, d, r, y, d),
{
    let (rq, t) = choose|rq: PollView, t: Time| #[trigger] filtered_poll(x, (c, t, c2), rq, r, y);
    assert(filtered_poll(x, (d, d, d), rq, r, y));
}

// ---------------------------------------------------------------------------------------------
// Work on a session
// ---------------------------------------------------------------------------------------------
/// A journey with the monitors of another one.
spec fn with_monitors(a: Journey, b: Wire) -> Journey {
    SessionQueueSequence { a: FilteredSessionQueue { pre: b.pre, post: b.post, ..a.a }, ..a }
}

/// Work on a journey lets something pass, and is the same with any monitors.
proof fn lemma_journey_polled(
    before: Journey,
    clock: Time,
    r: PollView,
    after: Journey,
    new_clock: Time,
) -> (p: Passage)
    requires
        Journey::polled(before, clock, r, after, new_clock),
    ensures
        notes(before.a, clock, p, after.a, new_clock),
        forall|b0: Journey, d: Time, b1: Journey, d1: Time|
            same_journey(before, b0) && same_journey(after, b1) && #[trigger] notes(
                b0.a,
                d,
                p,
                b1.a,
                d1,
            ) ==> Journey::polled(b0, d, r, b1, d1),
{
    let (ta, tb, mid) = choose|ta: Option<Time>, tb: Option<Time>, mid: Journey| #[trigger]
        both_timed(before, ta, tb, mid) && sequence_polled(mid, clock, ta, tb, r, after, new_clock);
    if ta is None && tb is None {
        let p = Passage::Nothing;
        assert forall|b0: Journey, d: Time, b1: Journey, d1: Time|
            same_journey(before, b0) && same_journey(after, b1) && #[trigger] notes(
                b0.a,
                d,
                p,
                b1.a,
                d1,
            ) implies Journey::polled(b0, d, r, b1, d1) by {
            let m2 = with_monitors(mid, b0.a);
            assert(both_timed(b0, ta, tb, m2));
            assert(sequence_polled(m2, d, ta, tb, r, b1, d1));
        }
        p
    } else if second_first(ta, tb) {
        let p = Passage::Nothing;
        lemma_receiver_polled(mid.b, clock, r, after.b, new_clock, clock);
        assert forall|b0: Journey, d: Time, b1: Journey, d1: Time|
            same_journey(before, b0) && same_journey(after, b1) && #[trigger] notes(
                b0.a,
                d,
                p,
                b1.a,
                d1,
            ) implies Journey::polled(b0, d, r, b1, d1) by {
            let m2 = with_monitors(mid, b0.a);
            assert(both_timed(b0, ta, tb, m2));
            lemma_receiver_polled(mid.b, clock, r, after.b, new_clock, d);
            assert(sequence_polled(m2, d, ta, tb, r, b1, d1));
        }
        p
    } else {
        let (ra, mc) = choose|ra: PollView, mc: Time| #[trigger]
            moved(mid, clock, ra, mc, after, new_clock) && ra.time() is Some && r
                == PollView::NotReadyYet(ra.time()->0);
        let (rq, t) = choose|rq: PollView, t: Time| #[trigger]
            filtered_poll(mid.a, (clock, t, mc), rq, ra, after.a);
        assert(rq is Msg && ra == rq);
        let m = rq->Msg_0;
        let p = Passage::Received(m);
        lemma_receiver_pushed(mid.b, mc, m, after.b, new_clock, mc);
        assert forall|b0: Journey, d: Time, b1: Journey, d1: Time|
            same_journey(before, b0) && same_journey(after, b1) && #[trigger] notes(
                b0.a,
                d,
                p,
                b1.a,
                d1,
            ) implies Journey::polled(b0, d, r, b1, d1) by {
            let m2 = with_monitors(mid, b0.a);
            assert(both_timed(b0, ta, tb, m2));
            assert(filtered_poll(m2.a, (d, d, d1), rq, ra, b1.a));
            lemma_receiver_pushed(mid.b, mc, m, after.b, new_clock, d1);
            assert(moved(m2, d, ra, d1, b1, d1));
            assert(sequence_polled(m2, d, ta, tb, r, b1, d1));
        }
        p
    }
}

/// A message that enters the network passes the first monitor.
proof fn lemma_journey_pushed(
    before: Journey,
    clock: Time,
    m: MessageView,
    after: Journey,
    new_clock: Time,
)
    requires
        Journey::pushed(before, clock, m, after, new_clock),
    ensures
        notes(before.a, clock, Passage::Sent(m), after.a, new_clock),
        forall|b0: Journey, d: Time, b1: Journey, d1: Time|
            same_journey(before, b0) && same_journey(after, b1) && #[trigger] notes(
                b0.a,
                d,
                Passage::Sent(m),
                b1.a,
                d1,
            ) ==> Journey::pushed(b0, d, m, b1, d1),
{
    let (mid, t) = choose|mid: Option<MessageView>, t: Time| #[trigger]
        filtered_push(before.a, (clock, t, new_clock), m, mid, after.a);
    assert(mid == Some(m));
    assert forall|b0: Journey, d: Time, b1: Journey, d1: Time|
        same_journey(before, b0) && same_journey(after, b1) && #[trigger] notes(
            b0.a,
            d,
            Passage::Sent(m),
            b1.a,
            d1,
        ) implies Journey::pushed(b0, d, m, b1, d1) by {
        assert(filtered_push(b0.a, (d, d1, d1), m, mid, b1.a));
    }
}

/// A journey can be asked for its next time whatever its monitors are, and that does not change them.
proof fn lemma_journey_timed(before: Journey, t: Option<Time>, after: Journey)
    requires
        Journey::timed(before, t, after),
    ensures
        after.a.pre == before.a.pre,
        after.a.post == before.a.post,
        forall|b: Wire| #[trigger]
            Journey::timed(with_monitors(before, b), t, with_monitors(after, b)),
{
    let (ta, tb) = choose|ta: Option<Time>, tb: Option<Time>| #[trigger]
        both_timed(before, ta, tb, after) && t == earlier(ta, tb);
    assert forall|b: Wire| #[trigger]
        Journey::timed(with_monitors(before, b), t, with_monitors(after, b)) by {
        assert(both_timed(with_monitors(before, b), ta, tb, with_monitors(after, b)));
    }
}

/// A session with the monitors of another one.
spec fn with_session_monitors(
    a: ReorderingSessionQueue,
    b: ReorderingSessionQueue,
) -> ReorderingSessionQueue {
    SessionQueueSequence { b: with_monitors(a.b, b.b.a), ..a }
}

/// Work on a session lets something pass its monitors, and is the same with any monitors.
pub proof fn law_monitors_do_not_change_the_work(
    before: ReorderingSessionQueue,
    clock: Time,
    r: PollView,
    after: ReorderingSessionQueue,
    new_clock: Time,
) -> (p: Passage)
    requires
        ReorderingSessionQueue::polled(before, clock, r, after, new_clock),
    ensures
        notes(before.b.a, clock, p, after.b.a, new_clock),
        forall|b0: ReorderingSessionQueue, d: Time, b1: ReorderingSessionQueue, d1: Time|
            same_session(before, b0) && same_session(after, b1) && #[trigger] notes(
                b0.b.a,
                d,
                p,
                b1.b.a,
                d1,
            ) ==> ReorderingSessionQueue::polled(b0, d, r, b1, d1),
{
    let (ta, tb, mid) = choose|
        ta: Option<Time>,
        tb: Option<Time>,
        mid: ReorderingSessionQueue,
    | #[trigger]
        both_timed(before, ta, tb, mid) && sequence_polled(mid, clock, ta, tb, r, after, new_clock);
    lemma_journey_timed(before.b, tb, mid.b);
    if ta is None && tb is None {
        let p = Passage::Nothing;
        assert forall|b0: ReorderingSessionQueue, d: Time, b1: ReorderingSessionQueue, d1: Time|
            same_session(before, b0) && same_session(after, b1) && #[trigger] notes(
                b0.b.a,
                d,
                p,
                b1.b.a,
                d1,
            ) implies ReorderingSessionQueue::polled(b0, d, r, b1, d1) by {
            let m2 = with_session_monitors(mid, b0);
            assert(with_monitors(before.b, b0.b.a) == b0.b);
            assert(both_timed(b0, ta, tb, m2));
            assert(sequence_polled(m2, d, ta, tb, r, b1, d1));
        }
        p
    } else if second_first(ta, tb) {
        let p = lemma_journey_polled(mid.b, clock, r, after.b, new_clock);
        assert forall|b0: ReorderingSessionQueue, d: Time, b1: ReorderingSessionQueue, d1: Time|
            same_session(before, b0) && same_session(after, b1) && #[trigger] notes(
                b0.b.a,
                d,
                p,
                b1.b.a,
                d1,
            ) implies ReorderingSessionQueue::polled(b0, d, r, b1, d1) by {
            let m2 = with_session_monitors(mid, b0);
            assert(with_monitors(before.b, b0.b.a) == b0.b);
            assert(both_timed(b0, ta, tb, m2));
            assert(notes(m2.b.a, d, p, b1.b.a, d1));
            assert(same_journey(mid.b, m2.b));
            assert(Journey::polled(m2.b, d, r, b1.b, d1));
            assert(sequence_polled(m2, d, ta, tb, r, b1, d1));
        }
        p
    } else {
        let (ra, mc) = choose|ra: PollView, mc: Time| #[trigger]
            moved(mid, clock, ra, mc, after, new_clock) && ra.time() is Some && r
                == PollView::NotReadyYet(ra.time()->0);
        lemma_sender_polled(mid.a, clock, ra, after.a, mc, clock);
        let p = match ra {
            PollView::Msg(m) => Passage::Sent(m),
            _ => Passage::Nothing,
        };
        if let PollView::Msg(m) = ra {
            lemma_journey_pushed(mid.b, mc, m, after.b, new_clock);
        }
        assert forall|b0: ReorderingSessionQueue, d: Time, b1: ReorderingSessionQueue, d1: Time|
            same_session(before, b0) && same_session(after, b1) && #[trigger] notes(
                b0.b.a,
                d,
                p,
                b1.b.a,
                d1,
            ) implies ReorderingSessionQueue::polled(b0, d, r, b1, d1) by {
            let m2 = with_session_monitors(mid, b0);
            assert(with_monitors(before.b, b0.b.a) == b0.b);
            assert(both_timed(b0, ta, tb, m2));
            lemma_sender_polled(mid.a, clock, ra, after.a, mc, d);
            if let PollView::Msg(m) = ra {
                assert(notes(m2.b.a, d, Passage::Sent(m), b1.b.a, d1));
                assert(same_journey(mid.b, m2.b));
                assert(Journey::pushed(m2.b, d, m, b1.b, d1));
            } else {
                assert(b1.b == m2.b);
            }
            assert(moved(m2, d, ra, d, b1, d1));
            assert(sequence_polled(m2, d, ta, tb, r, b1, d1));
        }
        p
    }
}

/// A message can be pushed into a session whatever its monitors are, and that does not change them.
proof fn lemma_session_pushed(
    before: ReorderingSessionQueue,
    clock: Time,
    msg: MessageView,
    after: ReorderingSessionQueue,
    new_clock: Time,
    b: ReorderingSessionQueue,
    d: Time,
)
    requires
        ReorderingSessionQueue::pushed(before, clock, msg, after, new_clock),
    ensures
        new_clock == clock,
        after.b == before.b,
        ReorderingSessionQueue::pushed(
            with_session_monitors(before, b),
            d,
            msg,
            with_session_monitors(after, b),
            d,
        ),
{
    lemma_sender_pushed(before.a, clock, msg, after.a, new_clock, d);
}

/// A session can be asked for its next time whatever its monitors are, and that does not change them.
proof fn lemma_session_timed(
    before: ReorderingSessionQueue,
    t: Option<Time>,
    after: ReorderingSessionQueue,
)
    requires
        ReorderingSessionQueue::timed(before, t, after),
    ensures
        after.b.a.pre == before.b.a.pre,
        after.b.a.post == before.b.a.post,
        forall|b: ReorderingSessionQueue|
            ReorderingSessionQueue::timed(
                #[trigger] with_session_monitors(before, b),
                t,
                with_session_monitors(after, b),
            ),
{
    let (ta, tb) = choose|ta: Option<Time>, tb: Option<Time>| #[trigger]
        both_timed(before, ta, tb, after) && t == earlier(ta, tb);
    lemma_journey_timed(before.b, tb, after.b);
    assert forall|b: ReorderingSessionQueue|
        ReorderingSessionQueue::timed(
            #[trigger] with_session_monitors(before, b),
            t,
            with_session_monitors(after, b),
        ) by {
        assert(Journey::timed(
            with_monitors(before.b, b.b.a),
            tb,
            with_monitors(after.b, b.b.a),
        ));
        assert(both_timed(
            with_session_monitors(before, b),
            ta,
            tb,
            with_session_monitors(after, b),
        ));
    }
}

// ---------------------------------------------------------------------------------------------
// Work on the queue
// ---------------------------------------------------------------------------------------------
/// What the queue does: it takes a BGP message, works on the session that is next, or handles a message
/// of another kind.
pub enum Act {
    Push(Session, MessageView),
    Work(Session, PollView),
    Other,
}

/// How the queue changes. All sessions exist already.
pub open spec fn acts(before: ReorderingQueue, act: Act, after: ReorderingQueue) -> bool {
    match act {
        Act::Push(k, msg) => before.bgp_queues@.contains_key(k) && exists|
            steps: Loading<ReorderingSessionQueue>,
        | #[trigger]
            ReorderingQueue::bgp_pushed(before, k, msg, steps, after),
        Act::Work(k, r) => before.bgp_queues@.contains_key(k) && exists|
            w: Waiting,
            steps: Working<ReorderingSessionQueue>,
        | #[trigger]
            ReorderingQueue::stepped(before, w, steps, after) && w.0 == k && steps.result == r,
        Act::Other => {
            &&& after.bgp_queues@ == before.bgp_queues@
            &&& after.bgp_queue_heap@ == before.bgp_queue_heap@
            &&& after.queue_init == before.queue_init
            &&& after.current_time == before.current_time
            &&& after.clock == before.clock
        },
    }
}

/// The session on which the queue acts notes what passes its monitors. The others are left alone.
pub open spec fn queue_notes(
    before: ReorderingQueue,
    act: Act,
    p: Passage,
    after: ReorderingQueue,
) -> bool {
    match act {
        Act::Push(k, _) => {
            &&& after.bgp_queues@ == before.bgp_queues@.insert(k, after.bgp_queues@[k])
            &&& p is Nothing
            &&& notes(
                before.bgp_queues@[k].b.a,
                before.clock,
                p,
                after.bgp_queues@[k].b.a,
                after.clock,
            )
        },
        Act::Work(k, _) => {
            &&& after.bgp_queues@ == before.bgp_queues@.insert(k, after.bgp_queues@[k])
            &&& notes(
                before.bgp_queues@[k].b.a,
                before.clock,
                p,
                after.bgp_queues@[k].b.a,
                after.clock,
            )
        },
        Act::Other => {
            &&& after.bgp_queues@ == before.bgp_queues@
            &&& after.clock == before.clock
            &&& p is Nothing
        },
    }
}

/// Two queues differ in nothing but what their sessions log.
pub open spec fn same_queue(a: ReorderingQueue, b: ReorderingQueue) -> bool {
    &&& b.queue_init == a.queue_init
    &&& b.bgp_queue_heap@ == a.bgp_queue_heap@
    &&& b.base_queue == a.base_queue
    &&& b.current_time == a.current_time
    &&& b.bgp_queues@.dom() == a.bgp_queues@.dom()
    &&& forall|k: Session| #[trigger]
        a.bgp_queues@.contains_key(k) ==> same_session(a.bgp_queues@[k], b.bgp_queues@[k])
}

/// Whatever the queue does, it can do the same, with the same result, if it logs on other sessions: the
/// monitors only note what passes them.
pub proof fn law_logging_changes_nothing_else(
    before: ReorderingQueue,
    act: Act,
    after: ReorderingQueue,
) -> (p: Passage)
    requires
        acts(before, act, after),
    ensures
        queue_notes(before, act, p, after),
        forall|b0: ReorderingQueue, b1: ReorderingQueue|
            same_queue(before, b0) && same_queue(after, b1) && #[trigger] queue_notes(
                b0,
                act,
                p,
                b1,
            ) ==> acts(b0, act, b1),
{
    match act {
        Act::Push(k, msg) => {
            let steps = choose|steps: Loading<ReorderingSessionQueue>| #[trigger]
                ReorderingQueue::bgp_pushed(before, k, msg, steps, after);
            lemma_session_timed(steps.start, steps.old_t, steps.asked);
            lemma_session_pushed(
                steps.asked,
                before.clock,
                msg,
                steps.loaded,
                after.clock,
                steps.asked,
                before.clock,
            );
            if steps.old_t is None {
                lemma_session_timed(steps.loaded, steps.new_t, steps.done);
            }
            let p = Passage::Nothing;
            assert forall|b0: ReorderingQueue, b1: ReorderingQueue|
                same_queue(before, b0) && same_queue(after, b1) && #[trigger] queue_notes(
                    b0,
                    act,
                    p,
                    b1,
                ) implies acts(b0, act, b1) by {
                let q = b0.bgp_queues@[k];
                assert(before.bgp_queues@.contains_key(k));
                assert(after.bgp_queues@.contains_key(k));
                let again = Loading {
                    start: with_session_monitors(steps.start, q),
                    asked: with_session_monitors(steps.asked, q),
                    loaded: with_session_monitors(steps.loaded, q),
                    done: with_session_monitors(steps.done, q),
                    ..steps
                };
                assert(again.start == q);
                assert(again.done == b1.bgp_queues@[k]);
                lemma_session_pushed(
                    steps.asked,
                    before.clock,
                    msg,
                    steps.loaded,
                    after.clock,
                    q,
                    b0.clock,
                );
                assert(ReorderingQueue::bgp_pushed(b0, k, msg, again, b1));
            }
            p
        },
        Act::Work(k, r) => {
            let (w, steps) = choose|w: Waiting, steps: Working<ReorderingSessionQueue>| #[trigger]
                ReorderingQueue::stepped(before, w, steps, after) && w.0 == k && steps.result == r;
            let p = law_monitors_do_not_change_the_work(
                before.bgp_queues@[k],
                before.clock,
                r,
                steps.worked,
                after.clock,
            );
            lemma_session_timed(steps.worked, steps.next_t, steps.done);
            assert forall|b0: ReorderingQueue, b1: ReorderingQueue|
                same_queue(before, b0) && same_queue(after, b1) && #[trigger] queue_notes(
                    b0,
                    act,
                    p,
                    b1,
                ) implies acts(b0, act, b1) by {
                let (q0, q1) = (b0.bgp_queues@[k], b1.bgp_queues@[k]);
                assert(before.bgp_queues@.contains_key(k));
                assert(after.bgp_queues@.contains_key(k));
                let again = Working {
                    worked: with_session_monitors(steps.worked, q1),
                    done: with_session_monitors(steps.done, q1),
                    ..steps
                };
                assert(again.done == q1);
                assert(same_session(steps.worked, again.worked));
                assert(notes(q0.b.a, b0.clock, p, again.worked.b.a, b1.clock));
                assert(ReorderingSessionQueue::polled(q0, b0.clock, r, again.worked, b1.clock));
                assert(ReorderingQueue::stepped(b0, w, again, b1));
            }
            p
        },
        Act::Other => {
            let p = Passage::Nothing;
            assert forall|b0: ReorderingQueue, b1: ReorderingQueue|
                same_queue(before, b0) && same_queue(after, b1) && #[trigger] queue_notes(
                    b0,
                    act,
                    p,
                    b1,
                ) implies acts(b0, act, b1) by {}
            p
        },
    }
}

/// Every session that waits for its turn exists.
spec fn are_known(q: ReorderingQueue) -> bool {
    forall|k: Session, t: Time| #[trigger]
        q.bgp_queue_heap@.contains((k, t)) ==> q.bgp_queues@.contains_key(k)
}

/// A piece of work is an act.
proof fn lemma_step_is_an_act(
    before: ReorderingQueue,
    w: Waiting,
    steps: Working<ReorderingSessionQueue>,
    after: ReorderingQueue,
)
    requires
        are_known(before),
        ReorderingQueue::stepped(before, w, steps, after),
    ensures
        acts(before, Act::Work(w.0, steps.result), after),
        are_known(after),
{
    assert(before.bgp_queue_heap@.contains((w.0, w.1)));
    assert forall|k: Session, t: Time| #[trigger]
        after.bgp_queue_heap@.contains((k, t)) implies after.bgp_queues@.contains_key(k) by {
        if k != w.0 {
            assert(before.bgp_queue_heap@.contains((k, t)));
        }
    }
}

/// The work until the next message of a session is delivered is a run of acts on sessions.
pub proof fn law_pop_is_a_run(states: Seq<ReorderingQueue>) -> (run: Seq<Act>)
    requires
        ReorderingQueue::trail(states),
        states[0].wf(),
    ensures
        is_run(states, run),
        forall|k: Session, msg: MessageView, after: ReorderingQueue| #[trigger]
            ReorderingQueue::yields(states.last(), k, msg, after) ==> acts(
                states.last(),
                Act::Work(k, PollView::Msg(msg)),
                after,
            ),
{
    let run = lemma_trail(states, states.len() - 1);
    let last = states.last();
    assert forall|k: Session, msg: MessageView, after: ReorderingQueue| #[trigger]
        ReorderingQueue::yields(last, k, msg, after) implies acts(
        last,
        Act::Work(k, PollView::Msg(msg)),
        after,
    ) by {
        let (w, steps) = choose|w: Waiting, steps: Working<ReorderingSessionQueue>| #[trigger]
            ReorderingQueue::stepped(last, w, steps, after) && w.0 == k && steps.result
                == PollView::Msg(msg);
        lemma_step_is_an_act(last, w, steps, after);
    }
    run
}

/// The first `n` steps of such work.
proof fn lemma_trail(states: Seq<ReorderingQueue>, n: int) -> (run: Seq<Act>)
    requires
        ReorderingQueue::trail(states),
        states[0].wf(),
        0 <= n < states.len(),
    ensures
        run.len() == n,
        are_known(states[n]),
        forall|i: int| 0 <= i < n ==> acts(states[i], #[trigger] run[i], states[i + 1]),
    decreases n,
{
    if n == 0 {
        seq![]
    } else {
        let init = lemma_trail(states, n - 1);
        let (before, after) = (states[n - 1], states[n - 1 + 1]);
        assert(ReorderingQueue::silent(before, after));
        let (w, steps) = choose|w: Waiting, steps: Working<ReorderingSessionQueue>| #[trigger]
            ReorderingQueue::stepped(before, w, steps, after) && !(steps.result is Msg);
        lemma_step_is_an_act(before, w, steps, after);
        let run = init.push(Act::Work(w.0, steps.result));
        assert forall|i: int| 0 <= i < n implies acts(states[i], #[trigger] run[i], states[i + 1]) by {
            if i < n - 1 {
                assert(run[i] == init[i]);
            }
        }
        run
    }
}

/// One piece of work is an act, or there is nothing to do.
pub proof fn law_poll_is_an_act(
    before: ReorderingQueue,
    r: Option<Option<Event<Time>>>,
    after: ReorderingQueue,
) -> (act: Act)
    requires
        before.wf(),
        ReorderingQueue::polls(before, r, after),
    ensures
        acts(before, act, after),
        !(act is Push),
{
    if before.base_queue@.len() > 0 || after == before {
        Act::Other
    } else {
        assert(exists|w: Waiting, steps: Working<ReorderingSessionQueue>| #[trigger]
            ReorderingQueue::stepped(before, w, steps, after)) by {
            if let Some(Some(e)) = r {
                let (k, msg) = choose|k: Session, msg: MessageView| #[trigger]
                    ReorderingQueue::yields(before, k, msg, after) && e@ == msg.on(k.0, k.1);
                assert(ReorderingQueue::yields(before, k, msg, after));
            }
        }
        let (w, steps) = choose|w: Waiting, steps: Working<ReorderingSessionQueue>| #[trigger]
            ReorderingQueue::stepped(before, w, steps, after);
        lemma_step_is_an_act(before, w, steps, after);
        Act::Work(w.0, steps.result)
    }
}

// ---------------------------------------------------------------------------------------------
// Runs
// ---------------------------------------------------------------------------------------------
/// A run of the queue: each act leads from one state to the next.
pub open spec fn is_run(states: Seq<ReorderingQueue>, run: Seq<Act>) -> bool {
    &&& states.len() == run.len() + 1
    &&& forall|i: int| 0 <= i < run.len() ==> acts(states[i], #[trigger] run[i], states[i + 1])
}

/// Nothing was logged yet.
pub open spec fn nothing_logged(q: ReorderingSessionQueue) -> bool {
    q.b.a.pre.log@.len() == 0 && q.b.a.post.log@.len() == 0
}

/// The queue logs the messages of one router only, as it is after `before` was restricted to it.
pub open spec fn is_restricted(
    before: ReorderingQueue,
    router: RouterId,
    after: ReorderingQueue,
) -> bool {
    &&& after.clock == before.clock
    &&& after.bgp_queues@.dom() == before.bgp_queues@.dom()
    &&& forall|k: Session| #[trigger]
        after.bgp_queues@.contains_key(k) ==> restricted(
            k,
            before.bgp_queues@[k],
            router,
            after.bgp_queues@[k],
        )
}

/// A session logs nothing but what one router sends or receives on it.
spec fn is_quiet(k: Session, q: ReorderingSessionQueue, router: RouterId) -> bool {
    &&& k.0 != router ==> !q.b.a.pre.enabled && q.b.a.pre.log@.len() == 0
    &&& k.1 != router ==> !q.b.a.post.enabled && q.b.a.post.log@.len() == 0
}

proof fn lemma_quiet(
    states: Seq<ReorderingQueue>,
    run: Seq<Act>,
    router: RouterId,
    n: int,
)
    requires
        is_run(states, run),
        0 <= n < states.len(),
        forall|k: Session| #[trigger]
            states[0].bgp_queues@.contains_key(k) ==> is_quiet(
                k,
                states[0].bgp_queues@[k],
                router,
            ),
    ensures
        states[n].bgp_queues@.dom() == states[0].bgp_queues@.dom(),
        forall|k: Session| #[trigger]
            states[n].bgp_queues@.contains_key(k) ==> is_quiet(
                k,
                states[n].bgp_queues@[k],
                router,
            ),
    decreases n,
{
    if n > 0 {
        lemma_quiet(states, run, router, n - 1);
        let (before, after) = (states[n - 1], states[n]);
        assert(acts(before, run[n - 1], after));
        let p = law_logging_changes_nothing_else(before, run[n - 1], after);
        assert(after.bgp_queues@.dom() =~= before.bgp_queues@.dom());
        assert forall|k: Session| #[trigger] after.bgp_queues@.contains_key(k) implies is_quiet(
            k,
            after.bgp_queues@[k],
            router,
        ) by {
            assert(before.bgp_queues@.contains_key(k));
            assert(is_quiet(k, before.bgp_queues@[k], router));
            let (a, b) = (before.bgp_queues@[k].b.a, after.bgp_queues@[k].b.a);
            assert(b.pre == a.pre || Monitor::applied(
                a.pre,
                before.clock,
                p->Sent_0,
                Some(p->Sent_0),
                b.pre,
                after.clock,
            ));
            assert(b.post == a.post || Monitor::applied(
                a.post,
                before.clock,
                p->Received_0,
                Some(p->Received_0),
                b.post,
                after.clock,
            ));
        }
    }
}

/// The traces of quiet sessions.
proof fn lemma_gathered(
    entries: Seq<(Session, ReorderingSessionQueue)>,
    router: RouterId,
    x: RouterId,
)
    requires
        forall|i: int|
            0 <= i < entries.len() ==> is_quiet(
                (#[trigger] entries[i]).0,
                entries[i].1,
                router,
            ),
    ensures
        x != router ==> gathered_at(entries, x).len() == 0,
        forall|i: int|
            0 <= i < gathered_at(entries, x).len() ==> (#[trigger] gathered_at(
                entries,
                x,
            )[i]).source() == x || gathered_at(entries, x)[i].router() == x,
    decreases entries.len(),
{
    if entries.len() > 0 {
        let init = entries.drop_last();
        assert forall|i: int| 0 <= i < init.len() implies is_quiet(
            (#[trigger] init[i]).0,
            init[i].1,
            router,
        ) by {
            assert(init[i] == entries[i]);
        }
        lemma_gathered(init, router, x);
        let e = entries[entries.len() - 1];
        assert(is_quiet(e.0, e.1, router));
        let (a, b) = (gathered_at(init, x), logged_at(x, e));
        assert forall|i: int| 0 <= i < (a + b).len() implies (#[trigger] (a + b)[i]).source() == x
            || (a + b)[i].router() == x by {
            if i < a.len() {
                assert((a + b)[i] == a[i]);
            } else {
                assert((a + b)[i] == b[i - a.len()]);
            }
        }
    }
}

/// If the queue is restricted to one router before anything is logged, then whatever it does on the
/// sessions that exist, the traces of all other routers stay empty, and the trace of the router holds
/// nothing but what it sends or receives.
pub proof fn law_restricted_traces(
    before: ReorderingQueue,
    router: RouterId,
    states: Seq<ReorderingQueue>,
    run: Seq<Act>,
    x: RouterId,
    trace: Seq<Event<Time>>,
)
    requires
        forall|k: Session| #[trigger]
            before.bgp_queues@.contains_key(k) ==> nothing_logged(before.bgp_queues@[k]),
        is_run(states, run),
        is_restricted(before, router, states[0]),
        states.last().wf(),
        is_trace(gathered_at(states.last().bgp_queues.entries@, x), trace),
    ensures
        x != router ==> trace.len() == 0,
        forall|i: int|
            0 <= i < trace.len() ==> (#[trigger] trace[i])@.source() == x || trace[i]@.router() == x,
{
    assert forall|k: Session| #[trigger]
        states[0].bgp_queues@.contains_key(k) implies is_quiet(
        k,
        states[0].bgp_queues@[k],
        router,
    ) by {
        assert(before.bgp_queues@.contains_key(k));
    }
    lemma_quiet(states, run, router, states.len() - 1);
    let entries = states.last().bgp_queues.entries@;
    assert forall|i: int| 0 <= i < entries.len() implies is_quiet(
        (#[trigger] entries[i]).0,
        entries[i].1,
        router,
    ) by {
        lemma_entry(entries, i);
        assert(states.last().bgp_queues@.contains_key(entries[i].0));
    }
    lemma_gathered(entries, router, x);
    let g = choose|g: Seq<Event<Time>>| #[trigger]
        is_sorting_of(g, trace) && event_views(g) == gathered_at(entries, x);
    let from = choose|from: Seq<int>| is_sorted_from(g, trace, from);
    assert(event_views(g).len() == g.len());
    assert forall|i: int| 0 <= i < trace.len() implies (#[trigger] trace[i])@.source() == x
        || trace[i]@.router() == x by {
        let j = from[i];
        assert(trace[i] == g[j]);
        assert(event_views(g)[j] == g[j]@);
    }
}

/// Two logs hold the same messages, but perhaps with other times. If the times are those of the
/// messages, then they are the same, too.
pub open spec fn same_log(a: Monitor, b: Monitor) -> bool {
    &&& b.use_msg_time == a.use_msg_time
    &&& a.log@.len() == b.log@.len()
    &&& forall|i: int| 0 <= i < a.log@.len() ==> (#[trigger] a.log@[i])@.e == b.log@[i]@.e
    &&& a.use_msg_time ==> views(a.log@) == views(b.log@)
}

/// Both log, or the router has nothing to do with it.
spec fn is_followed(k: Session, a: Wire, b: Wire, router: RouterId) -> bool {
    &&& k.0 == router ==> a.pre.enabled && b.pre.enabled && same_log(a.pre, b.pre)
    &&& k.1 == router ==> a.post.enabled && b.post.enabled && same_log(a.post, b.post)
}

/// Two monitors that note the same message still have the same log.
proof fn lemma_same_log(
    a: Monitor,
    c: Time,
    b: Monitor,
    d: Time,
    m: MessageView,
    a1: Monitor,
    c1: Time,
    b1: Monitor,
    d1: Time,
)
    requires
        a.enabled,
        b.enabled,
        same_log(a, b),
        Monitor::applied(a, c, m, Some(m), a1, c1),
        Monitor::applied(b, d, m, Some(m), b1, d1),
    ensures
        a1.enabled,
        b1.enabled,
        same_log(a1, b1),
{
    let n = a.log@.len() as int;
    assert(views(a1.log@).len() == n + 1 && views(b1.log@).len() == n + 1);
    assert forall|i: int| 0 <= i < a1.log@.len() implies (#[trigger] a1.log@[i])@.e
        == b1.log@[i]@.e by {
        assert(views(a1.log@)[i] == a1.log@[i]@);
        assert(views(b1.log@)[i] == b1.log@[i]@);
        if i < n {
            assert(views(a.log@)[i] == a.log@[i]@);
            assert(views(b.log@)[i] == b.log@[i]@);
            assert(a.log@[i]@.e == b.log@[i]@.e);
        }
    }
}

proof fn lemma_followed(
    states: Seq<ReorderingQueue>,
    others: Seq<ReorderingQueue>,
    run: Seq<Act>,
    passages: Seq<Passage>,
    router: RouterId,
    n: int,
)
    requires
        are_noted(states, run, passages),
        are_noted(others, run, passages),
        0 <= n < states.len(),
        states[0].bgp_queues@.dom() == others[0].bgp_queues@.dom(),
        forall|k: Session| #[trigger]
            states[0].bgp_queues@.contains_key(k) ==> is_followed(
                k,
                states[0].bgp_queues@[k].b.a,
                others[0].bgp_queues@[k].b.a,
                router,
            ),
    ensures
        states[n].bgp_queues@.dom() == others[n].bgp_queues@.dom(),
        states[n].bgp_queues@.dom() == states[0].bgp_queues@.dom(),
        forall|k: Session| #[trigger]
            states[n].bgp_queues@.contains_key(k) ==> is_followed(
                k,
                states[n].bgp_queues@[k].b.a,
                others[n].bgp_queues@[k].b.a,
                router,
            ),
    decreases n,
{
    if n > 0 {
        lemma_followed(states, others, run, passages, router, n - 1);
        let (act, p) = (run[n - 1], passages[n - 1]);
        let (a, a1) = (states[n - 1], states[n]);
        let (b, b1) = (others[n - 1], others[n]);
        assert(queue_notes(a, act, p, a1));
        assert(queue_notes(b, act, p, b1));
        assert(a1.bgp_queues@.dom() =~= a.bgp_queues@.dom()) by {
            lemma_acted_on_known(a, act, p, a1);
        }
        assert(b1.bgp_queues@.dom() =~= b.bgp_queues@.dom()) by {
            lemma_acted_on_known(b, act, p, b1);
        }
        assert forall|k: Session| #[trigger] a1.bgp_queues@.contains_key(k) implies is_followed(
            k,
            a1.bgp_queues@[k].b.a,
            b1.bgp_queues@[k].b.a,
            router,
        ) by {
            assert(a.bgp_queues@.contains_key(k));
            let (x, x1) = (a.bgp_queues@[k].b.a, a1.bgp_queues@[k].b.a);
            let (y, y1) = (b.bgp_queues@[k].b.a, b1.bgp_queues@[k].b.a);
            assert(is_followed(k, x, y, router));
            if x1.pre == x.pre && y1.pre == y.pre && x1.post == x.post && y1.post == y.post {
            } else {
                match p {
                    Passage::Sent(m) => if k.0 == router {
                        lemma_same_log(
                            x.pre,
                            a.clock,
                            y.pre,
                            b.clock,
                            m,
                            x1.pre,
                            a1.clock,
                            y1.pre,
                            b1.clock,
                        );
                    },
                    Passage::Received(m) => if k.1 == router {
                        lemma_same_log(
                            x.post,
                            a.clock,
                            y.post,
                            b.clock,
                            m,
                            x1.post,
                            a1.clock,
                            y1.post,
                            b1.clock,
                        );
                    },
                    Passage::Nothing => {},
                }
            }
        }
    }
}

/// What passes the monitors in each act of a run.
pub open spec fn are_noted(
    states: Seq<ReorderingQueue>,
    run: Seq<Act>,
    passages: Seq<Passage>,
) -> bool {
    &&& states.len() == run.len() + 1
    &&& passages.len() == run.len()
    &&& forall|i: int|
        0 <= i < run.len() ==> queue_notes(
            states[i],
            #[trigger] run[i],
            passages[i],
            states[i + 1],
        ) && is_about(states[i], run[i])
}

/// The session that the queue acts on exists.
pub open spec fn is_about(q: ReorderingQueue, act: Act) -> bool {
    match act {
        Act::Push(k, _) => q.bgp_queues@.contains_key(k),
        Act::Work(k, _) => q.bgp_queues@.contains_key(k),
        Act::Other => true,
    }
}

proof fn lemma_acted_on_known(a: ReorderingQueue, act: Act, p: Passage, b: ReorderingQueue)
    requires
        queue_notes(a, act, p, b),
        is_about(a, act),
    ensures
        b.bgp_queues@.dom() =~= a.bgp_queues@.dom(),
{
}

/// What a router sends and receives is logged in the same way with and without the restriction to it: in
/// two runs in which the same passes the monitors, one of a queue that was restricted and one of the
/// queue as it was, its sessions log the same messages in the same order. The times are the same if they
/// are those of the messages. Else they come from the clock, which goes on with every message that is
/// logged anywhere.
pub proof fn law_same_log_as_without_restriction(
    states: Seq<ReorderingQueue>,
    others: Seq<ReorderingQueue>,
    run: Seq<Act>,
    passages: Seq<Passage>,
    router: RouterId,
    k: Session,
)
    requires
        are_noted(states, run, passages),
        are_noted(others, run, passages),
        is_restricted(others[0], router, states[0]),
        forall|u: Session| #[trigger]
            others[0].bgp_queues@.contains_key(u) ==> nothing_logged(others[0].bgp_queues@[u])
                && others[0].bgp_queues@[u].b.a.pre.enabled
                && others[0].bgp_queues@[u].b.a.post.enabled,
        states.last().bgp_queues@.contains_key(k),
    ensures
        k.0 == router ==> same_log(
            states.last().bgp_queues@[k].b.a.pre,
            others.last().bgp_queues@[k].b.a.pre,
        ),
        k.1 == router ==> same_log(
            states.last().bgp_queues@[k].b.a.post,
            others.last().bgp_queues@[k].b.a.post,
        ),
{
    assert forall|u: Session| #[trigger]
        states[0].bgp_queues@.contains_key(u) implies is_followed(
        u,
        states[0].bgp_queues@[u].b.a,
        others[0].bgp_queues@[u].b.a,
        router,
    ) by {
        assert(others[0].bgp_queues@.contains_key(u));
        let (a, b) = (states[0].bgp_queues@[u].b.a, others[0].bgp_queues@[u].b.a);
        assert(views(a.pre.log@) =~= views(b.pre.log@));
        assert(views(a.post.log@) =~= views(b.post.log@));
    }
    lemma_followed(states, others, run, passages, router, states.len() - 1);
}

/// Two lists hold the same events, but perhaps with other times.
pub open spec fn same_events(a: Seq<EventView<Time>>, b: Seq<EventView<Time>>) -> bool {
    &&& a.len() == b.len()
    &&& forall|i: int| 0 <= i < a.len() ==> timeless(#[trigger] a[i]) == timeless(b[i])
}

/// If the sessions of a router log the same messages, then the same events are gathered for its trace.
pub proof fn law_same_logs_give_the_same_trace(
    a: Seq<(Session, ReorderingSessionQueue)>,
    b: Seq<(Session, ReorderingSessionQueue)>,
    router: RouterId,
)
    requires
        a.len() == b.len(),
        forall|i: int|
            0 <= i < a.len() ==> {
                let (k, x, y) = ((#[trigger] a[i]).0, a[i].1.b.a, b[i].1.b.a);
                &&& b[i].0 == k
                &&& k.0 == router ==> same_log(x.pre, y.pre)
                &&& k.1 == router ==> same_log(x.post, y.post)
            },
    ensures
        same_events(gathered_at(a, router), gathered_at(b, router)),
    decreases a.len(),
{
    if a.len() > 0 {
        let (s, t) = (a.drop_last(), b.drop_last());
        assert forall|i: int| 0 <= i < s.len() implies {
            let (k, x, y) = ((#[trigger] s[i]).0, s[i].1.b.a, t[i].1.b.a);
            &&& t[i].0 == k
            &&& k.0 == router ==> same_log(x.pre, y.pre)
            &&& k.1 == router ==> same_log(x.post, y.post)
        } by {
            assert(s[i] == a[i] && t[i] == b[i]);
        }
        law_same_logs_give_the_same_trace(s, t, router);
        let (e, f) = (a[a.len() - 1], b[b.len() - 1]);
        assert(f.0 == e.0);
        if e.0.0 == router {
            lemma_same_events(e.1.b.a.pre, f.1.b.a.pre, e.0);
        }
        if e.0.1 == router {
            lemma_same_events(e.1.b.a.post, f.1.b.a.post, e.0);
        }
        let (u, v) = (gathered_at(s, router), gathered_at(t, router));
        lemma_same_events_added(u, logged_at(router, e), v, logged_at(router, f));
    }
}

proof fn lemma_same_events(a: Monitor, b: Monitor, k: Session)
    requires
        same_log(a, b),
    ensures
        same_events(on_session(views(a.log@), k), on_session(views(b.log@), k)),
{
    let (x, y) = (on_session(views(a.log@), k), on_session(views(b.log@), k));
    assert forall|i: int| 0 <= i < x.len() implies timeless(#[trigger] x[i]) == timeless(y[i]) by {
        assert(views(a.log@)[i] == a.log@[i]@);
        assert(views(b.log@)[i] == b.log@[i]@);
    }
}

proof fn lemma_same_events_added(
    a: Seq<EventView<Time>>,
    a1: Seq<EventView<Time>>,
    b: Seq<EventView<Time>>,
    b1: Seq<EventView<Time>>,
)
    requires
        same_events(a, b),
        same_events(a1, b1),
    ensures
        same_events(a + a1, b + b1),
{
    assert forall|i: int| 0 <= i < (a + a1).len() implies timeless(#[trigger] (a + a1)[i])
        == timeless((b + b1)[i]) by {
        if i < a.len() {
            assert((a + a1)[i] == a[i] && (b + b1)[i] == b[i]);
        } else {
            assert((a + a1)[i] == a1[i - a.len()] && (b + b1)[i] == b1[i - a.len()]);
        }
    }
}

/// The sessions are listed in the same order.
pub open spec fn same_order(a: ReorderingQueue, b: ReorderingQueue) -> bool {
    &&& a.bgp_queues.entries@.len() == b.bgp_queues.entries@.len()
    &&& forall|i: int|
        0 <= i < a.bgp_queues.entries@.len() ==> (#[trigger] a.bgp_queues.entries@[i]).0
            == b.bgp_queues.entries@[i].0
}

/// The queue does as it does in `states`, but with what its sessions log.
pub open spec fn are_same_queues(
    states: Seq<ReorderingQueue>,
    others: Seq<ReorderingQueue>,
) -> bool {
    &&& states.len() == others.len()
    &&& forall|i: int| 0 <= i < states.len() ==> same_queue(states[i], #[trigger] others[i])
}

/// To restrict the logging to one router, before anything is logged, has this effect, whatever the queue
/// does on the sessions that exist. The traces of all other routers stay empty. The trace of the router
/// holds nothing but what it sends or receives. The queue that is not restricted can do the same, with the
/// same results, so that the same messages are delivered; and if it does, then the same events are
/// gathered for the trace of the router, but perhaps with other times.
pub proof fn law_restricting_the_monitoring(
    before: ReorderingQueue,
    router: RouterId,
    states: Seq<ReorderingQueue>,
    run: Seq<Act>,
    traces: Map<RouterId, Seq<Event<Time>>>,
) -> (passages: Seq<Passage>)
    requires
        forall|k: Session| #[trigger]
            before.bgp_queues@.contains_key(k) ==> nothing_logged(before.bgp_queues@[k])
                && before.bgp_queues@[k].b.a.pre.enabled && before.bgp_queues@[k].b.a.post.enabled,
        is_restricted(before, router, states[0]),
        is_run(states, run),
        states.last().wf(),
        forall|x: RouterId| #[trigger]
            traces.contains_key(x) ==> is_trace(
                gathered_at(states.last().bgp_queues.entries@, x),
                traces[x],
            ),
    ensures
        forall|x: RouterId| #[trigger]
            traces.contains_key(x) && x != router ==> traces[x].len() == 0,
        traces.contains_key(router) ==> forall|i: int|
            0 <= i < traces[router].len() ==> (#[trigger] traces[router][i])@.source() == router
                || traces[router][i]@.router() == router,
        are_noted(states, run, passages),
        forall|others: Seq<ReorderingQueue>|
            others[0] == before && are_same_queues(states, others) && #[trigger] are_noted(
                others,
                run,
                passages,
            ) ==> is_run(others, run) && (others.last().wf() && same_order(
                states.last(),
                others.last(),
            ) ==> same_events(
                gathered_at(states.last().bgp_queues.entries@, router),
                gathered_at(others.last().bgp_queues.entries@, router),
            )),
{
    assert forall|x: RouterId| #[trigger] traces.contains_key(x) implies (x != router
        ==> traces[x].len() == 0) && forall|i: int|
        0 <= i < traces[x].len() ==> (#[trigger] traces[x][i])@.source() == x
            || traces[x][i]@.router() == x by {
        law_restricted_traces(before, router, states, run, x, traces[x]);
    }
    let passages = lemma_passages(states, run, run.len() as int);
    assert(are_noted(states, run, passages));
    assert forall|others: Seq<ReorderingQueue>|
        others[0] == before && are_same_queues(states, others) && #[trigger] are_noted(
            others,
            run,
            passages,
        ) implies is_run(others, run) && (others.last().wf() && same_order(
        states.last(),
        others.last(),
    ) ==> same_events(
        gathered_at(states.last().bgp_queues.entries@, router),
        gathered_at(others.last().bgp_queues.entries@, router),
    )) by {
        assert forall|i: int| 0 <= i < run.len() implies acts(
            others[i],
            #[trigger] run[i],
            others[i + 1],
        ) by {
            assert(may_be_copied(states[i], run[i], passages[i], states[i + 1]));
            assert(same_queue(states[i], others[i]));
            assert(same_queue(states[i + 1], others[i + 1]));
            assert(queue_notes(others[i], run[i], passages[i], others[i + 1]));
        }
        if others.last().wf() && same_order(states.last(), others.last()) {
            lemma_same_gathered(states, others, run, passages, router);
        }
    }
    passages
}

/// The queue can do the same with other monitors.
spec fn may_be_copied(
    before: ReorderingQueue,
    act: Act,
    p: Passage,
    after: ReorderingQueue,
) -> bool {
    forall|b0: ReorderingQueue, b1: ReorderingQueue|
        same_queue(before, b0) && same_queue(after, b1) && #[trigger] queue_notes(b0, act, p, b1)
            ==> acts(b0, act, b1)
}

/// What passes the monitors in the first `n` acts of a run.
proof fn lemma_passages(states: Seq<ReorderingQueue>, run: Seq<Act>, n: int) -> (passages: Seq<
    Passage,
>)
    requires
        is_run(states, run),
        0 <= n <= run.len(),
    ensures
        passages.len() == n,
        forall|i: int|
            0 <= i < n ==> queue_notes(
                states[i],
                #[trigger] run[i],
                passages[i],
                states[i + 1],
            ) && is_about(states[i], run[i]) && may_be_copied(
                states[i],
                run[i],
                passages[i],
                states[i + 1],
            ),
    decreases n,
{
    if n == 0 {
        seq![]
    } else {
        let init = lemma_passages(states, run, n - 1);
        let k = n - 1;
        assert(acts(states[k], run[k], states[k + 1]));
        let p = law_logging_changes_nothing_else(states[k], run[k], states[k + 1]);
        assert(may_be_copied(states[k], run[k], p, states[k + 1]));
        let passages = init.push(p);
        assert forall|i: int| 0 <= i < n implies queue_notes(
            states[i],
            #[trigger] run[i],
            passages[i],
            states[i + 1],
        ) && is_about(states[i], run[i]) && may_be_copied(
            states[i],
            run[i],
            passages[i],
            states[i + 1],
        ) by {
            if i < n - 1 {
                assert(passages[i] == init[i]);
            }
        }
        passages
    }
}

proof fn lemma_same_gathered(
    states: Seq<ReorderingQueue>,
    others: Seq<ReorderingQueue>,
    run: Seq<Act>,
    passages: Seq<Passage>,
    router: RouterId,
)
    requires
        are_noted(states, run, passages),
        are_noted(others, run, passages),
        is_restricted(others[0], router, states[0]),
        forall|u: Session| #[trigger]
            others[0].bgp_queues@.contains_key(u) ==> nothing_logged(others[0].bgp_queues@[u])
                && others[0].bgp_queues@[u].b.a.pre.enabled
                && others[0].bgp_queues@[u].b.a.post.enabled,
        states.last().wf(),
        others.last().wf(),
        same_order(states.last(), others.last()),
    ensures
        same_events(
            gathered_at(states.last().bgp_queues.entries@, router),
            gathered_at(others.last().bgp_queues.entries@, router),
        ),
{
    let (a, b) = (states.last().bgp_queues.entries@, others.last().bgp_queues.entries@);
    assert forall|i: int| 0 <= i < a.len() implies {
        let (k, x, y) = ((#[trigger] a[i]).0, a[i].1.b.a, b[i].1.b.a);
        &&& b[i].0 == k
        &&& k.0 == router ==> same_log(x.pre, y.pre)
        &&& k.1 == router ==> same_log(x.post, y.post)
    } by {
        lemma_entry(a, i);
        lemma_entry(b, i);
        law_same_log_as_without_restriction(states, others, run, passages, router, a[i].0);
    }
    law_same_logs_give_the_same_trace(a, b, router);
}

} // verus!
