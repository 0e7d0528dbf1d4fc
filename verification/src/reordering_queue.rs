//! The queue that delivers the messages of a network in a random order, which each session keeps.
use std::collections::VecDeque;
use vstd::multiset::Multiset;
use vstd::prelude::*;

use crate::bgp::{BgpEvent, Event, EventView, RouterId, Time};
use crate::dispatch_queue::{all_cleared, all_wf, are_all_empty, clear_all, count_messages};
use crate::dispatch_queue::{event_views, total_size};
use crate::dispatch_queue::{lemma_total_work_update, total_work, QueueInit, Session};
use crate::geo_distances::Routing;
use crate::keyed::{as_map, lemma_entry, lemma_push};
use crate::keyed::lemma_same_keys_update;
use crate::pairs::Pairs;
use crate::session_queue::{Message, MessageView, Poll, PollView, SessionQueue};

verus! {

/// A queue for each session. The session with the earliest time works next.
pub struct ScramblingQueue<SQ, F> {
    pub queue_init: F,
    pub bgp_queues: Pairs<SQ>,
    /// The times of the sessions that have work to do.
    pub bgp_queue_heap: Heap,
    /// Messages other than those of BGP. They go first.
    pub base_queue: VecDeque<Event<()>>,
    pub current_time: Time,
    /// Stamps what the sessions log.
    pub clock: Time,
}

/// The sessions are ordered by their ends.
pub open spec fn session_before(a: Session, b: Session) -> bool {
    a.0 < b.0 || (a.0 == b.0 && a.1 < b.1)
}

/// A session that waits for its turn, and its time.
pub type Waiting = (Session, Time);

/// Entry `a` goes before entry `b`: it is earlier, or at the same time but with larger ends.
pub open spec fn works_before(a: Waiting, b: Waiting) -> bool {
    a.1 < b.1 || (a.1 == b.1 && session_before(b.0, a.0))
}

/// The entry that goes next: it is there, and no other one goes before it.
pub open spec fn is_next(heap: Multiset<Waiting>, w: Waiting) -> bool {
    &&& heap.contains(w)
    &&& forall|u: Waiting| #[trigger] heap.contains(u) ==> !works_before(u, w)
}

/// A session waits for its turn.
pub open spec fn waits(heap: Multiset<Waiting>, k: Session) -> bool {
    exists|t: Time| heap.contains((k, t))
}

/// The sessions that wait for their turn. One can be there several times.
#[derive(Debug)]
pub struct Heap {
    pub entries: Vec<Waiting>,
}

impl View for Heap {
    type V = Multiset<Waiting>;

    open spec fn view(&self) -> Multiset<Waiting> {
        self.entries@.to_multiset()
    }
}

impl Heap {
    pub fn new() -> (r: Self)
        ensures
            r@ == Multiset::<Waiting>::empty(),
            r.entries@.len() == 0,
    {
        let r = Heap { entries: Vec::new() };
        proof {
            broadcast use vstd::seq_lib::group_to_multiset_ensures;

            vstd::seq_lib::to_multiset_len(r.entries@);
            assert(r@ =~= Multiset::<Waiting>::empty());
        }
        r
    }

    pub fn push(&mut self, session: Session, time: Time)
        ensures
            final(self)@ == old(self)@.insert((session, time)),
            final(self).entries@.len() == old(self).entries@.len() + 1,
    {
        self.entries.push((session, time));
        proof {
            vstd::seq_lib::to_multiset_build(old(self).entries@, (session, time));
        }
    }

    /// Take the entry that goes next.
    pub fn pop(&mut self) -> (r: Option<Waiting>)
        ensures
            match r {
                Some(w) => is_next(old(self)@, w) && final(self)@ == old(self)@.remove(w)
                    && final(self).entries@.len() + 1 == old(self).entries@.len(),
                None => old(self)@ == Multiset::<Waiting>::empty() && *final(self) == *old(self),
            },
    {
        let ghost s = self.entries@;
        if self.entries.len() == 0 {
            proof {
                broadcast use vstd::seq_lib::group_to_multiset_ensures;

                vstd::seq_lib::to_multiset_len(s);
                assert(self@ =~= Multiset::<Waiting>::empty());
            }
            return None;
        }
        let mut best: usize = 0;
        for i in 1..self.entries.len()
            invariant
                s == self.entries@,
                best < i,
                i <= s.len(),
                forall|j: int| 0 <= j < i ==> !works_before(#[trigger] s[j], s[best as int]),
        {
            let (k, t) = self.entries[i];
            let (l, u) = self.entries[best];
            if t < u || (t == u && (l.0 < k.0 || (l.0 == k.0 && l.1 < k.1))) {
                best = i;
            }
        }
        let w: Waiting = self.entries.remove(best);
        proof {
            vstd::seq_lib::to_multiset_remove(s, best as int);
            assert(s[best as int] == w);
            assert(s.contains(w));
            vstd::seq_lib::to_multiset_contains(s, w);
            assert forall|u: Waiting| #[trigger] old(self)@.contains(u) implies !works_before(u, w) by {
                vstd::seq_lib::to_multiset_contains(s, u);
                let j = s.index_of(u);
                assert(s[j] == u);
            }
        }
        Some(w)
    }

    pub fn clear(&mut self)
        ensures
            final(self)@ == Multiset::<Waiting>::empty(),
    {
        *self = Heap::new();
    }
}

/// A session queue while a message is pushed into it.
pub struct Loading<SQ> {
    /// The queue of the session, perhaps a new one.
    pub start: SQ,
    pub old_t: Option<Time>,
    /// The queue after it was asked for `old_t`.
    pub asked: SQ,
    /// The queue with the message.
    pub loaded: SQ,
    pub new_t: Option<Time>,
    /// The queue after it was asked for `new_t`, if it was empty before.
    pub done: SQ,
}

/// A session queue while it works.
pub struct Working<SQ> {
    pub result: PollView,
    /// The queue after its work.
    pub worked: SQ,
    pub next_t: Option<Time>,
    /// The queue after it was asked for `next_t`.
    pub done: SQ,
}

impl<SQ: SessionQueue, F: QueueInit<SQ>> ScramblingQueue<SQ, F> {
    /// All sessions wait for their turn that have work to do.
    pub open spec fn wf(&self) -> bool {
        &&& self.queue_init.wf()
        &&& self.bgp_queues.wf()
        &&& all_wf(self.bgp_queues.entries@)
        &&& forall|k: Session, t: Time| #[trigger]
            self.bgp_queue_heap@.contains((k, t)) ==> self.bgp_queues@.contains_key(k)
        &&& forall|k: Session| #[trigger]
            self.bgp_queues@.contains_key(k) && self.bgp_queues@[k].work() > 0 ==> waits(self.bgp_queue_heap@, k)
    }

    /// There are no messages.
    pub open spec fn is_idle(&self) -> bool {
        &&& self.base_queue@.len() == 0
        &&& forall|k: Session| #[trigger]
            self.bgp_queues@.contains_key(k) ==> self.bgp_queues@[k].work() == 0
    }

    /// The queue of a session, if there is one, or else a new one.
    pub open spec fn opened(before: Self, k: Session, start: SQ, after: Self) -> bool {
        if before.bgp_queues@.contains_key(k) {
            start == before.bgp_queues@[k] && after.queue_init == before.queue_init
        } else {
            F::initial(before.queue_init, k.0, k.1, start, after.queue_init)
        }
    }

    /// A BGP message is pushed into the queue of its session.
    pub open spec fn bgp_pushed(
        before: Self,
        k: Session,
        msg: MessageView,
        steps: Loading<SQ>,
        after: Self,
    ) -> bool {
        &&& Self::opened(before, k, steps.start, after)
        &&& SQ::timed(steps.start, steps.old_t, steps.asked)
        &&& SQ::pushed(steps.asked, before.clock, msg, steps.loaded, after.clock)
        &&& if steps.old_t is None {
            SQ::timed(steps.loaded, steps.new_t, steps.done)
        } else {
            steps.done == steps.loaded
        }
        &&& after.bgp_queues@ == before.bgp_queues@.insert(k, steps.done)
        &&& after.bgp_queue_heap@ == if steps.old_t is None && steps.new_t is Some {
            before.bgp_queue_heap@.insert((k, steps.new_t->0))
        } else {
            before.bgp_queue_heap@
        }
        &&& after.base_queue == before.base_queue
        &&& after.current_time == before.current_time
    }

    /// The session that is next works.
    pub open spec fn stepped(before: Self, w: Waiting, steps: Working<SQ>, after: Self) -> bool {
        let k = w.0;
        &&& is_next(before.bgp_queue_heap@, w)
        &&& SQ::polled(
            before.bgp_queues@[k],
            before.clock,
            steps.result,
            steps.worked,
            after.clock,
        )
        &&& SQ::timed(steps.worked, steps.next_t, steps.done)
        &&& after.bgp_queues@ == before.bgp_queues@.insert(k, steps.done)
        &&& after.bgp_queue_heap@ == match steps.next_t {
            Some(t) => before.bgp_queue_heap@.remove(w).insert((k, t)),
            None => before.bgp_queue_heap@.remove(w),
        }
        &&& after.current_time == match steps.result.time() {
            Some(t) => t,
            None => before.current_time,
        }
        &&& after.base_queue == before.base_queue
        &&& after.queue_init == before.queue_init
    }

    /// The next session works, and that gives no message.
    pub open spec fn silent(before: Self, after: Self) -> bool {
        exists|w: Waiting, steps: Working<SQ>| #[trigger]
            Self::stepped(before, w, steps, after) && !(steps.result is Msg)
    }

    /// The next session works, and that gives a message.
    pub open spec fn yields(before: Self, k: Session, msg: MessageView, after: Self) -> bool {
        exists|w: Waiting, steps: Working<SQ>| #[trigger]
            Self::stepped(before, w, steps, after) && w.0 == k && steps.result == PollView::Msg(msg)
    }

    /// A list of states that lead from one to the next by work that gives no message.
    pub open spec fn trail(states: Seq<Self>) -> bool {
        &&& states.len() > 0
        &&& forall|i: int|
            0 <= i < states.len() - 1 ==> Self::silent(#[trigger] states[i], states[i + 1])
    }

    pub fn new(queue_init: F) -> (r: Self)
        requires
            queue_init.wf(),
        ensures
            r.wf(),
            r.is_idle(),
            r.queue_init == queue_init,
            r.bgp_queues@ == Map::<Session, SQ>::empty(),
            r.base_queue@ == Seq::<Event<()>>::empty(),
            r.current_time == 0,
            r.clock == 0,
    {
        ScramblingQueue {
            queue_init,
            bgp_queues: Pairs::new(),
            bgp_queue_heap: Heap::new(),
            base_queue: VecDeque::new(),
            current_time: 0,
            clock: 0,
        }
    }

    /// The position of the queue of a session, which is created if there is none.
    pub fn open_session(&mut self, src: RouterId, dst: RouterId) -> (i: usize)
        requires
            old(self).wf(),
        ensures
            final(self).wf(),
            i < final(self).bgp_queues.entries@.len(),
            final(self).bgp_queues.entries@[i as int].0 == (src, dst),
            Self::opened(
                *old(self),
                (src, dst),
                final(self).bgp_queues.entries@[i as int].1,
                *final(self),
            ),
            final(self).bgp_queues@ == old(self).bgp_queues@.insert(
                (src, dst),
                final(self).bgp_queues.entries@[i as int].1,
            ),
            final(self).bgp_queue_heap == old(self).bgp_queue_heap,
            final(self).base_queue == old(self).base_queue,
            final(self).current_time == old(self).current_time,
            final(self).clock == old(self).clock,
    {
        match self.bgp_queues.find((src, dst)) {
            Some(i) => {
                assert(self.bgp_queues@ =~= self.bgp_queues@.insert(
                    (src, dst),
                    self.bgp_queues.entries@[i as int].1,
                ));
                i
            },
            None => {
                let q = self.queue_init.init(src, dst);
                let ghost k: Session = (src, dst);
                let ghost queues = self.bgp_queues@;
                proof {
                    lemma_push(self.bgp_queues.entries@, k, q);
                }
                self.bgp_queues.entries.push(((src, dst), q));
                proof {
                    assert forall|u: Session| #[trigger]
                        self.bgp_queues@.contains_key(u) && self.bgp_queues@[u].work()
                            > 0 implies waits(self.bgp_queue_heap@, u) by {
                        assert(queues.contains_key(u));
                        let t = choose|t: Time| old(self).bgp_queue_heap@.contains((u, t));
                        assert(self.bgp_queue_heap@.contains((u, t)));
                    }
                }
                self.bgp_queues.entries.len() - 1
            },
        }
    }

    /// Borrow the queue of a session, which is created if there is none.
    pub fn session_queue(&mut self, src: RouterId, dst: RouterId) -> (r: &mut SQ)
        requires
            old(self).wf(),
        ensures
            r.wf(),
            Self::opened(*old(self), (src, dst), *r, *final(self)),
            final(self).bgp_queues.wf(),
            final(self).bgp_queues@ == old(self).bgp_queues@.insert((src, dst), *final(r)),
            final(self).bgp_queue_heap == old(self).bgp_queue_heap,
            final(self).base_queue == old(self).base_queue,
            final(self).current_time == old(self).current_time,
            final(self).clock == old(self).clock,
    {
        let i: usize = self.open_session(src, dst);
        proof {
            let entries = self.bgp_queues.entries@;
            assert forall|q: SQ| #[trigger]
                entries.update(i as int, ((src, dst), q)) == entries.update(
                    i as int,
                    (entries[i as int].0, q),
                ) && crate::keyed::unique_keys(entries.update(i as int, ((src, dst), q)))
                    && as_map(entries.update(i as int, ((src, dst), q))) == old(
                    self,
                ).bgp_queues@.insert((src, dst), q) by {
                lemma_same_keys_update(entries, i as int, q);
                assert(as_map(entries).insert((src, dst), q) =~= old(self).bgp_queues@.insert(
                    (src, dst),
                    q,
                ));
            }
        }
        &mut self.bgp_queues.entries[i].1
    }

    /// Enqueue an event.
    pub fn push(&mut self, event: Event<()>)
        requires
            old(self).wf(),
        ensures
            final(self).wf(),
            event@ is Bgp ==> exists|steps: Loading<SQ>| #[trigger]
                Self::bgp_pushed(
                    *old(self),
                    (event@.source(), event@.router()),
                    MessageView { e: event@->e, t: old(self).current_time },
                    steps,
                    *final(self),
                ),
            event@ is Ospf ==> {
                &&& event_views(final(self).base_queue@) == event_views(old(self).base_queue@).push(
                    event@,
                )
                &&& final(self).bgp_queues == old(self).bgp_queues
                &&& final(self).bgp_queue_heap == old(self).bgp_queue_heap
                &&& final(self).queue_init == old(self).queue_init
                &&& final(self).current_time == old(self).current_time
                &&& final(self).clock == old(self).clock
            },
    {
        match event {
            Event::Bgp { src, dst, e, .. } => {
                self.push_bgp(src, dst, e);
                proof {
                    let msg = MessageView { e: e@, t: old(self).current_time };
                    let steps = choose|steps: Loading<SQ>| #[trigger]
                        Self::bgp_pushed(*old(self), (src, dst), msg, steps, *self);
                    assert(Self::bgp_pushed(*old(self), (src, dst), msg, steps, *self));
                    assert(event@.source() == src && event@.router() == dst);
                    assert(msg == MessageView { e: event@->e, t: old(self).current_time });
                    assert(Self::bgp_pushed(
                        *old(self),
                        (event@.source(), event@.router()),
                        MessageView { e: event@->e, t: old(self).current_time },
                        steps,
                        *self,
                    ));
                }
            },
            Event::Ospf { .. } => {
                self.base_queue.push_back(event);
                assert(event_views(self.base_queue@) =~= event_views(old(self).base_queue@).push(
                    event@,
                ));
            },
        }
    }

    fn push_bgp(&mut self, src: RouterId, dst: RouterId, e: BgpEvent)
        requires
            old(self).wf(),
        ensures
            final(self).wf(),
            exists|steps: Loading<SQ>| #[trigger]
                Self::bgp_pushed(
                    *old(self),
                    (src, dst),
                    MessageView { e: e@, t: old(self).current_time },
                    steps,
                    *final(self),
                ),
    {
        let ghost k: Session = (src, dst);
        let i: usize = self.open_session(src, dst);
        let ghost entries = self.bgp_queues.entries@;
        let ghost start = entries[i as int].1;
        proof {
            lemma_entry(entries, i as int);
        }
        let old_t = self.bgp_queues.entries[i].1.next_t();
        let ghost asked = self.bgp_queues.entries@[i as int].1;
        let msg = Message { e, t: self.current_time };
        self.bgp_queues.entries[i].1.push(msg, &mut self.clock);
        let ghost loaded = self.bgp_queues.entries@[i as int].1;
        let mut new_t: Option<Time> = None;
        if old_t.is_none() {
            new_t = self.bgp_queues.entries[i].1.next_t();
            match new_t {
                Some(t) => self.bgp_queue_heap.push((src, dst), t),
                None => {},
            }
        }
        let ghost done = self.bgp_queues.entries@[i as int].1;
        proof {
            let after = self.bgp_queues.entries@;
            assert(after =~= entries.update(i as int, (k, done)));
            lemma_same_keys_update(entries, i as int, done);
            assert(self.bgp_queues@ =~= old(self).bgp_queues@.insert(k, done));
            let steps = Loading { start, old_t, asked, loaded, new_t, done };
            assert(Self::bgp_pushed(
                *old(self),
                k,
                MessageView { e: e@, t: old(self).current_time },
                steps,
                *self,
            ));
            assert forall|u: Session, t: Time| #[trigger]
                self.bgp_queue_heap@.contains((u, t)) implies self.bgp_queues@.contains_key(
                u,
            ) by {
                if u != k {
                    assert(old(self).bgp_queue_heap@.contains((u, t)));
                }
            }
            assert forall|u: Session| #[trigger]
                self.bgp_queues@.contains_key(u) && self.bgp_queues@[u].work()
                    > 0 implies waits(self.bgp_queue_heap@, u) by {
                if u == k && old_t is None {
                    assert(self.bgp_queue_heap@.contains((k, new_t->0)));
                } else {
                    assert(old(self).bgp_queues@.contains_key(u) && old(
                        self,
                    ).bgp_queues@[u].work() > 0);
                    let t = choose|t: Time| old(self).bgp_queue_heap@.contains((u, t));
                    assert(self.bgp_queue_heap@.contains((u, t)));
                }
            }
        }
    }

    /// Let the session work that is next.
    fn step(&mut self) -> (r: Option<(Session, Poll)>)
        requires
            old(self).wf(),
        ensures
            final(self).wf(),
            match r {
                Some((k, poll)) => {
                    &&& exists|w: Waiting, steps: Working<SQ>| #[trigger]
                        Self::stepped(*old(self), w, steps, *final(self)) && w.0 == k
                            && steps.result == poll@
                    &&& total_work(final(self).bgp_queues.entries@) < total_work(
                        old(self).bgp_queues.entries@,
                    ) || (total_work(final(self).bgp_queues.entries@) == total_work(
                        old(self).bgp_queues.entries@,
                    ) && final(self).bgp_queue_heap.entries@.len() < old(
                        self,
                    ).bgp_queue_heap.entries@.len())
                    &&& poll is Empty ==> old(self).bgp_queues@[k].work() == 0
                },
                None => *final(self) == *old(self) && forall|k: Session| #[trigger]
                    old(self).bgp_queues@.contains_key(k) ==> old(self).bgp_queues@[k].work() == 0,
            },
    {
        let ghost before = *self;
        let ghost heap = self.bgp_queue_heap@;
        let (session, time) = match self.bgp_queue_heap.pop() {
            Some(w) => w,
            None => {
                proof {
                    assert forall|k: Session| #[trigger] before.bgp_queues@.contains_key(k) implies
                        before.bgp_queues@[k].work() == 0 by {
                        if before.bgp_queues@[k].work() > 0 {
                            let t = choose|t: Time| heap.contains((k, t));
                            assert(heap.contains((k, t)));
                        }
                    }
                }
                return None;
            },
        };
        let ghost w: Waiting = (session, time);
        let i: usize = match self.bgp_queues.find(session) {
            Some(i) => i,
            None => {
                assert(heap.contains(w));
                assert(false);
                return None;
            },
        };
        let ghost entries = self.bgp_queues.entries@;
        let r = self.bgp_queues.entries[i].1.poll(&mut self.clock);
        let ghost worked = self.bgp_queues.entries@[i as int].1;
        let next_t = self.bgp_queues.entries[i].1.next_t();
        let ghost done = self.bgp_queues.entries@[i as int].1;
        proof {
            assert(self.bgp_queues.entries@ =~= entries.update(i as int, (session, done)));
            lemma_same_keys_update(entries, i as int, done);
            lemma_total_work_update(entries, i as int, (session, done));
        }
        match next_t {
            Some(t) => self.bgp_queue_heap.push(session, t),
            None => {},
        }
        match &r {
            Poll::Msg(m) => {
                self.current_time = m.t;
            },
            Poll::NotReadyYet(t) => {
                self.current_time = *t;
            },
            Poll::Empty => {},
        }
        proof {
            let steps = Working { result: r@, worked, next_t, done };
            assert(Self::stepped(before, w, steps, *self));
            assert forall|u: Session, t: Time| #[trigger]
                self.bgp_queue_heap@.contains((u, t)) implies self.bgp_queues@.contains_key(u) by {
                if u != session {
                    assert(heap.contains((u, t)));
                }
            }
            assert forall|u: Session| #[trigger]
                self.bgp_queues@.contains_key(u) && self.bgp_queues@[u].work()
                    > 0 implies waits(self.bgp_queue_heap@, u) by {
                if u == session {
                    assert(self.bgp_queue_heap@.contains((u, next_t->0)));
                } else {
                    assert(before.bgp_queues@.contains_key(u));
                    let t = choose|t: Time| heap.contains((u, t));
                    assert(heap.contains((u, t)));
                    assert(self.bgp_queue_heap@.contains((u, t)));
                }
            }
        }
        Some((session, r))
    }

    /// Dequeue the next event.
    pub fn pop(&mut self) -> (r: Option<Event<()>>)
        requires
            old(self).wf(),
        ensures
            final(self).wf(),
            if old(self).base_queue@.len() > 0 {
                &&& r matches Some(e) && e@ == old(self).base_queue@[0]@
                &&& final(self).base_queue@ == old(self).base_queue@.skip(1)
                &&& final(self).bgp_queues == old(self).bgp_queues
                &&& final(self).bgp_queue_heap == old(self).bgp_queue_heap
                &&& final(self).queue_init == old(self).queue_init
                &&& final(self).current_time == old(self).current_time
                &&& final(self).clock == old(self).clock
            } else {
                exists|states: Seq<Self>| #[trigger]
                    Self::trail(states) && states[0] == *old(self) && match r {
                        Some(e) => exists|k: Session, msg: MessageView| #[trigger]
                            Self::yields(states.last(), k, msg, *final(self)) && e@
                                == EventView::<()>::Bgp { p: (), src: k.0, dst: k.1, e: msg.e },
                        None => states.last() == *final(self) && final(self).is_idle(),
                    }
            },
    {
        if self.base_queue.len() > 0 {
            let r = self.base_queue.pop_front();
            assert(self.base_queue@ =~= old(self).base_queue@.skip(1));
            return r;
        }
        let ghost mut states: Seq<Self> = seq![*self];
        loop
            invariant
                self.wf(),
                Self::trail(states),
                states[0] == *old(self),
                states.last() == *self,
                old(self).base_queue@.len() == 0,
                self.base_queue@.len() == 0,
            decreases
                    total_work(self.bgp_queues.entries@),
                    self.bgp_queue_heap.entries@.len(),
        {
            let ghost before = *self;
            match self.step() {
                Some((session, poll)) => {
                    match poll {
                        Poll::Msg(message) => {
                            assert(Self::yields(before, session, message@, *self));
                            return Some(
                                Event::Bgp { p: (), src: session.0, dst: session.1, e: message.e },
                            );
                        },
                        _ => {},
                    }
                    proof {
                        assert(Self::silent(before, *self));
                        let prev = states;
                        states = states.push(*self);
                        assert forall|i: int| 0 <= i < states.len() - 1 implies Self::silent(
                            #[trigger] states[i],
                            states[i + 1],
                        ) by {
                            if i < prev.len() - 1 {
                                assert(Self::silent(prev[i], prev[i + 1]));
                            }
                        }
                    }
                },
                None => {
                    return None;
                },
            }
        }
    }

    /// The number of messages that are left.
    pub open spec fn num_messages(&self) -> nat {
        self.base_queue@.len() + total_size(self.bgp_queues.entries@)
    }

    /// What comes of one piece of work.
    pub open spec fn polls(before: Self, r: Option<Option<Event<Time>>>, after: Self) -> bool {
        if before.base_queue@.len() > 0 {
            &&& r matches Some(Some(e)) && e@ == restamped(
                before.base_queue@[0]@,
                before.current_time,
            )
            &&& after.base_queue@ == before.base_queue@.skip(1)
            &&& after.bgp_queues == before.bgp_queues
            &&& after.bgp_queue_heap == before.bgp_queue_heap
            &&& after.queue_init == before.queue_init
            &&& after.current_time == before.current_time
            &&& after.clock == before.clock
        } else {
            match r {
                Some(Some(e)) => exists|k: Session, msg: MessageView| #[trigger]
                    Self::yields(before, k, msg, after) && e@ == msg.on(k.0, k.1),
                Some(None) => after.num_messages() > 0 && exists|w: Waiting, steps: Working<SQ>|
                    #[trigger]
                    Self::stepped(before, w, steps, after)
                        && steps.result is NotReadyYet,
                None => {
                    ||| after == before && before.is_idle()
                    ||| exists|w: Waiting, steps: Working<SQ>| #[trigger]
                        Self::stepped(before, w, steps, after)
                            && (steps.result is Empty || steps.result is NotReadyYet
                            && after.num_messages() == 0)
                },
            }
        }
    }

    /// Do one piece of work. `Some(None)` if there are still messages left, but that gave no event yet.
    pub fn poll(&mut self) -> (r: Option<Option<Event<Time>>>)
        requires
            old(self).wf(),
        ensures
            final(self).wf(),
            Self::polls(*old(self), r, *final(self)),
    {
        if self.base_queue.len() > 0 {
            match self.base_queue.pop_front() {
                Some(e) => {
                    assert(self.base_queue@ =~= old(self).base_queue@.skip(1));
                    let t: Time = self.current_time;
                    let r = match e {
                        Event::Bgp { src, dst, e, .. } => Event::Bgp { p: t, src, dst, e },
                        Event::Ospf { src, dst, .. } => Event::Ospf { p: t, src, dst },
                    };
                    return Some(Some(r));
                },
                None => {
                    assert(false);
                },
            }
        }
        match self.step() {
            Some((session, poll)) => match poll {
                Poll::Msg(message) => {
                    assert(Self::yields(*old(self), session, message@, *self));
                    Some(Some(message.into_event(session.0, session.1)))
                },
                Poll::NotReadyYet(_) => {
                    if self.is_empty() {
                        None
                    } else {
                        Some(None)
                    }
                },
                Poll::Empty => None,
            },
            None => None,
        }
    }

    /// The number of messages in the queues.
    pub fn len(&self) -> (r: usize)
        requires
            self.wf(),
            self.num_messages() <= usize::MAX,
        ensures
            r == self.num_messages(),
    {
        self.base_queue.len() + count_messages(&self.bgp_queues)
    }

    /// Whether there are no messages in the queues.
    pub fn is_empty(&self) -> (r: bool)
        requires
            self.wf(),
        ensures
            r == (self.num_messages() == 0),
    {
        self.base_queue.len() == 0 && are_all_empty(&self.bgp_queues)
    }

    /// Drop all messages.
    pub fn clear(&mut self)
        requires
            old(self).wf(),
        ensures
            final(self).wf(),
            final(self).is_idle(),
            final(self).bgp_queue_heap@ == Multiset::<Waiting>::empty(),
            all_cleared(old(self).bgp_queues@, final(self).bgp_queues@),
            final(self).queue_init == old(self).queue_init,
            final(self).current_time == old(self).current_time,
            final(self).clock == old(self).clock,
    {
        self.base_queue.clear();
        clear_all(&mut self.bgp_queues);
        self.bgp_queue_heap.clear();
    }

    /// Adapt the queues to the routing state.
    pub fn update_params(&mut self, routing: &Routing)
        requires
            old(self).wf(),
            routing.wf(),
        ensures
            final(self).wf(),
            F::updated(
                old(self).queue_init,
                *routing,
                old(self).bgp_queues@,
                final(self).queue_init,
                final(self).bgp_queues@,
            ),
            final(self).bgp_queue_heap == old(self).bgp_queue_heap,
            final(self).base_queue == old(self).base_queue,
            final(self).current_time == old(self).current_time,
            final(self).clock == old(self).clock,
    {
        self.queue_init.update_params(routing, &mut self.bgp_queues);
        proof {
            assert forall|k: Session, t: Time| #[trigger]
                self.bgp_queue_heap@.contains((k, t)) implies self.bgp_queues@.contains_key(k) by {
                assert(old(self).bgp_queues@.dom().contains(k));
                assert(self.bgp_queues@.dom().contains(k));
            }
            assert forall|k: Session| #[trigger]
                self.bgp_queues@.contains_key(k) && self.bgp_queues@[k].work() > 0 implies waits(
                self.bgp_queue_heap@,
                k,
            ) by {
                assert(self.bgp_queues@.dom().contains(k));
                assert(old(self).bgp_queues@.dom().contains(k));
                assert(old(self).bgp_queues@.contains_key(k));
            }
        }
    }

    /// The current time.
    pub fn get_time(&self) -> (r: Option<Time>)
        ensures
            r == Some(self.current_time),
    {
        Some(self.current_time)
    }
}

/// The same event, with a time.
pub open spec fn restamped(e: EventView<()>, t: Time) -> EventView<Time> {
    match e {
        EventView::Bgp { src, dst, e, .. } => EventView::Bgp { p: t, src, dst, e },
        EventView::Ospf { src, dst, .. } => EventView::Ospf { p: t, src, dst },
    }
}

/// The session that works next is one of those with the earliest time. Of these it is the one with the
/// largest ends: the larger sender first, and then the larger receiver.
pub proof fn law_who_works_next(heap: Multiset<Waiting>, w: Waiting, u: Waiting)
    requires
        is_next(heap, w),
        heap.contains(u),
    ensures
        heap.contains(w),
        w.1 <= u.1,
        w.1 == u.1 ==> w.0.0 >= u.0.0,
        w.1 == u.1 && w.0.0 == u.0.0 ==> w.0.1 >= u.0.1,
        is_next(heap, u) ==> u == w,
{
    assert(!works_before(u, w));
    if is_next(heap, u) {
        assert(!works_before(w, u));
    }
}

/// An event that gets a time stays what it is.
pub proof fn law_events_with_a_time(e: EventView<()>, t: Time)
    ensures
        restamped(e, t).priority() == t,
        restamped(e, t).source() == e.source(),
        restamped(e, t).router() == e.router(),
        restamped(e, t).prefix() == e.prefix(),
        restamped(e, t) is Bgp <==> e is Bgp,
        restamped(e, t) matches EventView::Bgp { e: m, .. } ==> e->Bgp_e == m,
{
}

/// The work of a session leaves all others as they are, and the messages other than those of BGP. It takes
/// the session off the heap, and puts it back if it has more to do.
pub proof fn law_sessions_work_alone<SQ: SessionQueue, F: QueueInit<SQ>>(
    before: ScramblingQueue<SQ, F>,
    w: Waiting,
    steps: Working<SQ>,
    after: ScramblingQueue<SQ, F>,
    k: Session,
)
    requires
        ScramblingQueue::stepped(before, w, steps, after),
        before.bgp_queues@.contains_key(k),
        k != w.0,
    ensures
        after.bgp_queues@.contains_key(k),
        after.bgp_queues@[k] == before.bgp_queues@[k],
        after.base_queue == before.base_queue,
        waits(before.bgp_queue_heap@, k) ==> waits(after.bgp_queue_heap@, k),
        steps.next_t is Some ==> waits(after.bgp_queue_heap@, w.0),
        steps.result matches PollView::Msg(m) ==> after.current_time == m.t,
        steps.result is Empty ==> after.current_time == before.current_time,
{
    broadcast use vstd::multiset::group_multiset_axioms;

    if waits(before.bgp_queue_heap@, k) {
        let t = choose|t: Time| before.bgp_queue_heap@.contains((k, t));
        assert(after.bgp_queue_heap@.contains((k, t)));
    }
    if let Some(t) = steps.next_t {
        assert(after.bgp_queue_heap@.contains((w.0, t)));
    }
}

/// Messages other than those of BGP go first, in their order, at the current time. They leave the sessions
/// alone.
pub proof fn law_other_messages_go_first<SQ: SessionQueue, F: QueueInit<SQ>>(
    before: ScramblingQueue<SQ, F>,
    r: Option<Option<Event<Time>>>,
    after: ScramblingQueue<SQ, F>,
)
    requires
        ScramblingQueue::polls(before, r, after),
        before.base_queue@.len() > 0,
    ensures
        r is Some && r->0 is Some,
        r->0->0@.priority() == before.current_time,
        r->0->0@.router() == before.base_queue@[0]@.router(),
        r->0->0@.source() == before.base_queue@[0]@.source(),
        after.base_queue@.len() == before.base_queue@.len() - 1,
        after.base_queue@ == before.base_queue@.skip(1),
        after.bgp_queues == before.bgp_queues,
        after.bgp_queue_heap == before.bgp_queue_heap,
        after.queue_init == before.queue_init,
        after.current_time == before.current_time,
        after.clock == before.clock,
{
}

/// A message goes to the queue of its session, and leaves those of the others alone. A session that had
/// nothing to do waits for its turn from then on, if it has something to do.
pub proof fn law_messages_go_to_their_session<SQ: SessionQueue, F: QueueInit<SQ>>(
    before: ScramblingQueue<SQ, F>,
    k: Session,
    msg: MessageView,
    steps: Loading<SQ>,
    after: ScramblingQueue<SQ, F>,
    l: Session,
)
    requires
        ScramblingQueue::bgp_pushed(before, k, msg, steps, after),
    ensures
        SQ::pushed(steps.asked, before.clock, msg, steps.loaded, after.clock),
        after.bgp_queues@.contains_key(k),
        l != k ==> (after.bgp_queues@.contains_key(l) <==> before.bgp_queues@.contains_key(l)),
        l != k && before.bgp_queues@.contains_key(l) ==> after.bgp_queues@[l]
            == before.bgp_queues@[l],
        before.bgp_queues@.contains_key(k) ==> steps.start == before.bgp_queues@[k],
        steps.old_t is None && steps.new_t is Some ==> waits(after.bgp_queue_heap@, k),
        steps.old_t is Some ==> after.bgp_queue_heap@ == before.bgp_queue_heap@,
        after.current_time == before.current_time,
{
    broadcast use vstd::multiset::group_multiset_axioms;

    if steps.old_t is None && steps.new_t is Some {
        assert(after.bgp_queue_heap@.contains((k, steps.new_t->0)));
    }
}

/// A session that is there works next if every other one is later, or as late with a smaller sender, or
/// with the same sender and no larger receiver.
pub proof fn law_latest_sessions_wait(heap: Multiset<Waiting>, w: Waiting)
    requires
        heap.contains(w),
        forall|u: Waiting| #[trigger]
            heap.contains(u) ==> u.1 > w.1 || (u.1 == w.1 && (u.0.0 < w.0.0 || (u.0.0 == w.0.0
                && u.0.1 <= w.0.1))),
    ensures
        is_next(heap, w),
{
}

} // verus!
