//! The queue that dispatches messages among the BGP sessions of a network, by time.
use std::collections::VecDeque;
use vstd::prelude::*;

use crate::bgp::{Event, EventView, RouterId, Time};
use crate::geo_distances::Routing;
use crate::keyed::{as_map, lemma_push, lemma_same_keys};
use crate::pairs::Pairs;
use crate::session_queue::{later, later_than, Message, MessageView, Poll, PollView, SessionQueue};

verus! {

/// A session, by the router that sends and the one that receives.
pub type Session = (RouterId, RouterId);

/// All queues of a list are well-formed.
pub open spec fn all_wf<SQ: SessionQueue>(entries: Seq<(Session, SQ)>) -> bool {
    forall|i: int| 0 <= i < entries.len() ==> (#[trigger] entries[i]).1.wf()
}

/// Two queues have as much work to do, at the same time.
pub open spec fn same_work<SQ: SessionQueue>(a: SQ, b: SQ) -> bool {
    a.work() == b.work() && a.punctual() == b.punctual() && a.due() == b.due()
}

/// Creates the queues of the sessions.
pub trait QueueInit<SQ: SessionQueue>: Sized {
    spec fn wf(&self) -> bool;

    /// The queues that it creates are punctual.
    spec fn punctual(&self) -> bool;

    /// Creating the queue of a session can give `q` and turn `before` into `after`.
    spec fn initial(before: Self, src: RouterId, dst: RouterId, q: SQ, after: Self) -> bool;

    /// Another routing state turns `before` into `after`, and the queues `queues` into `new_queues`.
    spec fn updated(
        before: Self,
        routing: Routing,
        queues: Map<Session, SQ>,
        after: Self,
        new_queues: Map<Session, SQ>,
    ) -> bool;

    /// Create the queue of a session.
    fn init(&mut self, src: RouterId, dst: RouterId) -> (q: SQ)
        requires
            old(self).wf(),
        ensures
            final(self).wf(),
            q.wf(),
            q.work() == 0,
            old(self).punctual() ==> q.punctual() && final(self).punctual(),
            Self::initial(*old(self), src, dst, q, *final(self)),
    ;

    /// Adapt the queues to the routing state.
    fn update_params(&mut self, routing: &Routing, bgp_queues: &mut Pairs<SQ>)
        requires
            old(self).wf(),
            routing.wf(),
            old(bgp_queues).wf(),
            all_wf(old(bgp_queues).entries@),
        ensures
            final(self).wf(),
            final(bgp_queues).wf(),
            all_wf(final(bgp_queues).entries@),
            final(bgp_queues)@.dom() == old(bgp_queues)@.dom(),
            forall|k: Session| #[trigger]
                final(bgp_queues)@.contains_key(k) ==> same_work(
                    old(bgp_queues)@[k],
                    final(bgp_queues)@[k],
                ),
            old(self).punctual() ==> final(self).punctual(),
            Self::updated(
                *old(self),
                *routing,
                old(bgp_queues)@,
                *final(self),
                final(bgp_queues)@,
            ),
    ;
}

/// What is worked on next.
#[derive(Debug, Clone, Copy, PartialEq, Eq, Structural)]
pub enum NextQueueKey {
    Bgp(RouterId, RouterId),
    Ospf,
}

/// A time, and what is worked on then.
pub type Appointment = (Time, NextQueueKey);

/// What is worked on at which time. Several queues may be due at the same time.
#[derive(Debug)]
pub struct Agenda {
    pub entries: Vec<(Time, NextQueueKey)>,
}

impl View for Agenda {
    type V = Set<Appointment>;

    open spec fn view(&self) -> Set<Appointment> {
        self.entries@.to_set()
    }
}

/// The order of what is due at the same time: sessions by their routers, then the OSPF messages.
pub open spec fn key_not_after(a: NextQueueKey, b: NextQueueKey) -> bool {
    match (a, b) {
        (NextQueueKey::Bgp(a_src, a_dst), NextQueueKey::Bgp(b_src, b_dst)) => a_src < b_src || a_src
            == b_src && a_dst <= b_dst,
        (_, NextQueueKey::Ospf) => true,
        (NextQueueKey::Ospf, NextQueueKey::Bgp(_, _)) => false,
    }
}

/// The order of the agenda, by time and then by key.
pub open spec fn not_after(a: Appointment, b: Appointment) -> bool {
    a.0 < b.0 || a.0 == b.0 && key_not_after(a.1, b.1)
}

/// The first entry of the agenda.
pub open spec fn is_first(agenda: Set<Appointment>, e: Appointment) -> bool {
    &&& agenda.contains(e)
    &&& forall|other: Appointment| #[trigger] agenda.contains(other) ==> not_after(e, other)
}

/// `key` is on the agenda for time `t`, and for no other time.
pub open spec fn only_at(agenda: Set<Appointment>, t: Time, key: NextQueueKey) -> bool {
    forall|u: Time| #[trigger] agenda.contains((u, key)) <==> u == t
}

/// Whether an entry comes before another one on the agenda, or is the same.
fn is_not_after(a: &(Time, NextQueueKey), b: &(Time, NextQueueKey)) -> (r: bool)
    ensures
        r == not_after(*a, *b),
{
    if a.0 != b.0 {
        return a.0 < b.0;
    }
    match (a.1, b.1) {
        (NextQueueKey::Bgp(a_src, a_dst), NextQueueKey::Bgp(b_src, b_dst)) => a_src < b_src || a_src
            == b_src && a_dst <= b_dst,
        (_, NextQueueKey::Ospf) => true,
        (NextQueueKey::Ospf, NextQueueKey::Bgp(_, _)) => false,
    }
}

impl Agenda {
    /// Nothing occurs twice.
    pub open spec fn wf(&self) -> bool {
        self.entries@.no_duplicates()
    }

    pub fn new() -> (r: Self)
        ensures
            r.wf(),
            r@ == Set::<Appointment>::empty(),
    {
        let r = Agenda { entries: Vec::new() };
        assert(r@ =~= Set::<Appointment>::empty());
        r
    }

    fn find(&self, t: Time, key: NextQueueKey) -> (r: Option<usize>)
        ensures
            match r {
                Some(i) => i < self.entries@.len() && self.entries@[i as int] == (t, key),
                None => !self@.contains((t, key)),
            },
    {
        for i in 0..self.entries.len()
            invariant
                forall|j: int| 0 <= j < i ==> #[trigger] self.entries@[j] != (t, key),
        {
            if self.entries[i].0 == t && self.entries[i].1 == key {
                return Some(i);
            }
        }
        None
    }

    /// Add an entry.
    pub fn insert(&mut self, t: Time, key: NextQueueKey)
        requires
            old(self).wf(),
        ensures
            final(self).wf(),
            final(self)@ == old(self)@.insert((t, key)),
    {
        match self.find(t, key) {
            Some(i) => {
                assert(self.entries@[i as int] == (t, key));
                assert(self@ =~= old(self)@.insert((t, key)));
            },
            None => {
                let ghost entries = self.entries@;
                self.entries.push((t, key));
                proof {
                    lemma_pushed_set(entries, (t, key));
                }
            },
        }
    }

    /// Drop an entry.
    pub fn remove(&mut self, t: Time, key: NextQueueKey)
        requires
            old(self).wf(),
        ensures
            final(self).wf(),
            final(self)@ == old(self)@.remove((t, key)),
    {
        match self.find(t, key) {
            Some(i) => {
                proof {
                    lemma_removed_set(self.entries@, i as int);
                }
                let _ = self.entries.remove(i);
            },
            None => {
                assert(old(self)@.remove((t, key)) =~= old(self)@);
            },
        }
    }

    /// Take the first entry.
    pub fn pop_first(&mut self) -> (r: Option<(Time, NextQueueKey)>)
        requires
            old(self).wf(),
        ensures
            final(self).wf(),
            match r {
                Some(e) => {
                    &&& is_first(old(self)@, e)
                    &&& final(self)@ == old(self)@.remove(e)
                    &&& final(self).entries@.len() + 1 == old(self).entries@.len()
                },
                None => old(self)@ == Set::<Appointment>::empty() && *final(self) == *old(self),
            },
    {
        if self.entries.len() == 0 {
            assert(self@ =~= Set::<Appointment>::empty());
            return None;
        }
        let mut best: usize = 0;
        for i in 1..self.entries.len()
            invariant
                best < self.entries@.len(),
                forall|j: int|
                    0 <= j < i ==> not_after(self.entries@[best as int], #[trigger] self.entries@[j]),
        {
            if !is_not_after(&self.entries[best], &self.entries[i]) {
                best = i;
            }
        }
        proof {
            lemma_removed_set(self.entries@, best as int);
        }
        let e: (Time, NextQueueKey) = self.entries.remove(best);
        Some(e)
    }

    pub fn clear(&mut self)
        ensures
            final(self).wf(),
            final(self)@ == Set::<Appointment>::empty(),
    {
        self.entries.clear();
        assert(self@ =~= Set::<Appointment>::empty());
    }
}

/// A new entry at the end is added to the set.
proof fn lemma_pushed_set(entries: Seq<Appointment>, e: Appointment)
    requires
        entries.no_duplicates(),
        !entries.contains(e),
    ensures
        entries.push(e).no_duplicates(),
        entries.push(e).to_set() == entries.to_set().insert(e),
{
    let after = entries.push(e);
    assert forall|x: Appointment| after.contains(x) <==> entries.contains(x) || x == e by {
        if entries.contains(x) {
            let j = choose|j: int| 0 <= j < entries.len() && entries[j] == x;
            assert(after[j] == x);
        }
        assert(after[entries.len() as int] == e);
    }
    assert(after.to_set() =~= entries.to_set().insert(e));
}

/// An entry that leaves the list leaves the set.
proof fn lemma_removed_set(entries: Seq<Appointment>, i: int)
    requires
        entries.no_duplicates(),
        0 <= i < entries.len(),
    ensures
        entries.remove(i).no_duplicates(),
        entries.remove(i).to_set() == entries.to_set().remove(entries[i]),
{
    let after = entries.remove(i);
    assert forall|x: Appointment| after.contains(x) <==> entries.contains(x) && x != entries[i] by {
        if entries.contains(x) && x != entries[i] {
            let j = choose|j: int| 0 <= j < entries.len() && entries[j] == x;
            assert(after[if j < i {
                j
            } else {
                j - 1
            }] == x);
        }
        if after.contains(x) {
            let j = choose|j: int| 0 <= j < after.len() && after[j] == x;
            assert(entries[if j < i {
                j
            } else {
                j + 1
            }] == x);
        }
    }
    assert(after.to_set() =~= entries.to_set().remove(entries[i]));
}

/// A queue for each session, and one for the OSPF messages.
pub struct DispatchQueue<SQ, F> {
    pub queue_init: F,
    pub ospf_delay: Time,
    pub bgp_queues: Pairs<SQ>,
    pub ospf_queue: VecDeque<Event<Time>>,
    pub next_to_pop: Agenda,
    pub current_time: Time,
    /// Stamps what the sessions log.
    pub clock: Time,
}

/// The views of events.
pub open spec fn event_views<T>(s: Seq<Event<T>>) -> Seq<EventView<T>> {
    Seq::new(s.len(), |i: int| s[i]@)
}

/// Set the current time to that of the work that was done. It must be the one that was planned, and
/// not lie in the past.
pub fn advance_time(current_time: &mut Time, next_time: Time, next_queue_t: Time)
    requires
        next_time == next_queue_t,
        next_time >= *old(current_time),
    ensures
        *final(current_time) == next_time,
{
    *current_time = next_time;
}

/// The agenda after a push into a session queue whose next time was `old_t`, and then `new_t`.
pub open spec fn rescheduled(
    agenda: Set<Appointment>,
    key: NextQueueKey,
    old_t: Option<Time>,
    new_t: Option<Time>,
    last_t: Option<Time>,
) -> Set<Appointment> {
    let changed = match (old_t, new_t) {
        (None, None) => agenda,
        (None, Some(t)) => agenda.remove((t, key)),
        (Some(t), None) => agenda.insert((t, key)),
        (Some(a), Some(b)) => if a == b {
            agenda
        } else {
            agenda.remove((a, key)).insert((b, key))
        },
    };
    match last_t {
        Some(t) => changed.insert((t, key)),
        None => changed,
    }
}

/// A session queue while a message is pushed into it.
pub struct PushSteps<SQ> {
    /// The queue of the session, perhaps a new one.
    pub start: SQ,
    pub old_t: Option<Time>,
    /// The queue after it was asked for `old_t`.
    pub asked: SQ,
    /// The queue with the message.
    pub loaded: SQ,
    pub new_t: Option<Time>,
    /// The queue after it was asked for `new_t`.
    pub asked_again: SQ,
    pub last_t: Option<Time>,
    /// The queue after it was asked for `last_t`.
    pub done: SQ,
}

impl<SQ: SessionQueue, F: QueueInit<SQ>> DispatchQueue<SQ, F> {
    pub open spec fn wf(&self) -> bool {
        &&& self.queue_init.wf()
        &&& self.bgp_queues.wf()
        &&& all_wf(self.bgp_queues.entries@)
        &&& self.next_to_pop.wf()
        &&& forall|t: Time, src: RouterId, dst: RouterId| #[trigger]
            self.next_to_pop@.contains((t, NextQueueKey::Bgp(src, dst)))
                ==> self.bgp_queues@.contains_key((src, dst))
    }

    /// The agenda and the queues agree: a queue that is not empty is on the agenda for the time at
    /// which it is due, and for no other time.
    pub open spec fn in_step(&self) -> bool {
        &&& self.queue_init.punctual()
        &&& forall|k: Session| #[trigger]
            self.bgp_queues@.contains_key(k) ==> self.bgp_queues@[k].punctual()
        &&& forall|k: Session| #[trigger]
            self.bgp_queues@.contains_key(k) && self.bgp_queues@[k].work() > 0 ==> (
            self.bgp_queues@[k].due() matches Some(t) && only_at(
                self.next_to_pop@,
                t,
                NextQueueKey::Bgp(k.0, k.1),
            ))
        &&& self.ospf_queue@.len() > 0 ==> only_at(
            self.next_to_pop@,
            self.ospf_queue@[0]@.priority(),
            NextQueueKey::Ospf,
        )
    }

    /// No queue has anything to do.
    pub open spec fn idle(&self) -> bool {
        &&& self.ospf_queue@.len() == 0
        &&& forall|k: Session| #[trigger]
            self.bgp_queues@.contains_key(k) ==> self.bgp_queues@[k].work() == 0
    }

    /// The queue of a session is not empty, or it is not on the agenda.
    pub open spec fn steady(&self, k: Session) -> bool {
        ||| self.bgp_queues@.contains_key(k) && self.bgp_queues@[k].work() > 0
        ||| forall|t: Time| !#[trigger] self.next_to_pop@.contains((t, NextQueueKey::Bgp(k.0, k.1)))
    }

    /// The queue of the OSPF messages is not empty, or it is not on the agenda.
    pub open spec fn ospf_steady(&self) -> bool {
        ||| self.ospf_queue@.len() > 0
        ||| forall|t: Time| !#[trigger] self.next_to_pop@.contains((t, NextQueueKey::Ospf))
    }

    /// A BGP message is pushed into the queue of its session.
    pub open spec fn bgp_pushed(
        before: Self,
        k: Session,
        msg: MessageView,
        steps: PushSteps<SQ>,
        after: Self,
    ) -> bool {
        &&& if before.bgp_queues@.contains_key(k) {
            steps.start == before.bgp_queues@[k] && after.queue_init == before.queue_init
        } else {
            F::initial(before.queue_init, k.0, k.1, steps.start, after.queue_init)
        }
        &&& SQ::timed(steps.start, steps.old_t, steps.asked)
        &&& SQ::pushed(steps.asked, before.clock, msg, steps.loaded, after.clock)
        &&& SQ::timed(steps.loaded, steps.new_t, steps.asked_again)
        &&& SQ::timed(steps.asked_again, steps.last_t, steps.done)
        &&& after.bgp_queues@ == before.bgp_queues@.insert(k, steps.done)
        &&& after.next_to_pop@ == rescheduled(
            before.next_to_pop@,
            NextQueueKey::Bgp(k.0, k.1),
            steps.old_t,
            steps.new_t,
            steps.last_t,
        )
        &&& after.ospf_queue == before.ospf_queue
        &&& after.ospf_delay == before.ospf_delay
        &&& after.current_time == before.current_time
    }

    /// An OSPF message is appended to the queue of those.
    pub open spec fn ospf_pushed(before: Self, event: EventView<Time>, after: Self) -> bool {
        let t = later(before.current_time, before.ospf_delay);
        &&& event_views(after.ospf_queue@) == event_views(before.ospf_queue@).push(event.at(t))
        &&& after.next_to_pop@ == if before.ospf_queue@.len() == 0 {
            before.next_to_pop@.insert((t, NextQueueKey::Ospf))
        } else {
            before.next_to_pop@
        }
        &&& after.bgp_queues == before.bgp_queues
        &&& after.queue_init == before.queue_init
        &&& after.ospf_delay == before.ospf_delay
        &&& after.current_time == before.current_time
        &&& after.clock == before.clock
    }

    /// The first entry `first` of the agenda was taken.
    pub open spec fn took(before: Self, first: Appointment, after: Self) -> bool {
        &&& is_first(before.next_to_pop@, first)
        &&& after.current_time == first.0
        &&& after.queue_init == before.queue_init
        &&& after.ospf_delay == before.ospf_delay
    }

    /// The queue of a session worked.
    pub open spec fn worked(before: Self, k: Session, r: PollView, q: SQ, after: Self) -> bool {
        &&& SQ::polled(before.bgp_queues@[k], before.clock, r, q, after.clock)
        &&& after.ospf_queue == before.ospf_queue
    }

    /// A queue that worked is put on the agenda again, if it is not empty.
    pub open spec fn requeued(
        before: Self,
        t: Time,
        k: Session,
        next: Option<Time>,
        q: SQ,
        after: Self,
    ) -> bool {
        let key = NextQueueKey::Bgp(k.0, k.1);
        let rest = before.next_to_pop@.remove((t, key));
        &&& after.bgp_queues@ == before.bgp_queues@.insert(k, q)
        &&& after.next_to_pop@ == match next {
            Some(u) => rest.insert((u, key)),
            None => rest,
        }
    }

    /// Work on the entry `first` that gives no message. A queue in which something changed needs to
    /// work again.
    pub open spec fn silent(before: Self, first: Appointment, after: Self) -> bool {
        &&& Self::took(before, first, after)
        &&& match first.1 {
            NextQueueKey::Bgp(src, dst) => exists|r: PollView, q: SQ, next: Option<Time>, q2: SQ|
                #![trigger Self::worked(before, (src, dst), r, q, after), SQ::timed(q, next, q2)]
                Self::worked(before, (src, dst), r, q, after) && SQ::timed(q, next, q2) && !(
                r is Msg) && Self::requeued(before, first.0, (src, dst), next, q2, after),
            NextQueueKey::Ospf => before.ospf_queue@.len() == 0 && after.ospf_queue@
                == before.ospf_queue@ && after.bgp_queues == before.bgp_queues && after.clock
                == before.clock && after.next_to_pop@ == before.next_to_pop@.remove(first),
        }
    }

    /// Work on the entry `first` that gives `e`. The queue is put on the agenda again, if it is not
    /// empty.
    pub open spec fn yields(
        before: Self,
        first: Appointment,
        e: EventView<Time>,
        after: Self,
    ) -> bool {
        &&& Self::took(before, first, after)
        &&& match first.1 {
            NextQueueKey::Bgp(src, dst) => exists|
                msg: MessageView,
                q: SQ,
                next: Option<Time>,
                q2: SQ,
            | #![trigger Self::worked(before, (src, dst), PollView::Msg(msg), q, after), SQ::timed(
                q,
                next,
                q2,
            )]
                Self::worked(before, (src, dst), PollView::Msg(msg), q, after) && SQ::timed(
                    q,
                    next,
                    q2,
                ) && e == msg.on(src, dst) && Self::requeued(
                    before,
                    first.0,
                    (src, dst),
                    next,
                    q2,
                    after,
                ),
            NextQueueKey::Ospf => {
                &&& before.ospf_queue@.len() > 0
                &&& e == before.ospf_queue@[0]@
                &&& after.ospf_queue@ == before.ospf_queue@.skip(1)
                &&& after.bgp_queues == before.bgp_queues
                &&& after.clock == before.clock
                &&& after.next_to_pop@ == if before.ospf_queue@.len() > 1 {
                    before.next_to_pop@.remove(first).insert(
                        (before.ospf_queue@[1]@.priority(), NextQueueKey::Ospf),
                    )
                } else {
                    before.next_to_pop@.remove(first)
                }
            },
        }
    }

    /// A list of states that lead from one to the next by work that gives no message.
    pub open spec fn trail(states: Seq<Self>, turns: Seq<Appointment>) -> bool {
        &&& states.len() == turns.len() + 1
        &&& forall|i: int|
            0 <= i < turns.len() ==> Self::silent(states[i], #[trigger] turns[i], states[i + 1])
    }

    pub fn new(queue_init: F, ospf_delay: Time) -> (r: Self)
        requires
            queue_init.wf(),
        ensures
            r.wf(),
            queue_init.punctual() ==> r.in_step(),
            r.queue_init == queue_init,
            r.ospf_delay == ospf_delay,
            r.bgp_queues@ == Map::<Session, SQ>::empty(),
            r.ospf_queue@ == Seq::<Event<Time>>::empty(),
            r.next_to_pop@ == Set::<Appointment>::empty(),
            r.current_time == 0,
            r.clock == 0,
    {
        DispatchQueue {
            queue_init,
            ospf_delay,
            bgp_queues: Pairs::new(),
            ospf_queue: VecDeque::new(),
            next_to_pop: Agenda::new(),
            current_time: 0,
            clock: 0,
        }
    }

    /// Enqueue an event.
    pub fn push(&mut self, event: Event<Time>)
        requires
            old(self).wf(),
        ensures
            final(self).wf(),
            match event@ {
                EventView::Bgp { src, dst, e, .. } => exists|steps: PushSteps<SQ>| #[trigger]
                    Self::bgp_pushed(
                        *old(self),
                        (src, dst),
                        MessageView { e, t: old(self).current_time },
                        steps,
                        *final(self),
                    ),
                EventView::Ospf { .. } => Self::ospf_pushed(*old(self), event@, *final(self)),
            },
            old(self).in_step() && match event@ {
                EventView::Bgp { src, dst, .. } => old(self).steady((src, dst)),
                EventView::Ospf { .. } => old(self).ospf_steady(),
            } ==> final(self).in_step(),
    {
        match event {
            Event::Bgp { src, dst, e, .. } => self.push_bgp(src, dst, e),
            Event::Ospf { src, dst, .. } => {
                let t: Time = later_than(self.current_time, self.ospf_delay);
                if self.ospf_queue.len() == 0 {
                    self.next_to_pop.insert(t, NextQueueKey::Ospf);
                }
                self.ospf_queue.push_back(Event::Ospf { p: t, src, dst });
                assert(event_views(self.ospf_queue@) =~= event_views(old(self).ospf_queue@).push(
                    event@.at(t),
                ));
            },
        }
    }

    fn push_bgp(&mut self, src: RouterId, dst: RouterId, e: crate::bgp::BgpEvent)
        requires
            old(self).wf(),
        ensures
            final(self).wf(),
            exists|steps: PushSteps<SQ>| #[trigger]
                Self::bgp_pushed(
                    *old(self),
                    (src, dst),
                    MessageView { e: e@, t: old(self).current_time },
                    steps,
                    *final(self),
                ),
            old(self).in_step() && old(self).steady((src, dst)) ==> final(self).in_step(),
    {
        let key = NextQueueKey::Bgp(src, dst);
        let ghost k: Session = (src, dst);
        let ghost queues = self.bgp_queues@;
        if !self.bgp_queues.contains((src, dst)) {
            let q = self.queue_init.init(src, dst);
            proof {
                lemma_push(self.bgp_queues.entries@, k, q);
            }
            self.bgp_queues.entries.push(((src, dst), q));
        }
        let i: usize = match self.bgp_queues.find((src, dst)) {
            Some(i) => i,
            None => {
                assert(false);
                0
            },
        };
        let ghost entries = self.bgp_queues.entries@;
        let ghost start = entries[i as int].1;
        let old_t = self.bgp_queues.entries[i].1.next_t();
        let ghost asked = self.bgp_queues.entries@[i as int].1;
        self.bgp_queues.entries[i].1.push(Message { e, t: self.current_time }, &mut self.clock);
        let ghost loaded = self.bgp_queues.entries@[i as int].1;
        let new_t = self.bgp_queues.entries[i].1.next_t();
        let ghost asked_again = self.bgp_queues.entries@[i as int].1;
        match (old_t, new_t) {
            (None, None) => {},
            (None, Some(t)) => self.next_to_pop.remove(t, key),
            (Some(t), None) => self.next_to_pop.insert(t, key),
            (Some(old_next), Some(new_next)) => {
                if old_next != new_next {
                    self.next_to_pop.remove(old_next, key);
                    self.next_to_pop.insert(new_next, key);
                }
            },
        }
        let last_t = self.bgp_queues.entries[i].1.next_t();
        let ghost done = self.bgp_queues.entries@[i as int].1;
        match last_t {
            Some(t) => self.next_to_pop.insert(t, key),
            None => {},
        }
        proof {
            let after = self.bgp_queues.entries@;
            assert(after =~= entries.update(i as int, (k, done)));
            crate::keyed::lemma_same_keys_update(entries, i as int, done);
            assert(as_map(entries) =~= if queues.contains_key(k) {
                queues
            } else {
                queues.insert(k, start)
            });
            assert(self.bgp_queues@ =~= queues.insert(k, done));
            let steps = PushSteps {
                start,
                old_t,
                asked,
                loaded,
                new_t,
                asked_again,
                last_t,
                done,
            };
            assert(Self::bgp_pushed(
                *old(self),
                k,
                MessageView { e: e@, t: old(self).current_time },
                steps,
                *self,
            ));
            if old(self).in_step() && old(self).steady(k) {
                lemma_stays_in_step(*old(self), k, steps.old_t, steps.new_t, *self);
            }
        }
    }

    /// Dequeue the next event: work on what is first on the agenda, until there is one.
    pub fn pop(&mut self) -> (r: Option<Event<Time>>)
        requires
            old(self).wf(),
            old(self).in_step(),
        ensures
            final(self).wf(),
            final(self).in_step(),
            exists|states: Seq<Self>, turns: Seq<Appointment>| #[trigger]
                Self::trail(states, turns) && states[0] == *old(self) && match r {
                    Some(e) => exists|first: Appointment| #[trigger]
                        Self::yields(states.last(), first, e@, *final(self)),
                    None => states.last() == *final(self) && final(self).next_to_pop@ == Set::<
                        Appointment,
                    >::empty(),
                },
            r is None ==> final(self).idle(),
    {
        let ghost mut states: Seq<Self> = seq![*self];
        let ghost mut turns: Seq<Appointment> = seq![];
        loop
            invariant
                self.wf(),
                self.in_step(),
                Self::trail(states, turns),
                states[0] == *old(self),
                states.last() == *self,
            decreases total_work(self.bgp_queues.entries@), self.next_to_pop.entries@.len(),
        {
            let ghost before = *self;
            let (t, key) = match self.next_to_pop.pop_first() {
                Some(first) => first,
                None => {
                    proof {
                        law_nothing_is_left(*self);
                    }
                    return None;
                },
            };
            self.current_time = t;
            match key {
                NextQueueKey::Bgp(src, dst) => {
                    let ghost k: Session = (src, dst);
                    let i: usize = match self.bgp_queues.find((src, dst)) {
                        Some(i) => i,
                        None => {
                            assert(false);
                            return None;
                        },
                    };
                    let ghost entries = self.bgp_queues.entries@;
                    let r = self.bgp_queues.entries[i].1.poll(&mut self.clock);
                    let ghost q = self.bgp_queues.entries@[i as int].1;
                    let ghost v = r@;
                    proof {
                        assert(self.bgp_queues.entries@ =~= entries.update(i as int, (k, q)));
                        crate::keyed::lemma_same_keys_update(entries, i as int, q);
                    }
                    match &r {
                        Poll::Msg(msg) => advance_time(&mut self.current_time, msg.t, t),
                        Poll::NotReadyYet(u) => advance_time(&mut self.current_time, *u, t),
                        Poll::Empty => {},
                    }
                    let next = self.bgp_queues.entries[i].1.next_t();
                    let ghost q2 = self.bgp_queues.entries@[i as int].1;
                    proof {
                        let now = entries.update(i as int, (k, q));
                        assert(self.bgp_queues.entries@ =~= entries.update(i as int, (k, q2)));
                        crate::keyed::lemma_same_keys_update(now, i as int, q2);
                        lemma_total_work_update(entries, i as int, (k, q2));
                        assert(self.bgp_queues@ =~= before.bgp_queues@.insert(k, q2));
                    }
                    match next {
                        Some(u) => self.next_to_pop.insert(u, key),
                        None => {},
                    }
                    proof {
                        assert(Self::worked(before, k, v, q, *self));
                        assert(SQ::timed(q, next, q2));
                        assert(Self::requeued(before, t, k, next, q2, *self));
                    }
                    if let Poll::Msg(msg) = r {
                        let r = msg.into_event(src, dst);
                        assert(Self::yields(before, (t, key), r@, *self));
                        return Some(r);
                    }
                    assert(Self::silent(before, (t, key), *self));
                },
                NextQueueKey::Ospf => {
                    match self.ospf_queue.pop_front() {
                        Some(event) => {
                            if self.ospf_queue.len() > 0 {
                                let u: Time = self.ospf_queue[0].priority();
                                self.next_to_pop.insert(u, key);
                            }
                            assert(self.ospf_queue@ =~= before.ospf_queue@.skip(1));
                            assert(Self::yields(before, (t, key), event@, *self));
                            return Some(event);
                        },
                        None => {
                            assert(Self::silent(before, (t, key), *self));
                        },
                    }
                },
            }
            proof {
                let old_states = states;
                let old_turns = turns;
                states = states.push(*self);
                turns = turns.push((t, key));
                assert forall|i: int| 0 <= i < turns.len() implies Self::silent(
                    states[i],
                    #[trigger] turns[i],
                    states[i + 1],
                ) by {
                    if i < old_turns.len() {
                        assert(Self::silent(old_states[i], old_turns[i], old_states[i + 1]));
                    }
                }
            }
        }
    }

    /// The number of messages in the queues.
    pub fn len(&self) -> (r: usize)
        requires
            self.wf(),
            self.ospf_queue@.len() + total_size(self.bgp_queues.entries@) <= usize::MAX,
        ensures
            r == self.ospf_queue@.len() + total_size(self.bgp_queues.entries@),
    {
        self.ospf_queue.len() + count_messages(&self.bgp_queues)
    }

    /// Drop all messages.
    pub fn clear(&mut self)
        requires
            old(self).wf(),
        ensures
            final(self).wf(),
            old(self).in_step() ==> final(self).in_step(),
            final(self).ospf_queue@.len() == 0,
            final(self).next_to_pop@ == Set::<Appointment>::empty(),
            all_cleared(old(self).bgp_queues@, final(self).bgp_queues@),
            final(self).queue_init == old(self).queue_init,
            final(self).ospf_delay == old(self).ospf_delay,
            final(self).current_time == old(self).current_time,
            final(self).clock == old(self).clock,
    {
        self.ospf_queue.clear();
        self.next_to_pop.clear();
        clear_all(&mut self.bgp_queues);
    }

    /// Adapt the queues to the routing state.
    pub fn update_params(&mut self, routing: &Routing)
        requires
            old(self).wf(),
            routing.wf(),
        ensures
            final(self).wf(),
            old(self).in_step() ==> final(self).in_step(),
            F::updated(
                old(self).queue_init,
                *routing,
                old(self).bgp_queues@,
                final(self).queue_init,
                final(self).bgp_queues@,
            ),
            final(self).next_to_pop == old(self).next_to_pop,
            final(self).ospf_queue == old(self).ospf_queue,
            final(self).ospf_delay == old(self).ospf_delay,
            final(self).current_time == old(self).current_time,
            final(self).clock == old(self).clock,
    {
        self.queue_init.update_params(routing, &mut self.bgp_queues);
    }

    /// The current time.
    pub fn get_time(&self) -> (r: Option<Time>)
        ensures
            r == Some(self.current_time),
    {
        Some(self.current_time)
    }
}

/// A queue in which something changed works again: after its turn it is on the agenda for the time of
/// its next work. Nothing else leaves the agenda.
pub proof fn law_queues_work_again<SQ: SessionQueue, F: QueueInit<SQ>>(
    before: DispatchQueue<SQ, F>,
    t: Time,
    k: Session,
    u: Time,
    q: SQ,
    after: DispatchQueue<SQ, F>,
)
    requires
        DispatchQueue::requeued(before, t, k, Some(u), q, after),
    ensures
        after.next_to_pop@.contains((u, NextQueueKey::Bgp(k.0, k.1))),
        forall|x: Appointment|
            x != (t, NextQueueKey::Bgp(k.0, k.1)) && before.next_to_pop@.contains(x)
                ==> #[trigger] after.next_to_pop@.contains(x),
{
}

/// No message is lost: as long as a queue has something to do, something is on the agenda.
pub proof fn law_nothing_is_left<SQ: SessionQueue, F: QueueInit<SQ>>(queue: DispatchQueue<SQ, F>)
    requires
        queue.in_step(),
    ensures
        queue.next_to_pop@ == Set::<Appointment>::empty() ==> queue.idle(),
{
    let agenda = queue.next_to_pop@;
    if agenda == Set::<Appointment>::empty() {
        if queue.ospf_queue@.len() > 0 {
            assert(agenda.contains((queue.ospf_queue@[0]@.priority(), NextQueueKey::Ospf)));
        }
        assert forall|k: Session| #[trigger] queue.bgp_queues@.contains_key(
            k,
        ) implies queue.bgp_queues@[k].work() == 0 by {
            if queue.bgp_queues@[k].work() > 0 {
                let t = queue.bgp_queues@[k].due()->0;
                assert(agenda.contains((t, NextQueueKey::Bgp(k.0, k.1))));
            }
        }
    }
}

/// A push into the queue of a session keeps the agenda and the queues in agreement.
proof fn lemma_stays_in_step<SQ: SessionQueue, F: QueueInit<SQ>>(
    before: DispatchQueue<SQ, F>,
    k: Session,
    old_t: Option<Time>,
    new_t: Option<Time>,
    after: DispatchQueue<SQ, F>,
)
    requires
        before.in_step(),
        before.steady(k),
        after.queue_init.punctual(),
        after.ospf_queue == before.ospf_queue,
        after.bgp_queues@ == before.bgp_queues@.insert(k, after.bgp_queues@[k]),
        after.bgp_queues@[k].punctual(),
        after.bgp_queues@[k].work() == 0 <==> new_t is None,
        after.bgp_queues@[k].due() == new_t,
        if before.bgp_queues@.contains_key(k) {
            &&& before.bgp_queues@[k].due() == old_t
            &&& before.bgp_queues@[k].work() == 0 <==> old_t is None
        } else {
            old_t is None
        },
        after.next_to_pop@ == rescheduled(
            before.next_to_pop@,
            NextQueueKey::Bgp(k.0, k.1),
            old_t,
            new_t,
            new_t,
        ),
    ensures
        after.in_step(),
{
    let key = NextQueueKey::Bgp(k.0, k.1);
    let (a, b) = (before.next_to_pop@, after.next_to_pop@);
    assert forall|t: Time, other: NextQueueKey| other != key implies (#[trigger] b.contains((t, other))
        <==> a.contains((t, other))) by {}
    if let Some(t) = old_t {
        assert(before.bgp_queues@.contains_key(k));
        assert(only_at(a, t, key));
    }
    if let Some(t) = new_t {
        assert forall|u: Time| #[trigger] b.contains((u, key)) <==> u == t by {
            assert(a.contains((u, key)) ==> old_t == Some(u));
        }
    }
    assert forall|k2: Session| #[trigger]
        after.bgp_queues@.contains_key(k2) && after.bgp_queues@[k2].work() > 0 implies (
    after.bgp_queues@[k2].due() matches Some(t) && only_at(
        b,
        t,
        NextQueueKey::Bgp(k2.0, k2.1),
    )) by {
        if k2 != k {
            assert(before.bgp_queues@.contains_key(k2));
        }
    }
}

/// How much work there is.
pub open spec fn total_work<SQ: SessionQueue>(entries: Seq<(Session, SQ)>) -> nat
    decreases entries.len(),
{
    if entries.len() == 0 {
        0
    } else {
        total_work(entries.drop_last()) + entries.last().1.work()
    }
}

/// Another queue in the place of one changes the work by what the two differ in.
pub proof fn lemma_total_work_update<SQ: SessionQueue>(
    entries: Seq<(Session, SQ)>,
    i: int,
    e: (Session, SQ),
)
    requires
        0 <= i < entries.len(),
    ensures
        total_work(entries.update(i, e)) == total_work(entries) - entries[i].1.work() + e.1.work(),
        entries[i].1.work() <= total_work(entries),
    decreases entries.len(),
{
    let after = entries.update(i, e);
    if i == entries.len() - 1 {
        assert(after.drop_last() =~= entries.drop_last());
    } else {
        assert(after.drop_last() =~= entries.drop_last().update(i, e));
        lemma_total_work_update(entries.drop_last(), i, e);
    }
}

/// The number of messages in the queues of a list.
pub open spec fn total_size<SQ: SessionQueue>(entries: Seq<(Session, SQ)>) -> nat
    decreases entries.len(),
{
    if entries.len() == 0 {
        0
    } else {
        total_size(entries.drop_last()) + entries.last().1.size()
    }
}

/// The first queues of a list hold no more messages than all of them.
proof fn lemma_total_size_take<SQ: SessionQueue>(entries: Seq<(Session, SQ)>, i: int)
    requires
        0 <= i <= entries.len(),
    ensures
        total_size(entries.take(i)) <= total_size(entries),
        i < entries.len() ==> total_size(entries.take(i + 1)) == total_size(entries.take(i))
            + entries[i].1.size(),
    decreases entries.len() - i,
{
    if i < entries.len() {
        assert(entries.take(i + 1).drop_last() =~= entries.take(i));
        lemma_total_size_take(entries, i + 1);
    } else {
        assert(entries.take(i) =~= entries);
    }
}

/// Count the messages in the queues.
pub fn count_messages<SQ: SessionQueue>(queues: &Pairs<SQ>) -> (r: usize)
    requires
        all_wf(queues.entries@),
        total_size(queues.entries@) <= usize::MAX,
    ensures
        r == total_size(queues.entries@),
{
    let ghost entries = queues.entries@;
    let mut n: usize = 0;
    for i in 0..queues.entries.len()
        invariant
            entries == queues.entries@,
            all_wf(entries),
            total_size(entries) <= usize::MAX,
            n == total_size(entries.take(i as int)),
    {
        proof {
            lemma_total_size_take(entries, i as int);
            lemma_total_size_take(entries, i + 1);
        }
        n = n + queues.entries[i].1.len();
    }
    assert(entries.take(entries.len() as int) =~= entries);
    n
}

/// Whether the queues of all sessions are empty.
pub fn are_all_empty<SQ: SessionQueue>(queues: &Pairs<SQ>) -> (r: bool)
    requires
        all_wf(queues.entries@),
    ensures
        r == (total_size(queues.entries@) == 0),
{
    let ghost entries = queues.entries@;
    for i in 0..queues.entries.len()
        invariant
            entries == queues.entries@,
            all_wf(entries),
            total_size(entries.take(i as int)) == 0,
    {
        proof {
            lemma_total_size_take(entries, i as int);
            lemma_total_size_take(entries, i + 1);
        }
        if !queues.entries[i].1.is_empty() {
            return false;
        }
    }
    assert(entries.take(entries.len() as int) =~= entries);
    true
}

/// The queue of each session was cleared.
pub open spec fn all_cleared<SQ: SessionQueue>(
    before: Map<Session, SQ>,
    after: Map<Session, SQ>,
) -> bool {
    &&& after.dom() == before.dom()
    &&& forall|k: Session| #[trigger]
        after.contains_key(k) ==> SQ::cleared(before[k], after[k]) && after[k].work() == 0 && (
        before[k].punctual() ==> after[k].punctual())
}

/// Clear the queues of all sessions.
pub fn clear_all<SQ: SessionQueue>(queues: &mut Pairs<SQ>)
    requires
        old(queues).wf(),
        all_wf(old(queues).entries@),
    ensures
        final(queues).wf(),
        all_wf(final(queues).entries@),
        all_cleared(old(queues)@, final(queues)@),
{
    let ghost entries = queues.entries@;
    let n: usize = queues.entries.len();
    let mut i: usize = 0;
    while i < n
        invariant
            i <= n,
            n == entries.len(),
            n == queues.entries@.len(),
            all_wf(queues.entries@),
            forall|j: int| 0 <= j < n ==> (#[trigger] entries[j]).0 == queues.entries@[j].0,
            forall|j: int|
                0 <= j < i ==> SQ::cleared((#[trigger] entries[j]).1, queues.entries@[j].1)
                    && queues.entries@[j].1.work() == 0 && (entries[j].1.punctual()
                    ==> queues.entries@[j].1.punctual()),
            forall|j: int| i <= j < n ==> (#[trigger] entries[j]) == queues.entries@[j],
        decreases n - i,
    {
        let ghost prev = queues.entries@;
        queues.entries[i].1.clear();
        assert(queues.entries@ =~= prev.update(i as int, queues.entries@[i as int]));
        i += 1;
    }
    proof {
        lemma_same_keys(entries, queues.entries@);
        assert(old(queues)@.dom() =~= queues@.dom());
    }
}

/// The agenda goes by time. At the same time sessions go before the messages of OSPF, and a smaller sender
/// goes first, and then a smaller receiver. This is an order.
pub proof fn law_order_of_the_agenda(
    a: Appointment,
    b: Appointment,
    c: Appointment,
    s: Session,
    t: Session,
)
    ensures
        a.0 < b.0 ==> not_after(a, b) && !not_after(b, a),
        not_after(a, b) && not_after(b, a) <==> a == b,
        not_after(a, b) && not_after(b, c) ==> not_after(a, c),
        not_after(a, b) || not_after(b, a),
        key_not_after(NextQueueKey::Bgp(s.0, s.1), NextQueueKey::Ospf),
        !key_not_after(NextQueueKey::Ospf, NextQueueKey::Bgp(s.0, s.1)),
        s.0 < t.0 ==> !key_not_after(NextQueueKey::Bgp(t.0, t.1), NextQueueKey::Bgp(s.0, s.1)),
        s.0 == t.0 && s.1 < t.1 ==> !key_not_after(
            NextQueueKey::Bgp(t.0, t.1),
            NextQueueKey::Bgp(s.0, s.1),
        ),
{
}

/// There is at most one first entry, and no other one is earlier.
pub proof fn law_first_on_the_agenda(agenda: Set<Appointment>, a: Appointment, b: Appointment)
    requires
        is_first(agenda, a),
        agenda.contains(b),
    ensures
        a.0 <= b.0,
        is_first(agenda, b) ==> a == b,
        agenda.contains(a),
{
    assert(not_after(a, b));
    if is_first(agenda, b) {
        assert(not_after(b, a));
    }
}

/// After a push a session is on the agenda for its next time, and no longer for the time that it had
/// before. Others stay where they are.
pub proof fn law_sessions_move_on_the_agenda(
    agenda: Set<Appointment>,
    key: NextQueueKey,
    old_t: Option<Time>,
    new_t: Option<Time>,
    last_t: Option<Time>,
    e: Appointment,
)
    ensures
        ({
            let after = rescheduled(agenda, key, old_t, new_t, last_t);
            &&& e.1 != key ==> (after.contains(e) <==> agenda.contains(e))
            &&& last_t matches Some(t) ==> after.contains((t, key))
            &&& old_t is Some && new_t is Some && last_t == new_t && old_t != new_t
                ==> !after.contains((old_t->0, key))
            &&& e.1 == key && after.contains(e) && !agenda.contains(e) ==> Some(e.0) == new_t || Some(
                e.0,
            ) == last_t || Some(e.0) == old_t
        }),
{
}

/// A message of OSPF waits behind the others, until the delay is over.
pub proof fn law_messages_of_ospf_wait<SQ: SessionQueue, F: QueueInit<SQ>>(
    before: DispatchQueue<SQ, F>,
    event: EventView<Time>,
    after: DispatchQueue<SQ, F>,
)
    requires
        DispatchQueue::ospf_pushed(before, event, after),
        i64::MIN <= before.current_time + before.ospf_delay <= i64::MAX,
    ensures
        after.ospf_queue@.len() == before.ospf_queue@.len() + 1,
        after.ospf_queue@.last()@.priority() == before.current_time + before.ospf_delay,
        after.ospf_queue@.last()@.source() == event.source(),
        after.ospf_queue@.last()@.router() == event.router(),
        before.ospf_queue@.len() == 0 ==> exists|t: Time| #[trigger]
            after.next_to_pop@.contains((t, NextQueueKey::Ospf)) && t == before.current_time
                + before.ospf_delay,
{
    let (a, b) = (event_views(before.ospf_queue@), event_views(after.ospf_queue@));
    assert(a.len() == before.ospf_queue@.len() && b.len() == after.ospf_queue@.len());
    assert(b[b.len() - 1] == after.ospf_queue@.last()@);
    let t = later(before.current_time, before.ospf_delay);
    if before.ospf_queue@.len() == 0 {
        assert(after.next_to_pop@.contains((t, NextQueueKey::Ospf)));
    }
}

/// The messages of all queues are counted, one queue after the other.
pub proof fn law_counting_messages<SQ: SessionQueue>(entries: Seq<(Session, SQ)>, e: (Session, SQ))
    ensures
        total_size(entries.push(e)) == total_size(entries) + e.1.size(),
        total_work(entries.push(e)) == total_work(entries) + e.1.work(),
        total_size(Seq::<(Session, SQ)>::empty()) == 0,
{
    assert(entries.push(e).drop_last() =~= entries);
}

/// A message goes to the queue of its session, and leaves those of the others alone. The session is on the
/// agenda for its next time afterwards.
pub proof fn law_messages_go_to_their_session<SQ: SessionQueue, F: QueueInit<SQ>>(
    before: DispatchQueue<SQ, F>,
    k: Session,
    msg: MessageView,
    steps: PushSteps<SQ>,
    after: DispatchQueue<SQ, F>,
    l: Session,
)
    requires
        DispatchQueue::bgp_pushed(before, k, msg, steps, after),
    ensures
        SQ::pushed(steps.asked, before.clock, msg, steps.loaded, after.clock),
        after.bgp_queues@.contains_key(k),
        l != k ==> (after.bgp_queues@.contains_key(l) <==> before.bgp_queues@.contains_key(l)),
        l != k && before.bgp_queues@.contains_key(l) ==> after.bgp_queues@[l]
            == before.bgp_queues@[l],
        steps.last_t matches Some(t) ==> after.next_to_pop@.contains((t, NextQueueKey::Bgp(k.0, k.1))),
        after.current_time == before.current_time,
        after.ospf_queue == before.ospf_queue,
{
}

/// What is dequeued is what is first on the agenda: its time becomes the current one. A message of a
/// session has the ends of the session, and the queues of the others are left alone.
pub proof fn law_what_is_first_is_dequeued<SQ: SessionQueue, F: QueueInit<SQ>>(
    before: DispatchQueue<SQ, F>,
    first: Appointment,
    e: EventView<Time>,
    after: DispatchQueue<SQ, F>,
    k: Session,
)
    requires
        DispatchQueue::yields(before, first, e, after),
        before.bgp_queues@.contains_key(k),
    ensures
        is_first(before.next_to_pop@, first),
        after.current_time == first.0,
        first.1 matches NextQueueKey::Bgp(src, dst) ==> e is Bgp && e.source() == src && e.router()
            == dst,
        first.1 is Ospf ==> e == before.ospf_queue@[0]@ && after.bgp_queues == before.bgp_queues,
        first.1 != NextQueueKey::Bgp(k.0, k.1) ==> after.bgp_queues@.contains_key(k)
            && after.bgp_queues@[k] == before.bgp_queues@[k],
        first.1 is Bgp ==> after.ospf_queue == before.ospf_queue,
{
}

} // verus!
