//! Queues of the messages that are on their way.
use std::collections::VecDeque;
use vstd::prelude::*;
use vstd::string::*;

use crate::bgp::{Event, EventView};
use crate::failure::Failure;
use crate::random::{is_permuted, shuffle, shuffle_draw};
use crate::text::{append_number, decimal};

verus! {

/// Marker trait for a queue that does not apply any filtering: all events that are pushed are also
/// popped without any modification but of their priority.
pub trait NotFilteringQueue {

}

/// A queue of messages.
pub trait EventQueue<T: Copy>: Sized {
    /// The messages, in the order in which they are popped if no other one is pushed.
    spec fn order(&self) -> Seq<EventView<T>>;

    /// How many more messages can be popped.
    spec fn capacity(&self) -> nat;

    /// The priority that a message gets when it is pushed.
    spec fn stamp(&self, p: T) -> T;

    /// The messages after another one is pushed.
    spec fn inserted(order: Seq<EventView<T>>, e: EventView<T>) -> Seq<EventView<T>>;

    /// A message that is pushed is in the queue. The others stay.
    proof fn inserted_keeps(order: Seq<EventView<T>>, e: EventView<T>)
        ensures
            Self::inserted(order, e).to_multiset() == order.to_multiset().insert(e),
    ;

    /// Enqueue a message.
    fn push(&mut self, event: Event<T>)
        ensures
            final(self).order() == Self::inserted(
                old(self).order(),
                event@.at(old(self).stamp(event@.priority())),
            ),
            final(self).capacity() == old(self).capacity(),
            forall|p: T| #[trigger] final(self).stamp(p) == old(self).stamp(p),
    ;

    /// Dequeue the next message.
    fn pop(&mut self) -> (r: Option<Event<T>>)
        requires
            old(self).order().len() <= old(self).capacity(),
        ensures
            match r {
                Some(e) => {
                    &&& old(self).order().len() > 0
                    &&& e@ == old(self).order()[0]
                    &&& final(self).order() == old(self).order().skip(1)
                    &&& final(self).capacity() + 1 >= old(self).capacity()
                },
                None => old(self).order().len() == 0 && final(self).order().len() == 0
                    && final(self).capacity() == old(self).capacity(),
            },
    ;

    /// The next message.
    fn peek(&self) -> (r: Option<&Event<T>>)
        ensures
            match r {
                Some(e) => self.order().len() > 0 && e@ == self.order()[0],
                None => self.order().len() == 0,
            },
    ;

    /// The number of messages.
    fn len(&self) -> (r: usize)
        ensures
            r == self.order().len(),
    ;

    /// Whether there is no message.
    fn is_empty(&self) -> (r: bool)
        ensures
            r == (self.order().len() == 0),
    ;

    /// Drop all messages.
    fn clear(&mut self)
        ensures
            final(self).order().len() == 0,
            final(self).capacity() == old(self).capacity(),
    ;
}

/// The messages after some are pushed in turn.
pub open spec fn pushed_in_turn<T: Copy, Q: EventQueue<T>>(
    order: Seq<EventView<T>>,
    events: Seq<EventView<T>>,
) -> Seq<EventView<T>>
    decreases events.len(),
{
    if events.len() == 0 {
        order
    } else {
        Q::inserted(pushed_in_turn::<T, Q>(order, events.drop_last()), events.last())
    }
}

/// The messages with the priorities that they get when they are pushed.
pub open spec fn stamped<T: Copy, Q: EventQueue<T>>(queue: Q, events: Seq<Event<T>>) -> Seq<
    EventView<T>,
> {
    events.map_values(|e: Event<T>| e@.at(queue.stamp(e@.priority())))
}

/// A queue that takes several messages at once.
pub trait BatchQueue<T: Copy>: EventQueue<T> {
    /// Messages that are pushed at once can be brought into this order first.
    spec fn arranges(&self, events: Seq<EventView<T>>, arranged: Seq<EventView<T>>) -> bool;

    /// Enqueue messages that occur at the same time.
    fn push_many(&mut self, events: Vec<Event<T>>)
        ensures
            exists|arranged: Seq<EventView<T>>| #[trigger]
                old(self).arranges(stamped(*old(self), events@), arranged) && final(self).order()
                    == pushed_in_turn::<T, Self>(old(self).order(), arranged),
            final(self).capacity() == old(self).capacity(),
            forall|p: T| #[trigger] final(self).stamp(p) == old(self).stamp(p),
    ;
}

/// No message gets lost, and none appears, when several are pushed.
pub proof fn law_push_many_keeps_all<T: Copy, Q: EventQueue<T>>(
    order: Seq<EventView<T>>,
    events: Seq<EventView<T>>,
)
    ensures
        pushed_in_turn::<T, Q>(order, events).to_multiset() == order.to_multiset().add(
            events.to_multiset(),
        ),
    decreases events.len(),
{
    broadcast use vstd::seq_lib::group_to_multiset_ensures;

    if events.len() == 0 {
        assert(events =~= Seq::<EventView<T>>::empty());
        assert(order.to_multiset().add(events.to_multiset()) =~= order.to_multiset());
    } else {
        let init = events.drop_last();
        law_push_many_keeps_all::<T, Q>(order, init);
        Q::inserted_keeps(pushed_in_turn::<T, Q>(order, init), events.last());
        assert(events =~= init.push(events.last()));
        vstd::seq_lib::to_multiset_build(init, events.last());
        assert(order.to_multiset().add(init.to_multiset()).insert(events.last())
            =~= order.to_multiset().add(init.to_multiset().insert(events.last())));
    }
}

/// Push messages one by one.
fn push_each<T: Copy, Q: EventQueue<T>>(queue: &mut Q, events: Vec<Event<T>>)
    ensures
        final(queue).order() == pushed_in_turn::<T, Q>(
            old(queue).order(),
            stamped(*old(queue), events@),
        ),
        final(queue).capacity() == old(queue).capacity(),
        forall|p: T| #[trigger] final(queue).stamp(p) == old(queue).stamp(p),
{
    let ghost all = events@;
    let ghost todo = stamped(*queue, all);
    assert(todo.take(0) =~= Seq::<EventView<T>>::empty());
    for event in it: events
        invariant
            it.seq() == all,
            todo == stamped(*old(queue), all),
            queue.order() == pushed_in_turn::<T, Q>(
                old(queue).order(),
                todo.take(it.index() as int),
            ),
            queue.capacity() == old(queue).capacity(),
            forall|p: T| #[trigger] queue.stamp(p) == old(queue).stamp(p),
    {
        let ghost k = it.index() as int;
        proof {
            assert(event == all[k]);
            assert(todo.take(k + 1).drop_last() =~= todo.take(k));
            assert(todo.take(k + 1).last() == event@.at(old(queue).stamp(event@.priority())));
        }
        queue.push(event);
    }
    assert(todo.take(todo.len() as int) =~= todo);
}

/// The number of the event that triggered another one.
#[derive(Clone, Copy, Debug, PartialEq, Eq, Structural)]
pub struct TriggerId(pub Option<usize>);

impl TriggerId {
    /// The number in writing.
    pub fn fmt(&self) -> (r: String)
        ensures
            r@ == match self.0 {
                Some(p) => decimal(p as nat),
                None => "None"@,
            },
    {
        let mut s: String = String::new();
        match self.0 {
            Some(p) => {
                append_number(&mut s, p as u64);
                assert(s@ =~= decimal(p as nat));
            },
            None => {
                s.append("None");
                assert(s@ =~= "None"@);
            },
        }
        s
    }
}

/// A first-in-first-out queue that marks every event with the number of the event that triggered it.
#[derive(Debug)]
pub struct TriggerQueue {
    pub events: VecDeque<Event<TriggerId>>,
    /// The number of the event that was popped last. It has to be reset by hand.
    pub last_event_id: TriggerId,
}

/// What some messages say.
pub open spec fn views<T>(events: Seq<Event<T>>) -> Seq<EventView<T>> {
    events.map_values(|e: Event<T>| e@)
}

/// The number that follows another one.
pub open spec fn next_trigger(id: TriggerId) -> TriggerId {
    match id.0 {
        Some(n) => TriggerId(Some((n + 1) as usize)),
        None => TriggerId(Some(0)),
    }
}

impl TriggerQueue {
    pub fn new() -> (r: Self)
        ensures
            r.order().len() == 0,
            r.last_event_id == TriggerId(None),
    {
        TriggerQueue { events: VecDeque::new(), last_event_id: TriggerId(None) }
    }

    /// Start counting afresh.
    pub fn reset_trigger_id_counter(&mut self)
        ensures
            final(self).last_event_id == TriggerId(None),
            final(self).events == old(self).events,
    {
        self.last_event_id = TriggerId(None);
    }
}

impl NotFilteringQueue for TriggerQueue {

}

impl EventQueue<TriggerId> for TriggerQueue {
    open spec fn order(&self) -> Seq<EventView<TriggerId>> {
        views(self.events@)
    }

    open spec fn capacity(&self) -> nat {
        match self.last_event_id.0 {
            Some(n) => (usize::MAX - n) as nat,
            None => usize::MAX as nat + 1,
        }
    }

    open spec fn stamp(&self, p: TriggerId) -> TriggerId {
        self.last_event_id
    }

    open spec fn inserted(
        order: Seq<EventView<TriggerId>>,
        e: EventView<TriggerId>,
    ) -> Seq<EventView<TriggerId>> {
        order.push(e)
    }

    proof fn inserted_keeps(order: Seq<EventView<TriggerId>>, e: EventView<TriggerId>) {
        vstd::seq_lib::to_multiset_build(order, e);
    }

    fn push(&mut self, event: Event<TriggerId>)
        ensures
            final(self).last_event_id == old(self).last_event_id,
    {
        let ghost before = self.order();
        let event: Event<TriggerId> = event.with_time(self.last_event_id);
        self.events.push_back(event);
        assert(self.order() =~= before.push(event@));
    }

    fn pop(&mut self) -> (r: Option<Event<TriggerId>>)
        ensures
            final(self).last_event_id == (if r is Some {
                next_trigger(old(self).last_event_id)
            } else {
                old(self).last_event_id
            }),
    {
        let ghost before = self.events@;
        match self.events.pop_front() {
            Some(event) => {
                let event_id: usize = match self.last_event_id.0 {
                    Some(id) => id + 1,
                    None => 0,
                };
                self.last_event_id = TriggerId(Some(event_id));
                assert(self.order() =~= views(before).skip(1));
                Some(event)
            },
            None => None,
        }
    }

    fn peek(&self) -> (r: Option<&Event<TriggerId>>) {
        if self.events.len() == 0 {
            None
        } else {
            Some(&self.events[0])
        }
    }

    fn len(&self) -> (r: usize) {
        self.events.len()
    }

    fn is_empty(&self) -> (r: bool) {
        self.events.len() == 0
    }

    fn clear(&mut self) {
        self.events.clear();
    }
}

impl BatchQueue<TriggerId> for TriggerQueue {
    open spec fn arranges(
        &self,
        events: Seq<EventView<TriggerId>>,
        arranged: Seq<EventView<TriggerId>>,
    ) -> bool {
        arranged == events
    }

    fn push_many(&mut self, events: Vec<Event<TriggerId>>) {
        let ghost all = stamped(*self, events@);
        push_each(self, events);
        assert(old(self).arranges(all, all));
    }
}

/// What is done with a queue that marks events: a push, or a pop with its result.
pub enum TriggerOp {
    Push(EventView<TriggerId>),
    Pop(Option<EventView<TriggerId>>),
}

/// How the queue changes.
pub open spec fn is_done(before: TriggerQueue, op: TriggerOp, after: TriggerQueue) -> bool {
    match op {
        TriggerOp::Push(e) => {
            &&& after.order() == TriggerQueue::inserted(
                before.order(),
                e.at(before.stamp(e.priority())),
            )
            &&& after.last_event_id == before.last_event_id
        },
        TriggerOp::Pop(Some(e)) => {
            &&& 0 < before.order().len() <= before.capacity()
            &&& e == before.order()[0]
            &&& after.order() == before.order().skip(1)
            &&& after.last_event_id == next_trigger(before.last_event_id)
        },
        TriggerOp::Pop(None) => {
            &&& before.order().len() == 0
            &&& after.order().len() == 0
            &&& after.last_event_id == before.last_event_id
        },
    }
}

/// How many events are popped. A pop of the empty queue does not count.
pub open spec fn num_popped(ops: Seq<TriggerOp>) -> nat
    decreases ops.len(),
{
    if ops.len() == 0 {
        0
    } else {
        num_popped(ops.drop_last()) + if ops.last() matches TriggerOp::Pop(Some(_)) {
            1nat
        } else {
            0nat
        }
    }
}

/// The mark of an event that is pushed after `k` events were popped.
pub open spec fn trigger_after(k: nat) -> TriggerId {
    if k == 0 {
        TriggerId(None)
    } else {
        TriggerId(Some((k - 1) as usize))
    }
}

/// The events that are pushed, each with its mark.
pub open spec fn marked(ops: Seq<TriggerOp>) -> Seq<EventView<TriggerId>>
    decreases ops.len(),
{
    if ops.len() == 0 {
        seq![]
    } else {
        let init = ops.drop_last();
        match ops.last() {
            TriggerOp::Push(e) => marked(init).push(e.at(trigger_after(num_popped(init)))),
            _ => marked(init),
        }
    }
}

/// After the counter was reset and `k` events were popped, an event that is pushed goes to the back, with
/// the number `k - 1` of the event that was popped last, or without a number if there was none. The
/// events in the queue keep their order and their marks.
pub proof fn law_trigger_ids(states: Seq<TriggerQueue>, ops: Seq<TriggerOp>)
    requires
        states.len() == ops.len() + 1,
        states[0].last_event_id == TriggerId(None),
        forall|i: int| 0 <= i < ops.len() ==> is_done(#[trigger] states[i], ops[i], states[i + 1]),
    ensures
        num_popped(ops) <= usize::MAX as nat + 1,
        states.last().last_event_id == trigger_after(num_popped(ops)),
        states.last().order() == (states[0].order() + marked(ops)).skip(num_popped(ops) as int),
        num_popped(ops) <= states[0].order().len() + marked(ops).len(),
    decreases ops.len(),
{
    if ops.len() == 0 {
        assert((states[0].order() + marked(ops)).skip(0) =~= states[0].order());
    } else {
        let n = ops.len() - 1;
        let init = ops.drop_last();
        let before = states.drop_last();
        assert forall|i: int| 0 <= i < init.len() implies is_done(
            #[trigger] before[i],
            init[i],
            before[i + 1],
        ) by {
            assert(is_done(states[i], ops[i], states[i + 1]));
        }
        law_trigger_ids(before, init);
        assert(is_done(states[n], ops[n], states[n + 1]));
        let (k, all) = (num_popped(init) as int, states[0].order() + marked(init));
        match ops[n] {
            TriggerOp::Push(e) => {
                let x = e.at(trigger_after(num_popped(init)));
                assert(states[0].order() + marked(ops) =~= all.push(x));
                assert(all.push(x).skip(k) =~= all.skip(k).push(x));
            },
            TriggerOp::Pop(Some(e)) => {
                assert(all.skip(k).skip(1) =~= all.skip(k + 1));
            },
            TriggerOp::Pop(None) => {
                assert(all.skip(k) =~= states[n + 1].order());
            },
        }
    }
}

// ---------------------------------------------------------------------------------------------
// A fixed or random order
// ---------------------------------------------------------------------------------------------
/// A queue that brings the events that are pushed at once into a fixed order, or a random one.
pub struct OrderedEventQueue<Q> {
    pub inner_queue: Q,
    /// If there is a source of randomness, events are shuffled before they are enqueued.
    pub shuffle: Option<rand::rngs::StdRng>,
}

/// `a` goes before `b`: by the receiver, and then by the prefix.
pub open spec fn goes_before<T>(a: EventView<T>, b: EventView<T>) -> bool {
    a.router() < b.router() || (a.router() == b.router() && match (a.prefix(), b.prefix()) {
        (None, Some(_)) => true,
        (Some(x), Some(y)) => x < y,
        _ => false,
    })
}

/// List `r` holds the events of `s`, in the fixed order. Events that are equal in this respect keep
/// their order. Event `i` of `r` is event `from[i]` of `s`.
pub open spec fn is_ordered_from<T>(
    s: Seq<EventView<T>>,
    r: Seq<EventView<T>>,
    from: Seq<int>,
) -> bool {
    &&& r.len() == s.len()
    &&& from.len() == s.len()
    &&& from.no_duplicates()
    &&& forall|i: int| 0 <= i < r.len() ==> 0 <= #[trigger] from[i] < s.len() && r[i] == s[from[i]]
    &&& forall|i: int, j: int|
        0 <= i < j < r.len() ==> goes_before(#[trigger] r[i], #[trigger] r[j]) || (!goes_before(
            r[j],
            r[i],
        ) && from[i] < from[j])
}

/// List `r` is list `s`, brought into the fixed order. Events that are equal in this respect keep their
/// order.
pub open spec fn is_ordering_of<T>(s: Seq<EventView<T>>, r: Seq<EventView<T>>) -> bool {
    exists|from: Seq<int>| is_ordered_from(s, r, from)
}

fn is_before<T: Copy>(a: &Event<T>, b: &Event<T>) -> (r: bool)
    ensures
        r == goes_before(a@, b@),
{
    if a.router() != b.router() {
        return a.router() < b.router();
    }
    match (a.prefix(), b.prefix()) {
        (None, Some(_)) => true,
        (Some(x), Some(y)) => x < y,
        _ => false,
    }
}

/// Bring events into the fixed order. Events that are equal in this respect keep their order.
pub fn sort_events<T: Copy>(events: Vec<Event<T>>) -> (r: Vec<Event<T>>)
    ensures
        r@.to_multiset() == events@.to_multiset(),
        is_ordering_of(views(events@), views(r@)),
{
    let ghost all = events@;
    let mut sorted: Vec<Event<T>> = Vec::new();
    let ghost mut from: Seq<int> = seq![];
    proof {
        assert(all.take(0) =~= Seq::<Event<T>>::empty());
        assert(sorted@ =~= Seq::<Event<T>>::empty());
    }
    for event in it: events
        invariant
            it.seq() == all,
            sorted@.to_multiset() == all.take(it.index() as int).to_multiset(),
            is_ordered_from(views(all.take(it.index() as int)), views(sorted@), from),
    {
        let ghost k = it.index() as int;
        let ghost before = sorted@;
        let mut i: usize = sorted.len();
        while i > 0 && is_before(&event, &sorted[i - 1])
            invariant
                i <= sorted@.len(),
                sorted@ == before,
                forall|j: int| i <= j < before.len() ==> goes_before(event@, (#[trigger] before[j])@),
            decreases i,
        {
            i -= 1;
        }
        let ghost at = i as int;
        sorted.insert(i, event);
        proof {
            assert forall|j: int| at <= j < before.len() implies goes_before(
                event@,
                #[trigger] views(before)[j],
            ) by {
                assert(goes_before(event@, before[j]@));
            }
            lemma_insert_ordered(views(all.take(k)), views(before), from, event@, at);
            from = from.insert(at, k);
            assert(all.take(k + 1) =~= all.take(k).push(event));
            assert(views(all.take(k + 1)) =~= views(all.take(k)).push(event@));
            assert(views(sorted@) =~= views(before).insert(at, event@));
            vstd::seq_lib::to_multiset_build(all.take(k), event);
            vstd::seq_lib::to_multiset_insert(before, at, event);
        }
    }
    assert(all.take(all.len() as int) =~= all);
    sorted
}

/// An event that is inserted behind the last one that does not go after it keeps the order.
proof fn lemma_insert_ordered<T>(
    s: Seq<EventView<T>>,
    r: Seq<EventView<T>>,
    from: Seq<int>,
    e: EventView<T>,
    at: int,
)
    requires
        is_ordered_from(s, r, from),
        0 <= at <= r.len(),
        forall|j: int| at <= j < r.len() ==> goes_before(e, #[trigger] r[j]),
        at > 0 ==> !goes_before(e, r[at - 1]),
    ensures
        is_ordered_from(s.push(e), r.insert(at, e), from.insert(at, s.len() as int)),
{
    let n = s.len() as int;
    let (s2, r2, from2) = (s.push(e), r.insert(at, e), from.insert(at, n));
    assert forall|j: int| 0 <= j < at implies !goes_before(e, #[trigger] r[j]) by {
        if j < at - 1 {
            assert(!goes_before(r[at - 1], r[j]));
        }
    }
    assert forall|j: int| 0 <= j < r2.len() implies 0 <= #[trigger] from2[j] < s2.len() && r2[j]
        == s2[from2[j]] by {
        if j < at {
            assert(from2[j] == from[j] && r2[j] == r[j]);
        } else if j > at {
            assert(from2[j] == from[j - 1] && r2[j] == r[j - 1]);
        }
    }
    assert forall|i: int, j: int| 0 <= i < j < r2.len() implies goes_before(
        #[trigger] r2[i],
        #[trigger] r2[j],
    ) || (!goes_before(r2[j], r2[i]) && from2[i] < from2[j]) by {
        if j < at {
            assert(r2[i] == r[i] && r2[j] == r[j]);
        } else if j == at {
            assert(r2[i] == r[i] && from2[i] == from[i] && from[i] < n);
        } else if i == at {
            assert(r2[j] == r[j - 1]);
        } else if i < at {
            assert(r2[i] == r[i] && r2[j] == r[j - 1]);
        } else {
            assert(r2[i] == r[i - 1] && r2[j] == r[j - 1]);
        }
    }
    assert forall|i: int, j: int| 0 <= i < from2.len() && 0 <= j < from2.len() && i
        != j implies from2[i] != from2[j] by {
        let i0: int = if i < at { i } else { i - 1 };
        let j0: int = if j < at { j } else { j - 1 };
        if i == at {
            assert(from2[j] == from[j0] && from[j0] < n);
        } else if j == at {
            assert(from2[i] == from[i0] && from[i0] < n);
        } else {
            assert(from2[i] == from[i0] && from2[j] == from[j0]);
        }
    }
}

impl<Q> OrderedEventQueue<Q> {
    pub fn new(rng: Option<rand::rngs::StdRng>, queue: Q) -> (r: Self)
        ensures
            r.inner_queue == queue,
            r.shuffle == rng,
    {
        OrderedEventQueue { inner_queue: queue, shuffle: rng }
    }
}

impl<Q> NotFilteringQueue for OrderedEventQueue<Q> {

}

impl<T: Copy, Q: EventQueue<T>> EventQueue<T> for OrderedEventQueue<Q> {
    open spec fn order(&self) -> Seq<EventView<T>> {
        self.inner_queue.order()
    }

    open spec fn capacity(&self) -> nat {
        self.inner_queue.capacity()
    }

    open spec fn stamp(&self, p: T) -> T {
        self.inner_queue.stamp(p)
    }

    open spec fn inserted(order: Seq<EventView<T>>, e: EventView<T>) -> Seq<EventView<T>> {
        Q::inserted(order, e)
    }

    proof fn inserted_keeps(order: Seq<EventView<T>>, e: EventView<T>) {
        Q::inserted_keeps(order, e);
    }

    fn push(&mut self, event: Event<T>)
        ensures
            final(self).shuffle == old(self).shuffle,
    {
        self.inner_queue.push(event);
    }

    fn pop(&mut self) -> (r: Option<Event<T>>)
        ensures
            final(self).shuffle == old(self).shuffle,
    {
        self.inner_queue.pop()
    }

    fn peek(&self) -> (r: Option<&Event<T>>) {
        self.inner_queue.peek()
    }

    fn len(&self) -> (r: usize) {
        self.inner_queue.len()
    }

    fn is_empty(&self) -> (r: bool) {
        self.inner_queue.is_empty()
    }

    fn clear(&mut self) {
        self.inner_queue.clear();
    }
}

impl<T: Copy, Q: EventQueue<T>> BatchQueue<T> for OrderedEventQueue<Q> {
    /// The fixed order, which is shuffled if there is a source of randomness.
    open spec fn arranges(&self, events: Seq<EventView<T>>, arranged: Seq<EventView<T>>) -> bool {
        &&& arranged.to_multiset() == events.to_multiset()
        &&& match self.shuffle {
            None => is_ordering_of(events, arranged),
            Some(rng) => exists|sorted: Seq<EventView<T>>| #[trigger]
                is_ordering_of(events, sorted) && is_permuted(
                    sorted,
                    shuffle_draw(rng, events.len()).0,
                    arranged,
                ),
        }
    }

    fn push_many(&mut self, events: Vec<Event<T>>)
        ensures
            final(self).shuffle == match old(self).shuffle {
                Some(rng) => Some(shuffle_draw(rng, events@.len()).1),
                None => None,
            },
    {
        let ghost all = events@;
        let mut sorted: Vec<Event<T>> = sort_events(events);
        let ghost in_order = sorted@;
        match &mut self.shuffle {
            Some(rng) => {
                shuffle(&mut sorted, rng);
            },
            None => {},
        }
        let ghost arranged = stamped(*self, sorted@);
        proof {
            let f = |e: Event<T>| e@.at(old(self).stamp(e@.priority()));
            assert(stamped(*old(self), all) =~= all.map_values(f));
            assert(arranged =~= sorted@.map_values(f));
            lemma_map_multiset(sorted@, all, f);
            let (u, v) = (views(all), views(in_order));
            let from = choose|from: Seq<int>| is_ordered_from(u, v, from);
            let w = stamped(*old(self), all);
            let x = stamped(*old(self), in_order);
            assert forall|i: int, j: int| 0 <= i < j < x.len() implies goes_before(
                #[trigger] x[i],
                #[trigger] x[j],
            ) || (!goes_before(x[j], x[i]) && from[i] < from[j]) by {
                assert(goes_before(v[i], v[j]) || (!goes_before(v[j], v[i]) && from[i] < from[j]));
            }
            assert forall|i: int| 0 <= i < x.len() implies 0 <= #[trigger] from[i] < w.len()
                && x[i] == w[from[i]] by {
                assert(v[i] == u[from[i]]);
                assert(u[from[i]] == all[from[i]]@);
            }
            assert(is_ordered_from(w, x, from));
            assert(is_ordering_of(w, x));
            if let Some(rng) = old(self).shuffle {
                let drawn = shuffle_draw(rng, all.len()).0;
                assert(is_permuted(in_order, drawn, sorted@));
                assert(is_permuted(x, drawn, arranged));
            } else {
                assert(arranged =~= x);
            }
        }
        let ghost before = self.order();
        push_each(&mut self.inner_queue, sorted);
        proof {
            assert(stamped(old(self).inner_queue, sorted@) =~= arranged);
            lemma_same_pushes::<T, Q>(before, arranged);
            assert(old(self).arranges(stamped(*old(self), all), arranged));
        }
    }
}

/// No two of the events have the same receiver and prefix.
pub open spec fn have_distinct_targets<T>(events: Seq<EventView<T>>) -> bool {
    forall|i: int, j: int|
        0 <= i < j < events.len() ==> (#[trigger] events[i]).router() != (
        #[trigger] events[j]).router() || events[i].prefix() != events[j].prefix()
}

/// Each of the events goes before those behind it.
pub open spec fn is_strictly_ordered<T>(events: Seq<EventView<T>>) -> bool {
    forall|i: int, j: int|
        0 <= i < j < events.len() ==> goes_before(#[trigger] events[i], #[trigger] events[j])
}

/// A queue without a source of randomness pushes events that differ in receiver or prefix in the strictly
/// ascending order of both, each of them once. So it does not matter in which order they are handed over.
pub proof fn law_fixed_order_of_a_batch<T: Copy, Q: EventQueue<T>>(
    queue: OrderedEventQueue<Q>,
    events: Seq<Event<T>>,
    permuted: Seq<Event<T>>,
    a: Seq<EventView<T>>,
    b: Seq<EventView<T>>,
)
    requires
        queue.shuffle is None,
        have_distinct_targets(views(events)),
        permuted.to_multiset() == events.to_multiset(),
        queue.arranges(stamped(queue, events), a),
        queue.arranges(stamped(queue, permuted), b),
    ensures
        a.to_multiset() == stamped(queue, events).to_multiset(),
        is_strictly_ordered(a),
        a == b,
        pushed_in_turn::<T, Q>(queue.order(), a) == pushed_in_turn::<T, Q>(queue.order(), b),
{
    let f = |e: Event<T>| e@.at(queue.stamp(e@.priority()));
    let (s, t) = (stamped(queue, events), stamped(queue, permuted));
    assert(s =~= events.map_values(f));
    assert(t =~= permuted.map_values(f));
    lemma_map_multiset(permuted, events, f);
    assert(have_distinct_targets(s)) by {
        let v = views(events);
        assert forall|i: int, j: int| 0 <= i < j < s.len() implies (#[trigger] s[i]).router() != (
        #[trigger] s[j]).router() || s[i].prefix() != s[j].prefix() by {
            assert(v[i].router() != v[j].router() || v[i].prefix() != v[j].prefix());
        }
    }
    lemma_strictly_ordered(s, a);
    lemma_permuted_distinct_targets(s, t);
    lemma_strictly_ordered(t, b);
    lemma_strict_order_is_unique(a, b);
}

/// A queue with a source of randomness pushes each event once, in some order. If they differ in receiver
/// or prefix, then it does not matter in which order they are handed over, either.
pub proof fn law_some_order_of_a_batch<T: Copy, Q: EventQueue<T>>(
    queue: OrderedEventQueue<Q>,
    events: Seq<Event<T>>,
    permuted: Seq<Event<T>>,
    a: Seq<EventView<T>>,
    b: Seq<EventView<T>>,
)
    requires
        queue.shuffle is Some,
        permuted.to_multiset() == events.to_multiset(),
        queue.arranges(stamped(queue, events), a),
        queue.arranges(stamped(queue, permuted), b),
    ensures
        a.to_multiset() == stamped(queue, events).to_multiset(),
        have_distinct_targets(views(events)) ==> a == b,
{
    if have_distinct_targets(views(events)) {
        let (s, t) = (stamped(queue, events), stamped(queue, permuted));
        let rng = queue.shuffle->0;
        vstd::seq_lib::to_multiset_len(events);
        vstd::seq_lib::to_multiset_len(permuted);
        let x = choose|x: Seq<EventView<T>>| #[trigger]
            is_ordering_of(s, x) && is_permuted(x, shuffle_draw(rng, s.len()).0, a);
        let y = choose|y: Seq<EventView<T>>| #[trigger]
            is_ordering_of(t, y) && is_permuted(y, shuffle_draw(rng, t.len()).0, b);
        lemma_permutation(s, x);
        lemma_permutation(t, y);
        let fixed = OrderedEventQueue { inner_queue: queue.inner_queue, shuffle: None };
        assert(stamped(fixed, events) =~= s);
        assert(stamped(fixed, permuted) =~= t);
        law_fixed_order_of_a_batch(fixed, events, permuted, x, y);
        let from = shuffle_draw(rng, s.len()).0;
        assert(s.len() == t.len());
        assert forall|i: int| 0 <= i < a.len() implies a[i] == b[i] by {
            assert(a[i] == x[from[i]]);
            assert(b[i] == y[from[i]]);
        }
        assert(a =~= b);
    }
}

/// Bringing events into order keeps each of them.
proof fn lemma_permutation<T>(s: Seq<EventView<T>>, r: Seq<EventView<T>>)
    requires
        is_ordering_of(s, r),
    ensures
        r.to_multiset() == s.to_multiset(),
{
    let from = choose|from: Seq<int>| is_ordered_from(s, r, from);
    lemma_permuted_multiset(s, r, from);
}

proof fn lemma_permuted_multiset<A>(s: Seq<A>, r: Seq<A>, from: Seq<int>)
    requires
        is_permuted(s, from, r),
    ensures
        r.to_multiset() == s.to_multiset(),
    decreases s.len(),
{
    broadcast use vstd::seq_lib::group_to_multiset_ensures;

    if s.len() == 0 {
        assert(r =~= s);
    } else {
        let n = s.len() - 1;
        let k = from[n];
        let (s0, r0) = (s.remove(k), r.drop_last());
        let from0 = Seq::new(
            n as nat,
            |i: int| if from[i] < k {
                from[i]
            } else {
                from[i] - 1
            },
        );
        assert forall|i: int| 0 <= i < n implies 0 <= #[trigger] from0[i] < s0.len() && r0[i]
            == s0[from0[i]] by {
            assert(from[i] != from[n]);
            assert(r[i] == s[from[i]]);
        }
        assert forall|i: int, j: int| 0 <= i < n && 0 <= j < n && i != j implies from0[i]
            != from0[j] by {
            assert(from[i] != from[j]);
            assert(from[i] != from[n] && from[j] != from[n]);
        }
        lemma_permuted_multiset(s0, r0, from0);
        assert(r =~= r0.push(r[n]));
        vstd::seq_lib::to_multiset_build(r0, r[n]);
        vstd::seq_lib::to_multiset_remove(s, k);
        assert(r[n] == s[k]);
        assert(s0.to_multiset().insert(s[k]) =~= s.to_multiset()) by {
            assert(s.to_multiset().count(s[k]) > 0);
        }
    }
}

/// Events with distinct targets are strictly ordered once they are ordered.
proof fn lemma_strictly_ordered<T>(s: Seq<EventView<T>>, a: Seq<EventView<T>>)
    requires
        have_distinct_targets(s),
        is_ordering_of(s, a),
    ensures
        is_strictly_ordered(a),
{
    let from = choose|from: Seq<int>| is_ordered_from(s, a, from);
    assert forall|i: int, j: int| 0 <= i < j < a.len() implies goes_before(
        #[trigger] a[i],
        #[trigger] a[j],
    ) by {
        let (x, y) = (from[i], from[j]);
        assert(x != y);
        assert(a[i] == s[x] && a[j] == s[y]);
        if x < y {
            assert(s[x].router() != s[y].router() || s[x].prefix() != s[y].prefix());
        } else {
            assert(s[y].router() != s[x].router() || s[y].prefix() != s[x].prefix());
        }
    }
}

/// Events have distinct targets in any order.
proof fn lemma_permuted_distinct_targets<T>(s: Seq<EventView<T>>, t: Seq<EventView<T>>)
    requires
        have_distinct_targets(s),
        t.to_multiset() == s.to_multiset(),
    ensures
        have_distinct_targets(t),
{
    broadcast use vstd::seq_lib::group_to_multiset_ensures;

    assert forall|i: int, j: int| 0 <= i < j < t.len() implies (#[trigger] t[i]).router() != (
    #[trigger] t[j]).router() || t[i].prefix() != t[j].prefix() by {
        assert(s.to_multiset().count(t[i]) > 0 && s.to_multiset().count(t[j]) > 0) by {
            assert(t.contains(t[i]) && t.contains(t[j]));
        }
        let x = choose|x: int| 0 <= x < s.len() && s[x] == t[i];
        let y = choose|y: int| 0 <= y < s.len() && s[y] == t[j];
        assert(s.contains(t[i]) && s.contains(t[j]));
        if x == y {
            let e = t[i];
            vstd::seq_lib::to_multiset_remove(t, j);
            let rest = t.remove(j);
            assert(rest[i] == e && rest.contains(e));
            assert(rest.to_multiset().count(e) > 0);
            assert(t.to_multiset().count(e) >= 2);
            vstd::seq_lib::to_multiset_remove(s, x);
            let others = s.remove(x);
            assert(others.to_multiset().count(e) >= 1);
            assert(others.contains(e));
            let z = choose|z: int| 0 <= z < others.len() && others[z] == e;
            let z2: int = if z < x { z } else { z + 1 };
            assert(s[z2] == e && z2 != x);
            if z2 < x {
                assert(s[z2].router() != s[x].router() || s[z2].prefix() != s[x].prefix());
            } else {
                assert(s[x].router() != s[z2].router() || s[x].prefix() != s[z2].prefix());
            }
        } else if x < y {
            assert(s[x].router() != s[y].router() || s[x].prefix() != s[y].prefix());
        } else {
            assert(s[y].router() != s[x].router() || s[y].prefix() != s[x].prefix());
        }
    }
}

/// There is only one strict order of some events.
proof fn lemma_strict_order_is_unique<T>(a: Seq<EventView<T>>, b: Seq<EventView<T>>)
    requires
        is_strictly_ordered(a),
        is_strictly_ordered(b),
        a.to_multiset() == b.to_multiset(),
    ensures
        a == b,
    decreases a.len(),
{
    broadcast use vstd::seq_lib::group_to_multiset_ensures;

    vstd::seq_lib::to_multiset_len(a);
    vstd::seq_lib::to_multiset_len(b);
    if a.len() == 0 {
        assert(a =~= b);
    } else {
        let n = a.len() - 1;
        let (x, y) = (a[n], b[n]);
        assert(a.contains(x) && b.contains(y));
        assert(b.to_multiset().count(x) > 0 && a.to_multiset().count(y) > 0);
        let i = choose|i: int| 0 <= i < b.len() && b[i] == x;
        let j = choose|j: int| 0 <= j < a.len() && a[j] == y;
        assert(b.contains(x) && a.contains(y));
        if i < n && j < n {
            assert(goes_before(b[i], b[n]));
            assert(goes_before(a[j], a[n]));
        }
        assert(x == y);
        let (a0, b0) = (a.drop_last(), b.drop_last());
        assert(a =~= a0.push(x));
        assert(b =~= b0.push(x));
        vstd::seq_lib::to_multiset_build(a0, x);
        vstd::seq_lib::to_multiset_build(b0, x);
        assert(a0.to_multiset() =~= a.to_multiset().remove(x));
        assert(b0.to_multiset() =~= b.to_multiset().remove(x));
        lemma_strict_order_is_unique(a0, b0);
    }
}

/// Pushing into the inner queue is pushing into the queue.
proof fn lemma_same_pushes<T: Copy, Q: EventQueue<T>>(
    order: Seq<EventView<T>>,
    events: Seq<EventView<T>>,
)
    ensures
        pushed_in_turn::<T, OrderedEventQueue<Q>>(order, events) == pushed_in_turn::<T, Q>(
            order,
            events,
        ),
    decreases events.len(),
{
    if events.len() > 0 {
        lemma_same_pushes::<T, Q>(order, events.drop_last());
    }
}

/// Lists with the same elements have the same images.
proof fn lemma_map_multiset<A, B>(a: Seq<A>, b: Seq<A>, f: spec_fn(A) -> B)
    requires
        a.to_multiset() == b.to_multiset(),
    ensures
        a.map_values(f).to_multiset() == b.map_values(f).to_multiset(),
    decreases a.len(),
{
    broadcast use vstd::seq_lib::group_to_multiset_ensures;

    if a.len() == 0 {
        assert(b.len() == 0) by {
            vstd::seq_lib::to_multiset_len(a);
            vstd::seq_lib::to_multiset_len(b);
        }
        assert(a.map_values(f) =~= b.map_values(f));
    } else {
        let x = a.last();
        let init = a.drop_last();
        assert(a =~= init.push(x));
        vstd::seq_lib::to_multiset_build(init, x);
        assert(a.to_multiset().count(x) > 0);
        assert(b.to_multiset().count(x) > 0);
        vstd::seq_lib::to_multiset_contains(b, x);
        let j = choose|j: int| 0 <= j < b.len() && b[j] == x;
        let rest = b.remove(j);
        vstd::seq_lib::to_multiset_remove(b, j);
        assert(init.to_multiset() =~= a.to_multiset().remove(x));
        assert(rest.to_multiset() =~= b.to_multiset().remove(x));
        lemma_map_multiset(init, rest, f);
        assert(a.map_values(f) =~= init.map_values(f).push(f(x)));
        vstd::seq_lib::to_multiset_build(init.map_values(f), f(x));
        assert(rest.map_values(f) =~= b.map_values(f).remove(j));
        vstd::seq_lib::to_multiset_remove(b.map_values(f), j);
        assert(b.map_values(f)[j] == f(x));
        assert(b.map_values(f).to_multiset() =~= rest.map_values(f).to_multiset().insert(f(x)));
    }
}

// ---------------------------------------------------------------------------------------------
// Failures
// ---------------------------------------------------------------------------------------------
/// A queue on which a failure acts. It acts when events are popped, so that those are affected, too,
/// that were enqueued before the failure.
pub struct FailureQueue<Q> {
    pub inner_queue: Q,
    /// There is only ever one failure.
    pub failure: Failure,
}

/// Event `i` is the first that survives the failure, as `e`.
pub open spec fn first_survivor<T>(
    failure: Failure,
    order: Seq<EventView<T>>,
    i: int,
    e: EventView<T>,
) -> bool {
    &&& 0 <= i < order.len()
    &&& failure.applied(order[i]) == Some(e)
    &&& forall|j: int| 0 <= j < i ==> failure.applied(#[trigger] order[j]) is None
}

/// The failure drops all events before event `i`.
pub open spec fn is_reached<T>(failure: Failure, order: Seq<EventView<T>>, i: int) -> bool {
    &&& 0 <= i < order.len()
    &&& forall|j: int| 0 <= j < i ==> failure.applied(#[trigger] order[j]) is None
}

impl<Q> FailureQueue<Q> {
    pub fn new(failure: Failure, queue: Q) -> (r: Self)
        ensures
            r.inner_queue == queue,
            r.failure == failure,
    {
        FailureQueue { inner_queue: queue, failure }
    }

    /// Enqueue an event.
    pub fn push<T: Copy>(&mut self, event: Event<T>) where Q: EventQueue<T>
        ensures
            final(self).failure == old(self).failure,
            final(self).inner_queue.order() == Q::inserted(
                old(self).inner_queue.order(),
                event@.at(old(self).inner_queue.stamp(event@.priority())),
            ),
            final(self).inner_queue.capacity() == old(self).inner_queue.capacity(),
    {
        self.inner_queue.push(event);
    }

    /// Enqueue events that occur at the same time, in the order of the inner queue.
    pub fn push_many<T: Copy>(&mut self, events: Vec<Event<T>>) where Q: BatchQueue<T>
        ensures
            final(self).failure == old(self).failure,
            exists|arranged: Seq<EventView<T>>| #[trigger]
                old(self).inner_queue.arranges(
                    stamped(old(self).inner_queue, events@),
                    arranged,
                ) && final(self).inner_queue.order() == pushed_in_turn::<T, Q>(
                    old(self).inner_queue.order(),
                    arranged,
                ),
            final(self).inner_queue.capacity() == old(self).inner_queue.capacity(),
    {
        self.inner_queue.push_many(events);
    }

    /// The next event of the inner queue. The failure has not acted on it yet.
    pub fn peek<T: Copy>(&self) -> (r: Option<&Event<T>>) where Q: EventQueue<T>
        ensures
            match r {
                Some(e) => self.inner_queue.order().len() > 0 && e@ == self.inner_queue.order()[0],
                None => self.inner_queue.order().len() == 0,
            },
    {
        self.inner_queue.peek()
    }

    /// The number of events, with those that the failure will drop.
    pub fn len<T: Copy>(&self) -> (r: usize) where Q: EventQueue<T>
        ensures
            r == self.inner_queue.order().len(),
    {
        self.inner_queue.len()
    }

    /// Whether there is no event, not even one that the failure will drop.
    pub fn is_empty<T: Copy>(&self) -> (r: bool) where Q: EventQueue<T>
        ensures
            r == (self.inner_queue.order().len() == 0),
    {
        self.inner_queue.is_empty()
    }

    /// Drop all events. The failure remains.
    pub fn clear<T: Copy>(&mut self) where Q: EventQueue<T>
        ensures
            final(self).failure == old(self).failure,
            final(self).inner_queue.order().len() == 0,
            final(self).inner_queue.capacity() == old(self).inner_queue.capacity(),
    {
        self.inner_queue.clear();
    }

    /// Dequeue the next event that survives the failure.
    pub fn pop<T: Copy>(&mut self) -> (r: Option<Event<T>>) where Q: EventQueue<T>
        requires
            forall|i: int|
                is_reached(old(self).failure, old(self).inner_queue.order(), i)
                    ==> old(self).failure.is_applicable(
                    #[trigger] old(self).inner_queue.order()[i],
                ),
            old(self).inner_queue.order().len() <= old(self).inner_queue.capacity(),
        ensures
            final(self).failure == old(self).failure,
            match r {
                Some(e) => exists|i: int| #[trigger]
                    first_survivor(old(self).failure, old(self).inner_queue.order(), i, e@)
                        && final(self).inner_queue.order() == old(self).inner_queue.order().skip(
                        i + 1,
                    ),
                None => final(self).inner_queue.order().len() == 0 && forall|i: int|
                    0 <= i < old(self).inner_queue.order().len() ==> old(self).failure.applied(
                        #[trigger] old(self).inner_queue.order()[i],
                    ) is None,
            },
    {
        let ghost all = self.inner_queue.order();
        let ghost mut k: int = 0;
        assert(all.skip(0) =~= all);
        loop
            invariant
                self.failure == old(self).failure,
                forall|i: int|
                    is_reached(self.failure, all, i) ==> self.failure.is_applicable(
                        #[trigger] all[i],
                    ),
                all == old(self).inner_queue.order(),
                0 <= k <= all.len(),
                self.inner_queue.order() == all.skip(k),
                self.inner_queue.order().len() <= self.inner_queue.capacity(),
                forall|j: int| 0 <= j < k ==> self.failure.applied(#[trigger] all[j]) is None,
            decreases all.len() - k,
        {
            match self.inner_queue.pop() {
                Some(event) => {
                    proof {
                        assert(event@ == all[k]);
                        assert(is_reached(self.failure, all, k));
                        assert(all.skip(k).skip(1) =~= all.skip(k + 1));
                    }
                    match self.failure.apply(event) {
                        Some(e) => {
                            assert(first_survivor(self.failure, all, k, e@));
                            return Some(e);
                        },
                        None => {},
                    }
                    proof {
                        k = k + 1;
                    }
                },
                None => {
                    return None;
                },
            }
        }
    }
}

/// The fixed order of events goes by the receiver, whatever else they are about. Of two events for one
/// router, those that are about no prefix go first, and then a smaller prefix does. It is an order.
pub proof fn law_fixed_order<T>(a: EventView<T>, b: EventView<T>, c: EventView<T>)
    ensures
        a.router() < b.router() ==> goes_before(a, b),
        a.router() == b.router() && a is Ospf && b is Bgp ==> goes_before(a, b),
        a.router() == b.router() && a is Bgp && b is Bgp && a.prefix()->0 < b.prefix()->0
            ==> goes_before(a, b),
        a.router() == b.router() && a.prefix() == b.prefix() ==> !goes_before(a, b),
        goes_before(a, b) ==> !goes_before(b, a),
        goes_before(a, b) && goes_before(b, c) ==> goes_before(a, c),
        a.router() != b.router() || a.prefix() != b.prefix() ==> goes_before(a, b) || goes_before(
            b,
            a,
        ),
{
}

/// Events that are popped are counted one by one, from 0.
pub proof fn law_counting_triggers(n: usize, k: nat)
    requires
        n < usize::MAX,
        k <= usize::MAX,
    ensures
        next_trigger(TriggerId(None)) == TriggerId(Some(0)),
        next_trigger(TriggerId(Some(n))).0 matches Some(m) && m == n + 1,
        next_trigger(trigger_after(k)) == trigger_after(k + 1),
        trigger_after(0) == TriggerId(None),
{
}

/// What survives a failure is the first event that is not lost, with what the failure makes of it. All
/// events in front of it are lost.
pub proof fn law_first_survivor<T>(
    failure: Failure,
    order: Seq<EventView<T>>,
    i: int,
    e: EventView<T>,
    j: int,
    d: EventView<T>,
)
    requires
        first_survivor(failure, order, i, e),
        first_survivor(failure, order, j, d),
    ensures
        i == j,
        e == d,
        e.source() == order[i].source(),
        e.router() == order[i].router(),
        failure.applied(order[i]) is Some,
        forall|k: int| 0 <= k < i ==> failure.applied(#[trigger] order[k]) is None,
{
    if i < j {
        assert(failure.applied(order[i]) is None);
    } else if j < i {
        assert(failure.applied(order[j]) is None);
    }
    crate::failure::law_failure_keeps_the_session(failure, order[i]);
}

/// A queue that marks its messages appends them in their order, with the mark of the message that was
/// dequeued last.
pub proof fn law_messages_are_appended(
    queue: TriggerQueue,
    order: Seq<EventView<TriggerId>>,
    events: Seq<EventView<TriggerId>>,
    p: TriggerId,
)
    ensures
        pushed_in_turn::<TriggerId, TriggerQueue>(order, events) == order + events,
        queue.stamp(p) == queue.last_event_id,
    decreases events.len(),
{
    if events.len() > 0 {
        law_messages_are_appended(queue, order, events.drop_last(), p);
        assert((order + events.drop_last()).push(events.last()) =~= order + events);
    } else {
        assert(order + events =~= order);
    }
}

} // verus!
