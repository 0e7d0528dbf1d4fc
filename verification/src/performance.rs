//! Replaying the messages of real networks, to see how fast the monitors are.
use std::collections::HashMap;
use vstd::prelude::*;
use vstd::std_specs::hash::*;

use crate::bgp::{timeless, AsId, Event, RouterId, Time};
use crate::keyed::Keyed;
use crate::number_set::NumberSet;
use crate::reordering_measurement::ReorderingQueue;
use crate::session_queue::{later, later_than};

verus! {

/// A message of a peer. Without a path, it is a withdrawal.
#[derive(Debug)]
pub struct AbstractMessage {
    pub peer: usize,
    pub path: Option<Vec<AsId>>,
    pub timestamp: Time,
}

/// The paths are equal.
pub open spec fn same_path(a: Option<Vec<AsId>>, b: Option<Vec<AsId>>) -> bool {
    match (a, b) {
        (Some(x), Some(y)) => x@ == y@,
        (None, None) => true,
        _ => false,
    }
}

/// The messages say the same, perhaps at different times.
pub open spec fn same_message(a: AbstractMessage, b: AbstractMessage) -> bool {
    a.peer == b.peer && same_path(a.path, b.path)
}

impl AbstractMessage {
    pub fn new(peer: usize, path: Option<Vec<AsId>>, timestamp: Time) -> (r: Self)
        ensures
            r == (AbstractMessage { peer, path, timestamp }),
    {
        AbstractMessage { peer, path, timestamp }
    }

    /// Whether the messages say the same.
    pub fn same(&self, other: &Self) -> (r: bool)
        ensures
            r == same_message(*self, *other),
    {
        self.peer == other.peer && match (&self.path, &other.path) {
            (Some(a), Some(b)) => crate::bgp::same_list(a, b),
            (None, None) => true,
            _ => false,
        }
    }

    /// The external router that sends the message in the simulation.
    pub fn sender(&self, external_lookup: &Vec<RouterId>) -> (r: RouterId)
        requires
            external_lookup@.len() > 0,
        ensures
            r == external_lookup@[self.peer as int % external_lookup@.len() as int],
    {
        external_lookup[self.peer % external_lookup.len()]
    }
}

/// Message `a` comes after message `b`: by time, or by peer first.
pub open spec fn comes_after(a: AbstractMessage, b: AbstractMessage, by_peer: bool) -> bool {
    if by_peer && a.peer != b.peer {
        a.peer > b.peer
    } else {
        a.timestamp > b.timestamp
    }
}

fn is_after(a: &AbstractMessage, b: &AbstractMessage, by_peer: bool) -> (r: bool)
    ensures
        r == comes_after(*a, *b, by_peer),
{
    if by_peer && a.peer != b.peer {
        a.peer > b.peer
    } else {
        a.timestamp > b.timestamp
    }
}

/// The list with a further message, before all at the end that come after it.
pub open spec fn with_message(
    s: Seq<AbstractMessage>,
    m: AbstractMessage,
    by_peer: bool,
) -> Seq<AbstractMessage>
    decreases s.len(),
{
    if s.len() > 0 && comes_after(s.last(), m, by_peer) {
        with_message(s.drop_last(), m, by_peer).push(s.last())
    } else {
        s.push(m)
    }
}

/// The messages, sorted by time, or by peer and then by time. Equal ones keep their order.
pub open spec fn sorted(s: Seq<AbstractMessage>, by_peer: bool) -> Seq<AbstractMessage>
    decreases s.len(),
{
    if s.len() == 0 {
        s
    } else {
        with_message(sorted(s.drop_last(), by_peer), s.last(), by_peer)
    }
}

/// The messages without those that say the same as the one before.
pub open spec fn deduped(s: Seq<AbstractMessage>) -> Seq<AbstractMessage>
    decreases s.len(),
{
    if s.len() == 0 {
        s
    } else {
        let init = deduped(s.drop_last());
        if init.len() > 0 && same_message(init.last(), s.last()) {
            init
        } else {
            init.push(s.last())
        }
    }
}

/// The messages of a finished task: a peer that repeats itself is heard only once, and the messages are
/// in the order of their times.
pub open spec fn finished(s: Seq<AbstractMessage>) -> Seq<AbstractMessage> {
    sorted(deduped(sorted(s, true)), false)
}

proof fn lemma_with_message(s: Seq<AbstractMessage>, m: AbstractMessage, by_peer: bool, i: int)
    requires
        0 <= i <= s.len(),
        i == 0 || !comes_after(s[i - 1], m, by_peer),
        forall|j: int| i <= j < s.len() ==> comes_after(#[trigger] s[j], m, by_peer),
    ensures
        with_message(s, m, by_peer) == s.insert(i, m),
    decreases s.len(),
{
    if i < s.len() {
        lemma_with_message(s.drop_last(), m, by_peer, i);
        assert(s.insert(i, m) =~= s.drop_last().insert(i, m).push(s.last()));
    } else {
        assert(s.insert(i, m) =~= s.push(m));
    }
}

fn sort_messages(list: Vec<AbstractMessage>, by_peer: bool) -> (r: Vec<AbstractMessage>)
    ensures
        r@ == sorted(list@, by_peer),
{
    let ghost all = list@;
    let mut r: Vec<AbstractMessage> = Vec::new();
    assert(all.take(0) =~= Seq::<AbstractMessage>::empty());
    for m in it: list
        invariant
            it.seq() == all,
            r@ == sorted(all.take(it.index() as int), by_peer),
    {
        let ghost k = it.index() as int;
        let ghost before = r@;
        let mut i: usize = r.len();
        while i > 0 && is_after(&r[i - 1], &m, by_peer)
            invariant
                i <= r@.len(),
                r@ == before,
                forall|j: int| i <= j < before.len() ==> comes_after(#[trigger] before[j], m, by_peer),
            decreases i,
        {
            i -= 1;
        }
        proof {
            assert(all.take(k + 1).drop_last() =~= all.take(k));
            assert(all.take(k + 1).last() == m);
            lemma_with_message(before, m, by_peer, i as int);
        }
        r.insert(i, m);
    }
    assert(all.take(all.len() as int) =~= all);
    r
}

fn dedup_messages(list: Vec<AbstractMessage>) -> (r: Vec<AbstractMessage>)
    ensures
        r@ == deduped(list@),
{
    let ghost all = list@;
    let mut r: Vec<AbstractMessage> = Vec::new();
    assert(all.take(0) =~= Seq::<AbstractMessage>::empty());
    for m in it: list
        invariant
            it.seq() == all,
            r@ == deduped(all.take(it.index() as int)),
    {
        let ghost k = it.index() as int;
        proof {
            assert(all.take(k + 1).drop_last() =~= all.take(k));
            assert(all.take(k + 1).last() == m);
        }
        if r.len() == 0 || !r[r.len() - 1].same(&m) {
            r.push(m);
        }
    }
    assert(all.take(all.len() as int) =~= all);
    r
}

proof fn lemma_sorted(s: Seq<AbstractMessage>, by_peer: bool)
    ensures
        sorted(s, by_peer).len() == s.len(),
        sorted(s, by_peer).to_multiset() == s.to_multiset(),
        forall|i: int, j: int|
            0 <= i <= j < s.len() ==> !comes_after(
                #[trigger] sorted(s, by_peer)[i],
                #[trigger] sorted(s, by_peer)[j],
                by_peer,
            ),
    decreases s.len(),
{
    broadcast use vstd::seq_lib::group_to_multiset_ensures;

    if s.len() > 0 {
        lemma_sorted(s.drop_last(), by_peer);
        lemma_inserted(sorted(s.drop_last(), by_peer), s.last(), by_peer);
        assert(s =~= s.drop_last().push(s.last()));
    }
}

proof fn lemma_inserted(s: Seq<AbstractMessage>, m: AbstractMessage, by_peer: bool)
    requires
        forall|i: int, j: int|
            0 <= i <= j < s.len() ==> !comes_after(#[trigger] s[i], #[trigger] s[j], by_peer),
    ensures
        with_message(s, m, by_peer).len() == s.len() + 1,
        with_message(s, m, by_peer).to_multiset() == s.to_multiset().insert(m),
        forall|i: int, j: int|
            0 <= i <= j < s.len() + 1 ==> !comes_after(
                #[trigger] with_message(s, m, by_peer)[i],
                #[trigger] with_message(s, m, by_peer)[j],
                by_peer,
            ),
        forall|i: int|
            0 <= i < s.len() + 1 ==> {
                ||| #[trigger] with_message(s, m, by_peer)[i] == m
                ||| exists|j: int| 0 <= j < s.len() && with_message(s, m, by_peer)[i] == #[trigger] s[j]
            },
    decreases s.len(),
{
    broadcast use vstd::seq_lib::group_to_multiset_ensures;

    let w = with_message(s, m, by_peer);
    if s.len() > 0 && comes_after(s.last(), m, by_peer) {
        let init = s.drop_last();
        lemma_inserted(init, m, by_peer);
        let v = with_message(init, m, by_peer);
        assert(s =~= init.push(s.last()));
        assert(s.to_multiset().insert(m) =~= init.to_multiset().insert(m).insert(s.last()));
        assert forall|i: int| 0 <= i < w.len() implies {
            ||| #[trigger] w[i] == m
            ||| exists|j: int| 0 <= j < s.len() && w[i] == #[trigger] s[j]
        } by {
            if i < v.len() {
                assert(w[i] == v[i]);
                if v[i] != m {
                    let j = choose|j: int| 0 <= j < init.len() && v[i] == #[trigger] init[j];
                    assert(w[i] == s[j]);
                }
            } else {
                assert(w[i] == s[s.len() - 1]);
            }
        }
        assert forall|i: int, j: int| 0 <= i <= j < w.len() implies !comes_after(
            #[trigger] w[i],
            #[trigger] w[j],
            by_peer,
        ) by {
            if j < v.len() {
                assert(!comes_after(v[i], v[j], by_peer));
            } else if i < v.len() {
                assert(w[i] == v[i]);
                if v[i] != m {
                    let k = choose|k: int| 0 <= k < init.len() && v[i] == #[trigger] init[k];
                    assert(!comes_after(s[k], s[s.len() - 1], by_peer));
                }
            }
        }
    } else {
        assert forall|i: int| 0 <= i < w.len() implies {
            ||| #[trigger] w[i] == m
            ||| exists|j: int| 0 <= j < s.len() && w[i] == #[trigger] s[j]
        } by {
            if i < s.len() {
                assert(w[i] == s[i]);
            }
        }
        assert forall|i: int, j: int| 0 <= i <= j < w.len() implies !comes_after(
            #[trigger] w[i],
            #[trigger] w[j],
            by_peer,
        ) by {
            if j < s.len() {
                assert(!comes_after(s[i], s[j], by_peer));
            } else if i < s.len() {
                assert(!comes_after(s[i], s[s.len() - 1], by_peer));
            }
        }
    }
}

/// The messages of a finished task are in the order of their times.
pub proof fn law_finished_messages_are_chronological(s: Seq<AbstractMessage>)
    ensures
        forall|i: int, j: int|
            0 <= i <= j < finished(s).len() ==> (#[trigger] finished(s)[i]).timestamp
                <= (#[trigger] finished(s)[j]).timestamp,
{
    lemma_sorted(deduped(sorted(s, true)), false);
}

/// Where all messages stand by peer and time, no message says the same as the one before, and no
/// message of a finished task was made up.
pub proof fn law_finished_messages_have_no_repetitions(s: Seq<AbstractMessage>)
    ensures
        forall|i: int|
            0 < i < deduped(sorted(s, true)).len() ==> !same_message(
                deduped(sorted(s, true))[i - 1],
                #[trigger] deduped(sorted(s, true))[i],
            ),
        finished(s).to_multiset() == deduped(sorted(s, true)).to_multiset(),
        deduped(sorted(s, true)).to_multiset().subset_of(s.to_multiset()),
{
    lemma_sorted(s, true);
    lemma_sorted(deduped(sorted(s, true)), false);
    lemma_deduped(sorted(s, true));
}

proof fn lemma_deduped(s: Seq<AbstractMessage>)
    ensures
        forall|i: int|
            0 < i < deduped(s).len() ==> !same_message(
                deduped(s)[i - 1],
                #[trigger] deduped(s)[i],
            ),
        deduped(s).to_multiset().subset_of(s.to_multiset()),
    decreases s.len(),
{
    broadcast use vstd::seq_lib::group_to_multiset_ensures;

    if s.len() > 0 {
        let init = s.drop_last();
        lemma_deduped(init);
        assert(s =~= init.push(s.last()));
    }
}

/// The messages on a prefix that follow each other closely.
#[derive(Debug)]
pub struct Task {
    pub start_timestamp: Time,
    pub end_timestamp: Time,
    pub messages: Vec<AbstractMessage>,
}

impl Task {
    /// A task that starts with a message.
    pub fn new(message: AbstractMessage) -> (r: Self)
        ensures
            r.start_timestamp == message.timestamp,
            r.end_timestamp == message.timestamp,
            r.messages@ == seq![message],
    {
        let (start_timestamp, end_timestamp): (Time, Time) = (message.timestamp, message.timestamp);
        let mut messages: Vec<AbstractMessage> = Vec::new();
        messages.push(message);
        assert(messages@ =~= seq![message]);
        Task { start_timestamp, end_timestamp, messages }
    }

    /// The task goes on with a message: it is earlier than `duration` after the last one.
    pub open spec fn goes_on(self, message: AbstractMessage, duration: Time) -> bool {
        later(self.end_timestamp, duration) > message.timestamp
    }

    /// A further message on the prefix. If the task does not go on, it is finished, and another one
    /// starts.
    pub fn update(&mut self, message: AbstractMessage, duration_between_events: Time) -> (r: Option<
        Task,
    >)
        ensures
            if old(self).goes_on(message, duration_between_events) {
                &&& r is None
                &&& final(self).start_timestamp == old(self).start_timestamp
                &&& final(self).end_timestamp == message.timestamp
                &&& final(self).messages@ == old(self).messages@.push(message)
            } else {
                &&& r matches Some(task) && task.start_timestamp == old(self).start_timestamp
                    && task.end_timestamp == old(self).end_timestamp && task.messages@ == finished(
                    old(self).messages@,
                )
                &&& final(self).start_timestamp == message.timestamp
                &&& final(self).end_timestamp == message.timestamp
                &&& final(self).messages@ == seq![message]
            },
    {
        if later_than(self.end_timestamp, duration_between_events) > message.timestamp {
            self.end_timestamp = message.timestamp;
            self.messages.push(message);
            None
        } else {
            let mut task = Task::new(message);
            std::mem::swap(self, &mut task);
            let Task { start_timestamp, end_timestamp, messages } = task;
            let messages = sort_messages(dedup_messages(sort_messages(messages, true)), false);
            Some(Task { start_timestamp, end_timestamp, messages })
        }
    }

    /// How long the task takes, up to the time at which it is known to be finished.
    pub fn event_duration(&self, duration_between_events: Time) -> (r: Time)
        requires
            i64::MIN <= self.end_timestamp - self.start_timestamp <= i64::MAX,
            i64::MIN <= self.end_timestamp - self.start_timestamp + duration_between_events
                <= i64::MAX,
        ensures
            r == self.end_timestamp - self.start_timestamp + duration_between_events,
    {
        self.end_timestamp - self.start_timestamp + duration_between_events
    }
}

/// The peers, which are numbered in the order in which they are first heard of. A peer is an address of
/// IPv4 or of IPv6.
#[derive(Debug)]
pub struct PeerIds {
    pub peers: Vec<(bool, u128)>,
}

impl PeerIds {
    /// No peer has two numbers.
    pub open spec fn wf(&self) -> bool {
        self.peers@.no_duplicates()
    }

    pub fn new() -> (r: Self)
        ensures
            r.wf(),
            r.peers@.len() == 0,
    {
        PeerIds { peers: Vec::new() }
    }

    /// The number of a peer. A new peer gets the next number.
    pub fn number(&mut self, peer: (bool, u128)) -> (r: usize)
        requires
            old(self).wf(),
        ensures
            final(self).wf(),
            r < final(self).peers@.len(),
            final(self).peers@[r as int] == peer,
            final(self).peers@ == if old(self).peers@.contains(peer) {
                old(self).peers@
            } else {
                old(self).peers@.push(peer)
            },
    {
        let n: usize = self.peers.len();
        for i in 0..n
            invariant
                n == self.peers@.len(),
                self.peers == old(self).peers,
                self.wf(),
                forall|j: int| 0 <= j < i ==> self.peers@[j] != peer,
        {
            let (v6, address) = self.peers[i];
            if v6 == peer.0 && address == peer.1 {
                assert(self.peers@.contains(peer));
                return i;
            }
        }
        assert(!self.peers@.contains(peer));
        self.peers.push(peer);
        n
    }
}

/// A prefix: whether it is one of IPv6, its length, and its address.
pub type NetworkPrefix = (bool, u8, u128);

/// The number of a table of tasks.
pub open spec fn table_of(prefix: NetworkPrefix) -> int {
    if prefix.0 {
        256 + prefix.1
    } else {
        prefix.1 as int
    }
}

/// The tasks that are not finished yet, one for each prefix.
pub struct TaskCollector {
    /// A table for each length, by address: first those of IPv4, then those of IPv6
    pub tables: Vec<HashMap<u128, Task>>,
    pub duration_between_events: Time,
    pub min_num_events_to_verify: usize,
}

impl TaskCollector {
    pub open spec fn wf(&self) -> bool {
        self.tables@.len() == 512
    }

    /// The task of a prefix.
    pub open spec fn task(&self, prefix: NetworkPrefix) -> Option<Task> {
        let table = self.tables@[table_of(prefix)]@;
        if table.contains_key(prefix.2) {
            Some(table[prefix.2])
        } else {
            None
        }
    }

    pub fn new(duration_between_events: Time, min_num_events_to_verify: usize) -> (r: Self)
        ensures
            r.wf(),
            forall|p: NetworkPrefix| #[trigger] r.task(p) is None,
            r.duration_between_events == duration_between_events,
            r.min_num_events_to_verify == min_num_events_to_verify,
    {
        let mut tables: Vec<HashMap<u128, Task>> = Vec::new();
        for i in 0..512usize
            invariant
                tables@.len() == i,
                forall|j: int|
                    0 <= j < i ==> (#[trigger] tables@[j])@ == Map::<u128, Task>::empty(),
        {
            tables.push(HashMap::new());
        }
        TaskCollector { tables, duration_between_events, min_num_events_to_verify }
    }

    /// A message on a prefix. If it finishes the task of the prefix, and that has more messages than
    /// asked for, then the task is to be verified.
    pub fn add_message(&mut self, prefix: NetworkPrefix, message: AbstractMessage) -> (r: Option<
        Task,
    >)
        requires
            old(self).wf(),
        ensures
            final(self).wf(),
            final(self).duration_between_events == old(self).duration_between_events,
            final(self).min_num_events_to_verify == old(self).min_num_events_to_verify,
            forall|p: NetworkPrefix|
                p != prefix ==> #[trigger] final(self).task(p) == old(self).task(p),
            final(self).task(prefix) matches Some(now) && match old(self).task(prefix) {
                None => r is None && now.messages@ == seq![message] && now.start_timestamp
                    == message.timestamp && now.end_timestamp == message.timestamp,
                Some(task) => if task.goes_on(message, old(self).duration_between_events) {
                    &&& r is None
                    &&& now.messages@ == task.messages@.push(message)
                    &&& now.start_timestamp == task.start_timestamp
                    &&& now.end_timestamp == message.timestamp
                } else {
                    &&& now.messages@ == seq![message]
                    &&& now.start_timestamp == message.timestamp
                    &&& now.end_timestamp == message.timestamp
                    &&& match r {
                        Some(done) => done.messages@ == finished(task.messages@)
                            && done.start_timestamp == task.start_timestamp && done.end_timestamp
                            == task.end_timestamp && finished(task.messages@).len() > old(
                            self,
                        ).min_num_events_to_verify,
                        None => finished(task.messages@).len() <= old(
                            self,
                        ).min_num_events_to_verify,
                    }
                },
            },
    {
        broadcast use vstd::std_specs::hash::group_hash_axioms;

        let ghost before = self.tables@;
        let t: usize = if prefix.0 {
            256 + prefix.1 as usize
        } else {
            prefix.1 as usize
        };
        assert(t == table_of(prefix));
        let address: u128 = prefix.2;
        let found: Option<Task> = self.tables[t].remove(&address);
        let mut r: Option<Task> = None;
        let task = match found {
            Some(task) => {
                let mut task: Task = task;
                match task.update(message, self.duration_between_events) {
                    Some(done) => {
                        if done.messages.len() > self.min_num_events_to_verify {
                            r = Some(done);
                        }
                    },
                    None => {},
                }
                task
            },
            None => Task::new(message),
        };
        let ghost now = task;
        let _ = self.tables[t].insert(address, task);
        proof {
            let after = self.tables@;
            assert(after[t as int]@ =~= before[t as int]@.insert(address, now));
            assert forall|p: NetworkPrefix| p != prefix implies #[trigger] self.task(p) == old(
                self,
            ).task(p) by {
                if table_of(p) == t {
                    assert(p.2 != address);
                } else {
                    assert(after[table_of(p)] == before[table_of(p)]);
                }
            }
        }
        r
    }
}

// ---------------------------------------------------------------------------------------------
// Simulation
// ---------------------------------------------------------------------------------------------
/// What the simulation is to do next.
#[derive(Debug)]
pub enum Step {
    /// Send some messages from outside, and then let the network process an event, if there is one
    Continue { first: usize, last: usize, event: Option<Event<()>> },
    /// There is nothing left to do
    Finished,
    /// The next message lies in the past
    TimeWentBackward,
}

/// Take the time off an event.
pub fn prepare(event: Event<Time>) -> (r: Event<()>)
    ensures
        r@ == timeless(event@),
{
    match event {
        Event::Bgp { src, dst, e, .. } => Event::Bgp { p: (), src, dst, e },
        Event::Ospf { src, dst, .. } => Event::Ospf { p: (), src, dst },
    }
}

/// The messages from position `first` up to `last`, exclusive, are due by a time, and no more are.
pub open spec fn are_due(msgs: Seq<AbstractMessage>, first: int, last: int, time: Time) -> bool {
    &&& first <= last <= msgs.len()
    &&& forall|i: int| first <= i < last ==> (#[trigger] msgs[i]).timestamp <= time
    &&& last < msgs.len() ==> msgs[last].timestamp > time
}

/// The step after the queue was polled with some result, where the messages from position `next` on
/// have not been sent yet: messages that are due go before the event. If the queue was empty, time
/// passes until the next message. If the last work brought the time `before` to a `time` at which
/// messages are due, but left the queue empty, then these are sent first.
pub open spec fn is_step(
    step: Step,
    polled: Option<Option<Event<Time>>>,
    before: Time,
    time: Time,
    msgs: Seq<AbstractMessage>,
    next: usize,
) -> bool {
    match polled {
        None => if next >= msgs.len() {
            step is Finished
        } else if time != before && time >= msgs[next as int].timestamp {
            step matches Step::Continue { first, last, event } && first == next && event is None
                && are_due(msgs, first as int, last as int, time)
        } else if time > msgs[next as int].timestamp {
            step is TimeWentBackward
        } else {
            step == Step::Continue { first: next, last: (next + 1) as usize, event: None }
        },
        Some(event) => step matches Step::Continue { first, last, event: out } && first == next
            && are_due(msgs, first as int, last as int, time) && match (event, out) {
            (Some(e), Some(o)) => o@ == timeless(e@),
            (None, None) => true,
            _ => false,
        },
    }
}

/// The first message of the simulation is sent at once, at its own time. `None` if there is no message.
pub fn start_simulation(queue: &mut ReorderingQueue, task: &Task) -> (r: Option<Step>)
    requires
        old(queue).wf(),
    ensures
        final(queue).wf(),
        match r {
            None => task.messages@.len() == 0 && *final(queue) == *old(queue),
            Some(step) => task.messages@.len() > 0 && step == (Step::Continue {
                first: 0,
                last: 1,
                event: None,
            }) && *final(queue) == (ReorderingQueue {
                current_time: task.messages@[0].timestamp,
                ..*old(queue)
            }),
        },
{
    if task.messages.len() == 0 {
        return None;
    }
    queue.current_time = task.messages[0].timestamp;
    Some(Step::Continue { first: 0, last: 1, event: None })
}

/// The end of the messages that are due by a time, from position `first` on.
fn end_of_due(msgs: &Vec<AbstractMessage>, first: usize, time: Time) -> (r: usize)
    requires
        first <= msgs@.len(),
    ensures
        are_due(msgs@, first as int, r as int, time),
{
    let mut last: usize = first;
    while last < msgs.len() && time >= msgs[last].timestamp
        invariant
            first <= last <= msgs@.len(),
            forall|i: int| first <= i < last ==> (#[trigger] msgs@[i]).timestamp <= time,
        decreases msgs@.len() - last,
    {
        last += 1;
    }
    last
}

/// Decide on the next step of the simulation. Position `next` is that of the first message that has not
/// been sent yet.
pub fn next_step(queue: &mut ReorderingQueue, task: &Task, next: usize) -> (r: Step)
    requires
        old(queue).wf(),
        next <= task.messages@.len(),
    ensures
        final(queue).wf(),
        exists|mid: ReorderingQueue, polled: Option<Option<Event<Time>>>|
            #![trigger ReorderingQueue::polls(*old(queue), polled, mid)]
            ReorderingQueue::polls(*old(queue), polled, mid) && is_step(
                r,
                polled,
                old(queue).current_time,
                mid.current_time,
                task.messages@,
                next,
            ) && *final(queue) == if polled is None && next < task.messages@.len()
                && mid.current_time < task.messages@[next as int].timestamp {
                ReorderingQueue { current_time: task.messages@[next as int].timestamp, ..mid }
            } else {
                mid
            },
{
    let before: Time = queue.current_time;
    let polled = queue.poll();
    let ghost mid = *queue;
    let ghost result = polled;
    assert(ReorderingQueue::polls(*old(queue), result, mid));
    match polled {
        None => {
            if next >= task.messages.len() {
                return Step::Finished;
            }
            let t: Time = task.messages[next].timestamp;
            let time: Time = queue.current_time;
            if time != before && time >= t {
                let last: usize = end_of_due(&task.messages, next, time);
                return Step::Continue { first: next, last, event: None };
            }
            if time > t {
                return Step::TimeWentBackward;
            }
            queue.current_time = t;
            Step::Continue { first: next, last: next + 1, event: None }
        },
        Some(event) => {
            let last: usize = end_of_due(&task.messages, next, queue.current_time);
            let event: Option<Event<()>> = match event {
                Some(e) => Some(prepare(e)),
                None => None,
            };
            Step::Continue { first: next, last, event }
        },
    }
}

// ---------------------------------------------------------------------------------------------
// Preparations
// ---------------------------------------------------------------------------------------------
/// The router with the most sessions. If there are several, the last of them.
pub fn busiest_router(routers: &Vec<(RouterId, usize)>) -> (r: Option<RouterId>)
    ensures
        match r {
            None => routers@.len() == 0,
            Some(x) => exists|i: int|
                0 <= i < routers@.len() && (#[trigger] routers@[i]).0 == x && is_busiest(routers@, i),
        },
{
    if routers.len() == 0 {
        return None;
    }
    let mut best: usize = 0;
    for i in 1..routers.len()
        invariant
            best < i,
            i <= routers@.len(),
            forall|j: int| 0 <= j < i ==> (#[trigger] routers@[j]).1 <= routers@[best as int].1,
            forall|j: int| best < j < i ==> (#[trigger] routers@[j]).1 < routers@[best as int].1,
    {
        if routers[i].1 >= routers[best].1 {
            best = i;
        }
    }
    assert(is_busiest(routers@, best as int));
    Some(routers[best].0)
}

/// No router has more sessions, and none that follows has as many.
pub open spec fn is_busiest(routers: Seq<(RouterId, usize)>, i: int) -> bool {
    &&& forall|j: int| 0 <= j < routers.len() ==> (#[trigger] routers[j]).1 <= routers[i].1
    &&& forall|j: int| i < j < routers.len() ==> (#[trigger] routers[j]).1 < routers[i].1
}

/// Session `a` is set up before session `b`.
pub open spec fn set_up_before(a: (RouterId, RouterId), b: (RouterId, RouterId)) -> bool {
    a.0 < b.0 || (a.0 == b.0 && a.1 < b.1)
}

/// The sessions in the order in which they are set up: those of each router, with each of its neighbors.
pub fn session_order(devices: &NumberSet, neighbors: &Keyed<NumberSet>) -> (r: Vec<
    (RouterId, RouterId),
>)
    requires
        devices.wf(),
        neighbors.wf(),
        forall|x: RouterId| #[trigger] neighbors@.contains_key(x) ==> neighbors@[x].wf(),
    ensures
        forall|i: int, j: int|
            0 <= i < j < r@.len() ==> set_up_before(#[trigger] r@[i], #[trigger] r@[j]),
        forall|x: RouterId, n: RouterId| #[trigger]
            r@.contains((x, n)) <==> devices@.contains(x) && neighbors@.contains_key(x)
                && neighbors@[x]@.contains(n),
{
    let ghost items = devices.items@;
    let total: usize = devices.items.len();
    let mut r: Vec<(RouterId, RouterId)> = Vec::new();
    let mut a: usize = 0;
    while a < total
        invariant
            a <= total,
            total == items.len(),
            items == devices.items@,
            devices.wf(),
            neighbors.wf(),
            forall|x: RouterId| #[trigger] neighbors@.contains_key(x) ==> neighbors@[x].wf(),
            forall|i: int, j: int|
                0 <= i < j < r@.len() ==> set_up_before(#[trigger] r@[i], #[trigger] r@[j]),
            forall|i: int|
                0 <= i < r@.len() ==> a > 0 && (#[trigger] r@[i]).0 <= items[a - 1],
            forall|x: RouterId, n: RouterId| #[trigger]
                r@.contains((x, n)) <==> items.take(a as int).contains(x)
                    && neighbors@.contains_key(x) && neighbors@[x]@.contains(n),
        decreases total - a,
    {
        let x: RouterId = devices.items[a];
        let ghost before = r@;
        let ghost mut added: Seq<u32> = Seq::empty();
        match neighbors.get(x) {
            Some(set) => {
                let ghost list = set.items@;
                let m: usize = set.items.len();
                let mut b: usize = 0;
                assert(before + list.take(0).map_values(|n: u32| (x, n)) =~= before);
                while b < m
                    invariant
                        b <= m,
                        m == list.len(),
                        list == set.items@,
                        r@ == before + list.take(b as int).map_values(|n: u32| (x, n)),
                    decreases m - b,
                {
                    let n: RouterId = set.items[b];
                    r.push((x, n));
                    b += 1;
                    proof {
                        assert(list.take(b as int) =~= list.take(b - 1).push(n));
                        assert(r@ =~= before + list.take(b as int).map_values(|n: u32| (x, n)));
                    }
                }
                proof {
                    assert(list.take(m as int) =~= list);
                    added = list;
                    assert(set.wf());
                }
            },
            None => {
                assert(r@ =~= before + added.map_values(|n: u32| (x, n)));
            },
        }
        proof {
            let more = added.map_values(|n: u32| (x, n));
            assert(r@ == before + more);
            assert(crate::number_set::increasing(added));
            assert forall|i: int, j: int| 0 <= i < j < r@.len() implies set_up_before(
                #[trigger] r@[i],
                #[trigger] r@[j],
            ) by {
                if j < before.len() {
                    assert(set_up_before(before[i], before[j]));
                } else if i < before.len() {
                    assert(r@[i] == before[i] && before[i].0 <= items[a - 1]);
                    assert(items[a - 1] < items[a as int]);
                } else {
                    assert(added[i - before.len()] < added[j - before.len()]);
                }
            }
            assert(items.take(a + 1) =~= items.take(a as int).push(x));
            assert forall|y: RouterId, n: RouterId| #[trigger] r@.contains((y, n)) <==> items.take(
                a + 1,
            ).contains(y) && neighbors@.contains_key(y) && neighbors@[y]@.contains(n) by {
                let t = items.take(a as int);
                assert(t.push(x).contains(y) <==> t.contains(y) || y == x) by {
                    broadcast use vstd::seq_lib::group_seq_properties;

                }
                assert(before.contains((y, n)) <==> t.contains(y) && neighbors@.contains_key(y)
                    && neighbors@[y]@.contains(n));
                if r@.contains((y, n)) {
                    let i = r@.index_of((y, n));
                    if i < before.len() {
                        assert(before[i] == (y, n));
                    } else {
                        assert(added[i - before.len()] == n && y == x);
                        assert(added.contains(n));
                    }
                }
                if before.contains((y, n)) {
                    let i = before.index_of((y, n));
                    assert(r@[i] == (y, n));
                }
                if y == x && neighbors@.contains_key(x) && neighbors@[x]@.contains(n) {
                    assert(added.contains(n));
                    let i = added.index_of(n);
                    assert(r@[before.len() + i] == (y, n));
                }
            }
        }
        a += 1;
    }
    proof {
        assert(items.take(total as int) =~= items);
        assert forall|x: RouterId, n: RouterId| #[trigger] r@.contains((x, n)) <==> devices@.contains(
            x,
        ) && neighbors@.contains_key(x) && neighbors@[x]@.contains(n) by {
            assert(devices@.contains(x) == items.contains(x));
        }
    }
    r
}

/// Two messages are repetitions of each other exactly if they are of one peer and either both withdraw, or
/// announce paths that are equal element by element. Their times do not matter.
pub proof fn law_repetitions(a: AbstractMessage, b: AbstractMessage)
    ensures
        same_message(a, b) <==> a.peer == b.peer && match (a.path, b.path) {
            (Some(x), Some(y)) => x@.len() == y@.len() && forall|i: int|
                0 <= i < x@.len() ==> #[trigger] x@[i] == y@[i],
            (None, None) => true,
            (Some(_), None) => false,
            (None, Some(_)) => false,
        },
{
    if let (Some(x), Some(y)) = (a.path, b.path) {
        if x@.len() == y@.len() && forall|i: int| 0 <= i < x@.len() ==> #[trigger] x@[i] == y@[i] {
            assert(x@ =~= y@);
        }
    }
}

/// The last message that is kept says the same as the last message.
proof fn lemma_last_kept(s: Seq<AbstractMessage>)
    requires
        s.len() > 0,
    ensures
        deduped(s).len() > 0,
        same_message(deduped(s).last(), s.last()),
{
}

/// A message that follows others is dropped exactly if it repeats the one right before it.
pub proof fn law_dropping_repetitions(s: Seq<AbstractMessage>, m: AbstractMessage)
    ensures
        deduped(seq![m]) == seq![m],
        s.len() > 0 ==> deduped(s.push(m)) == if s.last().peer == m.peer && match (
            s.last().path,
            m.path,
        ) {
            (Some(x), Some(y)) => x@ == y@,
            (None, None) => true,
            _ => false,
        } {
            deduped(s)
        } else {
            deduped(s).push(m)
        },
{
    reveal_with_fuel(deduped, 2);
    assert(seq![m].drop_last() =~= Seq::<AbstractMessage>::empty());
    assert(deduped(seq![m]) =~= seq![m]);
    if s.len() > 0 {
        lemma_last_kept(s);
        assert(s.push(m).drop_last() =~= s);
    }
}

/// What is kept of the first messages is kept.
proof fn lemma_kept_prefix(s: Seq<AbstractMessage>, k: int)
    requires
        0 <= k <= s.len(),
    ensures
        deduped(s.take(k)).len() <= deduped(s).len(),
        deduped(s).take(deduped(s.take(k)).len() as int) == deduped(s.take(k)),
    decreases s.len(),
{
    if k < s.len() {
        let init = s.drop_last();
        lemma_kept_prefix(init, k);
        assert(init.take(k) =~= s.take(k));
        assert(deduped(s).take(deduped(s.take(k)).len() as int) =~= deduped(init).take(
            deduped(s.take(k)).len() as int,
        ));
    } else {
        assert(s.take(k) =~= s);
        assert(deduped(s).take(deduped(s).len() as int) =~= deduped(s));
    }
}

/// A finished task keeps every message that announces something else than the message of its peer before
/// it, and the first message of each peer. All that it holds was among the messages.
pub proof fn law_changes_are_kept(s: Seq<AbstractMessage>, i: int)
    requires
        0 <= i < s.len(),
    ensures
        ({
            let t = sorted(s, true);
            &&& t.len() == s.len()
            &&& i == 0 || t[i - 1].peer != t[i].peer || (match (t[i - 1].path, t[i].path) {
                (Some(x), Some(y)) => x@ != y@,
                (None, None) => false,
                _ => true,
            }) ==> finished(s).contains(t[i])
        }),
        forall|m: AbstractMessage| #[trigger] finished(s).contains(m) ==> s.contains(m),
{
    broadcast use vstd::seq_lib::group_to_multiset_ensures;

    let t = sorted(s, true);
    let d = deduped(t);
    lemma_sorted(s, true);
    lemma_sorted(d, false);
    lemma_deduped(t);
    assert forall|m: AbstractMessage| #[trigger] finished(s).contains(m) implies s.contains(m) by {
        assert(finished(s).to_multiset().count(m) > 0);
        assert(d.to_multiset().count(m) <= t.to_multiset().count(m));
        assert(s.to_multiset().count(m) > 0);
    }
    if i == 0 || !same_message(t[i - 1], t[i]) {
        let (a, b) = (t.take(i), t.take(i + 1));
        assert(b =~= a.push(t[i]));
        if i == 0 {
            assert(b =~= seq![t[i]]);
            law_dropping_repetitions(a, t[i]);
        } else {
            law_dropping_repetitions(a, t[i]);
            assert(a.last() == t[i - 1]);
        }
        assert(deduped(b).last() == t[i]);
        lemma_kept_prefix(t, i + 1);
        let k = deduped(b).len() - 1;
        assert(d.take(deduped(b).len() as int)[k] == d[k]);
        assert(d[k] == t[i]);
        assert(d.contains(t[i]));
        assert(d.to_multiset().count(t[i]) > 0);
        assert(finished(s).to_multiset().count(t[i]) > 0);
    }
}

/// Sorting puts the messages of a peer together, the peer with the smallest number first, and those of a
/// peer in the order of their times, or all of them in the order of their times. No message is lost.
pub proof fn law_order_of_messages(s: Seq<AbstractMessage>, i: int, j: int)
    requires
        0 <= i < j < s.len(),
    ensures
        ({
            let (p, t) = (sorted(s, true), sorted(s, false));
            &&& p[i].peer < p[j].peer || (p[i].peer == p[j].peer && p[i].timestamp
                <= p[j].timestamp)
            &&& t[i].timestamp <= t[j].timestamp
            &&& p.to_multiset() == s.to_multiset()
            &&& t.to_multiset() == s.to_multiset()
        }),
{
    lemma_sorted(s, true);
    lemma_sorted(s, false);
    assert(!comes_after(sorted(s, true)[i], sorted(s, true)[j], true));
    assert(!comes_after(sorted(s, false)[i], sorted(s, false)[j], false));
}

/// Messages at the same time keep their order: one that is not earlier than any before it stays behind
/// them.
pub proof fn law_sorting_messages_is_stable(s: Seq<AbstractMessage>, m: AbstractMessage)
    requires
        forall|i: int| 0 <= i < s.len() ==> (#[trigger] s[i]).timestamp <= m.timestamp,
    ensures
        sorted(s.push(m), false) == sorted(s, false).push(m),
{
    broadcast use vstd::seq_lib::group_to_multiset_ensures;

    assert(s.push(m).drop_last() =~= s);
    lemma_sorted(s, false);
    let t = sorted(s, false);
    if t.len() > 0 {
        assert(t.to_multiset().count(t.last()) > 0);
        assert(s.contains(t.last()));
        let i = choose|i: int| 0 <= i < s.len() && s[i] == t.last();
        assert(s[i].timestamp <= m.timestamp);
    }
}

/// A task goes on exactly with the messages that come less than the pause after its last one.
pub proof fn law_tasks_end_with_a_pause(task: Task, message: AbstractMessage, duration: Time)
    requires
        i64::MIN <= task.end_timestamp + duration <= i64::MAX,
    ensures
        task.goes_on(message, duration) <==> message.timestamp - task.end_timestamp < duration,
{
}

/// Prefixes share a table exactly if they are of one family and have one length.
pub proof fn law_tables_of_prefixes(a: NetworkPrefix, b: NetworkPrefix)
    ensures
        table_of(a) == table_of(b) <==> a.0 == b.0 && a.1 == b.1,
        0 <= table_of(a) < 512,
{
}

/// The sessions are set up in the order of their routers, and those of one router in the order of their
/// neighbors. This is an order without ties.
pub proof fn law_order_of_sessions(
    a: (RouterId, RouterId),
    b: (RouterId, RouterId),
    c: (RouterId, RouterId),
)
    ensures
        a.0 < b.0 ==> set_up_before(a, b),
        a.0 == b.0 && a.1 < b.1 ==> set_up_before(a, b),
        set_up_before(a, b) ==> !set_up_before(b, a),
        set_up_before(a, b) && set_up_before(b, c) ==> set_up_before(a, c),
        a != b ==> set_up_before(a, b) || set_up_before(b, a),
{
}

/// A step sends the messages on in their order, from the first that was not sent yet. Before an event all
/// messages are sent that are due by then, and no later ones. The replay is over exactly if the queue is
/// empty and all messages were sent, and as long as it is not, an empty queue gets another message.
pub proof fn law_steps_of_a_replay(
    step: Step,
    polled: Option<Option<Event<Time>>>,
    before: Time,
    time: Time,
    msgs: Seq<AbstractMessage>,
    next: usize,
)
    requires
        is_step(step, polled, before, time, msgs, next),
        next < usize::MAX,
    ensures
        step is Finished <==> polled is None && next >= msgs.len(),
        step matches Step::Continue { first, last, event } ==> {
            &&& first == next
            &&& first <= last
            &&& polled is Some ==> forall|i: int|
                next <= i < msgs.len() ==> ((#[trigger] msgs[i]).timestamp <= time || i >= last)
            &&& polled is Some ==> forall|i: int|
                next <= i < last ==> (#[trigger] msgs[i]).timestamp <= time
            &&& polled is Some && last < msgs.len() ==> msgs[last as int].timestamp > time
            &&& polled is None ==> first < last && event is None
            &&& polled is Some ==> (event is Some <==> polled->0 is Some)
            &&& event matches Some(e) ==> e@.source() == polled->0->0@.source() && e@.router()
                == polled->0->0@.router()
        },
        step is TimeWentBackward ==> polled is None && time > msgs[next as int].timestamp,
{
}

/// The messages that are due are those up to the first one that is not, and there is only one such part.
pub proof fn law_due_messages(
    msgs: Seq<AbstractMessage>,
    first: int,
    last: int,
    time: Time,
    other: int,
)
    requires
        are_due(msgs, first, last, time),
    ensures
        are_due(msgs, first, other, time) ==> other == last,
        first <= last <= msgs.len(),
        last < msgs.len() ==> msgs[last].timestamp > time,
        first < msgs.len() && msgs[first].timestamp <= time ==> last > first,
{
    if are_due(msgs, first, other, time) {
        if other < last {
            assert(msgs[other].timestamp <= time);
        } else if last < other {
            assert(msgs[last].timestamp <= time);
        }
    }
}

/// There is one busiest router: it has the most events, and of several with as many it is the last one.
pub proof fn law_the_busiest_router(routers: Seq<(RouterId, usize)>, i: int, j: int)
    requires
        0 <= i < routers.len(),
        0 <= j < routers.len(),
        is_busiest(routers, i),
    ensures
        routers[j].1 <= routers[i].1,
        routers[j].1 == routers[i].1 ==> j <= i,
        is_busiest(routers, j) ==> i == j,
{
}

} // verus!
