//! Recordings of the messages that were observed in a network.
use vstd::prelude::*;

use crate::bgp::{Event, EventView, Prefix, RouterId, Time, SINGLE_PREFIX, TICKS_PER_SECOND};
use crate::import::{ImportedRoute, Message, ObservedView};
use crate::keyed::{as_map, lemma_entry, lemma_key, lemma_same_keys, Keyed};
use crate::number_set::NumberSet;
use crate::session_queue::{later, later_than};
use crate::sorting::{is_sorting_of, sort_by_time, Timed};

verus! {

/// A BGP message with the time at which it was observed. It is one of a single-prefix plane.
#[derive(Debug)]
pub struct TimestampedEvent(pub Message);

/// A sequence of messages, in the order of their times.
pub type MessageSequence = Vec<TimestampedEvent>;

/// The messages that were observed at each router.
pub type RouterSequences = Keyed<MessageSequence>;

impl View for TimestampedEvent {
    type V = ObservedView;

    open spec fn view(&self) -> ObservedView {
        self.0@
    }
}

impl Timed for TimestampedEvent {
    open spec fn time(&self) -> Time {
        self.0.event@.priority()
    }

    fn get_time(&self) -> (r: Time) {
        self.0.event.priority()
    }
}

impl TimestampedEvent {
    /// A message of BGP, of which the import is well-formed.
    pub open spec fn wf(&self) -> bool {
        self.0.event is Bgp && self.0.wf()
    }

    /// The message, on the prefix of a single-prefix plane. It must be one of BGP.
    pub fn from(message: Message) -> (r: Self)
        requires
            message.event is Bgp,
            message.wf(),
        ensures
            r.wf(),
            r@ == message@.with_prefix(SINGLE_PREFIX),
    {
        let event = message.event.with_prefix(SINGLE_PREFIX);
        let import = message.import.with_prefix(SINGLE_PREFIX);
        assert(event@ is Bgp && event@.source() == message.event@.source());
        TimestampedEvent(Message { event, import })
    }
}

/// The views of messages.
pub open spec fn observed_views(s: Seq<TimestampedEvent>) -> Seq<ObservedView> {
    Seq::new(s.len(), |i: int| s[i]@)
}

/// A recording of messages, by prefix and router.
#[derive(Debug)]
pub struct Recording {
    pub sequences: Keyed<RouterSequences>,
}

/// The messages of a prefix at a router.
pub open spec fn sequence_at(
    m: Map<Prefix, RouterSequences>,
    p: Prefix,
    r: RouterId,
) -> Seq<TimestampedEvent> {
    if m.contains_key(p) && m[p]@.contains_key(r) {
        m[p]@[r]@
    } else {
        Seq::empty()
    }
}

/// There are messages of a prefix at a router.
pub open spec fn has_sequence(m: Map<Prefix, RouterSequences>, p: Prefix, r: RouterId) -> bool {
    m.contains_key(p) && m[p]@.contains_key(r)
}

/// All maps are well-formed, and all messages are.
pub open spec fn sequences_wf(s: RouterSequences) -> bool {
    &&& s.wf()
    &&& forall|r: RouterId, i: int|
        #![trigger s@[r]@[i]]
        s@.contains_key(r) && 0 <= i < s@[r]@.len() ==> s@[r]@[i].wf()
}

impl Recording {
    pub open spec fn wf(&self) -> bool {
        &&& self.sequences.wf()
        &&& forall|p: Prefix| #[trigger]
            self.sequences@.contains_key(p) ==> sequences_wf(self.sequences@[p])
    }

    /// The messages of a prefix at a router.
    pub open spec fn at(&self, p: Prefix, r: RouterId) -> Seq<TimestampedEvent> {
        sequence_at(self.sequences@, p, r)
    }

    /// There are messages of a prefix at a router.
    pub open spec fn has(&self, p: Prefix, r: RouterId) -> bool {
        has_sequence(self.sequences@, p, r)
    }

    pub fn new() -> (r: Self)
        ensures
            r.wf(),
            r.sequences@ == Map::<Prefix, RouterSequences>::empty(),
    {
        Recording { sequences: Keyed::new() }
    }

    /// Record a message of a prefix at a router.
    fn insert_event(&mut self, prefix: Prefix, router: RouterId, message: Message)
        requires
            old(self).wf(),
            message.event is Bgp,
            message.wf(),
        ensures
            final(self).wf(),
            forall|p: Prefix, r: RouterId|
                #![trigger final(self).at(p, r)]
                #![trigger final(self).has(p, r)]
                if p == prefix && r == router {
                    &&& final(self).has(p, r)
                    &&& observed_views(final(self).at(p, r)) == observed_views(
                        old(self).at(p, r),
                    ).push(message@.with_prefix(SINGLE_PREFIX))
                } else {
                    &&& final(self).has(p, r) == old(self).has(p, r)
                    &&& final(self).at(p, r) == old(self).at(p, r)
                },
    {
        let t = TimestampedEvent::from(message);
        let ghost before = *self;
        let ghost m0 = self.sequences@;
        if !self.sequences.contains(prefix) {
            self.sequences.insert(prefix, Keyed::new());
        }
        let ghost m1 = self.sequences@;
        match self.sequences.get_mut(prefix) {
            Some(routers) => push_message(routers, router, t),
            None => {
                assert(false);
            },
        }
        proof {
            let m2 = self.sequences@;
            let (s1, s2) = (m1[prefix], m2[prefix]);
            assert forall|p: Prefix, r: RouterId|
                #![trigger self.at(p, r)]
                #![trigger self.has(p, r)]
                if p == prefix && r == router {
                    &&& self.has(p, r)
                    &&& observed_views(self.at(p, r)) == observed_views(before.at(p, r)).push(t@)
                } else {
                    &&& self.has(p, r) == before.has(p, r)
                    &&& self.at(p, r) == before.at(p, r)
                } by {
                if p == prefix {
                    assert(s2@.dom().contains(r) == (s1@.dom().contains(r) || r == router));
                    if r == router {
                        assert(before.at(p, r) == if s1@.contains_key(r) {
                            s1@[r]@
                        } else {
                            Seq::empty()
                        });
                        assert(observed_views(s2@[r]@) =~= observed_views(before.at(p, r)).push(t@));
                    } else if s1@.contains_key(r) {
                        assert(s2@[r] == s1@[r]);
                    }
                }
            }
            assert forall|p: Prefix| #[trigger] m2.contains_key(p) implies sequences_wf(m2[p]) by {
                if p != prefix {
                    assert(m0.contains_key(p));
                }
            }
        }
    }

    /// File a message that was captured on the link between `a` and `b`, which must be one of BGP: at
    /// its source and at its destination, as far as they are ends of the link. A message can be
    /// captured on a link that it only passes.
    fn allocate_events(&mut self, a: RouterId, b: RouterId, message: Message)
        requires
            old(self).wf(),
            message.event is Bgp,
            message.wf(),
        ensures
            final(self).wf(),
            records(*old(self), *final(self), on_link(a, b, message@)),
    {
        let src: RouterId = message.event.source();
        let dst: RouterId = message.event.router();
        let ghost v = message@;
        let ghost before = *self;
        match message.event.prefix() {
            Some(prefix) => {
                let at_src: bool = src == a || src == b;
                let at_dst: bool = dst == a || dst == b;
                if at_src {
                    let copy = message.copy();
                    self.insert_event(prefix, src, copy);
                }
                let ghost mid = *self;
                proof {
                    assert(mid.wf());
                    assert(records(
                        before,
                        mid,
                        if at_src {
                            seq![(prefix, src, v)]
                        } else {
                            Seq::<Entry>::empty()
                        },
                    )) by {
                        if at_src {
                            lemma_records_one(before, mid, (prefix, src, v));
                        } else {
                            lemma_records_none(before);
                        }
                    }
                }
                if at_dst {
                    self.insert_event(prefix, dst, message);
                }
                proof {
                    let first = if at_src {
                        seq![(prefix, src, v)]
                    } else {
                        Seq::<Entry>::empty()
                    };
                    let second = if at_dst {
                        seq![(prefix, dst, v)]
                    } else {
                        Seq::<Entry>::empty()
                    };
                    if at_dst {
                        lemma_records_one(mid, *self, (prefix, dst, v));
                    } else {
                        lemma_records_none(mid);
                    }
                    lemma_records_chain(before, mid, *self, first, second);
                    assert(on_link(a, b, v) == first + second);
                }
            },
            None => {
                assert(false);
            },
        }
    }
}

/// Append a message to the sequence of a router.
fn push_message(routers: &mut RouterSequences, router: RouterId, t: TimestampedEvent)
    requires
        sequences_wf(*old(routers)),
        t.wf(),
    ensures
        sequences_wf(*final(routers)),
        final(routers)@.dom() == old(routers)@.dom().insert(router),
        forall|r: RouterId|
            #![trigger final(routers)@[r]]
            r != router && old(routers)@.contains_key(r) ==> final(routers)@[r] == old(routers)@[r],
        final(routers)@[router]@ == (if old(routers)@.contains_key(router) {
            old(routers)@[router]@
        } else {
            Seq::empty()
        }).push(t),
{
    let ghost before = routers@;
    if !routers.contains(router) {
        routers.insert(router, Vec::new());
    }
    match routers.get_mut(router) {
        Some(sequence) => sequence.push(t),
        None => {
            assert(false);
        },
    }
    assert(routers@.dom() =~= before.dom().insert(router));
    assert forall|r: RouterId, i: int|
        #![trigger routers@[r]@[i]]
        routers@.contains_key(r) && 0 <= i < routers@[r]@.len() implies routers@[r]@[i].wf() by {
        if r != router {
            assert(before.contains_key(r));
            assert(routers@[r] == before[r]);
        } else if before.contains_key(r) && i < before[r]@.len() {
            assert(routers@[r]@[i] == before[r]@[i]);
        }
    }
}

/// Something to record: a message of a prefix at a router.
pub type Entry = (Prefix, RouterId, ObservedView);

/// What is recorded for a prefix at a router, in order.
pub open spec fn recorded(entries: Seq<Entry>, p: Prefix, r: RouterId) -> Seq<ObservedView>
    decreases entries.len(),
{
    if entries.len() == 0 {
        Seq::empty()
    } else {
        let init = recorded(entries.drop_last(), p, r);
        let (q, s, v) = entries.last();
        if q == p && s == r {
            init.push(v.with_prefix(SINGLE_PREFIX))
        } else {
            init
        }
    }
}

/// Entries are recorded behind what was there.
pub open spec fn records(before: Recording, after: Recording, entries: Seq<Entry>) -> bool {
    forall|p: Prefix, r: RouterId|
        #![trigger after.at(p, r)]
        #![trigger after.has(p, r)]
        {
            &&& observed_views(after.at(p, r)) == observed_views(before.at(p, r)) + recorded(
                entries,
                p,
                r,
            )
            &&& after.has(p, r) == (before.has(p, r) || recorded(entries, p, r).len() > 0)
        }
}

proof fn lemma_records_none(rec: Recording)
    ensures
        records(rec, rec, Seq::<Entry>::empty()),
{
    assert forall|p: Prefix, r: RouterId|
        #![trigger rec.at(p, r)]
        #![trigger rec.has(p, r)]
        observed_views(rec.at(p, r)) == observed_views(rec.at(p, r)) + recorded(
            Seq::<Entry>::empty(),
            p,
            r,
        ) by {
        assert(observed_views(rec.at(p, r)) =~= observed_views(rec.at(p, r)) + recorded(
            Seq::<Entry>::empty(),
            p,
            r,
        ));
    }
}

proof fn lemma_records_one(before: Recording, after: Recording, e: Entry)
    requires
        forall|p: Prefix, r: RouterId|
            #![trigger after.at(p, r)]
            #![trigger after.has(p, r)]
            if p == e.0 && r == e.1 {
                &&& after.has(p, r)
                &&& observed_views(after.at(p, r)) == observed_views(before.at(p, r)).push(
                    e.2.with_prefix(SINGLE_PREFIX),
                )
            } else {
                &&& after.has(p, r) == before.has(p, r)
                &&& after.at(p, r) == before.at(p, r)
            },
    ensures
        records(before, after, seq![e]),
{
    let entries = seq![e];
    assert(entries.drop_last() =~= Seq::<Entry>::empty());
    assert forall|p: Prefix, r: RouterId|
        #![trigger after.at(p, r)]
        #![trigger after.has(p, r)]
        {
            &&& observed_views(after.at(p, r)) == observed_views(before.at(p, r)) + recorded(
                entries,
                p,
                r,
            )
            &&& after.has(p, r) == (before.has(p, r) || recorded(entries, p, r).len() > 0)
        } by {
        reveal_with_fuel(recorded, 2);
        assert(observed_views(after.at(p, r)) =~= observed_views(before.at(p, r)) + recorded(
            entries,
            p,
            r,
        ));
    }
}

proof fn lemma_recorded_concat(a: Seq<Entry>, b: Seq<Entry>, p: Prefix, r: RouterId)
    ensures
        recorded(a + b, p, r) == recorded(a, p, r) + recorded(b, p, r),
    decreases b.len(),
{
    if b.len() == 0 {
        assert(a + b =~= a);
        assert(recorded(a, p, r) + recorded(b, p, r) =~= recorded(a, p, r));
    } else {
        assert((a + b).drop_last() =~= a + b.drop_last());
        lemma_recorded_concat(a, b.drop_last(), p, r);
        assert(recorded(a + b, p, r) =~= recorded(a, p, r) + recorded(b, p, r));
    }
}

proof fn lemma_records_chain(
    before: Recording,
    mid: Recording,
    after: Recording,
    a: Seq<Entry>,
    b: Seq<Entry>,
)
    requires
        records(before, mid, a),
        records(mid, after, b),
    ensures
        records(before, after, a + b),
{
    assert forall|p: Prefix, r: RouterId|
        #![trigger after.at(p, r)]
        #![trigger after.has(p, r)]
        {
            &&& observed_views(after.at(p, r)) == observed_views(before.at(p, r)) + recorded(
                a + b,
                p,
                r,
            )
            &&& after.has(p, r) == (before.has(p, r) || recorded(a + b, p, r).len() > 0)
        } by {
        lemma_recorded_concat(a, b, p, r);
        assert(mid.has(p, r) || !mid.has(p, r));
        assert(observed_views(after.at(p, r)) =~= observed_views(before.at(p, r)) + recorded(
            a + b,
            p,
            r,
        ));
    }
}

/// What is recorded of a message that was captured on a link.
pub open spec fn on_link(a: RouterId, b: RouterId, v: ObservedView) -> Seq<Entry> {
    let (src, dst) = (v.event.source(), v.event.router());
    match v.event.prefix() {
        Some(p) => (if src == a || src == b {
            seq![(p, src, v)]
        } else {
            Seq::empty()
        }) + (if dst == a || dst == b {
            seq![(p, dst, v)]
        } else {
            Seq::empty()
        }),
        None => Seq::empty(),
    }
}

/// What is recorded of the messages that were captured on a link.
pub open spec fn all_on_link(a: RouterId, b: RouterId, msgs: Seq<Message>) -> Seq<Entry>
    decreases msgs.len(),
{
    if msgs.len() == 0 {
        Seq::empty()
    } else {
        all_on_link(a, b, msgs.drop_last()) + on_link(a, b, msgs.last()@)
    }
}

/// The messages that were captured on a link.
pub type Capture = ((RouterId, RouterId), Vec<Message>);

/// What is recorded of the messages that were captured on several links.
pub open spec fn captured(pcaps: Seq<Capture>) -> Seq<Entry>
    decreases pcaps.len(),
{
    if pcaps.len() == 0 {
        Seq::empty()
    } else {
        let ((a, b), msgs) = pcaps.last();
        captured(pcaps.drop_last()) + all_on_link(a, b, msgs@)
    }
}

/// Every message is one of BGP.
pub open spec fn all_bgp(msgs: Seq<Message>) -> bool {
    forall|i: int| 0 <= i < msgs.len() ==> (#[trigger] msgs[i]).event is Bgp && msgs[i].wf()
}

/// The time of message `i` of a list: one second after the other.
pub open spec fn second(i: nat) -> Time
    decreases i,
{
    if i == 0 {
        0
    } else {
        later(second((i - 1) as nat), TICKS_PER_SECOND)
    }
}

/// An event and what its receiver makes of it.
pub type Observation<T> = (Event<T>, ImportedRoute);

/// The number of BGP messages.
pub open spec fn num_bgp<T>(events: Seq<Observation<T>>) -> nat
    decreases events.len(),
{
    if events.len() == 0 {
        0
    } else if events.last().0 is Bgp {
        num_bgp(events.drop_last()) + 1
    } else {
        num_bgp(events.drop_last())
    }
}

/// An event at a certain time.
pub open spec fn stamped<T>(o: Observation<T>, t: Time) -> ObservedView {
    ObservedView {
        event: match o.0@ {
            EventView::Bgp { src, dst, e, .. } => EventView::Bgp { p: t, src, dst, e },
            EventView::Ospf { src, dst, .. } => EventView::Ospf { p: t, src, dst },
        },
        import: o.1@,
    }
}

/// What is recorded of a list of events: the BGP messages, at their sources and destinations.
pub open spec fn listed<T>(events: Seq<Observation<T>>) -> Seq<Entry>
    decreases events.len(),
{
    if events.len() == 0 {
        Seq::empty()
    } else {
        let init = listed(events.drop_last());
        let o = events.last();
        let v = stamped(o, second(num_bgp(events.drop_last())));
        match o.0@ {
            EventView::Bgp { src, dst, e, .. } => init + seq![
                (e.prefix(), src, v),
                (e.prefix(), dst, v),
            ],
            EventView::Ospf { .. } => init,
        }
    }
}

/// The recording holds the entries, and each sequence is sorted by time.
pub open spec fn holds(rec: Recording, entries: Seq<Entry>) -> bool {
    forall|p: Prefix, r: RouterId|
        #![trigger rec.at(p, r)]
        #![trigger rec.has(p, r)]
        {
            &&& rec.has(p, r) == (recorded(entries, p, r).len() > 0)
            &&& exists|s: Seq<TimestampedEvent>| #[trigger]
                is_sorting_of(s, rec.at(p, r)) && observed_views(s) == recorded(entries, p, r)
        }
}

/// Sort each sequence of a prefix by time.
fn sort_sequences(routers: RouterSequences) -> (r: RouterSequences)
    requires
        sequences_wf(routers),
    ensures
        sequences_wf(r),
        r@.dom() == routers@.dom(),
        forall|x: RouterId| #[trigger] r@.contains_key(x) ==> is_sorting_of(routers@[x]@, r@[x]@),
{
    let ghost all = routers.entries@;
    let mut entries: Vec<(u32, MessageSequence)> = Vec::new();
    for e in it: routers.entries
        invariant
            it.seq() == all,
            entries@.len() == it.index(),
            forall|i: int|
                0 <= i < entries@.len() ==> (#[trigger] all[i]).0 == entries@[i].0 && is_sorting_of(
                    all[i].1@,
                    entries@[i].1@,
                ),
    {
        let (k, sequence) = e;
        entries.push((k, sort_by_time(sequence)));
    }
    let r = Keyed { entries };
    proof {
        lemma_same_keys(all, r.entries@);
        assert(r@.dom() =~= routers@.dom());
        assert forall|x: RouterId, i: int|
            #![trigger r@[x]@[i]]
            r@.contains_key(x) && 0 <= i < r@[x]@.len() implies r@[x]@[i].wf() by {
            crate::sorting::law_sorting_keeps_elements(routers@[x]@, r@[x]@);
            assert(r@[x]@.contains(r@[x]@[i]));
            assert(routers@[x]@.contains(r@[x]@[i]));
            let j = routers@[x]@.index_of(r@[x]@[i]);
            assert(routers@.contains_key(x));
            assert(routers@[x]@[j].wf());
        }
    }
    r
}

/// The empty list is sorted.
proof fn lemma_empty_sorting()
    ensures
        is_sorting_of(Seq::<TimestampedEvent>::empty(), Seq::<TimestampedEvent>::empty()),
{
    assert(crate::sorting::is_sorted_from(
        Seq::<TimestampedEvent>::empty(),
        Seq::<TimestampedEvent>::empty(),
        Seq::<int>::empty(),
    ));
}

impl Recording {
    /// Sort each sequence of messages by time.
    fn sort_self(self) -> (r: Self)
        requires
            self.wf(),
        ensures
            r.wf(),
            forall|p: Prefix, x: RouterId|
                #![trigger r.at(p, x)]
                #![trigger r.has(p, x)]
                r.has(p, x) == self.has(p, x) && is_sorting_of(self.at(p, x), r.at(p, x)),
    {
        let ghost all = self.sequences.entries@;
        proof {
            assert forall|i: int| 0 <= i < all.len() implies sequences_wf(
                (#[trigger] all[i]).1,
            ) by {
                lemma_entry(all, i);
                assert(self.sequences@.contains_key(all[i].0));
            }
        }
        let mut entries: Vec<(u32, RouterSequences)> = Vec::new();
        for e in it: self.sequences.entries
            invariant
                it.seq() == all,
                forall|i: int| 0 <= i < all.len() ==> sequences_wf((#[trigger] all[i]).1),
                entries@.len() == it.index(),
                forall|i: int|
                    0 <= i < entries@.len() ==> {
                        let (a, b) = ((#[trigger] all[i]), entries@[i]);
                        &&& a.0 == b.0
                        &&& sequences_wf(b.1)
                        &&& b.1@.dom() == a.1@.dom()
                        &&& forall|x: RouterId| #[trigger]
                            b.1@.contains_key(x) ==> is_sorting_of(a.1@[x]@, b.1@[x]@)
                    },
        {
            let (k, routers) = e;
            assert(routers == all[it.index() as int].1);
            entries.push((k, sort_sequences(routers)));
        }
        let r = Recording { sequences: Keyed { entries } };
        proof {
            lemma_same_keys(all, r.sequences.entries@);
            lemma_empty_sorting();
            assert forall|p: Prefix, x: RouterId|
                #![trigger r.at(p, x)]
                #![trigger r.has(p, x)]
                r.has(p, x) == self.has(p, x) && is_sorting_of(self.at(p, x), r.at(p, x)) by {
                assert(as_map(all).contains_key(p) == as_map(r.sequences.entries@).contains_key(p));
                if r.sequences@.contains_key(p) {
                    let (a, b) = (self.sequences@[p], r.sequences@[p]);
                    assert(a@.dom().contains(x) == b@.dom().contains(x));
                }
            }
        }
        r
    }

    /// The recording of the messages that were captured on the links of a network, which must all be
    /// ones of BGP.
    pub fn from_pcaps(pcaps: Vec<Capture>) -> (r: Self)
        requires
            forall|i: int| 0 <= i < pcaps@.len() ==> all_bgp((#[trigger] pcaps@[i]).1@),
        ensures
            r.wf(),
            holds(r, captured(pcaps@)),
    {
        let ghost all = pcaps@;
        let mut result = Recording::new();
        let ghost empty = result;
        proof {
            lemma_records_none(empty);
            assert(all.take(0) =~= Seq::<Capture>::empty());
        }
        for pcap in it: pcaps
            invariant
                it.seq() == all,
                forall|i: int| 0 <= i < all.len() ==> all_bgp((#[trigger] all[i]).1@),
                result.wf(),
                records(empty, result, captured(all.take(it.index() as int))),
        {
            let ghost k = it.index() as int;
            let ((a, b), messages) = pcap;
            let ghost msgs = messages@;
            let ghost so_far = captured(all.take(k));
            proof {
                assert(all[k].1@ == msgs);
                assert(msgs.take(0) =~= Seq::<Message>::empty());
                assert(so_far + all_on_link(a, b, msgs.take(0)) =~= so_far);
            }
            for message in jt: messages
                invariant
                    jt.seq() == msgs,
                    all_bgp(msgs),
                    result.wf(),
                    records(empty, result, so_far + all_on_link(a, b, msgs.take(jt.index() as int))),
            {
                let ghost j = jt.index() as int;
                let ghost before = result;
                let ghost v = message@;
                assert(message == msgs[j]);
                result.allocate_events(a, b, message);
                proof {
                    lemma_records_chain(
                        empty,
                        before,
                        result,
                        so_far + all_on_link(a, b, msgs.take(j)),
                        on_link(a, b, v),
                    );
                    assert(msgs.take(j + 1).drop_last() =~= msgs.take(j));
                    assert(so_far + all_on_link(a, b, msgs.take(j + 1)) =~= so_far + all_on_link(
                        a,
                        b,
                        msgs.take(j),
                    ) + on_link(a, b, v));
                }
            }
            proof {
                assert(msgs.take(msgs.len() as int) =~= msgs);
                assert(all.take(k + 1).drop_last() =~= all.take(k));
                assert(all.take(k + 1).last() == all[k]);
            }
        }
        let ghost unsorted = result;
        let r = result.sort_self();
        proof {
            assert(all.take(all.len() as int) =~= all);
            lemma_holds(empty, unsorted, r, captured(all));
        }
        r
    }

    /// The recording of a list of events, of which each is observed a second after the one before.
    pub fn from_vec<T>(events: Vec<Observation<T>>) -> (r: Self)
        requires
            forall|i: int|
                0 <= i < events@.len() ==> ((#[trigger] events@[i]).0 matches Event::Bgp { src, .. }
                    ==> events@[i].1.is_from(src)),
        ensures
            r.wf(),
            holds(r, listed(events@)),
    {
        let ghost all = events@;
        let mut result = Recording::new();
        let mut time: Time = 0;
        let ghost empty = result;
        proof {
            lemma_records_none(empty);
            assert(all.take(0) =~= Seq::<Observation<T>>::empty());
        }
        for o in it: events
            invariant
                it.seq() == all,
                forall|i: int|
                    0 <= i < all.len() ==> ((#[trigger] all[i]).0 matches Event::Bgp { src, .. }
                        ==> all[i].1.is_from(src)),
                result.wf(),
                time == second(num_bgp(all.take(it.index() as int))),
                records(empty, result, listed(all.take(it.index() as int))),
        {
            let ghost k = it.index() as int;
            let ghost before = result;
            assert(o == all[k]);
            proof {
                assert(all.take(k + 1).drop_last() =~= all.take(k));
                assert(all.take(k + 1).last() == all[k]);
            }
            let (event, import) = o;
            match event {
                Event::Bgp { src, dst, e, .. } => {
                    let prefix: Prefix = e.prefix();
                    let message = Message { event: Event::Bgp { p: time, src, dst, e }, import };
                    let ghost v = message@;
                    assert(v == stamped(all[k], time));
                    let copy = message.copy();
                    result.insert_event(prefix, src, copy);
                    let ghost mid = result;
                    result.insert_event(prefix, dst, message);
                    proof {
                        lemma_records_one(before, mid, (prefix, src, v));
                        lemma_records_one(mid, result, (prefix, dst, v));
                        lemma_records_chain(
                            before,
                            mid,
                            result,
                            seq![(prefix, src, v)],
                            seq![(prefix, dst, v)],
                        );
                        let two = seq![(prefix, src, v), (prefix, dst, v)];
                        assert(seq![(prefix, src, v)] + seq![(prefix, dst, v)] =~= two);
                        lemma_records_chain(empty, before, result, listed(all.take(k)), two);
                        assert(all[k].0@ == EventView::<T>::Bgp {
                            p: all[k].0@.priority(),
                            src,
                            dst,
                            e: e@,
                        });
                        assert(listed(all.take(k + 1)) =~= listed(all.take(k)) + two);
                    }
                    time = later_than(time, TICKS_PER_SECOND);
                },
                Event::Ospf { .. } => {},
            }
        }
        let ghost unsorted = result;
        let r = result.sort_self();
        proof {
            assert(all.take(all.len() as int) =~= all);
            lemma_holds(empty, unsorted, r, listed(all));
        }
        r
    }

    /// Keep only what was observed at some routers.
    pub fn filter_routers(self, routers: &NumberSet) -> (r: Self)
        requires
            self.wf(),
            routers.wf(),
        ensures
            r.wf(),
            forall|p: Prefix, x: RouterId|
                #![trigger r.at(p, x)]
                #![trigger r.has(p, x)]
                {
                    &&& r.has(p, x) == (self.has(p, x) && routers@.contains(x))
                    &&& routers@.contains(x) ==> r.at(p, x) == self.at(p, x)
                },
            forall|p: Prefix| #[trigger]
                r.sequences@.contains_key(p) ==> exists|x: RouterId| r.has(p, x),
    {
        let ghost all = self.sequences.entries@;
        let mut kept: Keyed<RouterSequences> = Keyed::new();
        let ghost mut done: Seq<(u32, RouterSequences)> = Seq::empty();
        for e in it: self.sequences.entries
            invariant
                it.seq() == all,
                all == self.sequences.entries@,
                self.wf(),
                routers.wf(),
                kept.wf(),
                forall|p: Prefix| #[trigger]
                    kept@.contains_key(p) ==> crate::keyed::has_key(
                        all.take(it.index() as int),
                        p,
                    ) && sequences_wf(kept@[p]) && is_restriction(
                        self.sequences@[p],
                        routers@,
                        kept@[p],
                    ) && exists|x: RouterId| kept@[p]@.contains_key(x),
                forall|p: Prefix|
                    crate::keyed::has_key(all.take(it.index() as int), p)
                        && !#[trigger] kept@.contains_key(p) ==> forall|x: RouterId|
                        #[trigger] self.sequences@[p]@.contains_key(x) ==> !routers@.contains(x),
        {
            let ghost i = it.index() as int;
            let ghost before = kept@;
            let (prefix, sequences) = e;
            proof {
                lemma_entry(all, i);
                assert(all[i].0 == prefix);
                assert(self.sequences@.contains_key(prefix));
                assert forall|p: Prefix| crate::keyed::has_key(all.take(i + 1), p) <==> (
                crate::keyed::has_key(all.take(i), p) || p == prefix) by {
                    crate::keyed::lemma_has_key_take(all, i, p);
                }
                assert(!crate::keyed::has_key(all.take(i), prefix)) by {
                    if crate::keyed::has_key(all.take(i), prefix) {
                        let j = choose|j: int|
                            0 <= j < i && (#[trigger] all.take(i)[j]).0 == prefix;
                        assert(all[j].0 == all[i].0);
                    }
                }
            }
            let restricted = restrict(sequences, routers);
            if restricted.entries.len() > 0 {
                proof {
                    lemma_entry(restricted.entries@, 0);
                }
                kept.insert(prefix, restricted);
            } else {
                proof {
                    assert forall|x: RouterId| #[trigger]
                        self.sequences@[prefix]@.contains_key(x) implies !routers@.contains(x) by {
                        assert(!restricted@.contains_key(x));
                    }
                }
            }
            proof {
                assert forall|p: Prefix|
                    crate::keyed::has_key(all.take(i + 1), p) && !#[trigger] kept@.contains_key(
                        p,
                    ) implies forall|x: RouterId|
                    #[trigger] self.sequences@[p]@.contains_key(x) ==> !routers@.contains(x) by {
                    if p != prefix {
                        assert(!before.contains_key(p));
                    }
                }
            }
        }
        let r = Recording { sequences: kept };
        proof {
            assert(all.take(all.len() as int) =~= all);
            assert forall|p: Prefix, x: RouterId|
                #![trigger r.at(p, x)]
                #![trigger r.has(p, x)]
                {
                    &&& r.has(p, x) == (self.has(p, x) && routers@.contains(x))
                    &&& routers@.contains(x) ==> r.at(p, x) == self.at(p, x)
                } by {
                assert(self.sequences@.contains_key(p) == crate::keyed::has_key(all, p));
                if r.sequences@.contains_key(p) {
                    assert(is_restriction(self.sequences@[p], routers@, r.sequences@[p]));
                    assert(r.sequences@[p]@.contains_key(x) == (self.sequences@[p]@.contains_key(x)
                        && routers@.contains(x)));
                } else if self.sequences@.contains_key(p) {
                    assert(!kept@.contains_key(p));
                }
            }
            assert forall|p: Prefix| #[trigger] r.sequences@.contains_key(p) implies exists|
                x: RouterId,
            | r.has(p, x) by {
                let x = choose|x: RouterId| kept@[p]@.contains_key(x);
                assert(r.has(p, x));
            }
        }
        r
    }

    /// Keep only the messages of some prefixes.
    pub fn filter_prefixes(self, prefixes: &NumberSet) -> (r: Self)
        requires
            self.wf(),
            prefixes.wf(),
        ensures
            r.wf(),
            r.sequences@ == self.sequences@.restrict(prefixes@),
    {
        self.select(prefixes, true)
    }

    /// Drop the messages of some prefixes.
    pub fn filter_out_prefixes(self, prefixes: &NumberSet) -> (r: Self)
        requires
            self.wf(),
            prefixes.wf(),
        ensures
            r.wf(),
            r.sequences@ == self.sequences@.remove_keys(prefixes@),
    {
        let ghost before = self.sequences@;
        let r = self.select(prefixes, false);
        assert(r.sequences@ =~= before.remove_keys(prefixes@));
        r
    }

    /// Keep the prefixes for which `prefixes.contains` gives `inside`.
    fn select(self, prefixes: &NumberSet, inside: bool) -> (r: Self)
        requires
            self.wf(),
            prefixes.wf(),
        ensures
            r.wf(),
            inside ==> r.sequences@ == self.sequences@.restrict(prefixes@),
            forall|p: Prefix| #[trigger]
                r.sequences@.contains_key(p) <==> self.sequences@.contains_key(p)
                    && prefixes@.contains(p) == inside,
            forall|p: Prefix| #[trigger]
                r.sequences@.contains_key(p) ==> r.sequences@[p] == self.sequences@[p],
    {
        let ghost all = self.sequences.entries@;
        let mut kept: Keyed<RouterSequences> = Keyed::new();
        for e in it: self.sequences.entries
            invariant
                it.seq() == all,
                all == self.sequences.entries@,
                self.wf(),
                prefixes.wf(),
                kept.wf(),
                forall|p: Prefix| #[trigger]
                    kept@.contains_key(p) <==> crate::keyed::has_key(
                        all.take(it.index() as int),
                        p,
                    ) && prefixes@.contains(p) == inside,
                forall|p: Prefix| #[trigger]
                    kept@.contains_key(p) ==> self.sequences@.contains_key(p) && kept@[p]
                        == self.sequences@[p],
        {
            let ghost i = it.index() as int;
            let (prefix, sequences) = e;
            proof {
                lemma_entry(all, i);
                assert(all[i].0 == prefix);
                assert forall|p: Prefix| crate::keyed::has_key(all.take(i + 1), p) <==> (
                crate::keyed::has_key(all.take(i), p) || p == prefix) by {
                    crate::keyed::lemma_has_key_take(all, i, p);
                }
            }
            let ghost before = kept@;
            if prefixes.contains(prefix) == inside {
                kept.insert(prefix, sequences);
            }
            proof {
                assert forall|p: Prefix| #[trigger] kept@.contains_key(p) <==> crate::keyed::has_key(
                    all.take(i + 1),
                    p,
                ) && prefixes@.contains(p) == inside by {
                    assert(before.contains_key(p) || !before.contains_key(p));
                    crate::keyed::lemma_has_key_take(all, i, p);
                }
            }
        }
        let r = Recording { sequences: kept };
        proof {
            assert(all.take(all.len() as int) =~= all);
            assert forall|p: Prefix| #[trigger] r.sequences@.contains_key(p) <==> self.sequences@.contains_key(p)
                && prefixes@.contains(p) == inside by {
                assert(self.sequences@.contains_key(p) == crate::keyed::has_key(all, p));
            }
            if inside {
                assert(r.sequences@ =~= self.sequences@.restrict(prefixes@));
            }
        }
        r
    }

    /// The messages of a prefix at a router, in the order of their times.
    pub fn get_events(&self, prefix: Prefix, router: RouterId) -> (r: Option<Vec<Event<Time>>>)
        requires
            self.wf(),
        ensures
            match r {
                Some(events) => self.has(prefix, router) && crate::dispatch_queue::event_views(
                    events@,
                ) == Seq::new(
                    self.at(prefix, router).len(),
                    |i: int| self.at(prefix, router)[i]@.event.with_prefix(prefix),
                ),
                None => !self.has(prefix, router),
            },
    {
        match self.sequences.get(prefix) {
            Some(routers) => match routers.get(router) {
                Some(sequence) => {
                    let mut events: Vec<Event<Time>> = Vec::new();
                    for i in 0..sequence.len()
                        invariant
                            events@.len() == i,
                            forall|j: int|
                                0 <= j < i ==> (#[trigger] events@[j])@
                                    == sequence@[j]@.event.with_prefix(prefix),
                    {
                        events.push(sequence[i].0.event.clone().with_prefix(prefix));
                    }
                    assert(crate::dispatch_queue::event_views(events@) =~= Seq::new(
                        self.at(prefix, router).len(),
                        |i: int| self.at(prefix, router)[i]@.event.with_prefix(prefix),
                    ));
                    Some(events)
                },
                None => None,
            },
            None => None,
        }
    }
}

proof fn lemma_holds(
    empty: Recording,
    unsorted: Recording,
    r: Recording,
    entries: Seq<Entry>,
)
    requires
        empty.sequences@ == Map::<Prefix, RouterSequences>::empty(),
        records(empty, unsorted, entries),
        forall|p: Prefix, x: RouterId|
            #![trigger r.at(p, x)]
            #![trigger r.has(p, x)]
            r.has(p, x) == unsorted.has(p, x) && is_sorting_of(unsorted.at(p, x), r.at(p, x)),
    ensures
        holds(r, entries),
{
    assert forall|p: Prefix, x: RouterId|
        #![trigger r.at(p, x)]
        #![trigger r.has(p, x)]
        {
            &&& r.has(p, x) == (recorded(entries, p, x).len() > 0)
            &&& exists|s: Seq<TimestampedEvent>| #[trigger]
                is_sorting_of(s, r.at(p, x)) && observed_views(s) == recorded(entries, p, x)
        } by {
        let s = unsorted.at(p, x);
        assert(unsorted.has(p, x) || !unsorted.has(p, x));
        assert(observed_views(empty.at(p, x)) + recorded(entries, p, x) =~= recorded(
            entries,
            p,
            x,
        ));
        assert(is_sorting_of(s, r.at(p, x)) && observed_views(s) == recorded(entries, p, x));
    }
}

/// The sequences of some routers.
pub open spec fn is_restriction(a: RouterSequences, routers: Set<u32>, b: RouterSequences) -> bool {
    forall|x: RouterId|
        {
            &&& #[trigger] b@.contains_key(x) <==> a@.contains_key(x) && routers.contains(x)
            &&& b@.contains_key(x) ==> b@[x] == a@[x]
        }
}

/// Keep the sequences of some routers.
fn restrict(sequences: RouterSequences, routers: &NumberSet) -> (r: RouterSequences)
    requires
        sequences_wf(sequences),
        routers.wf(),
    ensures
        sequences_wf(r),
        is_restriction(sequences, routers@, r),
        forall|x: RouterId| r@.contains_key(x) ==> r.entries@.len() > 0,
{
    let ghost all = sequences.entries@;
    let mut kept: RouterSequences = Keyed::new();
    for e in it: sequences.entries
        invariant
            it.seq() == all,
            all == sequences.entries@,
            sequences_wf(sequences),
            routers.wf(),
            kept.wf(),
            forall|x: RouterId| #[trigger]
                kept@.contains_key(x) <==> crate::keyed::has_key(all.take(it.index() as int), x)
                    && routers@.contains(x),
            forall|x: RouterId| #[trigger]
                kept@.contains_key(x) ==> sequences@.contains_key(x) && kept@[x] == sequences@[x],
    {
        let ghost i = it.index() as int;
        let (router, sequence) = e;
        proof {
            lemma_entry(all, i);
            assert(all[i].0 == router);
            assert forall|x: RouterId| crate::keyed::has_key(all.take(i + 1), x) <==> (
            crate::keyed::has_key(all.take(i), x) || x == router) by {
                crate::keyed::lemma_has_key_take(all, i, x);
            }
        }
        let ghost before = kept@;
        if routers.contains(router) {
            kept.insert(router, sequence);
        }
        proof {
            assert forall|x: RouterId| #[trigger] kept@.contains_key(x) <==> crate::keyed::has_key(
                all.take(i + 1),
                x,
            ) && routers@.contains(x) by {
                assert(before.contains_key(x) || !before.contains_key(x));
                crate::keyed::lemma_has_key_take(all, i, x);
            }
        }
    }
    proof {
        assert(all.take(all.len() as int) =~= all);
        assert forall|x: RouterId| #[trigger] kept@.contains_key(x) <==> sequences@.contains_key(x)
            && routers@.contains(x) by {
            assert(sequences@.contains_key(x) == crate::keyed::has_key(all, x));
        }
        assert forall|x: RouterId, i: int|
            #![trigger kept@[x]@[i]]
            kept@.contains_key(x) && 0 <= i < kept@[x]@.len() implies kept@[x]@[i].wf() by {
            assert(sequences@[x]@[i].wf());
        }
        assert forall|x: RouterId| kept@.contains_key(x) implies kept.entries@.len() > 0 by {
            let j = lemma_key(kept.entries@, x);
        }
    }
    kept
}

fn copy_sequence(s: &MessageSequence) -> (r: MessageSequence)
    requires
        forall|i: int| 0 <= i < s@.len() ==> (#[trigger] s@[i]).wf(),
    ensures
        observed_views(r@) == observed_views(s@),
        forall|i: int| 0 <= i < r@.len() ==> (#[trigger] r@[i]).wf(),
{
    let mut r: MessageSequence = Vec::new();
    for i in 0..s.len()
        invariant
            forall|j: int| 0 <= j < s@.len() ==> (#[trigger] s@[j]).wf(),
            r@.len() == i,
            forall|j: int| 0 <= j < i ==> (#[trigger] r@[j]).wf() && r@[j]@ == s@[j]@,
    {
        assert(s@[i as int].wf());
        let message = s[i].0.copy();
        assert(message.event@ is Bgp);
        r.push(TimestampedEvent(message));
    }
    assert(observed_views(r@) =~= observed_views(s@));
    r
}

/// The same routers, with the same messages.
pub open spec fn same_sequences(a: RouterSequences, b: RouterSequences) -> bool {
    &&& a@.dom() == b@.dom()
    &&& forall|x: RouterId| #[trigger]
        a@.contains_key(x) ==> observed_views(a@[x]@) == observed_views(b@[x]@)
}

fn copy_sequences(routers: &RouterSequences) -> (r: RouterSequences)
    requires
        sequences_wf(*routers),
    ensures
        sequences_wf(r),
        same_sequences(*routers, r),
{
    let ghost all = routers.entries@;
    let mut entries: Vec<(u32, MessageSequence)> = Vec::new();
    for i in 0..routers.entries.len()
        invariant
            sequences_wf(*routers),
            all == routers.entries@,
            entries@.len() == i,
            forall|j: int|
                0 <= j < i ==> (#[trigger] all[j]).0 == entries@[j].0 && observed_views(all[j].1@)
                    == observed_views(entries@[j].1@),
            forall|j: int, k: int|
                0 <= j < i && 0 <= k < entries@[j].1@.len() ==> (#[trigger] entries@[j].1@[k]).wf(),
    {
        proof {
            lemma_entry(all, i as int);
            let x = all[i as int].0;
            assert(routers@.contains_key(x) && routers@[x] == all[i as int].1);
            assert forall|k: int| 0 <= k < all[i as int].1@.len() implies (
            #[trigger] all[i as int].1@[k]).wf() by {
                assert(routers@[x]@[k].wf());
            }
        }
        entries.push((routers.entries[i].0, copy_sequence(&routers.entries[i].1)));
    }
    let r = Keyed { entries };
    proof {
        lemma_same_keys(all, r.entries@);
        assert(r@.dom() =~= routers@.dom());
        assert forall|x: RouterId| #[trigger] routers@.contains_key(x) implies observed_views(
            routers@[x]@,
        ) == observed_views(r@[x]@) by {
            assert(r@.contains_key(x));
            let j = lemma_key(r.entries@, x);
            lemma_entry(all, j);
        }
        assert forall|x: RouterId, k: int|
            #![trigger r@[x]@[k]]
            r@.contains_key(x) && 0 <= k < r@[x]@.len() implies r@[x]@[k].wf() by {
            let j = lemma_key(r.entries@, x);
            assert(r.entries@[j].1@[k].wf());
        }
    }
    r
}

impl Recording {
    /// The same prefixes, routers and messages.
    pub open spec fn same(&self, other: &Self) -> bool {
        &&& self.sequences@.dom() == other.sequences@.dom()
        &&& forall|p: Prefix| #[trigger]
            self.sequences@.contains_key(p) ==> same_sequences(
                self.sequences@[p],
                other.sequences@[p],
            )
    }

    /// A copy.
    pub fn copy(&self) -> (r: Self)
        requires
            self.wf(),
        ensures
            r.wf(),
            self.same(&r),
    {
        let ghost all = self.sequences.entries@;
        let mut entries: Vec<(u32, RouterSequences)> = Vec::new();
        for i in 0..self.sequences.entries.len()
            invariant
                self.wf(),
                all == self.sequences.entries@,
                entries@.len() == i,
                forall|j: int|
                    0 <= j < i ==> (#[trigger] all[j]).0 == entries@[j].0 && same_sequences(
                        all[j].1,
                        entries@[j].1,
                    ),
                forall|j: int| 0 <= j < i ==> sequences_wf((#[trigger] entries@[j]).1),
        {
            proof {
                lemma_entry(all, i as int);
                assert(self.sequences@.contains_key(all[i as int].0));
            }
            entries.push(
                (self.sequences.entries[i].0, copy_sequences(&self.sequences.entries[i].1)),
            );
        }
        let r = Recording { sequences: Keyed { entries } };
        proof {
            let e = r.sequences.entries@;
            lemma_same_keys(all, e);
            assert(r.sequences@.dom() =~= self.sequences@.dom());
            assert forall|p: Prefix| #[trigger] self.sequences@.contains_key(p) implies same_sequences(
                self.sequences@[p],
                r.sequences@[p],
            ) by {
                assert(r.sequences@.contains_key(p));
                let j = lemma_key(e, p);
                lemma_entry(all, j);
            }
            assert forall|p: Prefix| #[trigger] r.sequences@.contains_key(p) implies sequences_wf(
                r.sequences@[p],
            ) by {
                let j = lemma_key(e, p);
            }
        }
        r
    }
}

/// The messages of a recording are in the order of their times.
pub proof fn law_recordings_are_chronological(
    rec: Recording,
    entries: Seq<Entry>,
    p: Prefix,
    r: RouterId,
)
    requires
        holds(rec, entries),
    ensures
        forall|i: int, j: int|
            0 <= i <= j < rec.at(p, r).len() ==> #[trigger] rec.at(p, r)[i].time()
                <= #[trigger] rec.at(p, r)[j].time(),
        rec.at(p, r).len() == recorded(entries, p, r).len(),
{
    assert(rec.has(p, r) || !rec.has(p, r));
    let s = choose|s: Seq<TimestampedEvent>| #[trigger]
        is_sorting_of(s, rec.at(p, r)) && observed_views(s) == recorded(entries, p, r);
    crate::sorting::law_sorting_keeps_elements(s, rec.at(p, r));
    assert(observed_views(s).len() == s.len());
}

/// A message that was captured on a link is recorded at its source if that is an end of the link, and at
/// its destination if that is one. A message without a prefix is not recorded.
pub proof fn law_recorded_at_the_ends_of_a_link(a: RouterId, b: RouterId, v: ObservedView, r: RouterId)
    ensures
        v.event is Ospf ==> on_link(a, b, v).len() == 0,
        v.event is Bgp ==> {
            let (src, dst, p) = (v.event.source(), v.event.router(), v.event.prefix()->0);
            let n = recorded(on_link(a, b, v), p, r).len();
            &&& r != src && r != dst ==> n == 0
            &&& r != a && r != b ==> n == 0
            &&& r == src && r != dst && (r == a || r == b) ==> n == 1
            &&& r == dst && r != src && (r == a || r == b) ==> n == 1
            &&& forall|q: Prefix| q != p ==> #[trigger] recorded(on_link(a, b, v), q, r).len() == 0
        },
{
    reveal_with_fuel(recorded, 3);
    if v.event is Bgp {
        let (src, dst, p) = (v.event.source(), v.event.router(), v.event.prefix()->0);
        let s = on_link(a, b, v);
        let (x, y) = ((p, src, v), (p, dst, v));
        if src == a || src == b {
            if dst == a || dst == b {
                assert(s =~= seq![x, y]);
                assert(seq![x, y].drop_last() =~= seq![x]);
                assert(seq![x].drop_last() =~= Seq::empty());
            } else {
                assert(s =~= seq![x]);
                assert(seq![x].drop_last() =~= Seq::empty());
            }
        } else if dst == a || dst == b {
            assert(s =~= seq![y]);
            assert(seq![y].drop_last() =~= Seq::empty());
        } else {
            assert(s =~= Seq::empty());
        }
    }
}

/// What is recorded last for a prefix at a router stands last there, and nowhere else. It keeps its time,
/// its source and its destination.
pub proof fn law_recording_a_message(
    entries: Seq<Entry>,
    q: Prefix,
    s: RouterId,
    v: ObservedView,
    p: Prefix,
    r: RouterId,
)
    ensures
        ({
            let (a, b) = (recorded(entries, p, r), recorded(entries.push((q, s, v)), p, r));
            &&& p != q || r != s ==> b == a
            &&& p == q && r == s ==> {
                &&& b.len() == a.len() + 1
                &&& b.drop_last() == a
                &&& b.last().event.priority() == v.event.priority()
                &&& b.last().event.source() == v.event.source()
                &&& b.last().event.router() == v.event.router()
                &&& v.event is Bgp ==> b.last().event.prefix() == Some(SINGLE_PREFIX)
            }
        }),
        recorded(Seq::empty(), p, r).len() == 0,
{
    assert(entries.push((q, s, v)).drop_last() =~= entries);
    let (a, b) = (recorded(entries, p, r), recorded(entries.push((q, s, v)), p, r));
    if p == q && r == s {
        assert(b.drop_last() =~= a);
    }
}

/// The messages of a list are a second apart, from 0 on.
pub proof fn law_messages_are_a_second_apart(i: nat)
    ensures
        i * 1_000_000_000 <= i64::MAX ==> second(i) == i * 1_000_000_000,
    decreases i,
{
    if i > 0 {
        law_messages_are_a_second_apart((i - 1) as nat);
    }
}

/// A further message of a list is recorded at its source and at its destination, at a time that is as many
/// seconds as there were messages before it. Other events are not recorded, and take no time.
pub proof fn law_recording_a_list<T>(s: Seq<Observation<T>>, o: Observation<T>)
    ensures
        o.0 is Ospf ==> listed(s.push(o)) == listed(s) && num_bgp(s.push(o)) == num_bgp(s),
        o.0 is Bgp ==> {
            let all = listed(s.push(o));
            let n = listed(s).len() as int;
            &&& num_bgp(s.push(o)) == num_bgp(s) + 1
            &&& all.len() == n + 2
            &&& all.take(n) == listed(s)
            &&& all[n].1 == o.0@.source()
            &&& all[n + 1].1 == o.0@.router()
            &&& forall|k: int|
                n <= k < n + 2 ==> {
                    &&& Some((#[trigger] all[k]).0) == o.0@.prefix()
                    &&& all[k].2.event.priority() == second(num_bgp(s))
                    &&& all[k].2.event.source() == o.0@.source()
                    &&& all[k].2.event.router() == o.0@.router()
                    &&& all[k].2.event.prefix() == o.0@.prefix()
                    &&& all[k].2.import == o.1@
                }
        },
        num_bgp(Seq::<Observation<T>>::empty()) == 0,
        listed(Seq::<Observation<T>>::empty()).len() == 0,
{
    assert(s.push(o).drop_last() =~= s);
    if o.0 is Bgp {
        let n = listed(s).len() as int;
        assert(listed(s.push(o)).take(n) =~= listed(s));
    }
}

/// A copy has the same messages of each prefix at each router.
pub proof fn law_copies_hold_the_same(a: Recording, b: Recording, p: Prefix, r: RouterId)
    requires
        a.same(&b),
    ensures
        a.has(p, r) == b.has(p, r),
        observed_views(a.at(p, r)) == observed_views(b.at(p, r)),
        a.at(p, r).len() == b.at(p, r).len(),
{
    assert(a.sequences@.contains_key(p) == b.sequences@.contains_key(p));
    if a.sequences@.contains_key(p) {
        let (x, y) = (a.sequences@[p], b.sequences@[p]);
        assert(x@.contains_key(r) == y@.contains_key(r));
        if x@.contains_key(r) {
            assert(observed_views(x@[r]@) == observed_views(y@[r]@));
        }
    }
    assert(observed_views(a.at(p, r)) =~= observed_views(b.at(p, r)));
    assert(observed_views(a.at(p, r)).len() == a.at(p, r).len());
    assert(observed_views(b.at(p, r)).len() == b.at(p, r).len());
}

/// What is recorded of the messages of a link is recorded one message after the other, and so it is with
/// several links.
pub proof fn law_links_are_recorded_in_turn(
    a: RouterId,
    b: RouterId,
    msgs: Seq<Message>,
    m: Message,
    s: Seq<Capture>,
    t: Seq<Capture>,
)
    requires
        t.len() == s.len() + 1,
        t.drop_last() == s,
    ensures
        all_on_link(a, b, msgs.push(m)) == all_on_link(a, b, msgs) + on_link(a, b, m@),
        all_on_link(a, b, Seq::empty()).len() == 0,
        captured(t) == captured(s) + all_on_link(t.last().0.0, t.last().0.1, t.last().1@),
        captured(Seq::empty()).len() == 0,
{
    assert(msgs.push(m).drop_last() =~= msgs);
}

} // verus!
