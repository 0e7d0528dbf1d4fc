//! The parts of a session on which messages are reordered, debounced, hit by bugs, and logged.
use std::collections::VecDeque;
use vstd::prelude::*;

use crate::bgp::{BgpEvent, BgpEventView, BgpRoute, RouteView, RouterId, Time};
use crate::bgp::TICKS_PER_SECOND;
use crate::dispatch_queue::{QueueInit, Session};
use crate::geo_distances::Routing;
use crate::pairs::Pairs;
use crate::random::{fork_draw, fork_rng, gen_range, gen_ratio, range_draw, ratio_draw};
use crate::random::{seeded, seeded_state};
use crate::session_filter::{FilteredSessionQueue, SessionFilter};
use crate::session_queue::{append, first_time, front_time, later, later_than, take_first};
use crate::session_queue::{took_first, views, Message, MessageView, Poll, PollView};
use crate::session_queue::{SessionQueue, SessionQueueSequence};

verus! {

// ---------------------------------------------------------------------------------------------
// Logging
// ---------------------------------------------------------------------------------------------
/// Records all messages of a session.
#[derive(Debug)]
pub struct Monitor {
    pub log: Vec<Message>,
    /// Take the time of the message, not that of the clock.
    pub use_msg_time: bool,
    /// If not, nothing is recorded.
    pub enabled: bool,
}

/// The next time of a clock, which is one second later.
pub open spec fn ticked(clock: Time) -> Time {
    later(clock, TICKS_PER_SECOND)
}

impl Monitor {
    pub fn new() -> (r: Self)
        ensures
            r.log@.len() == 0,
            !r.use_msg_time,
            r.enabled,
    {
        Monitor { log: Vec::new(), use_msg_time: false, enabled: true }
    }
}

impl SessionFilter for Monitor {
    open spec fn wf(&self) -> bool {
        true
    }

    open spec fn applied(
        before: Self,
        clock: Time,
        msg: MessageView,
        r: Option<MessageView>,
        after: Self,
        new_clock: Time,
    ) -> bool {
        &&& r == Some(msg)
        &&& after.use_msg_time == before.use_msg_time
        &&& after.enabled == before.enabled
        &&& if !before.enabled {
            after.log == before.log && new_clock == clock
        } else if before.use_msg_time {
            views(after.log@) == views(before.log@).push(msg) && new_clock == clock
        } else {
            views(after.log@) == views(before.log@).push(msg.at(clock)) && new_clock == ticked(clock)
        }
    }

    open spec fn reset(before: Self, after: Self) -> bool {
        &&& after.log@.len() == 0
        &&& after.use_msg_time == before.use_msg_time
        &&& after.enabled == before.enabled
    }

    fn apply(&mut self, msg: Message, clock: &mut Time) -> (r: Option<Message>) {
        if !self.enabled {
            return Some(msg);
        }
        let time: Time = if self.use_msg_time {
            msg.t
        } else {
            let now: Time = *clock;
            *clock = later_than(now, TICKS_PER_SECOND);
            now
        };
        let mut log_msg: Message = msg.clone();
        log_msg.t = time;
        self.log.push(log_msg);
        assert(views(self.log@) =~= views(old(self).log@).push(log_msg@));
        Some(msg)
    }

    fn clear(&mut self) {
        self.log = Vec::new();
    }
}

// ---------------------------------------------------------------------------------------------
// Random times
// ---------------------------------------------------------------------------------------------
/// A queue that keeps the order of its messages. If there is no fixed delay, then the time of its next
/// work is a random one.
pub struct RandomQueue {
    pub queue: VecDeque<Message>,
    pub fixed_delay: Option<Time>,
    pub rng: rand::rngs::StdRng,
}

/// A delay that is a random part of `time_scale`: from 0 up to, but not including, the whole.
pub open spec fn is_part_of(delay: Time, time_scale: Time) -> bool {
    if time_scale > 0 {
        0 <= delay < time_scale
    } else if time_scale < 0 {
        time_scale < delay <= 0
    } else {
        delay == 0
    }
}

/// The part of `time_scale` that is drawn from a source, and the source after that.
pub open spec fn part_drawn(rng: rand::rngs::StdRng, time_scale: Time) -> (
    Time,
    rand::rngs::StdRng,
) {
    if time_scale > 0 {
        let (x, after) = range_draw(rng, 0, (time_scale - 1) as u64);
        (x as Time, after)
    } else if time_scale < 0 {
        let (x, after) = range_draw(rng, 0, (-(time_scale + 1)) as u64);
        ((-(x as Time)) as Time, after)
    } else {
        (0, range_draw(rng, 0, 0).1)
    }
}

impl RandomQueue {
    pub fn new(init_rng: &mut rand::rngs::StdRng) -> (r: Self)
        ensures
            r.queue@.len() == 0,
            r.fixed_delay is None,
            (r.rng, *final(init_rng)) == fork_draw(*old(init_rng)),
    {
        RandomQueue { queue: VecDeque::new(), fixed_delay: None, rng: fork_rng(init_rng) }
    }

    /// Delay messages by a fixed time, which is chosen now.
    pub fn use_fixed_timing(&mut self, time_scale: Time)
        ensures
            final(self).queue == old(self).queue,
            final(self).fixed_delay is Some,
            is_part_of(final(self).fixed_delay->0, time_scale),
            (final(self).fixed_delay->0, final(self).rng) == part_drawn(old(self).rng, time_scale),
    {
        let delay: Time = if time_scale > 0 {
            gen_range(&mut self.rng, 0, (time_scale - 1) as u64) as Time
        } else if time_scale < 0 {
            -(gen_range(&mut self.rng, 0, (-(time_scale + 1)) as u64) as Time)
        } else {
            gen_range(&mut self.rng, 0, 0) as Time
        };
        self.fixed_delay = Some(delay);
    }
}

impl SessionQueue for RandomQueue {
    open spec fn wf(&self) -> bool {
        true
    }

    open spec fn size(&self) -> nat {
        self.queue@.len()
    }

    open spec fn work(&self) -> nat {
        self.queue@.len()
    }

    open spec fn push_work() -> nat {
        1
    }

    open spec fn punctual(&self) -> bool {
        self.fixed_delay is Some
    }

    open spec fn due(&self) -> Option<Time> {
        first_time(views(self.queue@))
    }

    open spec fn pushed(
        before: Self,
        clock: Time,
        msg: MessageView,
        after: Self,
        new_clock: Time,
    ) -> bool {
        &&& views(after.queue@) == views(before.queue@).push(
            match before.fixed_delay {
                Some(d) => msg.at(later(msg.t, d)),
                None => msg,
            },
        )
        &&& after.fixed_delay == before.fixed_delay
        &&& after.rng == before.rng
        &&& new_clock == clock
    }

    open spec fn polled(
        before: Self,
        clock: Time,
        r: PollView,
        after: Self,
        new_clock: Time,
    ) -> bool {
        &&& took_first(views(before.queue@), r, views(after.queue@))
        &&& after.fixed_delay == before.fixed_delay
        &&& after.rng == before.rng
        &&& new_clock == clock
    }

    open spec fn timed(before: Self, t: Option<Time>, after: Self) -> bool {
        &&& after.queue == before.queue
        &&& after.fixed_delay == before.fixed_delay
        &&& if before.queue@.len() == 0 {
            t is None && after.rng == before.rng
        } else if before.fixed_delay is Some {
            t == Some(views(before.queue@)[0].t) && after.rng == before.rng
        } else {
            let (x, rng) = range_draw(before.rng, 0, TICKS_PER_SECOND as u64);
            &&& 0 <= x <= TICKS_PER_SECOND
            &&& t == Some(x as Time)
            &&& after.rng == rng
        }
    }

    open spec fn cleared(before: Self, after: Self) -> bool {
        &&& after.queue@.len() == 0
        &&& after.fixed_delay == before.fixed_delay
        &&& after.rng == before.rng
    }

    fn push(&mut self, msg: Message, clock: &mut Time) {
        let t: Time = match self.fixed_delay {
            Some(d) => later_than(msg.t, d),
            None => msg.t,
        };
        append(&mut self.queue, Message { e: msg.e, t });
        proof {
            assert(views(self.queue@).len() == views(old(self).queue@).len() + 1);
        }
    }

    fn poll(&mut self, clock: &mut Time) -> (r: Poll) {
        let r = take_first(&mut self.queue);
        proof {
            assert(views(self.queue@).len() == self.queue@.len());
            assert(views(old(self).queue@).len() == old(self).queue@.len());
        }
        r
    }

    fn next_t(&mut self) -> (r: Option<Time>) {
        if self.queue.len() == 0 {
            None
        } else if self.fixed_delay.is_some() {
            front_time(&self.queue)
        } else {
            Some(gen_range(&mut self.rng, 0, TICKS_PER_SECOND as u64) as Time)
        }
    }

    fn len(&self) -> (r: usize) {
        self.queue.len()
    }

    fn is_empty(&self) -> (r: bool) {
        self.queue.len() == 0
    }

    fn clear(&mut self) {
        self.queue.clear();
    }
}

// ---------------------------------------------------------------------------------------------
// Debouncing
// ---------------------------------------------------------------------------------------------
/// A queue that skips a random number of its messages whenever it lets one of them leave.
pub struct RandomDebouncer {
    pub inner: RandomQueue,
    pub last_dequeued: Option<BgpEvent>,
    pub enable: bool,
    pub rng: rand::rngs::StdRng,
}

/// Message `n` of a queue leaves, counted from 1, and those in front of it are gone.
pub open spec fn took_nth(
    before: Seq<MessageView>,
    n: int,
    r: PollView,
    after: Seq<MessageView>,
) -> bool {
    &&& 1 <= n <= before.len()
    &&& r == PollView::Msg(before[n - 1])
    &&& after == before.skip(n)
}

impl RandomDebouncer {
    pub fn new(init_rng: &mut rand::rngs::StdRng) -> (r: Self)
        ensures
            r.wf(),
            r.inner.queue@.len() == 0,
            r.inner.fixed_delay is None,
            r.enable,
            r.inner.rng == fork_draw(*old(init_rng)).0,
            (r.rng, *final(init_rng)) == fork_draw(fork_draw(*old(init_rng)).1),
    {
        RandomDebouncer {
            inner: RandomQueue::new(init_rng),
            last_dequeued: None,
            enable: true,
            rng: fork_rng(init_rng),
        }
    }

    /// Skip no messages any more.
    pub fn disable(&mut self)
        ensures
            !final(self).enable,
            final(self).inner == old(self).inner,
            final(self).last_dequeued == old(self).last_dequeued,
            final(self).rng == old(self).rng,
    {
        self.enable = false;
    }

    /// Delay messages by a fixed time.
    pub fn use_fixed_timing(&mut self, time_scale: Time)
        ensures
            final(self).inner.fixed_delay == Some(later(time_scale, time_scale)),
            i64::MIN <= 2 * time_scale <= i64::MAX ==> final(self).inner.fixed_delay->0 == 2
                * time_scale,
            final(self).inner.queue == old(self).inner.queue,
            final(self).inner.rng == old(self).inner.rng,
            final(self).last_dequeued == old(self).last_dequeued,
            final(self).enable == old(self).enable,
            final(self).rng == old(self).rng,
    {
        self.inner.fixed_delay = Some(later_than(time_scale, time_scale));
    }

    /// Let message `n` leave, counted from 1.
    pub fn take_nth(&mut self, n: usize) -> (r: Poll)
        requires
            1 <= n <= old(self).inner.queue@.len(),
        ensures
            took_nth(
                views(old(self).inner.queue@),
                n as int,
                r@,
                views(final(self).inner.queue@),
            ),
            final(self).inner.fixed_delay == old(self).inner.fixed_delay,
            final(self).inner.rng == old(self).inner.rng,
            final(self).last_dequeued == old(self).last_dequeued,
            final(self).enable == old(self).enable,
            final(self).rng == old(self).rng,
    {
        let ghost all = views(self.inner.queue@);
        for i in 1..n
            invariant
                n <= all.len(),
                views(self.inner.queue@) == all.skip(i - 1),
                self.inner.fixed_delay == old(self).inner.fixed_delay,
                self.last_dequeued == old(self).last_dequeued,
                self.enable == old(self).enable,
                self.inner.rng == old(self).inner.rng,
                self.rng == old(self).rng,
        {
            let _ = take_first(&mut self.inner.queue);
            assert(all.skip(i - 1).skip(1) =~= all.skip(i as int));
        }
        let r = take_first(&mut self.inner.queue);
        assert(all.skip(n - 1).skip(1) =~= all.skip(n as int));
        r
    }
}

impl SessionQueue for RandomDebouncer {
    open spec fn wf(&self) -> bool {
        self.last_dequeued is None
    }

    open spec fn size(&self) -> nat {
        self.inner.size()
    }

    open spec fn work(&self) -> nat {
        self.inner.work()
    }

    open spec fn push_work() -> nat {
        1
    }

    open spec fn punctual(&self) -> bool {
        self.inner.punctual() && !self.enable
    }

    open spec fn due(&self) -> Option<Time> {
        self.inner.due()
    }

    open spec fn pushed(
        before: Self,
        clock: Time,
        msg: MessageView,
        after: Self,
        new_clock: Time,
    ) -> bool {
        &&& RandomQueue::pushed(before.inner, clock, msg, after.inner, new_clock)
        &&& after.last_dequeued == before.last_dequeued
        &&& after.enable == before.enable
        &&& after.rng == before.rng
    }

    open spec fn polled(
        before: Self,
        clock: Time,
        r: PollView,
        after: Self,
        new_clock: Time,
    ) -> bool {
        let (a, b) = (views(before.inner.queue@), views(after.inner.queue@));
        &&& after.inner.fixed_delay == before.inner.fixed_delay
        &&& after.last_dequeued == before.last_dequeued
        &&& after.enable == before.enable
        &&& after.inner.rng == before.inner.rng
        &&& new_clock == clock
        &&& if before.enable {
            // a number is drawn for an empty queue, too
            let last = if a.len() > 0 {
                a.len() as u64
            } else {
                1
            };
            let (n, rng) = range_draw(before.rng, 1, last);
            &&& a.len() > 0 ==> took_nth(a, n as int, r, b)
            &&& a.len() == 0 ==> took_first(a, r, b)
            &&& after.rng == rng
        } else {
            &&& took_first(a, r, b)
            &&& after.rng == before.rng
        }
    }

    open spec fn timed(before: Self, t: Option<Time>, after: Self) -> bool {
        &&& RandomQueue::timed(before.inner, t, after.inner)
        &&& after.last_dequeued == before.last_dequeued
        &&& after.enable == before.enable
        &&& after.rng == before.rng
    }

    open spec fn cleared(before: Self, after: Self) -> bool {
        &&& RandomQueue::cleared(before.inner, after.inner)
        &&& after.last_dequeued == before.last_dequeued
        &&& after.enable == before.enable
        &&& after.rng == before.rng
    }

    fn push(&mut self, msg: Message, clock: &mut Time) {
        self.inner.push(msg, clock);
    }

    fn poll(&mut self, clock: &mut Time) -> (r: Poll) {
        let len: usize = self.inner.queue.len();
        if self.enable && len == 0 {
            let _ = gen_range(&mut self.rng, 1, 1);
            self.inner.poll(clock)
        } else if self.enable {
            let n: usize = gen_range(&mut self.rng, 1, len as u64) as usize;
            let r = self.take_nth(n);
            proof {
                let (a, b) = (views(old(self).inner.queue@), views(self.inner.queue@));
                assert(took_nth(a, n as int, r@, b));
                assert(b.len() == self.inner.queue@.len());
            }
            r
        } else {
            self.inner.poll(clock)
        }
    }

    fn next_t(&mut self) -> (r: Option<Time>) {
        self.inner.next_t()
    }

    fn len(&self) -> (r: usize) {
        self.inner.len()
    }

    fn is_empty(&self) -> (r: bool) {
        self.inner.is_empty()
    }

    fn clear(&mut self) {
        self.inner.clear();
    }
}

/// Debouncing never loses the latest message: as long as it has not left, it is the last of the queue.
pub proof fn law_debouncing_keeps_the_latest(
    before: RandomDebouncer,
    clock: Time,
    r: PollView,
    after: RandomDebouncer,
    new_clock: Time,
)
    requires
        RandomDebouncer::polled(before, clock, r, after, new_clock),
        views(before.inner.queue@).len() > 0,
    ensures
        views(after.inner.queue@).len() > 0 ==> views(after.inner.queue@).last() == views(
            before.inner.queue@,
        ).last(),
        views(after.inner.queue@).len() == 0 ==> r == PollView::Msg(
            views(before.inner.queue@).last(),
        ),
{
}

// ---------------------------------------------------------------------------------------------
// Bugs
// ---------------------------------------------------------------------------------------------
/// A probability, as a fraction.
#[derive(Debug, Clone, Copy, PartialEq, Eq, Structural)]
pub struct Probability {
    pub numerator: u32,
    pub denominator: u32,
}

impl Probability {
    /// It lies between 0 and 1.
    pub open spec fn is_valid(self) -> bool {
        0 < self.denominator && self.numerator <= self.denominator
    }

    /// A coin that comes up with this probability can come up as `coin`.
    pub open spec fn allows(self, coin: bool) -> bool {
        &&& self.numerator == self.denominator ==> coin
        &&& self.numerator == 0 ==> !coin
    }
}

/// Where on a router a bug sits.
#[derive(Debug, Clone, Copy, PartialEq, Eq)]
pub enum FailureLocation {
    Ingress,
    Egress,
}

/// A bug of a router. It shows with probability `p`.
#[derive(Debug, Clone, Copy, PartialEq, Eq)]
pub enum Bug {
    DropUpdates { p: Probability },
    DropWithdraws { p: Probability },
    TransformCommunity { p: Probability, swap: u32 },
    TransformLocalPref { p: Probability, new_val: u32 },
    /// Models a bug that does nothing to the messages.
    WithdrawToUpdate { p: Probability },
    /// Models a bug that does nothing to the messages.
    UpdateToWithdraw { p: Probability },
}

impl Bug {
    pub open spec fn probability(self) -> Probability {
        match self {
            Bug::DropUpdates { p } => p,
            Bug::DropWithdraws { p } => p,
            Bug::TransformCommunity { p, .. } => p,
            Bug::TransformLocalPref { p, .. } => p,
            Bug::WithdrawToUpdate { p } => p,
            Bug::UpdateToWithdraw { p } => p,
        }
    }

    /// The bug is about messages such as this one.
    pub open spec fn concerns(self, e: BgpEventView) -> bool {
        match (self, e) {
            (Bug::DropUpdates { .. }, BgpEventView::Update(_)) => true,
            (Bug::DropWithdraws { .. }, BgpEventView::Withdraw(_)) => true,
            (Bug::TransformCommunity { .. }, BgpEventView::Update(_)) => true,
            (Bug::TransformLocalPref { .. }, BgpEventView::Update(_)) => true,
            _ => false,
        }
    }

    /// What the bug makes of a message that it is about, when it shows.
    pub open spec fn shown(self, e: BgpEventView) -> Option<BgpEventView> {
        match (self, e) {
            (Bug::TransformCommunity { swap, .. }, BgpEventView::Update(r)) => Some(
                BgpEventView::Update(
                    RouteView {
                        community: if r.community.contains(swap) {
                            r.community.remove(swap)
                        } else {
                            r.community.insert(swap)
                        },
                        ..r
                    },
                ),
            ),
            (Bug::TransformLocalPref { new_val, .. }, BgpEventView::Update(r)) => if r.local_pref_or_default()
                != new_val {
                Some(BgpEventView::Update(RouteView { local_pref: Some(new_val), ..r }))
            } else {
                Some(e)
            },
            _ => None,
        }
    }

    /// Whether the message is another one when the bug shows.
    pub open spec fn changes(self, e: BgpEventView) -> bool {
        match (self, e) {
            (Bug::TransformLocalPref { new_val, .. }, BgpEventView::Update(r)) => r.local_pref_or_default()
                != new_val,
            _ => true,
        }
    }

    /// What becomes of a message, if the coin came up as `coin`, and whether the bug was triggered.
    pub open spec fn outcome(self, e: BgpEventView, coin: bool) -> (Option<BgpEventView>, bool) {
        if self.concerns(e) && coin {
            (self.shown(e), self.changes(e))
        } else {
            (Some(e), false)
        }
    }

    /// Apply the bug to a message, if the coin came up as `coin`. Tell whether it was triggered.
    pub fn apply(&self, e: BgpEvent, coin: bool) -> (r: (Option<BgpEvent>, bool))
        ensures
            (crate::failure_queue::event_view(r.0), r.1) == self.outcome(e@, coin),
    {
        if !coin {
            return (Some(e), false);
        }
        match (*self, e) {
            (Bug::DropUpdates { .. }, BgpEvent::Update(_)) => (None, true),
            (Bug::DropWithdraws { .. }, BgpEvent::Withdraw(_)) => (None, true),
            (Bug::TransformCommunity { swap, .. }, BgpEvent::Update(r)) => {
                let mut route: BgpRoute = r;
                if route.community.contains(swap) {
                    route.community.remove(swap);
                } else {
                    route.community.insert(swap);
                }
                (Some(BgpEvent::Update(route)), true)
            },
            (Bug::TransformLocalPref { new_val, .. }, BgpEvent::Update(r)) => {
                let mut route: BgpRoute = r;
                if route.local_pref_or_default() != new_val {
                    route.local_pref = Some(new_val);
                    (Some(BgpEvent::Update(route)), true)
                } else {
                    (Some(BgpEvent::Update(route)), false)
                }
            },
            (_, e) => (Some(e), false),
        }
    }

    fn concerns_event(&self, e: &BgpEvent) -> (r: bool)
        ensures
            r == self.concerns(e@),
    {
        match (self, e) {
            (Bug::DropUpdates { .. }, BgpEvent::Update(_)) => true,
            (Bug::DropWithdraws { .. }, BgpEvent::Withdraw(_)) => true,
            (Bug::TransformCommunity { .. }, BgpEvent::Update(_)) => true,
            (Bug::TransformLocalPref { .. }, BgpEvent::Update(_)) => true,
            _ => false,
        }
    }

    fn get_probability(&self) -> (r: Probability)
        ensures
            r == self.probability(),
    {
        match self {
            Bug::DropUpdates { p } => *p,
            Bug::DropWithdraws { p } => *p,
            Bug::TransformCommunity { p, .. } => *p,
            Bug::TransformLocalPref { p, .. } => *p,
            Bug::WithdrawToUpdate { p } => *p,
            Bug::UpdateToWithdraw { p } => *p,
        }
    }
}

/// What becomes of a message under several bugs, one after the other, and how many were triggered. The
/// coins tell which of them show.
pub open spec fn afflicted(bugs: Seq<Bug>, coins: Seq<bool>, e: BgpEventView) -> (
    Option<BgpEventView>,
    nat,
)
    decreases bugs.len(),
{
    if bugs.len() == 0 {
        (Some(e), 0)
    } else {
        let (mid, n) = afflicted(bugs.drop_last(), coins, e);
        match mid {
            Some(m) => {
                let (r, hit) = bugs.last().outcome(m, coins[bugs.len() - 1]);
                (
                    r,
                    if hit {
                        n + 1
                    } else {
                        n
                    },
                )
            },
            None => (None, n),
        }
    }
}

/// Coins that the bugs allow.
pub open spec fn are_coins(bugs: Seq<Bug>, coins: Seq<bool>) -> bool {
    &&& coins.len() == bugs.len()
    &&& forall|i: int|
        0 <= i < bugs.len() ==> (#[trigger] bugs[i]).probability().allows(coins[i])
}

/// What has been counted, as far as it fits.
pub open spec fn counted(n: nat) -> usize {
    if n > usize::MAX {
        usize::MAX
    } else {
        n as usize
    }
}

/// What becomes of a message under several bugs, one after the other, and how many were triggered, and the
/// source of randomness after that. A coin is drawn for each bug that is about what is left of the message.
pub open spec fn struck(rng: rand::rngs::StdRng, bugs: Seq<Bug>, e: BgpEventView) -> (
    Option<BgpEventView>,
    nat,
    rand::rngs::StdRng,
)
    decreases bugs.len(),
{
    if bugs.len() == 0 {
        (Some(e), 0, rng)
    } else {
        let bug = bugs.last();
        let (mid, n, before) = struck(rng, bugs.drop_last(), e);
        match mid {
            Some(m) => if bug.concerns(m) {
                let p = bug.probability();
                let (coin, after) = ratio_draw(before, p.numerator, p.denominator);
                let (r, hit) = bug.outcome(m, coin);
                (
                    r,
                    if hit {
                        n + 1
                    } else {
                        n
                    },
                    after,
                )
            } else {
                (mid, n, before)
            },
            None => (mid, n, before),
        }
    }
}

/// Bugs behind one that drops the message do not matter.
proof fn lemma_struck_prefix(rng: rand::rngs::StdRng, bugs: Seq<Bug>, k: int, e: BgpEventView)
    requires
        0 <= k <= bugs.len(),
        struck(rng, bugs.take(k), e).0 is None,
    ensures
        struck(rng, bugs, e) == struck(rng, bugs.take(k), e),
    decreases bugs.len(),
{
    if k < bugs.len() {
        assert(bugs.drop_last().take(k) =~= bugs.take(k));
        lemma_struck_prefix(rng, bugs.drop_last(), k, e);
    } else {
        assert(bugs.take(k) =~= bugs);
    }
}

/// The bugs on one side of a session.
pub struct Failures {
    pub rng: rand::rngs::StdRng,
    pub bugs: Vec<Bug>,
    pub num_triggered: usize,
}

impl Failures {
    pub fn new(init_rng: &mut rand::rngs::StdRng) -> (r: Self)
        ensures
            r.bugs@.len() == 0,
            r.num_triggered == 0,
            (r.rng, *final(init_rng)) == fork_draw(*old(init_rng)),
    {
        Failures { rng: fork_rng(init_rng), bugs: Vec::new(), num_triggered: 0 }
    }
}

/// Coins beyond the bugs do not matter, and bugs behind one that drops the message do not, either.
proof fn lemma_afflicted_prefix(bugs: Seq<Bug>, k: int, c1: Seq<bool>, c2: Seq<bool>, e: BgpEventView)
    requires
        0 <= k <= bugs.len(),
        forall|i: int| 0 <= i < k ==> c1[i] == c2[i],
    ensures
        afflicted(bugs.take(k), c1, e) == afflicted(bugs.take(k), c2, e),
        afflicted(bugs.take(k), c1, e).0 is None ==> afflicted(bugs, c2, e) == afflicted(
            bugs.take(k),
            c1,
            e,
        ),
    decreases bugs.len(), k,
{
    if k > 0 {
        assert(bugs.take(k).drop_last() =~= bugs.take(k - 1));
        lemma_afflicted_prefix(bugs.take(k - 1), k - 1, c1, c2, e);
        assert(bugs.take(k - 1).take(k - 1) =~= bugs.take(k - 1));
    }
    if k < bugs.len() {
        lemma_afflicted_prefix(bugs.drop_last(), k, c1, c2, e);
        assert(bugs.drop_last().take(k) =~= bugs.take(k));
    } else {
        assert(bugs.take(k) =~= bugs);
    }
}

impl SessionFilter for Failures {
    open spec fn wf(&self) -> bool {
        forall|i: int|
            0 <= i < self.bugs@.len() ==> (#[trigger] self.bugs@[i]).probability().is_valid()
    }

    open spec fn applied(
        before: Self,
        clock: Time,
        msg: MessageView,
        r: Option<MessageView>,
        after: Self,
        new_clock: Time,
    ) -> bool {
        &&& after.bugs == before.bugs
        &&& new_clock == clock
        &&& exists|coins: Seq<bool>| #[trigger]
            are_coins(before.bugs@, coins) && {
                let (e, n) = afflicted(before.bugs@, coins, msg.e);
                &&& r == match e {
                    Some(e) => Some(MessageView { e, t: msg.t }),
                    None => None,
                }
                &&& after.num_triggered == counted(before.num_triggered as nat + n)
                &&& (e, n, after.rng) == struck(before.rng, before.bugs@, msg.e)
            }
    }

    open spec fn reset(before: Self, after: Self) -> bool {
        &&& after.bugs == before.bugs
        &&& after.num_triggered == 0
        &&& after.rng == before.rng
    }

    fn apply(&mut self, msg: Message, clock: &mut Time) -> (r: Option<Message>) {
        let ghost bugs = self.bugs@;
        let ghost mut coins: Seq<bool> = Seq::new(
            bugs.len(),
            |i: int| bugs[i].probability().numerator == bugs[i].probability().denominator,
        );
        let ghost mut n: nat = 0;
        let t: Time = msg.t;
        let mut e: BgpEvent = msg.e;
        assert(bugs.take(0) =~= Seq::<Bug>::empty());
        let count: usize = self.bugs.len();
        for i in 0..count
            invariant
                bugs == self.bugs@,
                count == bugs.len(),
                self.bugs == old(self).bugs,
                self.wf(),
                are_coins(bugs, coins),
                afflicted(bugs.take(i as int), coins, msg.e@) == (Some(e@), n),
                struck(old(self).rng, bugs.take(i as int), msg.e@) == (Some(e@), n, self.rng),
                self.num_triggered == counted(old(self).num_triggered as nat + n),
                t == msg.t,
                *clock == *old(clock),
        {
            let bug: Bug = self.bugs[i];
            let ghost before = coins;
            proof {
                assert(bugs.take(i + 1).drop_last() =~= bugs.take(i as int));
                assert(bugs.take(i + 1).last() == bug);
            }
            if bug.concerns_event(&e) {
                let p: Probability = bug.get_probability();
                let coin: bool = gen_ratio(&mut self.rng, p.numerator, p.denominator);
                proof {
                    coins = before.update(i as int, coin);
                    lemma_afflicted_prefix(bugs, i as int, before, coins, msg.e@);
                }
                let (new_e, triggered) = bug.apply(e, coin);
                if triggered {
                    if self.num_triggered < usize::MAX {
                        self.num_triggered += 1;
                    }
                    proof {
                        n = n + 1;
                    }
                }
                assert(afflicted(bugs.take(i + 1), coins, msg.e@) == (
                    crate::failure_queue::event_view(new_e),
                    n,
                ));
                match new_e {
                    Some(x) => {
                        e = x;
                    },
                    None => {
                        proof {
                            lemma_afflicted_prefix(bugs, i + 1, coins, coins, msg.e@);
                            lemma_struck_prefix(old(self).rng, bugs, i + 1, msg.e@);
                            assert(afflicted(bugs, coins, msg.e@) == (None::<BgpEventView>, n));
                            assert(are_coins(old(self).bugs@, coins));
                        }
                        return None;
                    },
                }
            }
        }
        assert(bugs.take(bugs.len() as int) =~= bugs);
        Some(Message { e, t })
    }

    fn clear(&mut self) {
        self.num_triggered = 0;
    }
}

// ---------------------------------------------------------------------------------------------
// The session
// ---------------------------------------------------------------------------------------------
/// A session: messages leave the sender (debounced, and hit by its egress bugs), travel over the
/// network (logged before and after), and enter the receiver (hit by its ingress bugs).
pub type ReorderingSessionQueue = SessionQueueSequence<
    FilteredSessionQueue<(), RandomDebouncer, Failures>,
    SessionQueueSequence<
        FilteredSessionQueue<Monitor, RandomQueue, Monitor>,
        FilteredSessionQueue<Failures, RandomQueue, ()>,
    >,
>;

/// Creates such sessions.
pub struct ReorderingSessionQueueInit {
    pub init_rng: rand::rngs::StdRng,
}

impl ReorderingSessionQueueInit {
    pub fn new(seed: u64) -> (r: Self)
        ensures
            r.init_rng == seeded_state(seed),
    {
        ReorderingSessionQueueInit { init_rng: seeded(seed) }
    }
}

/// A session without messages, bugs and logs, whose times are random.
pub open spec fn is_fresh(q: ReorderingSessionQueue) -> bool {
    &&& q.a.queue.inner.queue@.len() == 0
    &&& q.a.queue.inner.fixed_delay is None
    &&& q.a.queue.last_dequeued is None
    &&& q.a.queue.enable
    &&& q.a.post.bugs@.len() == 0
    &&& q.a.post.num_triggered == 0
    &&& q.b.a.pre.log@.len() == 0 && !q.b.a.pre.use_msg_time && q.b.a.pre.enabled
    &&& q.b.a.queue.queue@.len() == 0
    &&& q.b.a.queue.fixed_delay is None
    &&& q.b.a.post.log@.len() == 0 && !q.b.a.post.use_msg_time && q.b.a.post.enabled
    &&& q.b.b.pre.bugs@.len() == 0
    &&& q.b.b.pre.num_triggered == 0
    &&& q.b.b.queue.queue@.len() == 0
    &&& q.b.b.queue.fixed_delay is None
}

/// The source after `n` others were made of it.
pub open spec fn after_forks(rng: rand::rngs::StdRng, n: nat) -> rand::rngs::StdRng
    decreases n,
{
    if n == 0 {
        rng
    } else {
        fork_draw(after_forks(rng, (n - 1) as nat)).1
    }
}

/// The `n`-th source that is made of another one, counted from 0.
pub open spec fn fork_at(rng: rand::rngs::StdRng, n: nat) -> rand::rngs::StdRng {
    fork_draw(after_forks(rng, n)).0
}

/// Each random part of a session has a source of its own. They are made of another source, one after the
/// other, in the order in which messages pass the parts.
pub open spec fn has_own_sources(
    rng: rand::rngs::StdRng,
    q: ReorderingSessionQueue,
    new_rng: rand::rngs::StdRng,
) -> bool {
    &&& q.a.queue.inner.rng == fork_at(rng, 0)
    &&& q.a.queue.rng == fork_at(rng, 1)
    &&& q.a.post.rng == fork_at(rng, 2)
    &&& q.b.a.queue.rng == fork_at(rng, 3)
    &&& q.b.b.pre.rng == fork_at(rng, 4)
    &&& q.b.b.queue.rng == fork_at(rng, 5)
    &&& new_rng == after_forks(rng, 6)
}

impl QueueInit<ReorderingSessionQueue> for ReorderingSessionQueueInit {
    open spec fn wf(&self) -> bool {
        true
    }

    open spec fn punctual(&self) -> bool {
        false
    }

    open spec fn initial(
        before: Self,
        src: RouterId,
        dst: RouterId,
        q: ReorderingSessionQueue,
        after: Self,
    ) -> bool {
        is_fresh(q) && has_own_sources(before.init_rng, q, after.init_rng)
    }

    open spec fn updated(
        before: Self,
        routing: Routing,
        queues: Map<Session, ReorderingSessionQueue>,
        after: Self,
        new_queues: Map<Session, ReorderingSessionQueue>,
    ) -> bool {
        &&& after == before
        &&& new_queues == queues
    }

    fn init(&mut self, src: RouterId, dst: RouterId) -> (q: ReorderingSessionQueue) {
        let q = SessionQueueSequence {
            a: FilteredSessionQueue {
                pre: (),
                queue: RandomDebouncer::new(&mut self.init_rng),
                post: Failures::new(&mut self.init_rng),
            },
            b: SessionQueueSequence {
                a: FilteredSessionQueue {
                    pre: Monitor::new(),
                    queue: RandomQueue::new(&mut self.init_rng),
                    post: Monitor::new(),
                },
                b: FilteredSessionQueue {
                    pre: Failures::new(&mut self.init_rng),
                    queue: RandomQueue::new(&mut self.init_rng),
                    post: (),
                },
            },
        };
        proof {
            lemma_no_work(q);
            reveal_with_fuel(after_forks, 7);
        }
        q
    }

    fn update_params(
        &mut self,
        routing: &Routing,
        bgp_queues: &mut Pairs<ReorderingSessionQueue>,
    ) {
    }
}

/// The work on a session: each message passes three queues.
pub proof fn lemma_work(q: ReorderingSessionQueue)
    ensures
        q.work() == q.a.queue.inner.queue@.len() * 3 + q.b.a.queue.queue@.len() * 2
            + q.b.b.queue.queue@.len(),
{
    assert(ReorderingSessionQueue::push_work() == 3) by {
        assert(1nat * (1 + 1nat * (1 + 1nat)) == 3) by (nonlinear_arith);
    }
    let (x, y, z) = (
        q.a.queue.inner.queue@.len(),
        q.b.a.queue.queue@.len(),
        q.b.b.queue.queue@.len(),
    );
    assert(q.b.work() == y * (1 + 1nat) + z);
    assert(q.work() == x * (1 + 1nat * (1 + 1nat)) + q.b.work());
    assert(x * (1 + 1nat * (1 + 1nat)) == x * 3) by (nonlinear_arith);
    assert(y * (1 + 1nat) == y * 2) by (nonlinear_arith);
}

proof fn lemma_no_work(q: ReorderingSessionQueue)
    requires
        is_fresh(q),
    ensures
        q.work() == 0,
{
    lemma_work(q);
}

/// What a bug does when it shows. One that drops updates, or withdraws, loses these and leaves the others
/// alone. One on communities turns its community around: an update that has it loses it, any other gets
/// it. One on LOCAL-PREF leaves its value, where an update without LOCAL-PREF has 100. The rest of the
/// update stays as it is, and the two bugs that sit in route maps do nothing here.
pub proof fn law_what_bugs_do(p: Probability, v: u32, route: RouteView, prefix: u32)
    ensures
        ({
            let (update, withdraw) = (BgpEventView::Update(route), BgpEventView::Withdraw(prefix));
            &&& Bug::DropUpdates { p }.outcome(update, true).0 is None
            &&& Bug::DropUpdates { p }.outcome(withdraw, true).0 == Some(withdraw)
            &&& Bug::DropWithdraws { p }.outcome(withdraw, true).0 is None
            &&& Bug::DropWithdraws { p }.outcome(update, true).0 == Some(update)
            &&& Bug::TransformCommunity { p, swap: v }.outcome(withdraw, true).0 == Some(withdraw)
            &&& Bug::TransformLocalPref { p, new_val: v }.outcome(withdraw, true).0 == Some(withdraw)
            &&& Bug::WithdrawToUpdate { p }.outcome(update, true).0 == Some(update)
            &&& Bug::WithdrawToUpdate { p }.outcome(withdraw, true).0 == Some(withdraw)
            &&& Bug::UpdateToWithdraw { p }.outcome(update, true).0 == Some(update)
            &&& Bug::UpdateToWithdraw { p }.outcome(withdraw, true).0 == Some(withdraw)
            &&& Bug::TransformCommunity { p, swap: v }.outcome(update, true).0 matches Some(
                BgpEventView::Update(out),
            ) && out.prefix == route.prefix && out.as_path == route.as_path && out.next_hop
                == route.next_hop && out.local_pref == route.local_pref && out.med == route.med
                && out.originator_id == route.originator_id && out.cluster_list
                == route.cluster_list && (out.community.contains(v) <==> !route.community.contains(
                v,
            )) && forall|c: u32|
                c != v ==> (#[trigger] out.community.contains(c) <==> route.community.contains(c))
            &&& Bug::TransformLocalPref { p, new_val: v }.outcome(update, true).0 matches Some(
                BgpEventView::Update(out),
            ) && out.prefix == route.prefix && out.as_path == route.as_path && out.next_hop
                == route.next_hop && out.community == route.community && out.med == route.med
                && out.originator_id == route.originator_id && out.cluster_list
                == route.cluster_list && (out.local_pref == Some(v) || (out.local_pref is None && v
                == 100))
        }),
{
}

/// A bug counts as triggered exactly if the message is lost or is another one afterwards. Without the coin
/// it is never triggered. Every bug has its own probability, which decides whether the coin is free.
pub proof fn law_bugs_count_when_they_change_something(bug: Bug, e: BgpEventView, coin: bool)
    ensures
        bug.outcome(e, coin).1 <==> bug.outcome(e, coin).0 != Some(e),
        !coin ==> bug.outcome(e, coin).0 == Some(e),
        !bug.concerns(e) ==> bug.outcome(e, coin).0 == Some(e),
        bug.outcome(e, coin).0 != Some(e) ==> bug.concerns(e),
        bug.probability().numerator == 0 && bug.probability().denominator > 0
            && bug.probability().allows(coin) ==> !coin,
        bug.probability().numerator == bug.probability().denominator && bug.probability().denominator
            > 0 && bug.probability().allows(coin) ==> coin,
{
    if let (Bug::TransformCommunity { swap, .. }, BgpEventView::Update(r)) = (bug, e) {
        if coin {
            let out = bug.outcome(e, coin).0->0->Update_0;
            assert(out.community.contains(swap) != r.community.contains(swap));
        }
    }
}

/// The probability of a bug is the one it was made with.
pub proof fn law_probability_of_a_bug(p: Probability, v: u32)
    ensures
        (Bug::DropUpdates { p }).probability() == p,
        (Bug::DropWithdraws { p }).probability() == p,
        (Bug::TransformCommunity { p, swap: v }).probability() == p,
        (Bug::TransformLocalPref { p, new_val: v }).probability() == p,
        (Bug::WithdrawToUpdate { p }).probability() == p,
        (Bug::UpdateToWithdraw { p }).probability() == p,
{
}

/// Under several bugs a message is struck by one after the other, until it is lost. A single bug strikes
/// alone. No more bugs are triggered than there are, and none if no coin comes up. With none triggered the
/// message is as it was.
pub proof fn law_several_bugs(bugs: Seq<Bug>, coins: Seq<bool>, e: BgpEventView)
    requires
        coins.len() == bugs.len(),
    ensures
        afflicted(bugs, coins, e).1 <= bugs.len(),
        afflicted(bugs, coins, e).1 == 0 ==> afflicted(bugs, coins, e).0 == Some(e),
        (forall|i: int| 0 <= i < coins.len() ==> !#[trigger] coins[i]) ==> afflicted(bugs, coins, e)
            == (Some(e), 0nat),
        bugs.len() == 1 ==> afflicted(bugs, coins, e).0 == bugs[0].outcome(e, coins[0]).0,
        bugs.len() == 1 ==> (afflicted(bugs, coins, e).1 == 1 <==> bugs[0].outcome(e, coins[0]).1),
        bugs.len() == 2 ==> afflicted(bugs, coins, e).0 == match bugs[0].outcome(e, coins[0]).0 {
            Some(m) => bugs[1].outcome(m, coins[1]).0,
            None => None,
        },
    decreases bugs.len(),
{
    reveal_with_fuel(afflicted, 3);
    if bugs.len() > 0 {
        let init = bugs.drop_last();
        law_several_bugs(init, coins.drop_last(), e);
        lemma_afflicted_prefix(init, init.len() as int, coins, coins.drop_last(), e);
        assert(init.take(init.len() as int) =~= init);
        let (mid, n) = afflicted(init, coins, e);
        if let Some(m) = mid {
            law_bugs_count_when_they_change_something(bugs.last(), m, coins[bugs.len() - 1]);
        }
        if forall|i: int| 0 <= i < coins.len() ==> !#[trigger] coins[i] {
            assert forall|i: int| 0 <= i < coins.drop_last().len() implies !#[trigger] coins.drop_last()[i] by {
                assert(!coins[i]);
            }
        }
    }
}

/// A number of triggered bugs that fits is counted as it is.
pub proof fn law_counting_triggered_bugs(n: nat)
    ensures
        n <= usize::MAX ==> counted(n) == n,
        n >= usize::MAX ==> counted(n) == usize::MAX,
{
}

/// A monitor lets every message pass as it is. As long as it is enabled it writes down what passes, and
/// nothing else, at the time of the message or at that of the clock, which then moves on by a second.
pub proof fn law_monitors_write_down_what_passes(
    before: Monitor,
    clock: Time,
    msg: MessageView,
    r: Option<MessageView>,
    after: Monitor,
    new_clock: Time,
)
    requires
        Monitor::applied(before, clock, msg, r, after, new_clock),
        clock <= i64::MAX - 1_000_000_000,
    ensures
        r == Some(msg),
        before.enabled ==> views(after.log@).len() == views(before.log@).len() + 1,
        before.enabled ==> views(after.log@).drop_last() == views(before.log@),
        before.enabled ==> views(after.log@).last().e == msg.e,
        before.enabled && before.use_msg_time ==> views(after.log@).last().t == msg.t,
        before.enabled && !before.use_msg_time ==> views(after.log@).last().t == clock && new_clock
            == clock + 1_000_000_000,
        !before.enabled || before.use_msg_time ==> new_clock == clock,
        !before.enabled ==> after == before,
{
    if before.enabled {
        assert(views(after.log@).drop_last() =~= views(before.log@));
    }
}

/// When a debouncer lets a message leave, those in front of it are gone, and those behind it stay in their
/// order.
pub proof fn law_skipping_messages(
    before: Seq<MessageView>,
    n: int,
    r: PollView,
    after: Seq<MessageView>,
)
    requires
        took_nth(before, n, r, after),
    ensures
        r is Msg,
        before == before.take(n - 1).push(r->Msg_0) + after,
        after.len() == before.len() - n,
{
    assert(before =~= before.take(n - 1).push(r->Msg_0) + after);
}

/// A queue with a fixed delay gives a message the time that lies the delay after its own, one without
/// leaves its time alone. What the message says stays the same, and it goes to the end.
pub proof fn law_delayed_messages(
    before: RandomQueue,
    clock: Time,
    msg: MessageView,
    after: RandomQueue,
    new_clock: Time,
)
    requires
        RandomQueue::pushed(before, clock, msg, after, new_clock),
    ensures
        views(after.queue@).drop_last() == views(before.queue@),
        views(after.queue@).last().e == msg.e,
        before.fixed_delay is None ==> views(after.queue@).last().t == msg.t,
        before.fixed_delay matches Some(d) ==> (i64::MIN <= msg.t + d <= i64::MAX ==> views(
            after.queue@,
        ).last().t == msg.t + d),
        new_clock == clock,
{
    assert(views(after.queue@).drop_last() =~= views(before.queue@));
}

/// The clock that stamps messages goes on by a second each time.
pub proof fn law_clock_goes_on(clock: Time)
    ensures
        clock + 1_000_000_000 <= i64::MAX ==> ticked(clock) == clock + 1_000_000_000,
{
}

/// A part of a time scale lies between nothing and all of it, without the latter. A time scale of 0 has
/// no other part than 0.
pub proof fn law_parts_of_a_time_scale(d: Time, time_scale: Time)
    ensures
        time_scale > 0 ==> (is_part_of(d, time_scale) <==> 0 <= d < time_scale),
        time_scale < 0 && time_scale > i64::MIN && d > i64::MIN ==> (is_part_of(d, time_scale)
            <==> is_part_of((-d) as Time, (-time_scale) as Time)),
        is_part_of(d, 0) <==> d == 0,
{
}

/// A debouncer that is off gives the first message. One that is on gives some message, and those in front
/// of it are gone. Either way the messages behind it stay, and something leaves exactly if something is
/// there.
pub proof fn law_what_a_debouncer_gives(
    before: RandomDebouncer,
    clock: Time,
    r: PollView,
    after: RandomDebouncer,
    new_clock: Time,
)
    requires
        RandomDebouncer::polled(before, clock, r, after, new_clock),
    ensures
        ({
            let (a, b) = (views(before.inner.queue@), views(after.inner.queue@));
            let gone = a.len() - b.len();
            &&& r is Msg <==> a.len() > 0
            &&& r is Empty <==> a.len() == 0
            &&& a.len() > 0 ==> 0 < gone <= a.len() && r->Msg_0 == a[gone - 1] && b == a.skip(gone)
            &&& a.len() > 0 && !before.enable ==> gone == 1
            &&& a.len() > 0 && before.enable ==> gone == range_draw(
                before.rng,
                1,
                a.len() as u64,
            ).0
            &&& new_clock == clock
        }),
{
    let (a, b) = (views(before.inner.queue@), views(after.inner.queue@));
    if a.len() > 0 && !before.enable {
        assert(b =~= a.skip(1));
    }
}

} // verus!
