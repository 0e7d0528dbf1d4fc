//! The monitor of a session: all states that the router can be in, as far as one neighbor can tell.
use vstd::prelude::*;

use crate::bgp::{optional_view, same_optional, BgpEvent, BgpRoute, RouteView, RouterId, Time};
use crate::bgp::{BgpRibEntry, INFINITY, SINGLE_PREFIX};
use crate::monitoring::{MonitoringError, MonitoringResult};
use crate::session_monitor::{advanced, applied, applied_before, arrived_after, arrived_by};
use crate::session_monitor::{can_emit, come_of, contained, counts_of, emits, event_of};
use crate::session_monitor::{explanations, exports};
use crate::session_monitor::{frugal, is_unexpected, law_plans_are_smallest, lemma_explanations};
use crate::session_monitor::{lemma_in_turn, lemma_plan_within, lookup};
use crate::session_monitor::{possible, route_of, slot_after, slot_by, slot_of, subsumption};
use crate::session_monitor::{successor, Counts, MonitorPerSession, Pending};
use crate::session_monitor::{with_slot, RibPerSession, Table, UncommittedMessagePerSession};

verus! {

pub const DISABLE_WITHDRAW_PROCESSING_WHEN_MORE_FORKS_THAN: usize = 128;

pub const ENABLE_WITHDRAW_PROCESSING_WHEN_LESS_FORKS_THAN: usize = 8;

pub const KILL_AFTER_EXCEEDING_MORE_FORKS_THAN: usize = 4096;

/// Whether the monitor looks for explanations of outgoing withdraws right away.
#[derive(Debug, Clone, Copy, PartialEq, Eq, Structural)]
pub enum ProcessWithdraws {
    Always,
    Never,
    /// Only while there are few forks
    Adaptive,
}

impl ProcessWithdraws {
    /// Whether to stop processing withdraws, with that many forks.
    pub fn should_disable(&self, num_forks: usize) -> (r: bool)
        ensures
            r == match self {
                ProcessWithdraws::Always => false,
                ProcessWithdraws::Never => true,
                ProcessWithdraws::Adaptive => num_forks
                    > DISABLE_WITHDRAW_PROCESSING_WHEN_MORE_FORKS_THAN,
            },
            self is Adaptive ==> (r <==> num_forks >= 129),
            self is Always ==> !r,
            self is Never ==> r,
    {
        match self {
            ProcessWithdraws::Always => false,
            ProcessWithdraws::Never => true,
            ProcessWithdraws::Adaptive => num_forks
                > DISABLE_WITHDRAW_PROCESSING_WHEN_MORE_FORKS_THAN,
        }
    }

    /// Whether to resume processing withdraws, with that many forks.
    pub fn should_enable(&self, num_forks: usize) -> (r: bool)
        ensures
            r == enables(*self, num_forks),
    {
        match self {
            ProcessWithdraws::Always => true,
            ProcessWithdraws::Never => false,
            ProcessWithdraws::Adaptive => num_forks
                <= ENABLE_WITHDRAW_PROCESSING_WHEN_LESS_FORKS_THAN,
        }
    }
}

/// The mode processes withdraws with that many forks.
pub open spec fn enables(mode: ProcessWithdraws, num_forks: usize) -> bool {
    match mode {
        ProcessWithdraws::Always => true,
        ProcessWithdraws::Never => false,
        ProcessWithdraws::Adaptive => num_forks <= ENABLE_WITHDRAW_PROCESSING_WHEN_LESS_FORKS_THAN,
    }
}

/// The monitor of a session may have to keep several forks. A fork that cannot explain what is
/// seen is dropped. When none is left, the router is at fault.
pub struct ForkingMonitorPerSession<'a> {
    pub forks: Vec<MonitorPerSession<'a>>,
    pub make_progress_on_withdraw: bool,
    pub has_unprocessed_withdraw: bool,
    /// The state of a router that has processed all messages, to start afresh after an error
    pub recovery: RibPerSession<'a>,
    /// The table with which the session started
    pub base: Ghost<Table>,
    /// The messages that the router has received since, per sender
    pub received: Ghost<Pending<'a>>,
}

// ---------------------------------------------------------------------------------------------
// Forks and the true state of the router
// ---------------------------------------------------------------------------------------------
/// The fork is the router after a part of the received messages of every neighbor, in the order
/// of arrival. The rest is waiting.
#[verifier::opaque]
pub open spec fn tracks(fork: MonitorPerSession, base: Table, received: Pending) -> bool {
    forall|n: RouterId|
        {
            let (q, all) = (#[trigger] fork.pending()[n], received[n]);
            &&& q.len() <= all.len()
            &&& q == all.skip(all.len() - q.len())
            &&& lookup(fork.table(), n) == slot_after(
                base,
                received,
                n,
                (all.len() - q.len()) as nat,
            )
        }
}

/// The fork has committed no more than `counts[n]` messages of every neighbor `n`.
#[verifier::opaque]
pub open spec fn behind(fork: MonitorPerSession, received: Pending, counts: Counts) -> bool {
    forall|n: RouterId|
        received[n].len() - (#[trigger] fork.pending()[n]).len() <= counts[n]
}

/// The numbers of messages stay within what was received.
pub open spec fn within(counts: Counts, received: Pending) -> bool {
    forall|n: RouterId| #[trigger] counts[n] <= received[n].len()
}

/// The messages of every neighbor arrive in the order of their times.
pub open spec fn in_order(received: Pending) -> bool {
    forall|n: RouterId, i: int, j: int|
        0 <= i <= j < received[n].len() ==> (#[trigger] received[n][i]).time <= (
        #[trigger] received[n][j]).time
}

/// A router that has processed `counts[n]` messages of every neighbor `n` has processed all that
/// arrived by `time`.
pub open spec fn caught_up(counts: Counts, received: Pending, time: Time) -> bool {
    forall|n: RouterId, i: int|
        0 <= i < received[n].len() && (#[trigger] received[n][i]).time <= time ==> i < counts[n]
}

/// `f` has at least as many waiting messages as `pre` has after plan `p`.
pub open spec fn no_further(
    pre: MonitorPerSession,
    p: Map<RouterId, usize>,
    f: MonitorPerSession,
) -> bool {
    forall|n: RouterId|
        (#[trigger] pre.pending()[n]).len() - counts_of(p)[n] <= f.pending()[n].len()
}

/// Some fork subsumes `f`.
#[verifier::opaque]
pub open spec fn subsumed_in(forks: Seq<MonitorPerSession>, f: MonitorPerSession) -> bool {
    exists|j: int| 0 <= j < forks.len() && subsumption(#[trigger] forks[j], f)
}

/// Every way in which `pre` can explain `route` is among `forks`, or subsumed by one of them.
#[verifier::opaque]
pub open spec fn accounts_for(
    forks: Seq<MonitorPerSession>,
    pre: MonitorPerSession,
    route: Option<RouteView>,
) -> bool {
    if emits(pre.out(), route) {
        subsumed_in(forks, pre)
    } else {
        forall|p: Map<RouterId, usize>| #[trigger]
            possible(pre.table(), pre.pending(), route, p) ==> exists|j: int|
                0 <= j < forks.len() && no_further(pre, p, #[trigger] forks[j])
    }
}

/// No fork is subsumed by an earlier one.
#[verifier::opaque]
pub open spec fn irredundant(forks: Seq<MonitorPerSession>) -> bool {
    forall|i: int, j: int|
        0 <= i < j < forks.len() ==> !subsumption(#[trigger] forks[i], #[trigger] forks[j])
}

/// No fork from position `first` on is subsumed by an earlier one.
#[verifier::opaque]
pub open spec fn irredundant_from(forks: Seq<MonitorPerSession>, first: int) -> bool {
    forall|i: int, j: int|
        0 <= i < j < forks.len() && j >= first ==> !subsumption(
            #[trigger] forks[i],
            #[trigger] forks[j],
        )
}

/// `f` is among the new forks, and none before it subsumes it.
#[verifier::opaque]
pub open spec fn first_of_its_kind(new: Seq<MonitorPerSession>, f: MonitorPerSession) -> bool {
    exists|c: int|
        0 <= c < new.len() && #[trigger] new[c] == f && forall|d: int|
            0 <= d < c ==> !subsumption(#[trigger] new[d], f)
}

/// `f` is `pre` if that has sent `route` already. Otherwise it comes of `pre` by a plan of which no
/// plan that is looked for before it is a part.
#[verifier::opaque]
pub open spec fn frugal_successor<'a>(
    pre: MonitorPerSession<'a>,
    route: Option<RouteView>,
    f: MonitorPerSession<'a>,
) -> bool {
    if emits(pre.out(), route) {
        f == pre
    } else {
        exists|p: Map<RouterId, usize>| #[trigger]
            frugal(pre.table(), pre.pending(), route, p) && applied(pre, f, p)
    }
}

/// Some explanation of `route` by `pre` has at least as many waiting messages of every neighbor as `f`
/// has.
#[verifier::opaque]
pub open spec fn anticipated(
    pre: MonitorPerSession,
    route: Option<RouteView>,
    f: MonitorPerSession,
) -> bool {
    if emits(pre.out(), route) {
        subsumption(pre, f)
    } else {
        exists|p: Map<RouterId, usize>| #[trigger]
            possible(pre.table(), pre.pending(), route, p) && forall|n: RouterId|
                (#[trigger] f.pending()[n]).len() <= pre.pending()[n].len() - counts_of(p)[n]
    }
}

/// The explanations of a route belong to the session of the monitor.
proof fn lemma_of_session<'a>(
    pre: MonitorPerSession<'a>,
    route: Option<RouteView>,
    new: Seq<MonitorPerSession<'a>>,
)
    requires
        explanations(pre, route, new),
    ensures
        of_session(new, pre.router_id, pre.neighbor),
{
    lemma_explanations(pre, route, new);
}

/// What is kept if `new` is added to `forks` in turn: a fork that is subsumed by one that is there is
/// not added.
pub open spec fn kept<'a>(
    forks: Seq<MonitorPerSession<'a>>,
    new: Seq<MonitorPerSession<'a>>,
) -> Seq<MonitorPerSession<'a>>
    decreases new.len(),
{
    if new.len() == 0 {
        forks
    } else {
        let init = kept(forks, new.drop_last());
        if subsumed_in(init, new.last()) {
            init
        } else {
            init.push(new.last())
        }
    }
}

/// What is kept of several lists of forks.
pub open spec fn all_kept<'a>(lists: Seq<Seq<MonitorPerSession<'a>>>) -> Seq<MonitorPerSession<'a>>
    decreases lists.len(),
{
    if lists.len() == 0 {
        Seq::empty()
    } else {
        kept(all_kept(lists.drop_last()), lists.last())
    }
}

/// `after` is what is kept of the explanations of `route` by the first `k` forks, taken in turn.
#[verifier::opaque]
pub open spec fn gathered<'a>(
    forks: Seq<MonitorPerSession<'a>>,
    route: Option<RouteView>,
    k: int,
    after: Seq<MonitorPerSession<'a>>,
) -> bool {
    exists|lists: Seq<Seq<MonitorPerSession<'a>>>|
        lists.len() == k && after == #[trigger] all_kept(lists) && forall|i: int|
            0 <= i < k ==> explanations(forks[i], route, #[trigger] lists[i])
}

/// The explanations by one more fork are added.
proof fn lemma_gather<'a>(
    forks: Seq<MonitorPerSession<'a>>,
    route: Option<RouteView>,
    k: int,
    so_far: Seq<MonitorPerSession<'a>>,
    new: Seq<MonitorPerSession<'a>>,
)
    requires
        k >= 0,
        gathered(forks, route, k, so_far),
        explanations(forks[k], route, new),
    ensures
        gathered(forks, route, k + 1, kept(so_far, new)),
{
    reveal(gathered);
    let lists = choose|lists: Seq<Seq<MonitorPerSession<'a>>>|
        lists.len() == k && so_far == #[trigger] all_kept(lists) && forall|i: int|
            0 <= i < k ==> explanations(forks[i], route, #[trigger] lists[i]);
    let more = lists.push(new);
    assert(more.drop_last() =~= lists);
    assert(all_kept(more) == kept(so_far, new));
    assert forall|i: int| 0 <= i < k + 1 implies explanations(forks[i], route, #[trigger] more[i]) by {
        if i < k {
            assert(more[i] == lists[i]);
        }
    }
}

/// All forks belong to one session.
pub open spec fn of_session(
    forks: Seq<MonitorPerSession>,
    router_id: RouterId,
    neighbor: RouterId,
) -> bool {
    forall|i: int|
        0 <= i < forks.len() ==> (#[trigger] forks[i]).router_id == router_id && forks[i].neighbor
            == neighbor
}

/// The error for too many forks.
pub open spec fn is_killed(
    e: MonitoringError,
    router_id: RouterId,
    session: RouterId,
    forks: nat,
) -> bool {
    e matches MonitoringError::Killed { router, neighbor, prefix, num_forks } && router == router_id
        && neighbor == session && prefix == SINGLE_PREFIX && num_forks == forks
}

/// Every fork follows the received messages.
pub open spec fn all_track(
    forks: Seq<MonitorPerSession>,
    base: Table,
    received: Pending,
) -> bool {
    forall|i: int| 0 <= i < forks.len() ==> tracks(#[trigger] forks[i], base, received)
}

/// Some fork has committed no more than `counts[n]` of the received messages of every neighbor `n`.
pub open spec fn some_behind(
    forks: Seq<MonitorPerSession>,
    received: Pending,
    counts: Counts,
) -> bool {
    &&& within(counts, received)
    &&& exists|i: int| 0 <= i < forks.len() && behind(#[trigger] forks[i], received, counts)
}

/// The table of a router that has processed all received messages.
pub open spec fn everything(base: Table, received: Pending) -> Table {
    advanced(
        base,
        received,
        Map::new(|n: RouterId| true, |n: RouterId| received[n].len()),
    )
}

/// Every fork has sent `route` last.
pub open spec fn all_emit(forks: Seq<MonitorPerSession>, route: Option<RouteView>) -> bool {
    forall|i: int| 0 <= i < forks.len() ==> emits((#[trigger] forks[i]).out(), route)
}

impl<'a> ForkingMonitorPerSession<'a> {
    pub open spec fn wf(&self) -> bool {
        &&& forall|i: int| 0 <= i < self.forks@.len() ==> (#[trigger] self.forks@[i]).wf()
        &&& self.has_unprocessed_withdraw ==> !self.make_progress_on_withdraw
        &&& self.recovery.wf()
        &&& self.recovery.table() == everything(self.base@, self.received@)
    }

    /// The monitor can take another message: it has a fork, and all forks belong to one session.
    pub open spec fn ready(&self) -> bool {
        &&& self.wf()
        &&& self.forks@.len() > 0
        &&& of_session(self.forks@, self.forks@[0].router_id, self.forks@[0].neighbor)
    }

    /// Every fork follows the received messages.
    #[verifier::inline]
    pub open spec fn tracks(&self) -> bool {
        all_track(self.forks@, self.base@, self.received@)
    }

    /// Some fork can still become the router that has processed `counts[n]` messages of every
    /// neighbor `n`.
    #[verifier::inline]
    pub open spec fn covers(&self, counts: Counts) -> bool {
        some_behind(self.forks@, self.received@, counts)
    }

    /// A router that has processed `counts[n]` messages of every neighbor `n` sends `route`.
    #[verifier::inline]
    pub open spec fn explains(&self, counts: Counts, route: Option<RouteView>) -> bool {
        exports(advanced(self.base@, self.received@, counts), route)
    }

    /// In every fork, `route` is what the neighbor was sent last.
    #[verifier::inline]
    pub open spec fn emitting(&self, route: Option<RouteView>) -> bool {
        all_emit(self.forks@, route)
    }

    /// `route` is the last outgoing message, explained already or not.
    pub open spec fn last_sent(&self, route: Option<RouteView>) -> bool {
        if self.has_unprocessed_withdraw {
            route is None
        } else {
            self.emitting(route)
        }
    }
}

/// The messages that are left after a plan are the tail of the received ones.
pub proof fn lemma_applied_tracks<'a>(
    pre: MonitorPerSession<'a>,
    post: MonitorPerSession<'a>,
    p: Map<RouterId, usize>,
    route: Option<RouteView>,
    base: Table,
    received: Pending<'a>,
)
    requires
        tracks(pre, base, received),
        possible(pre.table(), pre.pending(), route, p),
        applied(pre, post, p),
    ensures
        tracks(post, base, received),
{
    reveal(tracks);
    reveal(applied);
    lemma_plan_within(pre.table(), pre.pending(), route, p);
    assert forall|n: RouterId|
        {
            let (q, all) = (#[trigger] post.pending()[n], received[n]);
            &&& q.len() <= all.len()
            &&& q == all.skip(all.len() - q.len())
            &&& lookup(post.table(), n) == slot_after(
                base,
                received,
                n,
                (all.len() - q.len()) as nat,
            )
        } by {
        let before = pre.pending()[n];
        let all = received[n];
        let c = counts_of(p)[n];
        assert(before == all.skip(all.len() - before.len()));
        assert(p.contains_key(n) ==> p[n] < before.len());
        assert(post.pending()[n] == before.skip(c as int));
        assert(before.skip(c as int) =~= all.skip(all.len() - before.len() + c));
        assert(post.table() == advanced(pre.table(), pre.pending(), counts_of(p)));
        if c > 0 {
            assert(before[c - 1] == all[all.len() - before.len() + c - 1]);
        }
    }
}

/// Seen from a fork, the router that has processed `counts` messages is so many messages ahead.
pub proof fn lemma_ahead<'a>(
    fork: MonitorPerSession<'a>,
    base: Table,
    received: Pending<'a>,
    counts: Counts,
) -> (ahead: Counts)
    requires
        tracks(fork, base, received),
        within(counts, received),
        behind(fork, received, counts),
    ensures
        forall|n: RouterId| #[trigger] ahead[n] <= fork.pending()[n].len(),
        forall|n: RouterId|
            #[trigger] ahead[n] + (received[n].len() - fork.pending()[n].len()) == counts[n],
        advanced(fork.table(), fork.pending(), ahead) == advanced(base, received, counts),
{
    reveal(tracks);
    reveal(behind);
    let ahead: Counts = Map::new(
        |n: RouterId| true,
        |n: RouterId| (counts[n] - (received[n].len() - fork.pending()[n].len())) as nat,
    );
    let a = advanced(fork.table(), fork.pending(), ahead);
    let b = advanced(base, received, counts);
    assert forall|n: RouterId| slot_after(fork.table(), fork.pending(), n, #[trigger] ahead[n])
        == slot_after(base, received, n, counts[n]) && ahead[n] <= fork.pending()[n].len() && ahead[n]
        + (received[n].len() - fork.pending()[n].len()) == counts[n] by {
        let (q, all) = (fork.pending()[n], received[n]);
        assert(q == all.skip(all.len() - q.len()));
        if ahead[n] > 0 {
            assert(q[ahead[n] - 1] == all[counts[n] - 1]);
        }
    }
    assert(a =~= b) by {
        assert forall|n: RouterId| a.contains_key(n) == #[trigger] b.contains_key(n) && (
        b.contains_key(n) ==> a[n] == b[n]) by {
            assert(slot_after(fork.table(), fork.pending(), n, ahead[n]) == slot_after(
                base,
                received,
                n,
                counts[n],
            ));
        }
    }
    ahead
}

/// A fork that is not further than the router, and that can explain what the router sends, has an
/// explanation among the new forks that is not further than the router either.
pub proof fn lemma_step_covers<'a>(
    pre: MonitorPerSession<'a>,
    forks: Seq<MonitorPerSession<'a>>,
    route: Option<RouteView>,
    base: Table,
    received: Pending<'a>,
    counts: Counts,
)
    requires
        pre.wf(),
        tracks(pre, base, received),
        within(counts, received),
        behind(pre, received, counts),
        exports(advanced(base, received, counts), route),
        forall|n: RouterId| #[trigger] pre.pending()[n].len() <= usize::MAX,
    ensures
        can_emit(pre, route),
        accounts_for(forks, pre, route) ==> exists|j: int|
            0 <= j < forks.len() && behind(#[trigger] forks[j], received, counts),
{
    reveal(behind);
    reveal(subsumption);
    reveal(subsumed_in);
    reveal(accounts_for);
    if emits(pre.out(), route) {
        if accounts_for(forks, pre, route) {
            let j = choose|j: int| 0 <= j < forks.len() && subsumption(#[trigger] forks[j], pre);
            assert forall|n: RouterId|
                received[n].len() - (#[trigger] forks[j].pending()[n]).len() <= counts[n] by {
                assert(pre.pending()[n].len() <= forks[j].pending()[n].len());
            }
            assert(behind(forks[j], received, counts));
        }
    } else {
        let ahead = lemma_ahead(pre, base, received, counts);
        law_plans_are_smallest(pre.table(), pre.pending(), route, ahead);
        let p = choose|p: Map<RouterId, usize>| #[trigger]
            possible(pre.table(), pre.pending(), route, p) && forall|n: RouterId| #[trigger]
                counts_of(p)[n] <= ahead[n];
        if accounts_for(forks, pre, route) {
            let j = choose|j: int|
                0 <= j < forks.len() && no_further(pre, p, #[trigger] forks[j]);
            assert forall|n: RouterId|
                received[n].len() - (#[trigger] forks[j].pending()[n]).len() <= counts[n] by {
                assert(pre.pending()[n].len() - counts_of(p)[n] <= forks[j].pending()[n].len());
                assert(counts_of(p)[n] <= ahead[n]);
            }
            assert(behind(forks[j], received, counts));
        }
    }
}

/// Forks that are added do not change what is accounted for.
proof fn lemma_accounts_grow<'a>(
    forks: Seq<MonitorPerSession<'a>>,
    more: Seq<MonitorPerSession<'a>>,
    pre: MonitorPerSession<'a>,
    route: Option<RouteView>,
)
    requires
        accounts_for(forks, pre, route),
        forks.len() <= more.len(),
        more.take(forks.len() as int) == forks,
    ensures
        accounts_for(more, pre, route),
{
    reveal(subsumed_in);
    reveal(accounts_for);
    assert forall|j: int| 0 <= j < forks.len() implies #[trigger] forks[j] == more[j] by {
        assert(more.take(forks.len() as int)[j] == more[j]);
    }
    if emits(pre.out(), route) {
        let j = choose|j: int| 0 <= j < forks.len() && subsumption(#[trigger] forks[j], pre);
        assert(subsumption(more[j], pre));
    } else {
        assert forall|p: Map<RouterId, usize>| #[trigger]
            possible(pre.table(), pre.pending(), route, p) implies exists|j: int|
            0 <= j < more.len() && no_further(pre, p, #[trigger] more[j]) by {
            let j = choose|j: int|
                0 <= j < forks.len() && no_further(pre, p, #[trigger] forks[j]);
            assert(no_further(pre, p, more[j]));
        }
    }
}

/// If the new forks of `pre` are each subsumed by some fork, `pre` is accounted for.
proof fn lemma_accounts<'a>(
    forks: Seq<MonitorPerSession<'a>>,
    new: Seq<MonitorPerSession<'a>>,
    pre: MonitorPerSession<'a>,
    route: Option<RouteView>,
)
    requires
        forall|i: int| 0 <= i < new.len() ==> subsumed_in(forks, #[trigger] new[i]),
        explanations(pre, route, new),
    ensures
        accounts_for(forks, pre, route),
{
    reveal(accounts_for);
    lemma_explanations(pre, route, new);
    if emits(pre.out(), route) {
        let i = choose|i: int| 0 <= i < new.len() && new[i] == pre;
        assert(new[i] == pre);
    } else {
        reveal(applied);
        reveal(subsumption);
        reveal(subsumed_in);
        assert forall|p: Map<RouterId, usize>| #[trigger]
            possible(pre.table(), pre.pending(), route, p) implies exists|j: int|
            0 <= j < forks.len() && no_further(pre, p, #[trigger] forks[j]) by {
            lemma_plan_within(pre.table(), pre.pending(), route, p);
            let i = choose|i: int| 0 <= i < new.len() && applied(pre, #[trigger] new[i], p);
            assert(subsumed_in(forks, new[i]));
            let j = choose|j: int| 0 <= j < forks.len() && subsumption(#[trigger] forks[j], new[i]);
            assert forall|n: RouterId|
                (#[trigger] pre.pending()[n]).len() - counts_of(p)[n] <= forks[j].pending()[n].len() by {
                assert(p.contains_key(n) ==> p[n] < pre.pending()[n].len());
                assert(new[i].pending()[n] == pre.pending()[n].skip(counts_of(p)[n] as int));
                assert(new[i].pending()[n].len() <= forks[j].pending()[n].len());
            }
            assert(no_further(pre, p, forks[j]));
        }
    }
}

/// What was subsumed stays so when a fork is added, which is subsumed itself.
proof fn lemma_subsumed_push<'a>(forks: Seq<MonitorPerSession<'a>>, fork: MonitorPerSession<'a>)
    ensures
        subsumed_in(forks.push(fork), fork),
        forall|f: MonitorPerSession<'a>| #[trigger]
            subsumed_in(forks, f) ==> subsumed_in(forks.push(fork), f),
{
    reveal(subsumption);
    reveal(subsumed_in);
    let after = forks.push(fork);
    assert(subsumption(after[forks.len() as int], fork));
    assert forall|f: MonitorPerSession<'a>| #[trigger] subsumed_in(forks, f) implies subsumed_in(
        after,
        f,
    ) by {
        let j = choose|j: int| 0 <= j < forks.len() && subsumption(#[trigger] forks[j], f);
        assert(subsumption(after[j], f));
    }
}

/// What a subsumed fork subsumes is subsumed too.
proof fn lemma_subsumed_further<'a>(
    forks: Seq<MonitorPerSession<'a>>,
    g: MonitorPerSession<'a>,
    f: MonitorPerSession<'a>,
)
    requires
        subsumed_in(forks, g),
        subsumption(g, f),
    ensures
        subsumed_in(forks, f),
{
    reveal(subsumption);
    reveal(subsumed_in);
    let j = choose|j: int| 0 <= j < forks.len() && subsumption(#[trigger] forks[j], g);
    assert forall|n: RouterId| (#[trigger] f.pending()[n]).len() <= forks[j].pending()[n].len() by {
        assert(g.pending()[n].len() <= forks[j].pending()[n].len());
    }
    assert(subsumption(forks[j], f));
}

/// What an explanation of `pre` subsumes is subsumed by the forks that account for `pre`.
proof fn lemma_anticipated<'a>(
    forks: Seq<MonitorPerSession<'a>>,
    pre: MonitorPerSession<'a>,
    route: Option<RouteView>,
    f: MonitorPerSession<'a>,
)
    requires
        accounts_for(forks, pre, route),
        anticipated(pre, route, f),
    ensures
        subsumed_in(forks, f),
{
    reveal(accounts_for);
    reveal(anticipated);
    if emits(pre.out(), route) {
        lemma_subsumed_further(forks, pre, f);
    } else {
        reveal(subsumption);
        reveal(subsumed_in);
        let p = choose|p: Map<RouterId, usize>| #[trigger]
            possible(pre.table(), pre.pending(), route, p) && forall|n: RouterId|
                (#[trigger] f.pending()[n]).len() <= pre.pending()[n].len() - counts_of(p)[n];
        let j = choose|j: int| 0 <= j < forks.len() && no_further(pre, p, #[trigger] forks[j]);
        assert forall|n: RouterId| (#[trigger] f.pending()[n]).len() <= forks[j].pending()[n].len() by {
            assert(pre.pending()[n].len() - counts_of(p)[n] <= forks[j].pending()[n].len());
        }
        assert(subsumption(forks[j], f));
    }
}

/// A plan leaves at least the messages that a longer plan leaves.
proof fn lemma_contained<'a>(
    pre: MonitorPerSession<'a>,
    route: Option<RouteView>,
    q: Map<RouterId, usize>,
    g: MonitorPerSession<'a>,
    p: Map<RouterId, usize>,
    f: MonitorPerSession<'a>,
)
    requires
        possible(pre.table(), pre.pending(), route, p),
        applied(pre, f, p),
        applied(pre, g, q),
        contained(q, p),
    ensures
        subsumption(g, f),
{
    reveal(applied);
    reveal(subsumption);
    lemma_plan_within(pre.table(), pre.pending(), route, p);
    assert forall|n: RouterId| (#[trigger] f.pending()[n]).len() <= g.pending()[n].len() by {
        assert(p.contains_key(n) ==> p[n] < pre.pending()[n].len());
        assert(counts_of(q)[n] <= counts_of(p)[n]);
        assert(f.pending()[n] == pre.pending()[n].skip(counts_of(p)[n] as int));
        assert(g.pending()[n] == pre.pending()[n].skip(counts_of(q)[n] as int));
    }
}

/// A fork that is added comes of a plan of which no plan that is looked for before it is a part.
proof fn lemma_frugal<'a>(
    pre: MonitorPerSession<'a>,
    route: Option<RouteView>,
    new: Seq<MonitorPerSession<'a>>,
    f: MonitorPerSession<'a>,
)
    requires
        explanations(pre, route, new),
        first_of_its_kind(new, f),
    ensures
        frugal_successor(pre, route, f),
{
    reveal(explanations);
    reveal(first_of_its_kind);
    reveal(frugal_successor);
    let c = choose|c: int|
        0 <= c < new.len() && #[trigger] new[c] == f && forall|d: int|
            0 <= d < c ==> !subsumption(#[trigger] new[d], f);
    if !emits(pre.out(), route) {
        let plans = choose|plans: Seq<Map<RouterId, usize>>| #[trigger]
            come_of(pre, route, plans, new);
        let p = plans[c];
        let earlier = plans.take(c);
        lemma_in_turn(pre.table(), pre.pending(), route, earlier, p);
        assert(applied(pre, new[c], p));
        assert forall|d: int| 0 <= d < earlier.len() implies !contained(#[trigger] earlier[d], p) by {
            assert(applied(pre, new[d], plans[d]));
            if contained(earlier[d], p) {
                lemma_contained(pre, route, plans[d], new[d], p, f);
            }
        }
    }
}

impl<'a> ForkingMonitorPerSession<'a> {
    /// A monitor with a single fork and no waiting message.
    pub fn new(
        router_id: RouterId,
        neighbor: RouterId,
        bgp_process: RibPerSession<'a>,
        make_progress_on_withdraw: bool,
    ) -> (r: Self)
        requires
            bgp_process.wf(),
        ensures
            r.ready(),
            r.forks@.len() == 1,
            r.forks@[0].router_id == router_id,
            r.forks@[0].neighbor == neighbor,
            r.forks@[0].bgp_process == bgp_process,
            r.forks@[0].commit_history@.len() == 0,
            r.make_progress_on_withdraw == make_progress_on_withdraw,
            !r.has_unprocessed_withdraw,
            r.base@ == bgp_process.table(),
            r.recovery.table() == bgp_process.table(),
            forall|n: RouterId| #[trigger]
                r.received@[n] == Seq::<UncommittedMessagePerSession>::empty(),
            r.tracks(),
            r.covers(Map::new(|n: RouterId| true, |n: RouterId| 0nat)),
            in_order(r.received@),
    {
        let recovery: RibPerSession<'a> = bgp_process.copy();
        let fork: MonitorPerSession<'a> = MonitorPerSession::new(router_id, neighbor, bgp_process);
        let ghost received: Pending<'a> = fork.pending();
        let mut forks: Vec<MonitorPerSession<'a>> = Vec::new();
        forks.push(fork);
        let r = ForkingMonitorPerSession {
            forks,
            make_progress_on_withdraw,
            has_unprocessed_withdraw: false,
            recovery,
            base: Ghost(bgp_process.table()),
            received: Ghost(received),
        };
        proof {
            reveal(tracks);
            reveal(behind);
            assert forall|n: RouterId|
                {
                    let (q, all) = (#[trigger] fork.pending()[n], received[n]);
                    q == all.skip(all.len() - q.len())
                } by {
                assert(received[n].skip(0) =~= received[n]);
            }
            assert(tracks(r.forks@[0], r.base@, r.received@));
            let zero = Map::new(|n: RouterId| true, |n: RouterId| 0nat);
            assert(behind(r.forks@[0], r.received@, zero));
            assert(everything(r.base@, r.received@) =~= r.base@);
        }
        r
    }

    /// Whether some fork subsumes another monitor.
    fn is_subsumed(&self, fork: &MonitorPerSession<'a>) -> (r: bool)
        requires
            self.wf(),
            fork.wf(),
        ensures
            r == subsumed_in(self.forks@, *fork),
    {
        reveal(subsumed_in);
        for k in 0..self.forks.len()
            invariant
                self.wf(),
                fork.wf(),
                forall|j: int| 0 <= j < k ==> !subsumption(#[trigger] self.forks@[j], *fork),
        {
            if self.forks[k].subsumes(fork) {
                reveal(subsumed_in);
                assert(subsumption(self.forks@[k as int], *fork));
                return true;
            }
        }
        false
    }

    /// Extend the forks with new ones that are not subsumed by an existing one.
    pub fn extend_forks(&mut self, forks: Vec<MonitorPerSession<'a>>) -> (r: MonitoringResult)
        requires
            old(self).wf(),
            forks@.len() > 0,
            forall|i: int| 0 <= i < forks@.len() ==> (#[trigger] forks@[i]).wf(),
        ensures
            final(self).wf(),
            final(self).make_progress_on_withdraw == old(self).make_progress_on_withdraw,
            final(self).has_unprocessed_withdraw == old(self).has_unprocessed_withdraw,
            final(self).base == old(self).base,
            final(self).received == old(self).received,
            final(self).recovery == old(self).recovery,
            old(self).forks@.len() <= final(self).forks@.len(),
            final(self).forks@.take(old(self).forks@.len() as int) == old(self).forks@,
            forall|j: int|
                old(self).forks@.len() <= j < final(self).forks@.len() ==> forks@.contains(
                    #[trigger] final(self).forks@[j],
                ),
            forall|j: int|
                old(self).forks@.len() <= j < final(self).forks@.len() ==> first_of_its_kind(
                    forks@,
                    #[trigger] final(self).forks@[j],
                ),
            irredundant_from(final(self).forks@, old(self).forks@.len() as int),
            final(self).forks@.len() > 0,
            match r {
                Ok(_) => {
                    &&& final(self).forks@.len() == old(self).forks@.len()
                        || final(self).forks@.len() <= KILL_AFTER_EXCEEDING_MORE_FORKS_THAN
                    &&& forall|i: int|
                        0 <= i < forks@.len() ==> subsumed_in(
                            final(self).forks@,
                            #[trigger] forks@[i],
                        )
                    &&& final(self).forks@ == kept(old(self).forks@, forks@)
                },
                Err(e) => {
                    &&& final(self).forks@.len() == if old(self).forks@.len()
                        <= KILL_AFTER_EXCEEDING_MORE_FORKS_THAN {
                        KILL_AFTER_EXCEEDING_MORE_FORKS_THAN + 1
                    } else {
                        old(self).forks@.len() as int + 1
                    }
                    &&& is_killed(
                        e,
                        final(self).forks@[0].router_id,
                        final(self).forks@[0].neighbor,
                        final(self).forks@.len(),
                    )
                },
            },
    {
        let ghost new = forks@;
        let ghost old_forks = self.forks@;
        let mut rest: Vec<MonitorPerSession<'a>> = forks;
        let total: usize = rest.len();
        let mut i: usize = 0;
        assert(irredundant_from(self.forks@, old_forks.len() as int)) by {
            reveal(irredundant_from);
        }
        assert(self.forks@.take(old_forks.len() as int) =~= old_forks);
        while i < total
            invariant
                total == new.len(),
                i <= total,
                new == forks@,
                rest@ == new.skip(i as int),
                forall|k: int| 0 <= k < new.len() ==> (#[trigger] new[k]).wf(),
                self.wf(),
                self.make_progress_on_withdraw == old(self).make_progress_on_withdraw,
                self.has_unprocessed_withdraw == old(self).has_unprocessed_withdraw,
                self.base == old(self).base,
                self.received == old(self).received,
                self.recovery == old(self).recovery,
                old_forks == old(self).forks@,
                old_forks.len() <= self.forks@.len(),
                self.forks@.take(old_forks.len() as int) == old_forks,
                forall|j: int|
                    old_forks.len() <= j < self.forks@.len() ==> new.contains(
                        #[trigger] self.forks@[j],
                    ),
                forall|j: int|
                    old_forks.len() <= j < self.forks@.len() ==> first_of_its_kind(
                        new,
                        #[trigger] self.forks@[j],
                    ),
                irredundant_from(self.forks@, old_forks.len() as int),
                self.forks@.len() == old_forks.len() || self.forks@.len()
                    <= KILL_AFTER_EXCEEDING_MORE_FORKS_THAN,
                i > 0 ==> self.forks@.len() > 0,
                self.forks@ == kept(old_forks, new.take(i as int)),
                forall|k: int|
                    0 <= k < i ==> subsumed_in(self.forks@, #[trigger] new[k]),
            decreases total - i,
        {
            assert(rest@[0] == new[i as int]);
            let fork: MonitorPerSession<'a> = rest.remove(0);
            assert(rest@ =~= new.skip(i + 1));
            let ghost before = self.forks@;
            assert(new.take(i + 1).drop_last() =~= new.take(i as int));
            let subsumed: bool = self.is_subsumed(&fork);
            assert(subsumed ==> before.len() > 0) by {
                reveal(subsumed_in);
            }
            if !subsumed {
                self.forks.push(fork);
                proof {
                    let after = self.forks@;
                    assert(after.take(old_forks.len() as int) =~= before.take(
                        old_forks.len() as int,
                    ));
                    assert(new[i as int] == fork);
                    assert(new.contains(fork));
                    assert(first_of_its_kind(new, fork)) by {
                        reveal(first_of_its_kind);
                        assert forall|d: int| 0 <= d < i implies !subsumption(
                            #[trigger] new[d],
                            fork,
                        ) by {
                            if subsumption(new[d], fork) {
                                lemma_subsumed_further(before, new[d], fork);
                            }
                        }
                    }
                    assert forall|j: int| old_forks.len() <= j < after.len() implies first_of_its_kind(
                        new,
                        #[trigger] after[j],
                    ) by {
                        if j < before.len() {
                            assert(after[j] == before[j]);
                        }
                    }
                    assert forall|j: int| 0 <= j < after.len() implies (#[trigger] after[j]).wf()
                        && (j >= old_forks.len() ==> new.contains(after[j])) by {
                        if j < before.len() {
                            assert(after[j] == before[j]);
                        }
                    }
                    assert(irredundant_from(after, old_forks.len() as int)) by {
                        reveal(irredundant_from);
                        assert forall|a: int, b: int|
                            0 <= a < b < after.len() && b >= old_forks.len() implies !subsumption(
                            #[trigger] after[a],
                            #[trigger] after[b],
                        ) by {
                            assert(after[a] == before[a]);
                            if b < before.len() {
                                assert(after[b] == before[b]);
                            } else {
                                reveal(subsumed_in);
                            }
                        }
                    }
                    lemma_subsumed_push(before, fork);
                    assert forall|c: int| 0 <= c < i + 1 implies subsumed_in(
                        after,
                        #[trigger] new[c],
                    ) by {}
                }
                if self.forks.len() > KILL_AFTER_EXCEEDING_MORE_FORKS_THAN {
                    return Err(
                        MonitoringError::Killed {
                            router: self.forks[0].router_id,
                            neighbor: self.forks[0].neighbor,
                            prefix: SINGLE_PREFIX,
                            num_forks: self.forks.len(),
                        },
                    );
                }
            }
            i += 1;
        }
        assert(new.take(total as int) =~= new);
        Ok(())
    }
}

/// Forks of one session, none subsumed by an earlier one, stay so if they are extended.
proof fn lemma_still_irredundant<'a>(
    before: Seq<MonitorPerSession<'a>>,
    new: Seq<MonitorPerSession<'a>>,
    after: Seq<MonitorPerSession<'a>>,
    router_id: RouterId,
    neighbor: RouterId,
)
    requires
        of_session(before, router_id, neighbor),
        of_session(new, router_id, neighbor),
        irredundant(before),
        before.len() <= after.len(),
        after.take(before.len() as int) == before,
        forall|j: int| before.len() <= j < after.len() ==> new.contains(#[trigger] after[j]),
        irredundant_from(after, before.len() as int),
    ensures
        of_session(after, router_id, neighbor),
        irredundant(after),
{
    reveal(irredundant);
    reveal(irredundant_from);
    assert forall|i: int| 0 <= i < before.len() implies #[trigger] after[i] == before[i] by {
        assert(after.take(before.len() as int)[i] == after[i]);
    }
    assert forall|i: int| 0 <= i < after.len() implies (#[trigger] after[i]).router_id == router_id
        && after[i].neighbor == neighbor by {
        if i < before.len() {
            assert(after[i] == before[i]);
        } else {
            assert(new.contains(after[i]));
        }
    }
    assert forall|i: int, j: int| 0 <= i < j < after.len() implies !subsumption(
        #[trigger] after[i],
        #[trigger] after[j],
    ) by {
        if j < before.len() {
            assert(after[i] == before[i] && after[j] == before[j]);
        }
    }
}

/// `post` is `pre` with one more waiting message.
pub open spec fn with_message<'a>(
    pre: MonitorPerSession<'a>,
    post: MonitorPerSession<'a>,
    from: RouterId,
    message: UncommittedMessagePerSession<'a>,
) -> bool {
    &&& post.pending() == pre.pending().insert(from, pre.pending()[from].push(message))
    &&& post.router_id == pre.router_id
    &&& post.neighbor == pre.neighbor
    &&& post.bgp_process == pre.bgp_process
    &&& post.commit_history == pre.commit_history
}

/// A fork that gets the message, too, follows the received messages.
proof fn lemma_with_message_tracks<'a>(
    pre: MonitorPerSession<'a>,
    post: MonitorPerSession<'a>,
    from: RouterId,
    message: UncommittedMessagePerSession<'a>,
    base: Table,
    received: Pending<'a>,
)
    requires
        with_message(pre, post, from, message),
        tracks(pre, base, received),
    ensures
        tracks(post, base, received.insert(from, received[from].push(message))),
{
    reveal(tracks);
    let after = received.insert(from, received[from].push(message));
    assert forall|n: RouterId|
        {
            let (q, all) = (#[trigger] post.pending()[n], after[n]);
            &&& q.len() <= all.len()
            &&& q == all.skip(all.len() - q.len())
            &&& lookup(post.table(), n) == slot_after(base, after, n, (all.len() - q.len()) as nat)
        } by {
        let (q, all) = (pre.pending()[n], received[n]);
        assert(q == all.skip(all.len() - q.len()));
        let k = all.len() - q.len();
        if n == from {
            assert(post.pending()[n] =~= all.push(message).skip(k));
            if k > 0 {
                assert(all.push(message)[k - 1] == all[k - 1]);
            }
        }
    }
}

impl<'a> ForkingMonitorPerSession<'a> {
    /// Note an incoming message, in all forks.
    pub fn process_incoming(&mut self, from: RouterId, message: UncommittedMessagePerSession<'a>)
        requires
            old(self).wf(),
            message.rib_entry is Some ==> message.rib_entry->0.from_id == from,
        ensures
            incoming_step(*old(self), *final(self), from, message),
    {
        let ghost before = self.forks@;
        let n: usize = self.forks.len();
        let mut k: usize = 0;
        while k < n
            invariant
                k <= n,
                n == before.len(),
                before == old(self).forks@,
                self.forks@.len() == n,
                message.rib_entry is Some ==> message.rib_entry->0.from_id == from,
                forall|i: int| 0 <= i < n ==> (#[trigger] before[i]).wf(),
                forall|i: int| 0 <= i < n ==> (#[trigger] self.forks@[i]).wf(),
                forall|i: int| k <= i < n ==> (#[trigger] self.forks@[i]) == before[i],
                forall|i: int|
                    0 <= i < k ==> with_message(
                        before[i],
                        #[trigger] self.forks@[i],
                        from,
                        message,
                    ),
                self.make_progress_on_withdraw == old(self).make_progress_on_withdraw,
                self.has_unprocessed_withdraw == old(self).has_unprocessed_withdraw,
                self.base == old(self).base,
                self.received == old(self).received,
                self.recovery == old(self).recovery,
            decreases n - k,
        {
            self.forks[k].process_incoming(from, message);
            k += 1;
        }
        let ghost all: Pending<'a> = self.received@.insert(
            from,
            self.received@[from].push(message),
        );
        self.received = Ghost(all);
        self.recovery.commit(message, from);
        assert(self.recovery.table() =~= everything(self.base@, self.received@)) by {
            let a = self.recovery.table();
            let b = everything(self.base@, self.received@);
            let e = everything(old(self).base@, old(self).received@);
            assert forall|m: RouterId| a.contains_key(m) == #[trigger] b.contains_key(m) && (
            b.contains_key(m) ==> a[m] == b[m]) by {
                if m == from {
                    let k = all[from].len();
                    assert(all[from][k - 1] == message);
                } else {
                    assert(e.contains_key(m) == a.contains_key(m));
                    assert(all[m] == old(self).received@[m]);
                }
            }
        }
        proof {
            if old(self).tracks() {
                assert forall|i: int| 0 <= i < self.forks@.len() implies tracks(
                    #[trigger] self.forks@[i],
                    self.base@,
                    self.received@,
                ) by {
                    assert(tracks(before[i], old(self).base@, old(self).received@));
                    lemma_with_message_tracks(
                        before[i],
                        self.forks@[i],
                        from,
                        message,
                        self.base@,
                        old(self).received@,
                    );
                }
            }
            assert forall|counts: Counts| #[trigger] old(self).covers(counts) implies self.covers(
                counts,
            ) by {
                reveal(behind);
                let i = choose|i: int|
                    0 <= i < before.len() && behind(
                        #[trigger] before[i],
                        old(self).received@,
                        counts,
                    );
                assert forall|m: RouterId|
                    self.received@[m].len() - (#[trigger] self.forks@[i].pending()[m]).len()
                        <= counts[m] by {
                    assert(old(self).received@[m].len() - before[i].pending()[m].len()
                        <= counts[m]);
                }
                assert(behind(self.forks@[i], self.received@, counts));
                assert forall|m: RouterId| #[trigger] counts[m] <= self.received@[m].len() by {
                    assert(counts[m] <= old(self).received@[m].len());
                }
            }
            assert forall|route: Option<RouteView>| #[trigger] old(self).emitting(route) implies
                self.emitting(route) by {
                assert forall|i: int| 0 <= i < self.forks@.len() implies emits(
                    (#[trigger] self.forks@[i]).out(),
                    route,
                ) by {
                    assert(emits(before[i].out(), route));
                }
            }
        }
    }

    /// Find all states in which the router can be once it has sent `route`.
    ///
    /// If this fails then `forks` is left unusable, and the caller has to start afresh.
    pub fn process_outgoing_ok(&mut self, route: Option<&BgpRoute>) -> (r: MonitoringResult)
        requires
            old(self).ready(),
        ensures
            outgoing_step(*old(self), *final(self), optional_view(route), r),
    {
        if !self.make_progress_on_withdraw && route.is_none() {
            self.has_unprocessed_withdraw = true;
            return Ok(());
        }
        self.has_unprocessed_withdraw = false;
        let ghost want = optional_view(route);
        let ghost before = self.forks@;
        let ghost router_id = before[0].router_id;
        let ghost neighbor = before[0].neighbor;
        let mut old_forks: Vec<MonitorPerSession<'a>> = Vec::new();
        std::mem::swap(&mut old_forks, &mut self.forks);
        let n: usize = old_forks.len();
        let mut failure: Option<MonitoringError> = None;
        let mut k: usize = 0;
        assert(irredundant(self.forks@)) by {
            reveal(irredundant);
        }
        assert(gathered(before, want, 0, self.forks@)) by {
            reveal(gathered);
            let lists: Seq<Seq<MonitorPerSession<'a>>> = seq![];
            assert(all_kept(lists) =~= self.forks@);
        }
        while k < n
            invariant
                k <= n,
                n == before.len(),
                n > 0,
                gathered(before, want, k as int, self.forks@),
                before == old(self).forks@,
                want == optional_view(route),
                old_forks@ == before.skip(k as int),
                forall|i: int| 0 <= i < n ==> (#[trigger] before[i]).wf(),
                of_session(before, router_id, neighbor),
                router_id == before[0].router_id,
                neighbor == before[0].neighbor,
                self.wf(),
                of_session(self.forks@, router_id, neighbor),
                self.make_progress_on_withdraw == old(self).make_progress_on_withdraw,
                !self.has_unprocessed_withdraw,
                self.make_progress_on_withdraw || route is Some,
                self.base == old(self).base,
                self.received == old(self).received,
                self.recovery == old(self).recovery,
                old(self).ready(),
                irredundant(self.forks@),
                self.forks@.len() <= KILL_AFTER_EXCEEDING_MORE_FORKS_THAN,
                forall|j: int|
                    0 <= j < self.forks@.len() ==> explained_by(
                        before,
                        want,
                        #[trigger] self.forks@[j],
                    ),
                forall|i: int|
                    0 <= i < k ==> accounts_for(self.forks@, #[trigger] before[i], want),
                self.forks@.len() == 0 ==> forall|i: int|
                    0 <= i < k ==> !can_emit(#[trigger] before[i], want),
                self.forks@.len() == 0 && k > 0 ==> failure is Some,
                failure matches Some(e) ==> is_unexpected(e, router_id, neighbor, want),
            decreases n - k,
        {
            assert(old_forks@[0] == before[k as int]);
            let fork: MonitorPerSession<'a> = old_forks.remove(0);
            assert(old_forks@ =~= before.skip(k + 1));
            let ghost so_far = self.forks@;
            match fork.process_outgoing_ok(route) {
                Ok(new_forks) => {
                    let ghost new = new_forks@;
                    proof {
                        lemma_of_session(fork, want, new);
                    }
                    let extended: MonitoringResult = self.extend_forks(new_forks);
                    proof {
                        lemma_still_irredundant(so_far, new, self.forks@, router_id, neighbor);
                        lemma_extended(before, k as int, so_far, self.forks@, new, want);
                    }
                    match extended {
                        Ok(_) => {
                            proof {
                                lemma_gather(before, want, k as int, so_far, new);
                            }
                        },
                        Err(e) => {
                            proof {
                                if old(self).tracks() {
                                    lemma_explained_tracks(
                                        before,
                                        self.forks@,
                                        want,
                                        self.base@,
                                        self.received@,
                                    );
                                }
                            }
                            return Err(e);
                        },
                    }
                },
                Err(e) => {
                    failure = Some(e);
                    assert(accounts_for(self.forks@, before[k as int], want)) by {
                        reveal(accounts_for);
                    }
                    proof {
                        lemma_no_explanation(before[k as int], want);
                        lemma_gather(before, want, k as int, so_far, seq![]);
                    }
                },
            }
            k += 1;
        }
        proof {
            if old(self).tracks() {
                lemma_explained_tracks(before, self.forks@, want, self.base@, self.received@);
                assert forall|counts: Counts| #[trigger]
                    old(self).covers(counts) && old(self).explains(counts, want) implies self.covers(
                    counts,
                ) && self.forks@.len() > 0 by {
                    let i = choose|i: int|
                        0 <= i < before.len() && behind(
                            #[trigger] before[i],
                            self.received@,
                            counts,
                        );
                    lemma_lengths(before[i]);
                    assert(tracks(before[i], old(self).base@, old(self).received@));
                    lemma_step_covers(
                        before[i],
                        self.forks@,
                        want,
                        self.base@,
                        self.received@,
                        counts,
                    );
                    assert(accounts_for(self.forks@, before[i], want));
                }
            }
        }
        if self.forks.len() == 0 {
            match failure {
                Some(e) => Err(e),
                None => Ok(()),
            }
        } else {
            proof {
                reveal(explained_by);
            }
            Ok(())
        }
    }
}

/// A fork that cannot explain a route has no explanations.
proof fn lemma_no_explanation<'a>(pre: MonitorPerSession<'a>, route: Option<RouteView>)
    requires
        !can_emit(pre, route),
    ensures
        explanations(pre, route, Seq::<MonitorPerSession<'a>>::empty()),
{
    reveal(explanations);
    let plans: Seq<Map<RouterId, usize>> = seq![];
    assert(come_of(pre, route, plans, Seq::<MonitorPerSession<'a>>::empty()));
}

/// A fork that is added is not subsumed by those that were there.
proof fn lemma_not_subsumed<'a>(
    so_far: Seq<MonitorPerSession<'a>>,
    after: Seq<MonitorPerSession<'a>>,
    j: int,
)
    requires
        so_far.len() <= j < after.len(),
        after.take(so_far.len() as int) == so_far,
        irredundant_from(after, so_far.len() as int),
    ensures
        !subsumed_in(so_far, after[j]),
{
    reveal(irredundant_from);
    reveal(subsumed_in);
    assert forall|i: int| 0 <= i < so_far.len() implies !subsumption(
        #[trigger] so_far[i],
        after[j],
    ) by {
        assert(after.take(so_far.len() as int)[i] == after[i]);
        assert(!subsumption(after[i], after[j]));
    }
}

/// What is gained by extending the forks `so_far` with the explanations `new` of one more fork.
proof fn lemma_extended<'a>(
    before: Seq<MonitorPerSession<'a>>,
    k: int,
    so_far: Seq<MonitorPerSession<'a>>,
    after: Seq<MonitorPerSession<'a>>,
    new: Seq<MonitorPerSession<'a>>,
    route: Option<RouteView>,
)
    requires
        0 <= k < before.len(),
        forall|j: int| 0 <= j < so_far.len() ==> explained_by(before, route, #[trigger] so_far[j]),
        forall|i: int| 0 <= i < k ==> accounts_for(so_far, #[trigger] before[i], route),
        forall|j: int|
            0 <= j < new.len() ==> emits((#[trigger] new[j]).out(), route),
        explanations(before[k], route, new),
        so_far.len() <= after.len(),
        after.take(so_far.len() as int) == so_far,
        forall|j: int| so_far.len() <= j < after.len() ==> new.contains(#[trigger] after[j]),
        forall|j: int|
            so_far.len() <= j < after.len() ==> first_of_its_kind(new, #[trigger] after[j]),
        irredundant_from(after, so_far.len() as int),
    ensures
        forall|j: int| 0 <= j < after.len() ==> explained_by(before, route, #[trigger] after[j]),
        (forall|i: int| 0 <= i < new.len() ==> subsumed_in(after, #[trigger] new[i])) ==> (
        forall|i: int| 0 <= i < k + 1 ==> accounts_for(after, #[trigger] before[i], route)),
{
    assert forall|j: int| 0 <= j < after.len() implies explained_by(
        before,
        route,
        #[trigger] after[j],
    ) by {
        if j < so_far.len() {
            assert(after.take(so_far.len() as int)[j] == after[j]);
            assert(explained_by(before, route, so_far[j]));
        } else {
            let i = choose|i: int| 0 <= i < new.len() && new[i] == after[j];
            lemma_explanations(before[k], route, new);
            assert(emits(new[i].out(), route) && successor(before[k], route, new[i]));
            assert(first_of_its_kind(new, after[j]));
            lemma_frugal(before[k], route, new, after[j]);
            assert forall|c: int| 0 <= c < k implies !anticipated(
                #[trigger] before[c],
                route,
                after[j],
            ) by {
                if anticipated(before[c], route, after[j]) {
                    lemma_anticipated(so_far, before[c], route, after[j]);
                    lemma_not_subsumed(so_far, after, j);
                }
            }
            reveal(explained_by);
        }
    }
    if forall|i: int| 0 <= i < new.len() ==> subsumed_in(after, #[trigger] new[i]) {
        assert forall|i: int| 0 <= i < k + 1 implies accounts_for(
            after,
            #[trigger] before[i],
            route,
        ) by {
            if i < k {
                lemma_accounts_grow(so_far, after, before[i], route);
            } else {
                lemma_accounts(after, new, before[i], route);
            }
        }
    }
}

/// `f` is a state in which one of `forks` can be once `route` was sent. It takes no messages that an
/// explanation which is looked for before it does without: not one by the same fork, nor one by a
/// fork before that.
#[verifier::opaque]
pub open spec fn explained_by<'a>(
    forks: Seq<MonitorPerSession<'a>>,
    route: Option<RouteView>,
    f: MonitorPerSession<'a>,
) -> bool {
    emits(f.out(), route) && exists|i: int|
        0 <= i < forks.len() && successor(#[trigger] forks[i], route, f) && frugal_successor(
            forks[i],
            route,
            f,
        ) && forall|c: int| 0 <= c < i ==> !anticipated(#[trigger] forks[c], route, f)
}

/// What comes of an outgoing message: the new forks are the explanations of the route, up to
/// subsumption. Those that are found later are not kept if they are subsumed. The message is unexpected
/// if there is none.
pub open spec fn processed<'a>(
    before: Seq<MonitorPerSession<'a>>,
    after: Seq<MonitorPerSession<'a>>,
    route: Option<RouteView>,
    r: MonitoringResult,
) -> bool {
    &&& forall|j: int| 0 <= j < after.len() ==> explained_by(before, route, #[trigger] after[j])
    &&& irredundant(after)
    &&& match r {
        Ok(_) => {
            &&& 0 < after.len() <= KILL_AFTER_EXCEEDING_MORE_FORKS_THAN
            &&& forall|i: int|
                0 <= i < before.len() ==> accounts_for(after, #[trigger] before[i], route)
            &&& gathered(before, route, before.len() as int, after)
        },
        Err(MonitoringError::UnexpectedEvent { .. }) => {
            &&& after.len() == 0
            &&& is_unexpected(r->Err_0, before[0].router_id, before[0].neighbor, route)
            &&& forall|i: int| 0 <= i < before.len() ==> !can_emit(#[trigger] before[i], route)
        },
        Err(e) => {
            &&& after.len() == KILL_AFTER_EXCEEDING_MORE_FORKS_THAN + 1
            &&& is_killed(e, before[0].router_id, before[0].neighbor, after.len())
        },
    }
}

/// The explanations of a route follow the received messages.
proof fn lemma_explained_tracks<'a>(
    before: Seq<MonitorPerSession<'a>>,
    after: Seq<MonitorPerSession<'a>>,
    route: Option<RouteView>,
    base: Table,
    received: Pending<'a>,
)
    requires
        forall|i: int| 0 <= i < before.len() ==> tracks(#[trigger] before[i], base, received),
        forall|j: int| 0 <= j < after.len() ==> explained_by(before, route, #[trigger] after[j]),
    ensures
        forall|j: int| 0 <= j < after.len() ==> tracks(#[trigger] after[j], base, received),
{
    assert forall|j: int| 0 <= j < after.len() implies tracks(
        #[trigger] after[j],
        base,
        received,
    ) by {
        reveal(explained_by);
        assert(explained_by(before, route, after[j]));
        let i = choose|i: int|
            0 <= i < before.len() && successor(#[trigger] before[i], route, after[j]);
        assert(tracks(before[i], base, received));
        if !emits(before[i].out(), route) {
            let p = choose|p: Map<RouterId, usize>| #[trigger]
                possible(before[i].table(), before[i].pending(), route, p) && applied(
                    before[i],
                    after[j],
                    p,
                );
            lemma_applied_tracks(before[i], after[j], p, route, base, received);
        }
    }
}

/// A list of messages fits into memory.
proof fn lemma_lengths(fork: MonitorPerSession)
    ensures
        forall|n: RouterId| #[trigger] fork.pending()[n].len() <= usize::MAX,
{
    assert forall|n: RouterId| #[trigger] fork.pending()[n].len() <= usize::MAX by {
        if fork.uncommitted_messages@.contains_key(n) {
            assert(fork.uncommitted_messages@[n].len() == fork.uncommitted_messages@[n]@.len());
        }
    }
}

// ---------------------------------------------------------------------------------------------
// Timeouts
// ---------------------------------------------------------------------------------------------
/// What the neighbor was sent last, as far as the fork knows. If `withdrawn`, the last outgoing
/// message was a withdraw that no fork has explained.
pub open spec fn last_route(fork: MonitorPerSession, withdrawn: bool) -> Option<RouteView> {
    if withdrawn {
        None
    } else {
        match fork.out() {
            Some(e) => Some(e.route@),
            None => None,
        }
    }
}

/// `mid` is `fork` after all messages that arrived by `time`, and it can no longer have sent what
/// it has sent last.
pub open spec fn is_overdue(
    fork: MonitorPerSession,
    mid: MonitorPerSession,
    time: Time,
    withdrawn: bool,
) -> bool {
    applied_before(fork, mid, time) && mid.wf() && !can_emit(mid, last_route(fork, withdrawn))
}

/// `mid` is `fork` after all messages that arrived by `time`, and `forks` has all explanations for
/// what was sent last.
pub open spec fn is_settled(
    fork: MonitorPerSession,
    mid: MonitorPerSession,
    forks: Seq<MonitorPerSession>,
    time: Time,
    withdrawn: bool,
) -> bool {
    applied_before(fork, mid, time) && mid.wf() && accounts_for(
        forks,
        mid,
        last_route(fork, withdrawn),
    )
}

/// The fork can no longer have sent what it has sent last.
pub open spec fn overdue(fork: MonitorPerSession, time: Time, withdrawn: bool) -> bool {
    exists|mid: MonitorPerSession| #[trigger] is_overdue(fork, mid, time, withdrawn)
}

/// `forks` has all that can come of the fork if it has sent nothing new.
pub open spec fn settled(
    fork: MonitorPerSession,
    forks: Seq<MonitorPerSession>,
    time: Time,
    withdrawn: bool,
) -> bool {
    exists|mid: MonitorPerSession| #[trigger] is_settled(fork, mid, forks, time, withdrawn)
}

/// `f` comes of `fork` if that processes all messages that arrived by `time`, and then just what it
/// takes to explain what was sent last.
#[verifier::opaque]
pub open spec fn settled_from<'a>(
    fork: MonitorPerSession<'a>,
    time: Time,
    withdrawn: bool,
    f: MonitorPerSession<'a>,
) -> bool {
    emits(f.out(), last_route(fork, withdrawn)) && exists|mid: MonitorPerSession<'a>| #[trigger]
        applied_before(fork, mid, time) && mid.wf() && successor(
            mid,
            last_route(fork, withdrawn),
            f,
        ) && frugal_successor(mid, last_route(fork, withdrawn), f)
}

/// Nothing that comes of `fork` subsumes `f`.
#[verifier::opaque]
pub open spec fn not_anticipated<'a>(
    fork: MonitorPerSession<'a>,
    time: Time,
    withdrawn: bool,
    f: MonitorPerSession<'a>,
) -> bool {
    exists|mid: MonitorPerSession<'a>| #[trigger]
        applied_before(fork, mid, time) && mid.wf() && !anticipated(
            mid,
            last_route(fork, withdrawn),
            f,
        )
}

/// `f` comes of one of `forks` that way, and nothing that comes of a fork before that subsumes it.
#[verifier::opaque]
pub open spec fn settled_by<'a>(
    forks: Seq<MonitorPerSession<'a>>,
    time: Time,
    withdrawn: bool,
    f: MonitorPerSession<'a>,
) -> bool {
    exists|i: int|
        0 <= i < forks.len() && settled_from(#[trigger] forks[i], time, withdrawn, f) && forall|
            c: int,
        |
            0 <= c < i ==> not_anticipated(#[trigger] forks[c], time, withdrawn, f)
}

/// `forks` are the explanations of what `fork` has sent last, once it has processed all messages that
/// arrived by `time`.
#[verifier::opaque]
pub open spec fn settlements<'a>(
    fork: MonitorPerSession<'a>,
    time: Time,
    withdrawn: bool,
    forks: Seq<MonitorPerSession<'a>>,
) -> bool {
    exists|mid: MonitorPerSession<'a>| #[trigger]
        applied_before(fork, mid, time) && mid.wf() && explanations(
            mid,
            last_route(fork, withdrawn),
            forks,
        )
}

/// `after` is what is kept of what comes of the first `k` forks, taken in turn.
#[verifier::opaque]
pub open spec fn settled_in_turn<'a>(
    forks: Seq<MonitorPerSession<'a>>,
    time: Time,
    withdrawn: bool,
    k: int,
    after: Seq<MonitorPerSession<'a>>,
) -> bool {
    exists|lists: Seq<Seq<MonitorPerSession<'a>>>|
        lists.len() == k && after == #[trigger] all_kept(lists) && forall|i: int|
            0 <= i < k ==> settlements(forks[i], time, withdrawn, #[trigger] lists[i])
}

/// What comes of one more fork is added.
proof fn lemma_settle_in_turn<'a>(
    forks: Seq<MonitorPerSession<'a>>,
    time: Time,
    withdrawn: bool,
    k: int,
    so_far: Seq<MonitorPerSession<'a>>,
    mid: MonitorPerSession<'a>,
    new: Seq<MonitorPerSession<'a>>,
)
    requires
        k >= 0,
        settled_in_turn(forks, time, withdrawn, k, so_far),
        applied_before(forks[k], mid, time),
        mid.wf(),
        explanations(mid, last_route(forks[k], withdrawn), new),
    ensures
        settled_in_turn(forks, time, withdrawn, k + 1, kept(so_far, new)),
{
    assert(settlements(forks[k], time, withdrawn, new)) by {
        reveal(settlements);
    }
    reveal(settled_in_turn);
    let lists = choose|lists: Seq<Seq<MonitorPerSession<'a>>>|
        lists.len() == k && so_far == #[trigger] all_kept(lists) && forall|i: int|
            0 <= i < k ==> settlements(forks[i], time, withdrawn, #[trigger] lists[i]);
    let more = lists.push(new);
    assert(more.drop_last() =~= lists);
    assert(all_kept(more) == kept(so_far, new));
    assert forall|i: int| 0 <= i < k + 1 implies settlements(
        forks[i],
        time,
        withdrawn,
        #[trigger] more[i],
    ) by {
        if i < k {
            assert(more[i] == lists[i]);
        }
    }
}

/// The error for forks that are all overdue: it tells of the last one.
pub open spec fn is_missing(
    e: MonitoringError,
    forks: Seq<MonitorPerSession>,
    time: Time,
    withdrawn: bool,
) -> bool {
    e matches MonitoringError::MissingOutgoingEvent {
        router,
        neighbor,
        current_event,
        expected_event,
    } && router == forks[0].router_id && neighbor == forks[0].neighbor && exists|
        mid: MonitorPerSession,
    | #[trigger]
        is_overdue(forks.last(), mid, time, withdrawn) && current_event@ == event_of(
            last_route(forks.last(), withdrawn),
        ) && expected_event@ == event_of(last_route(mid, false))
}

/// What comes of a timeout: the new forks are the explanations that remain once all messages that
/// arrived by `time` are processed, up to subsumption. Those that are found later are not kept if they
/// are subsumed. A message is missing if there is none.
pub open spec fn settles<'a>(
    before: Seq<MonitorPerSession<'a>>,
    after: Seq<MonitorPerSession<'a>>,
    time: Time,
    withdrawn: bool,
    r: MonitoringResult,
) -> bool {
    &&& forall|j: int|
        0 <= j < after.len() ==> settled_by(before, time, withdrawn, #[trigger] after[j])
    &&& irredundant(after)
    &&& match r {
        Ok(_) => {
            &&& 0 < after.len() <= KILL_AFTER_EXCEEDING_MORE_FORKS_THAN
            &&& forall|i: int|
                0 <= i < before.len() ==> settled(#[trigger] before[i], after, time, withdrawn)
            &&& settled_in_turn(before, time, withdrawn, before.len() as int, after)
        },
        Err(MonitoringError::Killed { .. }) => {
            &&& after.len() == KILL_AFTER_EXCEEDING_MORE_FORKS_THAN + 1
            &&& is_killed(r->Err_0, before[0].router_id, before[0].neighbor, after.len())
        },
        Err(e) => {
            &&& after.len() == 0
            &&& is_missing(e, before, time, withdrawn)
            &&& forall|i: int|
                0 <= i < before.len() ==> overdue(#[trigger] before[i], time, withdrawn)
        },
    }
}

/// A result that does not accuse the router.
pub open spec fn no_accusation(r: MonitoringResult) -> bool {
    r matches Err(e) ==> e is Killed
}

/// Messages in the order of their times are split by a time into a first and a last part.
proof fn lemma_split_by_time(q: Seq<UncommittedMessagePerSession>, time: Time) -> (k: nat)
    requires
        time == INFINITY || forall|i: int, j: int|
            0 <= i <= j < q.len() ==> (#[trigger] q[i]).time <= (#[trigger] q[j]).time,
    ensures
        k <= q.len(),
        q.filter(arrived_by(time)) == q.take(k as int),
        q.filter(arrived_after(time)) == q.skip(k as int),
        forall|i: int| 0 <= i < k ==> (#[trigger] q[i]).time <= time,
    decreases q.len(),
{
    reveal(Seq::filter);
    if q.len() == 0 {
        assert(q.take(0) =~= q);
        assert(q.skip(0) =~= q);
        0
    } else {
        let init = q.drop_last();
        assert forall|i: int| 0 <= i < init.len() implies #[trigger] init[i] == q[i] by {}
        let k = lemma_split_by_time(init, time);
        if q.last().time <= time {
            // then so are all before it
            if k < init.len() {
                assert(init.skip(k as int).len() > 0);
                assert(init.filter(arrived_after(time))[0] == init[k as int]);
                init.lemma_filter_pred(arrived_after(time), 0);
                assert(q[k as int].time <= q.last().time);
                assert(false);
            }
            assert(init.take(k as int) =~= init);
            assert(init.push(q.last()) =~= q);
            assert(q.take(q.len() as int) =~= q);
            assert(q.skip(q.len() as int) =~= Seq::empty());
            assert(init.skip(k as int) =~= Seq::empty());
            assert forall|i: int| 0 <= i < q.len() implies (#[trigger] q[i]).time <= time by {
                if i < init.len() {
                    assert(init[i].time <= time);
                }
            }
            q.len()
        } else {
            assert(q.take(k as int) =~= init.take(k as int));
            assert(q.skip(k as int) =~= init.skip(k as int).push(q.last()));
            assert forall|i: int| 0 <= i < k implies (#[trigger] q[i]).time <= time by {
                assert(init[i].time <= time);
            }
            k
        }
    }
}

/// Processing all messages that arrived by a time does not lose track of the received messages,
/// nor overtake a router that has processed those messages.
proof fn lemma_before_tracks<'a>(
    pre: MonitorPerSession<'a>,
    post: MonitorPerSession<'a>,
    time: Time,
    base: Table,
    received: Pending<'a>,
)
    requires
        tracks(pre, base, received),
        applied_before(pre, post, time),
        time == INFINITY || in_order(received),
    ensures
        tracks(post, base, received),
        forall|counts: Counts| #[trigger]
            behind(pre, received, counts) && within(counts, received) && caught_up(
                counts,
                received,
                time,
            ) ==> behind(post, received, counts),
{
    reveal(tracks);
    reveal(behind);
    assert forall|n: RouterId|
        {
            let (q, all) = (#[trigger] post.pending()[n], received[n]);
            &&& q.len() <= all.len()
            &&& q == all.skip(all.len() - q.len())
            &&& lookup(post.table(), n) == slot_after(
                base,
                received,
                n,
                (all.len() - q.len()) as nat,
            )
            &&& forall|counts: Counts| #[trigger]
                behind(pre, received, counts) && within(counts, received) && caught_up(
                    counts,
                    received,
                    time,
                ) ==> received[n].len() - q.len() <= counts[n]
        } by {
        let (q, all) = (pre.pending()[n], received[n]);
        let done = all.len() - q.len();
        assert(q == all.skip(done));
        assert(time == INFINITY || forall|i: int, j: int|
            0 <= i <= j < q.len() ==> (#[trigger] q[i]).time <= (#[trigger] q[j]).time) by {
            if time != INFINITY {
                assert forall|i: int, j: int| 0 <= i <= j < q.len() implies (
                #[trigger] q[i]).time <= (#[trigger] q[j]).time by {
                    assert(q[i] == received[n][i + done]);
                    assert(q[j] == received[n][j + done]);
                }
            }
        }
        let k = lemma_split_by_time(q, time);
        assert(post.pending()[n] == q.filter(arrived_after(time)));
        assert(q.skip(k as int) =~= all.skip(done + k));
        assert(lookup(post.table(), n) == slot_by(pre.table(), n, q, time));
        if k > 0 {
            assert(q.take(k as int).last() == q[k - 1]);
            assert(q[k - 1] == all[done + k - 1]);
            assert(received[n][done + k - 1].time <= time);
        }
    }
}

/// What explains a route explains the same announcement, however written.
proof fn lemma_explains_same(table: Table, a: Option<RouteView>, b: Option<RouteView>)
    requires
        exports(table, a),
        same_optional(b, a),
    ensures
        exports(table, b),
{
    if exists|n: RouterId| #[trigger]
        crate::session_monitor::winner(table, n) && emits(table[n].out, a) {
        let n = choose|n: RouterId| #[trigger]
            crate::session_monitor::winner(table, n) && emits(table[n].out, a);
        assert(emits(table[n].out, b));
    }
}

/// What `fork` has sent last, on all its explanations.
proof fn lemma_settled_covers<'a>(
    fork: MonitorPerSession<'a>,
    mid: MonitorPerSession<'a>,
    forks: Seq<MonitorPerSession<'a>>,
    time: Time,
    withdrawn: bool,
    base: Table,
    received: Pending<'a>,
    counts: Counts,
    route: Option<RouteView>,
)
    requires
        tracks(fork, base, received),
        applied_before(fork, mid, time),
        mid.wf(),
        time == INFINITY || in_order(received),
        within(counts, received),
        caught_up(counts, received, time),
        behind(fork, received, counts),
        exports(advanced(base, received, counts), route),
        withdrawn ==> route is None,
        !withdrawn ==> emits(fork.out(), route),
    ensures
        can_emit(mid, last_route(fork, withdrawn)),
        accounts_for(forks, mid, last_route(fork, withdrawn)) ==> exists|j: int|
            0 <= j < forks.len() && behind(#[trigger] forks[j], received, counts),
{
    lemma_before_tracks(fork, mid, time, base, received);
    lemma_explains_same(
        advanced(base, received, counts),
        route,
        last_route(fork, withdrawn),
    );
    lemma_lengths(mid);
    lemma_step_covers(mid, forks, last_route(fork, withdrawn), base, received, counts);
}

/// The forks that come of a timeout follow the received messages.
proof fn lemma_settled_tracks<'a>(
    before: Seq<MonitorPerSession<'a>>,
    after: Seq<MonitorPerSession<'a>>,
    time: Time,
    withdrawn: bool,
    base: Table,
    received: Pending<'a>,
)
    requires
        time == INFINITY || in_order(received),
        forall|i: int| 0 <= i < before.len() ==> tracks(#[trigger] before[i], base, received),
        forall|j: int|
            0 <= j < after.len() ==> settled_by(before, time, withdrawn, #[trigger] after[j]),
    ensures
        forall|j: int| 0 <= j < after.len() ==> tracks(#[trigger] after[j], base, received),
{
    assert forall|j: int| 0 <= j < after.len() implies tracks(
        #[trigger] after[j],
        base,
        received,
    ) by {
        reveal(settled_by);
        reveal(settled_from);
        assert(settled_by(before, time, withdrawn, after[j]));
        let i = choose|i: int|
            0 <= i < before.len() && settled_from(#[trigger] before[i], time, withdrawn, after[j]);
        let route = last_route(before[i], withdrawn);
        let mid = choose|mid: MonitorPerSession<'a>| #[trigger]
            applied_before(before[i], mid, time) && mid.wf() && successor(mid, route, after[j]);
        lemma_before_tracks(before[i], mid, time, base, received);
        if !emits(mid.out(), route) {
            let p = choose|p: Map<RouterId, usize>| #[trigger]
                possible(mid.table(), mid.pending(), route, p) && applied(mid, after[j], p);
            lemma_applied_tracks(mid, after[j], p, route, base, received);
        }
    }
}

/// What is gained by extending the forks `so_far` with what remains of one more fork.
proof fn lemma_settling<'a>(
    before: Seq<MonitorPerSession<'a>>,
    k: int,
    mid: MonitorPerSession<'a>,
    so_far: Seq<MonitorPerSession<'a>>,
    after: Seq<MonitorPerSession<'a>>,
    new: Seq<MonitorPerSession<'a>>,
    time: Time,
    withdrawn: bool,
)
    requires
        0 <= k < before.len(),
        applied_before(before[k], mid, time),
        mid.wf(),
        forall|j: int|
            0 <= j < so_far.len() ==> settled_by(before, time, withdrawn, #[trigger] so_far[j]),
        forall|i: int|
            0 <= i < k ==> settled(#[trigger] before[i], so_far, time, withdrawn),
        forall|j: int|
            0 <= j < new.len() ==> emits(
                (#[trigger] new[j]).out(),
                last_route(before[k], withdrawn),
            ),
        explanations(mid, last_route(before[k], withdrawn), new),
        so_far.len() <= after.len(),
        after.take(so_far.len() as int) == so_far,
        forall|j: int| so_far.len() <= j < after.len() ==> new.contains(#[trigger] after[j]),
        forall|j: int|
            so_far.len() <= j < after.len() ==> first_of_its_kind(new, #[trigger] after[j]),
        irredundant_from(after, so_far.len() as int),
    ensures
        forall|j: int|
            0 <= j < after.len() ==> settled_by(before, time, withdrawn, #[trigger] after[j]),
        (forall|i: int| 0 <= i < new.len() ==> subsumed_in(after, #[trigger] new[i])) ==> (forall|
            i: int,
        |
            0 <= i < k + 1 ==> settled(#[trigger] before[i], after, time, withdrawn)),
{
    assert forall|j: int| 0 <= j < after.len() implies settled_by(
        before,
        time,
        withdrawn,
        #[trigger] after[j],
    ) by {
        if j < so_far.len() {
            assert(after.take(so_far.len() as int)[j] == after[j]);
            assert(settled_by(before, time, withdrawn, so_far[j]));
        } else {
            let i = choose|i: int| 0 <= i < new.len() && new[i] == after[j];
            assert(first_of_its_kind(new, after[j]));
            lemma_explanations(mid, last_route(before[k], withdrawn), new);
            lemma_frugal(mid, last_route(before[k], withdrawn), new, after[j]);
            assert(settled_from(before[k], time, withdrawn, new[i])) by {
                reveal(settled_from);
            }
            assert forall|c: int| 0 <= c < k implies not_anticipated(
                #[trigger] before[c],
                time,
                withdrawn,
                after[j],
            ) by {
                assert(settled(before[c], so_far, time, withdrawn));
                let m = choose|m: MonitorPerSession<'a>|
                    is_settled(before[c], m, so_far, time, withdrawn);
                let route = last_route(before[c], withdrawn);
                assert(!anticipated(m, route, after[j])) by {
                    if anticipated(m, route, after[j]) {
                        lemma_anticipated(so_far, m, route, after[j]);
                        lemma_not_subsumed(so_far, after, j);
                    }
                }
                reveal(not_anticipated);
            }
            reveal(settled_by);
        }
    }
    if forall|i: int| 0 <= i < new.len() ==> subsumed_in(after, #[trigger] new[i]) {
        assert forall|i: int| 0 <= i < k + 1 implies settled(#[trigger] before[i], after, time, withdrawn) by {
            if i < k {
                let m = choose|m: MonitorPerSession<'a>|
                    is_settled(before[i], m, so_far, time, withdrawn);
                lemma_accounts_grow(so_far, after, m, last_route(before[i], withdrawn));
                assert(is_settled(before[i], m, after, time, withdrawn));
            } else {
                lemma_accounts(after, new, mid, last_route(before[i], withdrawn));
                assert(is_settled(before[i], mid, after, time, withdrawn));
            }
        }
    }
}

/// A fork that is overdue leaves nothing behind.
proof fn lemma_overdue<'a>(
    before: Seq<MonitorPerSession<'a>>,
    k: int,
    mid: MonitorPerSession<'a>,
    so_far: Seq<MonitorPerSession<'a>>,
    time: Time,
    withdrawn: bool,
)
    requires
        0 <= k < before.len(),
        is_overdue(before[k], mid, time, withdrawn),
        forall|i: int|
            0 <= i < k ==> settled(#[trigger] before[i], so_far, time, withdrawn),
    ensures
        forall|i: int|
            0 <= i < k + 1 ==> settled(#[trigger] before[i], so_far, time, withdrawn),
{
    assert(is_settled(before[k], mid, so_far, time, withdrawn)) by {
        reveal(accounts_for);
    }
    assert forall|i: int| 0 <= i < k + 1 implies settled(#[trigger] before[i], so_far, time, withdrawn) by {
        if i == k {
            assert(is_settled(before[i], mid, so_far, time, withdrawn));
        }
    }
}

impl<'a> ForkingMonitorPerSession<'a> {
    /// Commit all messages that arrived by `time` in all forks, and find all states in which the
    /// router can be if it has sent nothing new.
    fn settle(&mut self, time: Time) -> (r: MonitoringResult)
        requires
            old(self).ready(),
        ensures
            final(self).wf(),
            final(self).make_progress_on_withdraw == old(self).make_progress_on_withdraw,
            final(self).has_unprocessed_withdraw == old(self).has_unprocessed_withdraw,
            final(self).base == old(self).base,
            final(self).received == old(self).received,
            final(self).recovery == old(self).recovery,
            r is Ok ==> final(self).ready() && final(self).forks@[0].router_id
                == old(self).forks@[0].router_id && final(self).forks@[0].neighbor
                == old(self).forks@[0].neighbor,
            settles(
                old(self).forks@,
                final(self).forks@,
                time,
                old(self).has_unprocessed_withdraw,
                r,
            ),
    {
        let withdrawn: bool = self.has_unprocessed_withdraw;
        let ghost before = self.forks@;
        let ghost router_id = before[0].router_id;
        let ghost neighbor = before[0].neighbor;
        let mut old_forks: Vec<MonitorPerSession<'a>> = Vec::new();
        std::mem::swap(&mut old_forks, &mut self.forks);
        let n: usize = old_forks.len();
        let mut failure: Option<MonitoringError> = None;
        let mut k: usize = 0;
        assert(irredundant(self.forks@)) by {
            reveal(irredundant);
        }
        assert(settled_in_turn(before, time, withdrawn, 0, self.forks@)) by {
            reveal(settled_in_turn);
            let lists: Seq<Seq<MonitorPerSession<'a>>> = seq![];
            assert(all_kept(lists) =~= self.forks@);
        }
        while k < n
            invariant
                k <= n,
                settled_in_turn(before, time, withdrawn, k as int, self.forks@),
                n == before.len(),
                n > 0,
                before == old(self).forks@,
                withdrawn == old(self).has_unprocessed_withdraw,
                old_forks@ == before.skip(k as int),
                forall|i: int| 0 <= i < n ==> (#[trigger] before[i]).wf(),
                of_session(before, router_id, neighbor),
                router_id == before[0].router_id,
                neighbor == before[0].neighbor,
                self.wf(),
                of_session(self.forks@, router_id, neighbor),
                self.make_progress_on_withdraw == old(self).make_progress_on_withdraw,
                self.has_unprocessed_withdraw == old(self).has_unprocessed_withdraw,
                self.base == old(self).base,
                self.received == old(self).received,
                self.recovery == old(self).recovery,
                irredundant(self.forks@),
                self.forks@.len() <= KILL_AFTER_EXCEEDING_MORE_FORKS_THAN,
                forall|j: int|
                    0 <= j < self.forks@.len() ==> settled_by(
                        before,
                        time,
                        withdrawn,
                        #[trigger] self.forks@[j],
                    ),
                forall|i: int|
                    0 <= i < k ==> settled(#[trigger] before[i], self.forks@, time, withdrawn),
                self.forks@.len() == 0 ==> forall|i: int|
                    0 <= i < k ==> overdue(#[trigger] before[i], time, withdrawn),
                self.forks@.len() == 0 && k > 0 ==> failure is Some,
                self.forks@.len() == 0 ==> (failure matches Some(e) ==> is_missing(
                    e,
                    before.take(k as int),
                    time,
                    withdrawn,
                )),
            decreases n - k,
        {
            assert(old_forks@[0] == before[k as int]);
            let mut fork: MonitorPerSession<'a> = old_forks.remove(0);
            assert(old_forks@ =~= before.skip(k + 1));
            let ghost so_far = self.forks@;
            // what we think was sent last; this should not change
            let current: Option<&'a BgpRibEntry> = if withdrawn {
                None
            } else {
                fork.bgp_process.rib_out
            };
            let sent: Option<&BgpRoute> = route_of(current);
            assert(optional_view(sent) == last_route(before[k as int], withdrawn));
            fork.apply_uncommitted_messages_before(time);
            let ghost mid = fork;
            let expected: Option<&'a BgpRibEntry> = fork.bgp_process.rib_out;
            match fork.process_outgoing_ok(sent) {
                Ok(new_forks) => {
                    let ghost new = new_forks@;
                    proof {
                        lemma_of_session(mid, optional_view(sent), new);
                    }
                    let extended: MonitoringResult = self.extend_forks(new_forks);
                    proof {
                        lemma_still_irredundant(so_far, new, self.forks@, router_id, neighbor);
                        lemma_settling(
                            before,
                            k as int,
                            mid,
                            so_far,
                            self.forks@,
                            new,
                            time,
                            withdrawn,
                        );
                    }
                    match extended {
                        Ok(_) => {
                            proof {
                                lemma_settle_in_turn(
                                    before,
                                    time,
                                    withdrawn,
                                    k as int,
                                    so_far,
                                    mid,
                                    new,
                                );
                            }
                        },
                        Err(e) => {
                            return Err(e);
                        },
                    }
                },
                Err(MonitoringError::UnexpectedEvent { router, session, event }) => {
                    let expected_event: BgpEvent = match expected {
                        Some(e) => BgpEvent::Update(e.route.clone()),
                        None => BgpEvent::Withdraw(SINGLE_PREFIX),
                    };
                    proof {
                        assert(is_overdue(before[k as int], mid, time, withdrawn));
                        lemma_overdue(before, k as int, mid, so_far, time, withdrawn);
                        lemma_no_explanation(mid, last_route(before[k as int], withdrawn));
                        lemma_settle_in_turn(
                            before,
                            time,
                            withdrawn,
                            k as int,
                            so_far,
                            mid,
                            seq![],
                        );
                        assert(before[k as int].router_id == router_id);
                    }
                    failure = Some(
                        MonitoringError::MissingOutgoingEvent {
                            router,
                            neighbor: session,
                            current_event: event,
                            expected_event,
                        },
                    );
                },
                Err(e) => {
                    failure = Some(e);
                },
            }
            k += 1;
        }
        if self.forks.len() == 0 {
            match failure {
                Some(e) => Err(e),
                None => Ok(()),
            }
        } else {
            Ok(())
        }
    }

    /// Check that the router has not sent anything that it had to replace by now, given that it has
    /// processed all messages that arrived by `time`. The forks that cannot be are dropped.
    ///
    /// If this fails then `forks` is left unusable, and the caller has to start afresh.
    pub fn assert_messages_processed_before(&mut self, time: Time) -> (r: MonitoringResult)
        requires
            old(self).ready(),
        ensures
            timeout_step(*old(self), *final(self), time, r),
    {
        let ghost first = *self;
        if !self.make_progress_on_withdraw && self.has_unprocessed_withdraw && time < INFINITY {
            self.make_progress_on_withdraw = true;
            self.has_unprocessed_withdraw = false;
            let result: MonitoringResult = self.process_outgoing_ok(None);
            self.make_progress_on_withdraw = false;
            self.has_unprocessed_withdraw = false;
            assert(processed(first.forks@, self.forks@, None, result));
            match result {
                Ok(_) => {},
                Err(e) => {
                    return Err(e);
                },
            }
        }
        let ghost second = *self;
        proof {
            assert(forall|route: Option<RouteView>| #[trigger]
                first.last_sent(route) ==> second.last_sent(route)) by {
                if first.has_unprocessed_withdraw && time < INFINITY {
                    reveal(explained_by);
                }
            }
            assert(first.tracks() ==> second.tracks());
            assert forall|counts: Counts, route: Option<RouteView>|
                #![trigger first.covers(counts), first.explains(counts, route)]
                first.tracks() && first.covers(counts) && first.last_sent(route) && first.explains(
                    counts,
                    route,
                ) implies second.covers(counts) && second.explains(counts, route) by {}
        }
        let r: MonitoringResult = self.settle(time);
        proof {
            lemma_settle_laws(second, *self, time, r);
        }
        match r {
            Ok(_) => {
                self.has_unprocessed_withdraw = false;
                Ok(())
            },
            Err(e) => {
                self.has_unprocessed_withdraw = false;
                Err(e)
            },
        }
    }

    /// Check that some fork is in a valid final state: the router has processed everything.
    pub fn final_check(&mut self) -> (r: MonitoringResult)
        requires
            old(self).ready(),
        ensures
            timeout_step(*old(self), *final(self), INFINITY, r),
    {
        self.assert_messages_processed_before(INFINITY)
    }
}

/// What holds of the forks after a timeout.
proof fn lemma_settle_laws<'a>(
    pre: ForkingMonitorPerSession<'a>,
    post: ForkingMonitorPerSession<'a>,
    time: Time,
    r: MonitoringResult,
)
    requires
        pre.ready(),
        post.base == pre.base,
        post.received == pre.received,
        settles(pre.forks@, post.forks@, time, pre.has_unprocessed_withdraw, r),
    ensures
        r is Ok ==> forall|route: Option<RouteView>| #[trigger]
            pre.last_sent(route) ==> post.emitting(route),
        pre.tracks() && (time == INFINITY || in_order(pre.received@)) ==> post.tracks(),
        forall|counts: Counts, route: Option<RouteView>|
            #![trigger pre.covers(counts), pre.explains(counts, route)]
            pre.tracks() && (time == INFINITY || in_order(pre.received@)) && pre.covers(counts)
                && caught_up(counts, pre.received@, time) && pre.last_sent(route) && pre.explains(
                counts,
                route,
            ) ==> no_accusation(r) && (r is Ok ==> post.covers(counts)),
{
    let before = pre.forks@;
    let withdrawn = pre.has_unprocessed_withdraw;
    if r is Ok {
        assert forall|route: Option<RouteView>| #[trigger] pre.last_sent(route) implies post.emitting(
            route,
        ) by {
            reveal(settled_by);
            reveal(settled_from);
            assert forall|j: int| 0 <= j < post.forks@.len() implies emits(
                (#[trigger] post.forks@[j]).out(),
                route,
            ) by {
                assert(settled_by(before, time, withdrawn, post.forks@[j]));
                let i = choose|i: int|
                    0 <= i < before.len() && settled_from(
                        #[trigger] before[i],
                        time,
                        withdrawn,
                        post.forks@[j],
                    );
                if !withdrawn {
                    assert(emits(before[i].out(), route));
                }
            }
        }
    }
    if pre.tracks() && (time == INFINITY || in_order(pre.received@)) {
        lemma_settled_tracks(before, post.forks@, time, withdrawn, pre.base@, pre.received@);
    }
    assert forall|counts: Counts, route: Option<RouteView>|
        #![trigger pre.covers(counts), pre.explains(counts, route)]
        pre.tracks() && (time == INFINITY || in_order(pre.received@)) && pre.covers(counts)
            && caught_up(counts, pre.received@, time) && pre.last_sent(route) && pre.explains(
            counts,
            route,
        ) implies no_accusation(r) && (r is Ok ==> post.covers(counts)) by {
        let i = choose|i: int|
            0 <= i < before.len() && behind(#[trigger] before[i], pre.received@, counts);
        assert(tracks(before[i], pre.base@, pre.received@));
        if !withdrawn {
            assert(emits(before[i].out(), route));
        }
        if r is Ok {
            let mid = choose|mid: MonitorPerSession<'a>|
                is_settled(before[i], mid, post.forks@, time, withdrawn);
            lemma_settled_covers(
                before[i],
                mid,
                post.forks@,
                time,
                withdrawn,
                pre.base@,
                pre.received@,
                counts,
                route,
            );
        } else if !no_accusation(r) {
            let mid = choose|mid: MonitorPerSession<'a>|
                is_overdue(before[i], mid, time, withdrawn);
            lemma_settled_covers(
                before[i],
                mid,
                post.forks@,
                time,
                withdrawn,
                pre.base@,
                pre.received@,
                counts,
                route,
            );
        }
    }
}

impl<'a> ForkingMonitorPerSession<'a> {
    /// Configure the monitor to explain outgoing withdraws right away (which is the default). If
    /// that is disabled, they are still taken into account at a timeout.
    ///
    /// If this fails then `forks` is left unusable, and the caller has to start afresh.
    pub fn enable_withdraws(&mut self, enable: bool) -> (r: MonitoringResult)
        requires
            old(self).ready(),
        ensures
            enable_step(*old(self), *final(self), enable, r),
    {
        if self.make_progress_on_withdraw == enable {
            return Ok(());
        }
        if enable {
            self.make_progress_on_withdraw = true;
            if self.has_unprocessed_withdraw {
                self.has_unprocessed_withdraw = false;
                let r: MonitoringResult = self.process_outgoing_ok(None);
                proof {
                    reveal(explained_by);
                }
                return r;
            }
        } else {
            self.make_progress_on_withdraw = false;
            self.has_unprocessed_withdraw = false;
        }
        Ok(())
    }

    /// Enable or disable the processing of withdraws, as the mode asks for with this many forks.
    ///
    /// If this fails then `forks` is left unusable, and the caller has to start afresh.
    pub fn update_enable_withdraws(&mut self, process_withdraws: ProcessWithdraws) -> (r:
        MonitoringResult)
        requires
            old(self).ready(),
        ensures
            switch_step(*old(self), *final(self), process_withdraws, r),
    {
        let num_forks: usize = self.forks.len();
        if self.make_progress_on_withdraw && process_withdraws.should_disable(num_forks) {
            self.enable_withdraws(false)
        } else if !self.make_progress_on_withdraw && process_withdraws.should_enable(num_forks) {
            self.enable_withdraws(true)
        } else {
            Ok(())
        }
    }

    /// Start afresh, from the state of a router that has processed all messages.
    pub fn recover(&mut self, router_id: RouterId, neighbor: RouterId, enable: bool)
        requires
            old(self).wf(),
        ensures
            recover_step(*old(self), *final(self), router_id, neighbor, enable),
    {
        let bgp_process: RibPerSession<'a> = self.recovery.copy();
        *self = ForkingMonitorPerSession::new(router_id, neighbor, bgp_process, enable);
    }
}

/// Whether withdraws are processed after the mode was looked at with this many forks.
pub open spec fn switched(progress: bool, mode: ProcessWithdraws, num_forks: nat) -> bool {
    match mode {
        ProcessWithdraws::Always => true,
        ProcessWithdraws::Never => false,
        ProcessWithdraws::Adaptive => if progress {
            num_forks <= DISABLE_WITHDRAW_PROCESSING_WHEN_MORE_FORKS_THAN
        } else {
            num_forks <= ENABLE_WITHDRAW_PROCESSING_WHEN_LESS_FORKS_THAN
        },
    }
}

// ---------------------------------------------------------------------------------------------
// The steps of a session
// ---------------------------------------------------------------------------------------------
/// What comes of an incoming message: every fork notes it.
pub open spec fn incoming_step<'a>(
    pre: ForkingMonitorPerSession<'a>,
    post: ForkingMonitorPerSession<'a>,
    from: RouterId,
    message: UncommittedMessagePerSession<'a>,
) -> bool {
    &&& post.wf()
    &&& pre.ready() ==> post.ready()
    &&& post.forks@.len() == pre.forks@.len()
    &&& forall|i: int|
        0 <= i < pre.forks@.len() ==> with_message(
            pre.forks@[i],
            #[trigger] post.forks@[i],
            from,
            message,
        )
    &&& post.make_progress_on_withdraw == pre.make_progress_on_withdraw
    &&& post.has_unprocessed_withdraw == pre.has_unprocessed_withdraw
    &&& post.base == pre.base
    &&& post.received@ == pre.received@.insert(
        from,
        pre.received@[from].push(message),
    )
    &&& post.recovery.table() == with_slot(
        pre.recovery.table(),
        from,
        slot_of(message),
    )
    &&& pre.tracks() ==> post.tracks()
    &&& forall|counts: Counts| #[trigger]
        pre.covers(counts) ==> post.covers(counts)
    &&& forall|route: Option<RouteView>| #[trigger]
        pre.emitting(route) ==> post.emitting(route)
}

/// What comes of an outgoing message.
pub open spec fn outgoing_step<'a>(
    pre: ForkingMonitorPerSession<'a>,
    post: ForkingMonitorPerSession<'a>,
    route: Option<RouteView>,
    r: MonitoringResult,
) -> bool {
    &&& post.wf()
    &&& post.make_progress_on_withdraw == pre.make_progress_on_withdraw
    &&& post.base == pre.base
    &&& post.received == pre.received
    &&& post.recovery == pre.recovery
    &&& r is Ok ==> post.ready() && post.forks@[0].router_id
        == pre.forks@[0].router_id && post.forks@[0].neighbor
        == pre.forks@[0].neighbor
    &&& pre.tracks() ==> post.tracks()
    // a withdraw is put off
    &&& !pre.make_progress_on_withdraw && route is None ==> r is Ok && post.forks
        == pre.forks && post.has_unprocessed_withdraw
    // any other message is explained, or not
    &&& pre.make_progress_on_withdraw || route is Some ==> {
        &&& !post.has_unprocessed_withdraw
        &&& processed(pre.forks@, post.forks@, route, r)
    }
    // a router that sends the route has an explanation
    &&& forall|counts: Counts| #[trigger]
        pre.covers(counts) && pre.tracks() && pre.explains(
            counts,
            route,
        ) ==> no_accusation(r) && (r is Ok ==> post.covers(counts))
    &&& r is Ok ==> post.last_sent(route)
}

/// What comes of a timeout, after which all messages that arrived by `time` are processed.
pub open spec fn timeout_step<'a>(
    pre: ForkingMonitorPerSession<'a>,
    post: ForkingMonitorPerSession<'a>,
    time: Time,
    r: MonitoringResult,
) -> bool {
    &&& post.wf()
    &&& post.make_progress_on_withdraw == pre.make_progress_on_withdraw
    &&& post.base == pre.base
    &&& post.received == pre.received
    &&& post.recovery == pre.recovery
    &&& r is Ok ==> post.ready() && post.forks@[0].router_id
        == pre.forks@[0].router_id && post.forks@[0].neighbor
        == pre.forks@[0].neighbor && !post.has_unprocessed_withdraw
    // a withdraw that was put off is explained first, unless the time is infinite
    &&& !(pre.has_unprocessed_withdraw && time < INFINITY) ==> settles(
        pre.forks@,
        post.forks@,
        time,
        pre.has_unprocessed_withdraw,
        r,
    )
    &&& pre.has_unprocessed_withdraw && time < INFINITY ==> exists|
        mid: Seq<MonitorPerSession<'a>>,
        r0: MonitoringResult,
    | #[trigger]
        processed(pre.forks@, mid, None, r0) && match r0 {
            Ok(_) => settles(mid, post.forks@, time, false, r),
            Err(_) => r == r0 && post.forks@ == mid,
        }
    &&& r is Ok ==> forall|route: Option<RouteView>| #[trigger]
        pre.last_sent(route) ==> post.emitting(route)
    &&& pre.tracks() && (time == INFINITY || in_order(pre.received@))
        ==> post.tracks()
    // a router that has processed these messages, and that still sends the last route, is
    // not accused
    &&& forall|counts: Counts, route: Option<RouteView>|
        #![trigger pre.covers(counts), pre.explains(counts, route)]
        pre.tracks() && (time == INFINITY || in_order(pre.received@))
            && pre.covers(counts) && caught_up(counts, pre.received@, time)
            && pre.last_sent(route) && pre.explains(counts, route)
            ==> no_accusation(r) && (r is Ok ==> post.covers(counts))
}

/// What comes of enabling or disabling the processing of withdraws.
pub open spec fn enable_step<'a>(
    pre: ForkingMonitorPerSession<'a>,
    post: ForkingMonitorPerSession<'a>,
    enable: bool,
    r: MonitoringResult,
) -> bool {
    &&& post.wf()
    &&& post.make_progress_on_withdraw == enable
    &&& post.base == pre.base
    &&& post.received == pre.received
    &&& post.recovery == pre.recovery
    &&& r is Ok ==> post.ready() && post.forks@[0].router_id
        == pre.forks@[0].router_id && post.forks@[0].neighbor
        == pre.forks@[0].neighbor
    &&& if enable && pre.has_unprocessed_withdraw {
        &&& !post.has_unprocessed_withdraw
        &&& processed(pre.forks@, post.forks@, None, r)
    } else {
        &&& r is Ok
        &&& post.forks == pre.forks
        &&& post.has_unprocessed_withdraw == pre.has_unprocessed_withdraw
    }
    &&& r is Ok ==> forall|route: Option<RouteView>| #[trigger]
        pre.last_sent(route) ==> post.last_sent(route)
    &&& pre.tracks() ==> post.tracks()
    &&& forall|counts: Counts, route: Option<RouteView>|
        #![trigger pre.covers(counts), pre.explains(counts, route)]
        pre.tracks() && pre.covers(counts) && pre.last_sent(route)
            && pre.explains(counts, route) ==> no_accusation(r) && (r is Ok
            ==> post.covers(counts))
}

/// What comes of looking at the mode.
pub open spec fn switch_step<'a>(
    pre: ForkingMonitorPerSession<'a>,
    post: ForkingMonitorPerSession<'a>,
    process_withdraws: ProcessWithdraws,
    r: MonitoringResult,
) -> bool {
    &&& post.wf()
    &&& post.base == pre.base
    &&& post.received == pre.received
    &&& post.recovery == pre.recovery
    &&& r is Ok ==> post.ready() && post.forks@[0].router_id
        == pre.forks@[0].router_id && post.forks@[0].neighbor
        == pre.forks@[0].neighbor
    &&& post.make_progress_on_withdraw == switched(
        pre.make_progress_on_withdraw,
        process_withdraws,
        pre.forks@.len(),
    )
    &&& if post.make_progress_on_withdraw && pre.has_unprocessed_withdraw {
        &&& !post.has_unprocessed_withdraw
        &&& processed(pre.forks@, post.forks@, None, r)
    } else {
        &&& r is Ok
        &&& post.forks == pre.forks
        &&& post.has_unprocessed_withdraw == pre.has_unprocessed_withdraw
    }
    &&& r is Ok ==> forall|route: Option<RouteView>| #[trigger]
        pre.last_sent(route) ==> post.last_sent(route)
    &&& pre.tracks() ==> post.tracks()
    &&& forall|counts: Counts, route: Option<RouteView>|
        #![trigger pre.covers(counts), pre.explains(counts, route)]
        pre.tracks() && pre.covers(counts) && pre.last_sent(route)
            && pre.explains(counts, route) ==> no_accusation(r) && (r is Ok
            ==> post.covers(counts))
}

/// What comes of starting afresh.
pub open spec fn recover_step<'a>(
    pre: ForkingMonitorPerSession<'a>,
    post: ForkingMonitorPerSession<'a>,
    router_id: RouterId,
    neighbor: RouterId,
    enable: bool,
) -> bool {
    &&& post.ready()
    &&& post.forks@.len() == 1
    &&& post.forks@[0].router_id == router_id
    &&& post.forks@[0].neighbor == neighbor
    &&& post.forks@[0].table() == everything(pre.base@, pre.received@)
    &&& post.forks@[0].commit_history@.len() == 0
    &&& post.base@ == everything(pre.base@, pre.received@)
    &&& post.recovery.table() == pre.recovery.table()
    &&& forall|n: RouterId| #[trigger]
        post.received@[n] == Seq::<UncommittedMessagePerSession>::empty()
    &&& post.make_progress_on_withdraw == enable
    &&& !post.has_unprocessed_withdraw
    &&& post.tracks()
    &&& post.covers(Map::new(|n: RouterId| true, |n: RouterId| 0nat))
    &&& in_order(post.received@)
}

} // verus!
