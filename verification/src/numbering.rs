//! The numbers of the messages that a monitor has seen.
use vstd::prelude::*;

use crate::bgp::{RouteView, RouterId, Time, INFINITY};
use crate::forking_monitor::{enable_step, explained_by, incoming_step, outgoing_step, processed};
use crate::forking_monitor::{recover_step, settled_by, settled_from, settles, switch_step};
use crate::forking_monitor::{last_route, timeout_step, with_message, ForkingMonitorPerSession};
use crate::forking_monitor::ProcessWithdraws;
use crate::monitoring::MonitoringResult;
use crate::session_monitor::{applied, applied_before, arrived_after, counts_of, emits};
use crate::session_monitor::{executes, lemma_plan_within, possible};
use crate::session_monitor::{successor, MonitorPerSession, UncommittedMessagePerSession};

verus! {

/// All numbers in a history are below a bound.
pub open spec fn history_below(history: Seq<Vec<usize>>, bound: nat) -> bool {
    forall|k: int, a: usize|
        0 <= k < history.len() && #[trigger] history[k]@.contains(a) ==> a < bound
}

/// All waiting and committed messages of a fork have numbers below a bound.
#[verifier::opaque]
pub open spec fn ids_below(f: MonitorPerSession, bound: nat) -> bool {
    &&& forall|n: RouterId, i: int|
        0 <= i < f.pending()[n].len() ==> (#[trigger] f.pending()[n][i]).id < bound
    &&& history_below(f.commit_history@, bound)
}

/// All messages of all forks have numbers below a bound.
pub open spec fn all_below(forks: Seq<MonitorPerSession>, bound: nat) -> bool {
    forall|i: int| 0 <= i < forks.len() ==> ids_below(#[trigger] forks[i], bound)
}

proof fn lemma_applied_below<'a>(
    pre: MonitorPerSession<'a>,
    post: MonitorPerSession<'a>,
    p: Map<RouterId, usize>,
    route: Option<RouteView>,
    bound: nat,
)
    requires
        ids_below(pre, bound),
        possible(pre.table(), pre.pending(), route, p),
        applied(pre, post, p),
    ensures
        ids_below(post, bound),
{
    reveal(ids_below);
    reveal(applied);
    lemma_plan_within(pre.table(), pre.pending(), route, p);
    assert forall|n: RouterId, i: int| 0 <= i < post.pending()[n].len() implies (
    #[trigger] post.pending()[n][i]).id < bound by {
        let c = counts_of(p)[n] as int;
        assert(post.pending()[n] == pre.pending()[n].skip(c));
        assert(p.contains_key(n) ==> p[n] < pre.pending()[n].len());
        assert(post.pending()[n][i] == pre.pending()[n][i + c]);
    }
    let h = post.commit_history@;
    assert forall|k: int, a: usize| 0 <= k < h.len() && #[trigger] h[k]@.contains(a) implies a
        < bound by {
        if k < h.len() - 1 {
            assert(h.drop_last()[k] == h[k]);
            assert(pre.commit_history@[k]@ == h[k]@);
            assert(pre.commit_history@[k]@.contains(a));
        } else {
            assert(h.last()@.to_set().contains(a));
            assert(executes(pre.pending(), p, a));
            let (n, i) = choose|n: RouterId, i: int| #[trigger]
                p.contains_key(n) && 0 <= i <= p[n] && (#[trigger] pre.pending()[n][i]).id == a;
            assert(pre.pending()[n][i].id < bound);
        }
    }
}

proof fn lemma_successor_below<'a>(
    pre: MonitorPerSession<'a>,
    post: MonitorPerSession<'a>,
    route: Option<RouteView>,
    bound: nat,
)
    requires
        ids_below(pre, bound),
        successor(pre, route, post),
    ensures
        ids_below(post, bound),
{
    if !emits(pre.out(), route) {
        let p = choose|p: Map<RouterId, usize>| #[trigger]
            possible(pre.table(), pre.pending(), route, p) && applied(pre, post, p);
        lemma_applied_below(pre, post, p, route, bound);
    }
}

/// What comes of an outgoing message has no new numbers.
pub proof fn lemma_processed_below<'a>(
    before: Seq<MonitorPerSession<'a>>,
    after: Seq<MonitorPerSession<'a>>,
    route: Option<RouteView>,
    r: MonitoringResult,
    bound: nat,
)
    requires
        all_below(before, bound),
        processed(before, after, route, r),
    ensures
        all_below(after, bound),
{
    assert forall|j: int| 0 <= j < after.len() implies ids_below(#[trigger] after[j], bound) by {
        reveal(explained_by);
        assert(explained_by(before, route, after[j]));
        let i = choose|i: int|
            0 <= i < before.len() && successor(#[trigger] before[i], route, after[j]);
        lemma_successor_below(before[i], after[j], route, bound);
    }
}

/// What comes of a timeout has no new numbers.
pub proof fn lemma_settles_below<'a>(
    before: Seq<MonitorPerSession<'a>>,
    after: Seq<MonitorPerSession<'a>>,
    time: Time,
    withdrawn: bool,
    r: MonitoringResult,
    bound: nat,
)
    requires
        all_below(before, bound),
        settles(before, after, time, withdrawn, r),
    ensures
        all_below(after, bound),
{
    assert forall|j: int| 0 <= j < after.len() implies ids_below(#[trigger] after[j], bound) by {
        reveal(settled_by);
        reveal(settled_from);
        assert(settled_by(before, time, withdrawn, after[j]));
        let i = choose|i: int|
            0 <= i < before.len() && settled_from(#[trigger] before[i], time, withdrawn, after[j]);
        let route = last_route(before[i], withdrawn);
        let mid = choose|mid: MonitorPerSession<'a>| #[trigger]
            applied_before(before[i], mid, time) && mid.wf() && successor(mid, route, after[j]);
        assert(ids_below(mid, bound)) by {
            reveal(ids_below);
            assert forall|n: RouterId, k: int| 0 <= k < mid.pending()[n].len() implies (
            #[trigger] mid.pending()[n][k]).id < bound by {
                let q = before[i].pending()[n];
                assert(mid.pending()[n] == q.filter(arrived_after(time)));
                q.lemma_filter_contains_rev(arrived_after(time), mid.pending()[n][k]);
                let l = choose|l: int| 0 <= l < q.len() && q[l] == mid.pending()[n][k];
                assert(before[i].pending()[n][l].id < bound);
            }
        }
        lemma_successor_below(mid, after[j], route, bound);
    }
}

/// A timeout brings no new numbers.
pub proof fn lemma_timeout_below<'a>(
    pre: ForkingMonitorPerSession<'a>,
    post: ForkingMonitorPerSession<'a>,
    time: Time,
    r: MonitoringResult,
    bound: nat,
)
    requires
        all_below(pre.forks@, bound),
        timeout_step(pre, post, time, r),
    ensures
        all_below(post.forks@, bound),
{
    if pre.has_unprocessed_withdraw && time < INFINITY {
        let (mid, r0) = choose|mid: Seq<MonitorPerSession<'a>>, r0: MonitoringResult| #[trigger]
            processed(pre.forks@, mid, None, r0) && match r0 {
                Ok(_) => settles(mid, post.forks@, time, false, r),
                Err(_) => r == r0 && post.forks@ == mid,
            };
        lemma_processed_below(pre.forks@, mid, None, r0, bound);
        if r0 is Ok {
            lemma_settles_below(mid, post.forks@, time, false, r, bound);
        }
    } else {
        lemma_settles_below(
            pre.forks@,
            post.forks@,
            time,
            pre.has_unprocessed_withdraw,
            r,
            bound,
        );
    }
}

/// An outgoing message brings no new numbers.
pub proof fn lemma_outgoing_below<'a>(
    pre: ForkingMonitorPerSession<'a>,
    post: ForkingMonitorPerSession<'a>,
    route: Option<RouteView>,
    r: MonitoringResult,
    bound: nat,
)
    requires
        all_below(pre.forks@, bound),
        outgoing_step(pre, post, route, r),
    ensures
        all_below(post.forks@, bound),
{
    if pre.make_progress_on_withdraw || route is Some {
        lemma_processed_below(pre.forks@, post.forks@, route, r, bound);
    }
}

/// Looking at the mode brings no new numbers.
pub proof fn lemma_switch_below<'a>(
    pre: ForkingMonitorPerSession<'a>,
    post: ForkingMonitorPerSession<'a>,
    mode: ProcessWithdraws,
    r: MonitoringResult,
    bound: nat,
)
    requires
        all_below(pre.forks@, bound),
        switch_step(pre, post, mode, r),
    ensures
        all_below(post.forks@, bound),
{
    if post.make_progress_on_withdraw && pre.has_unprocessed_withdraw {
        lemma_processed_below(pre.forks@, post.forks@, None, r, bound);
    }
}

/// Enabling or disabling the processing of withdraws brings no new numbers.
pub proof fn lemma_enable_below<'a>(
    pre: ForkingMonitorPerSession<'a>,
    post: ForkingMonitorPerSession<'a>,
    enable: bool,
    r: MonitoringResult,
    bound: nat,
)
    requires
        all_below(pre.forks@, bound),
        enable_step(pre, post, enable, r),
    ensures
        all_below(post.forks@, bound),
{
    if enable && pre.has_unprocessed_withdraw {
        lemma_processed_below(pre.forks@, post.forks@, None, r, bound);
    }
}

/// An incoming message has the next number.
pub proof fn lemma_incoming_below<'a>(
    pre: ForkingMonitorPerSession<'a>,
    post: ForkingMonitorPerSession<'a>,
    from: RouterId,
    message: UncommittedMessagePerSession<'a>,
    bound: nat,
)
    requires
        all_below(pre.forks@, bound),
        incoming_step(pre, post, from, message),
        message.id <= bound,
    ensures
        all_below(post.forks@, bound + 1),
{
    assert forall|i: int| 0 <= i < post.forks@.len() implies ids_below(
        #[trigger] post.forks@[i],
        bound + 1,
    ) by {
        let (a, b) = (pre.forks@[i], post.forks@[i]);
        assert(with_message(a, b, from, message));
        assert(ids_below(a, bound));
        reveal(ids_below);
        assert forall|n: RouterId, k: int| 0 <= k < b.pending()[n].len() implies (
        #[trigger] b.pending()[n][k]).id < bound + 1 by {
            if n != from || k < a.pending()[n].len() {
                assert(b.pending()[n][k] == a.pending()[n][k]);
            }
        }
        assert forall|k: int, c: usize|
            0 <= k < b.commit_history@.len() && #[trigger] b.commit_history@[k]@.contains(
                c,
            ) implies c < bound + 1 by {
            assert(a.commit_history@[k]@.contains(c));
        }
    }
}

/// A session that starts afresh has no numbers.
pub proof fn lemma_recover_below<'a>(
    pre: ForkingMonitorPerSession<'a>,
    post: ForkingMonitorPerSession<'a>,
    router_id: RouterId,
    neighbor: RouterId,
    enable: bool,
    bound: nat,
)
    requires
        recover_step(pre, post, router_id, neighbor, enable),
    ensures
        all_below(post.forks@, bound),
{
    lemma_fresh_below(post, bound);
}

/// A session with a single fork and no message has no numbers.
pub proof fn lemma_fresh_below(s: ForkingMonitorPerSession, bound: nat)
    requires
        s.forks@.len() == 1,
        s.forks@[0].commit_history@.len() == 0,
        s.tracks(),
        forall|n: RouterId| #[trigger]
            s.received@[n] == Seq::<UncommittedMessagePerSession>::empty(),
    ensures
        all_below(s.forks@, bound),
{
    let f = s.forks@[0];
    assert(ids_below(f, bound)) by {
        reveal(ids_below);
        reveal(crate::forking_monitor::tracks);
        assert(crate::forking_monitor::tracks(f, s.base@, s.received@));
        assert forall|n: RouterId, i: int| 0 <= i < f.pending()[n].len() implies (
        #[trigger] f.pending()[n][i]).id < bound by {
            assert(s.received@[n] == Seq::<UncommittedMessagePerSession>::empty());
            assert(f.pending()[n].len() <= s.received@[n].len());
        }
    }
}

} // verus!
