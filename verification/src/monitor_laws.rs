//! What holds of the monitors as a whole.
use vstd::prelude::*;

use crate::arena::MonitorArena;
use crate::bgp::{better, BgpEvent, BgpRibEntry, RouteView, RouterId, Time, INFINITY};
use crate::forking_monitor::{everything, explained_by, last_route, processed, recover_step};
use crate::forking_monitor::{irredundant, is_overdue, overdue, settled_by, settled_from};
use crate::forking_monitor::{timeout_step, tracks, within};
use crate::forking_monitor::{enables, ForkingMonitorPerSession, ProcessWithdraws};
use crate::forking_monitor::{kept, outgoing_step, settles, subsumed_in, switch_step, switched, with_message};
use crate::import::{ImportedRoute, Message, Router};
use crate::monitoring::{MonitoringError, MonitoringResult};
use crate::reordering_monitoring::{final_step, final_steps, outcome, ReorderingMonitor};
use crate::reordering_monitoring::{answer_step, forgotten, fork_forgotten, fresh_session, then_switch};
use crate::reordering_monitoring::{initial_slot, is_monitor_of, is_route_of, message_step, observed};
use crate::session_monitor::{advanced, applied, applied_before, arrived_after, arrived_by};
use crate::session_monitor::{counts_of, decided, nothing_due, subsumption};
use crate::session_monitor::{can_emit, deref_entry, emits, lookup, possible, slot_after, successor};
use crate::session_monitor::{contained, event_of, exports, first_lowering, first_withdraw, lowers};
use crate::session_monitor::{executed_ids, executes, slot_by, slot_of, winner, with_slot};
use crate::session_monitor::{Counts, MonitorPerSession, Pending, Table, UncommittedMessagePerSession};

verus! {

/// Every fork is a state that the router can be in: it has processed the first so many messages of
/// every neighbor, in the order of arrival, and its RIB is what the decision process makes of that.
pub proof fn law_fork_is_a_state<'a>(
    s: ForkingMonitorPerSession<'a>,
    i: int,
) -> (counts: Counts)
    requires
        s.ready(),
        s.tracks(),
        0 <= i < s.forks@.len(),
    ensures
        within(counts, s.received@),
        s.forks@[i].table() == advanced(s.base@, s.received@, counts),
        decided(
            advanced(s.base@, s.received@, counts),
            deref_entry(s.forks@[i].bgp_process.rib),
            s.forks@[i].out(),
        ),
{
    let f = s.forks@[i];
    let counts: Counts = Map::new(
        |n: RouterId| true,
        |n: RouterId| (s.received@[n].len() - f.pending()[n].len()) as nat,
    );
    assert(tracks(f, s.base@, s.received@));
    reveal(tracks);
    let t = advanced(s.base@, s.received@, counts);
    assert forall|n: RouterId| #[trigger] counts[n] <= s.received@[n].len() && lookup(f.table(), n)
        == slot_after(s.base@, s.received@, n, counts[n]) by {
        assert(f.pending()[n].len() <= s.received@[n].len());
    }
    assert(f.table() =~= t) by {
        assert forall|n: RouterId| f.table().contains_key(n) == #[trigger] t.contains_key(n) && (
        t.contains_key(n) ==> f.table()[n] == t[n]) by {
            assert(lookup(f.table(), n) == slot_after(s.base@, s.received@, n, counts[n]));
        }
    }
    counts
}

/// An outgoing message is unexpected if and only if no fork can explain it.
pub proof fn law_unexpected_iff_unexplained<'a>(
    before: Seq<MonitorPerSession<'a>>,
    after: Seq<MonitorPerSession<'a>>,
    route: Option<RouteView>,
    r: MonitoringResult,
)
    requires
        before.len() > 0,
        processed(before, after, route, r),
        !(r matches Err(MonitoringError::Killed { .. })),
    ensures
        r is Ok <==> exists|i: int| 0 <= i < before.len() && can_emit(#[trigger] before[i], route),
        r is Ok <==> after.len() > 0,
{
    if r is Ok {
        reveal(explained_by);
        assert(explained_by(before, route, after[0]));
        let i = choose|i: int|
            0 <= i < before.len() && successor(#[trigger] before[i], route, after[0]);
        assert(can_emit(before[i], route));
    }
}

/// After the final check no session has waiting messages. A session that failed has a single fork
/// again, which is the router that has processed everything.
pub proof fn law_final_check_leaves_nothing_waiting<'a>(
    pre: ForkingMonitorPerSession<'a>,
    post: ForkingMonitorPerSession<'a>,
    mode: ProcessWithdraws,
    router_id: RouterId,
    neighbor: RouterId,
    r: MonitoringResult,
)
    requires
        final_step(pre, post, mode, router_id, neighbor, r),
    ensures
        forall|i: int, n: RouterId|
            0 <= i < post.forks@.len() ==> (#[trigger] post.forks@[i].pending()[n]).len() == 0,
        post.forks@.len() > 0,
        r is Err ==> post.forks@.len() == 1 && post.forks@[0].table() == everything(
            pre.base@,
            pre.received@,
        ),
{
    let mid = choose|mid: ForkingMonitorPerSession<'a>| #[trigger]
        timeout_step(pre, mid, INFINITY, r) && match r {
            Ok(_) => post == mid,
            Err(_) => recover_step(mid, post, router_id, neighbor, enables(mode, 1)),
        };
    assert forall|i: int, n: RouterId| 0 <= i < post.forks@.len() implies (
    #[trigger] post.forks@[i].pending()[n]).len() == 0 by {
        let f = post.forks@[i];
        if r is Err {
            reveal(tracks);
            assert(tracks(f, post.base@, post.received@));
            assert(f.pending()[n].len() <= post.received@[n].len());
            assert(post.received@[n].len() == 0);
        } else {
            let before = pre.forks@;
            let withdrawn = pre.has_unprocessed_withdraw;
            reveal(settled_by);
            reveal(settled_from);
            assert(settled_by(before, INFINITY, withdrawn, f));
            let k = choose|k: int|
                0 <= k < before.len() && settled_from(#[trigger] before[k], INFINITY, withdrawn, f);
            let route = last_route(before[k], withdrawn);
            let m = choose|m: MonitorPerSession<'a>| #[trigger]
                applied_before(before[k], m, INFINITY) && m.wf() && successor(m, route, f);
            assert(m.pending()[n].len() == 0) by {
                let q = before[k].pending()[n];
                assert(m.pending()[n] == q.filter(arrived_after(INFINITY)));
                if q.filter(arrived_after(INFINITY)).len() > 0 {
                    q.lemma_filter_pred(arrived_after(INFINITY), 0);
                }
            }
            if !emits(m.out(), route) {
                let p = choose|p: Map<RouterId, usize>| #[trigger]
                    possible(m.table(), m.pending(), route, p) && applied(m, f, p);
                reveal(applied);
                crate::session_monitor::lemma_plan_within(m.table(), m.pending(), route, p);
                assert(f.pending()[n] == m.pending()[n].skip(counts_of(p)[n] as int));
                assert(p.contains_key(n) ==> p[n] < m.pending()[n].len());
            }
        }
    }
}

/// A session without waiting messages, and without a withdraw that was put off, passes the final check.
proof fn lemma_nothing_waiting_passes<'a>(
    pre: ForkingMonitorPerSession<'a>,
    mid: ForkingMonitorPerSession<'a>,
    r: MonitoringResult,
)
    requires
        pre.forks@.len() > 0,
        forall|i: int, n: RouterId|
            0 <= i < pre.forks@.len() ==> (#[trigger] pre.forks@[i].pending()[n]).len() == 0,
        !pre.has_unprocessed_withdraw,
        timeout_step(pre, mid, INFINITY, r),
    ensures
        r is Ok,
{
    let (before, after) = (pre.forks@, mid.forks@);
    assert forall|i: int, m: MonitorPerSession<'a>|
        0 <= i < before.len() && #[trigger] applied_before(before[i], m, INFINITY) implies emits(
        m.out(),
        last_route(before[i], false),
    ) && forall|n: RouterId| (#[trigger] m.pending()[n]).len() == 0 by {
        assert forall|n: RouterId| (#[trigger] before[i].pending()[n]).filter(
            arrived_by(INFINITY),
        ).len() == 0 && before[i].pending()[n].filter(arrived_after(INFINITY)).len() == 0 by {
            reveal(Seq::filter);
        }
        assert(nothing_due(before[i].pending(), INFINITY));
        assert forall|n: RouterId| (#[trigger] m.pending()[n]).len() == 0 by {
            assert(m.pending()[n] == before[i].pending()[n].filter(arrived_after(INFINITY)));
        }
    }
    if r is Err && r->Err_0 is Killed {
        assert forall|j: int, n: RouterId| 0 <= j < after.len() implies (
        #[trigger] after[j].pending()[n]).len() == 0 by {
            reveal(settled_by);
            reveal(settled_from);
            assert(settled_by(before, INFINITY, false, after[j]));
            let k = choose|k: int|
                0 <= k < before.len() && settled_from(
                    #[trigger] before[k],
                    INFINITY,
                    false,
                    after[j],
                );
            let m = choose|m: MonitorPerSession<'a>| #[trigger]
                applied_before(before[k], m, INFINITY) && m.wf() && successor(
                    m,
                    last_route(before[k], false),
                    after[j],
                );
            assert(after[j] == m);
        }
        reveal(irredundant);
        assert(subsumption(after[0], after[1])) by {
            reveal(subsumption);
        }
    } else if r is Err {
        assert(overdue(before[0], INFINITY, false));
        let m = choose|m: MonitorPerSession<'a>|
            is_overdue(before[0], m, INFINITY, false);
        assert(applied_before(before[0], m, INFINITY));
    }
}

/// If the final check is done twice, with nothing in between, then the second is fine, whatever came of
/// the first.
pub proof fn law_second_final_check_is_fine<'a>(
    first: ReorderingMonitor<'a>,
    second: ReorderingMonitor<'a>,
    third: ReorderingMonitor<'a>,
    results: Map<RouterId, MonitoringResult>,
    again: Map<RouterId, MonitoringResult>,
    r: MonitoringResult,
)
    requires
        first.wf(),
        second.same_setup(&first),
        final_steps(first, second, results),
        final_steps(second, third, again),
        outcome(again, r),
    ensures
        r is Ok,
{
    assert forall|n: RouterId| #[trigger] again.contains_key(n) implies again[n] is Ok by {
        assert(second.per_session@.contains_key(n));
        assert(first.per_session@.contains_key(n));
        let (pre, post) = (first.per_session@[n], second.per_session@[n]);
        let (mode, id) = (first.process_withdraws, first.router_id);
        law_final_check_leaves_nothing_waiting(pre, post, mode, id, n, results[n]);
        let mid = choose|mid: ForkingMonitorPerSession<'a>| #[trigger]
            timeout_step(pre, mid, INFINITY, results[n]) && match results[n] {
                Ok(_) => post == mid,
                Err(_) => recover_step(mid, post, id, n, enables(mode, 1)),
            };
        assert(!post.has_unprocessed_withdraw);
        let (last, end) = (again[n], third.per_session@[n]);
        let mid2 = choose|mid: ForkingMonitorPerSession<'a>| #[trigger]
            timeout_step(post, mid, INFINITY, last) && match last {
                Ok(_) => end == mid,
                Err(_) => recover_step(
                    mid,
                    end,
                    second.router_id,
                    n,
                    enables(second.process_withdraws, 1),
                ),
            };
        lemma_nothing_waiting_passes(post, mid2, last);
    }
}

// ---------------------------------------------------------------------------------------------
// Tables and what they lead to
// ---------------------------------------------------------------------------------------------
/// A message that brings an entry puts it into the table, together with what goes out for it, in the place
/// of what was there for its sender. One that brings none takes the entry of its sender away. The entries of
/// others stay.
pub proof fn law_messages_change_the_table(
    table: Table,
    m: UncommittedMessagePerSession,
    n: RouterId,
    k: RouterId,
)
    ensures
        ({
            let after = with_slot(table, n, slot_of(m));
            &&& m.rib_entry is None ==> !after.contains_key(n)
            &&& m.rib_entry matches Some(e) ==> after.contains_key(n) && after[n].entry == *e
            &&& m.rib_entry is Some && m.outgoing_route is None ==> after[n].out is None
            &&& m.rib_entry is Some && m.outgoing_route is Some ==> after[n].out == Some(
                *m.outgoing_route->0,
            )
            &&& k != n ==> (after.contains_key(k) <==> table.contains_key(k))
            &&& k != n && table.contains_key(k) ==> after[k] == table[k]
        }),
{
}

/// Of the messages of a neighbor that a router has processed only the last one matters, and if there is
/// none then the table holds what it held.
pub proof fn law_last_processed_message_counts(
    table: Table,
    pending: Pending,
    counts: Counts,
    n: RouterId,
)
    ensures
        ({
            let after = advanced(table, pending, counts);
            &&& counts[n] == 0 ==> (after.contains_key(n) <==> table.contains_key(n))
            &&& counts[n] == 0 && table.contains_key(n) ==> after[n] == table[n]
            &&& counts[n] > 0 ==> (after.contains_key(n) <==> pending[n][counts[n] - 1].rib_entry
                is Some)
            &&& counts[n] > 0 && after.contains_key(n) ==> after[n].entry
                == *pending[n][counts[n] - 1].rib_entry->0
            &&& counts[n] > 0 && after.contains_key(n) ==> (after[n].out is Some
                <==> pending[n][counts[n] - 1].outgoing_route is Some)
        }),
{
}

/// At most one entry is preferred to all others. An entry that is alone is preferred, and one that
/// another one is preferred to is not.
pub proof fn law_one_preferred_entry(table: Table, n: RouterId, m: RouterId)
    ensures
        winner(table, n) && winner(table, m) ==> n == m,
        winner(table, n) ==> table.contains_key(n),
        table.contains_key(n) && (forall|k: RouterId| #[trigger] table.contains_key(k) ==> k == n)
            ==> winner(table, n),
        n != m && table.contains_key(n) && table.contains_key(m) && better(
            table[m].entry,
            table[n].entry,
        ) ==> !winner(table, n),
{
    if table.contains_key(n) && table.contains_key(m) {
        crate::bgp::law_decision_process(table[n].entry, table[m].entry);
        crate::bgp::law_decision_process(table[m].entry, table[n].entry);
    }
}

/// A router without any entry sends a withdraw and nothing else. One with a preferred entry sends what goes
/// out for that: nothing if nothing goes out, and otherwise the same announcement.
pub proof fn law_what_a_router_sends(table: Table, n: RouterId, route: Option<RouteView>)
    ensures
        (forall|k: RouterId| !table.contains_key(k)) ==> (exports(table, route) <==> route is None),
        winner(table, n) && table[n].out is None ==> (exports(table, route) <==> route is None),
        winner(table, n) && table[n].out is Some ==> (exports(table, route) <==> route is Some
            && crate::bgp::same_route(table[n].out->0.route@, route->0)),
{
    if winner(table, n) {
        assert forall|m: RouterId| #[trigger] winner(table, m) implies m == n by {
            law_one_preferred_entry(table, n, m);
        }
        assert(table.contains_key(n));
    }
}

/// A plan counts messages from the first one up to the one that it names. What it does not name stays.
pub proof fn law_plans_count_from_the_first_message(p: Map<RouterId, usize>, n: RouterId, q: Map<RouterId, usize>)
    ensures
        p.contains_key(n) ==> counts_of(p)[n] == p[n] + 1,
        !p.contains_key(n) ==> counts_of(p)[n] == 0,
        contained(p, p),
        contained(p, q) && p.contains_key(n) ==> q.contains_key(n) && p[n] <= q[n],
{
    if contained(p, q) {
        assert(counts_of(p)[n] <= counts_of(q)[n]);
    }
}

/// After a plan, as many messages of a neighbor wait less as the plan takes, and the others are the last
/// ones.
pub proof fn law_plans_take_the_first_messages<'a>(
    pre: MonitorPerSession<'a>,
    post: MonitorPerSession<'a>,
    p: Map<RouterId, usize>,
    n: RouterId,
)
    requires
        applied(pre, post, p),
        p.contains_key(n) ==> p[n] < pre.pending()[n].len(),
    ensures
        p.contains_key(n) ==> post.pending()[n].len() == pre.pending()[n].len() - p[n] - 1,
        !p.contains_key(n) ==> post.pending()[n] == pre.pending()[n],
        post.pending()[n].len() > 0 ==> post.pending()[n].last() == pre.pending()[n].last(),
        post.commit_history@.len() == pre.commit_history@.len() + 1,
        post.router_id == pre.router_id,
        post.neighbor == pre.neighbor,
{
    reveal(applied);
    assert(post.pending()[n] == pre.pending()[n].skip(counts_of(p)[n] as int));
    if !p.contains_key(n) {
        assert(pre.pending()[n].skip(0) =~= pre.pending()[n]);
    }
}

/// The first message that gets its sender out of the way is the only one of its kind: all before it bring
/// an entry that is not worse than the target. It brings none, or one that the target is preferred to.
pub proof fn law_first_message_that_lowers(
    q: Seq<UncommittedMessagePerSession>,
    target: BgpRibEntry,
    i: int,
    j: int,
)
    requires
        first_lowering(q, target, i),
    ensures
        0 <= i < q.len(),
        q[i].rib_entry matches Some(e) ==> better(target, *e),
        0 <= j < i ==> (q[j].rib_entry matches Some(e) && !better(target, *e)),
        first_lowering(q, target, j) ==> i == j,
{
    if 0 <= j < i {
        assert(!lowers(q[j], target));
    }
    if first_lowering(q, target, j) && i < j {
        assert(!lowers(q[i], target));
    }
}

/// The first message that takes a route away brings no entry, and all before it bring one.
pub proof fn law_first_message_that_withdraws(q: Seq<UncommittedMessagePerSession>, i: int, j: int)
    requires
        first_withdraw(q, i),
    ensures
        0 <= i < q.len(),
        q[i].rib_entry is None,
        0 <= j < i ==> q[j].rib_entry is Some,
        first_withdraw(q, j) ==> i == j,
{
    if 0 <= j < i {
        assert(slot_of(q[j]) is Some);
    }
    if first_withdraw(q, j) && i < j {
        assert(slot_of(q[i]) is Some);
    }
}

/// The message that an error speaks of announces the route, or withdraws it if there is none.
pub proof fn law_messages_of_routes(route: Option<RouteView>)
    ensures
        event_of(route).route() == route,
        route is None <==> event_of(route) is Withdraw,
        route matches Some(r) ==> event_of(route).prefix() == r.prefix,
{
}

/// After a deadline, the messages that arrived by then do not wait any more, and all others still do.
pub proof fn law_due_messages_are_processed<'a>(
    pre: MonitorPerSession<'a>,
    post: MonitorPerSession<'a>,
    time: Time,
    n: RouterId,
    m: UncommittedMessagePerSession<'a>,
)
    requires
        applied_before(pre, post, time),
    ensures
        post.pending()[n].contains(m) <==> pre.pending()[n].contains(m) && m.time > time,
        (forall|i: int| 0 <= i < pre.pending()[n].len() ==> (#[trigger] pre.pending()[n][i]).time > time)
            ==> lookup(post.table(), n) == lookup(pre.table(), n),
{
    broadcast use vstd::seq_lib::group_filter_ensures;

    let q = pre.pending()[n];
    let test = arrived_after(time);
    assert(post.pending()[n] == q.filter(test));
    if q.contains(m) && m.time > time {
        assert(test(m));
        q.lemma_filter_contains(test, q.index_of(m));
    }
    if q.filter(test).contains(m) {
        q.lemma_filter_pred(test, q.filter(test).index_of(m));
        q.lemma_filter_contains_rev(test, m);
    }
    if forall|i: int| 0 <= i < q.len() ==> (#[trigger] q[i]).time > time {
        let due = q.filter(arrived_by(time));
        assert(due.len() == 0) by {
            if due.len() > 0 {
                q.lemma_filter_pred(arrived_by(time), 0);
                assert(due.contains(due[0]));
                q.lemma_filter_contains_rev(arrived_by(time), due[0]);
            }
        }
        assert(lookup(post.table(), n) == slot_by(pre.table(), n, q, time));
    }
}

/// A fork subsumes itself. A fork that has fewer waiting messages of some neighbor than another one does
/// not subsume that, and one that has no fewer of any neighbor does.
pub proof fn law_subsuming_forks(a: MonitorPerSession, b: MonitorPerSession, c: MonitorPerSession, n: RouterId)
    ensures
        subsumption(a, a),
        subsumption(a, b) && subsumption(b, c) ==> subsumption(a, c),
        a.pending()[n].len() < b.pending()[n].len() ==> !subsumption(a, b),
        (forall|m: RouterId| a.pending()[m].len() >= (#[trigger] b.pending()[m]).len()) ==> subsumption(
            a,
            b,
        ),
{
    reveal(subsumption);
    if subsumption(a, b) && subsumption(b, c) {
        assert forall|m: RouterId| (#[trigger] c.pending()[m]).len() <= a.pending()[m].len() by {
            assert(b.pending()[m].len() <= a.pending()[m].len());
        }
    }
}

// ---------------------------------------------------------------------------------------------
// Forks
// ---------------------------------------------------------------------------------------------
/// The mode with few forks: withdraws are no longer processed with more than 128 forks, and again with at
/// most 8. In between it stays as it is. The other modes do not depend on the forks.
pub proof fn law_processing_of_withdraws(progress: bool, num_forks: nat, n: usize)
    ensures
        switched(progress, ProcessWithdraws::Always, num_forks),
        !switched(progress, ProcessWithdraws::Never, num_forks),
        num_forks <= 8 ==> switched(progress, ProcessWithdraws::Adaptive, num_forks),
        8 < num_forks <= 128 ==> switched(progress, ProcessWithdraws::Adaptive, num_forks) == progress,
        num_forks > 128 ==> !switched(progress, ProcessWithdraws::Adaptive, num_forks),
        enables(ProcessWithdraws::Always, n) && !enables(ProcessWithdraws::Never, n),
        enables(ProcessWithdraws::Adaptive, n) <==> n <= 8,
{
}

/// Forks that are there stay, in their places. A new fork is kept, or one that is kept subsumes it. Nothing
/// else is added.
pub proof fn law_forks_are_kept_or_subsumed<'a>(
    forks: Seq<MonitorPerSession<'a>>,
    new: Seq<MonitorPerSession<'a>>,
    i: int,
)
    ensures
        forks.len() <= kept(forks, new).len() <= forks.len() + new.len(),
        kept(forks, new).take(forks.len() as int) == forks,
        0 <= i < new.len() ==> exists|j: int|
            0 <= j < kept(forks, new).len() && subsumption(
                #[trigger] kept(forks, new)[j],
                new[i],
            ),
        forall|j: int|
            forks.len() <= j < kept(forks, new).len() ==> new.contains(
                #[trigger] kept(forks, new)[j],
            ),
    decreases new.len(),
{
    let all = kept(forks, new);
    if new.len() == 0 {
        assert(all.take(forks.len() as int) =~= forks);
    } else {
        let init = new.drop_last();
        let some = kept(forks, init);
        law_forks_are_kept_or_subsumed(forks, init, i);
        assert(all.take(forks.len() as int) =~= forks);
        assert forall|j: int| 0 <= j < some.len() implies all[j] == #[trigger] some[j] by {}
        if 0 <= i < init.len() {
            let j = choose|j: int| 0 <= j < some.len() && subsumption(#[trigger] some[j], init[i]);
            assert(subsumption(all[j], new[i]));
        } else if i == init.len() {
            if subsumed_in(some, new.last()) {
                reveal(subsumed_in);
                let j = choose|j: int|
                    0 <= j < some.len() && subsumption(#[trigger] some[j], new.last());
                assert(subsumption(all[j], new[i]));
            } else {
                law_subsuming_forks(new[i], new[i], new[i], 0);
                assert(subsumption(all[some.len() as int], new[i]));
            }
        }
        assert forall|j: int| forks.len() <= j < all.len() implies new.contains(#[trigger] all[j]) by {
            if j < some.len() {
                assert(init.contains(some[j]));
                let k = init.index_of(some[j]);
                assert(new[k] == all[j]);
            } else {
                assert(new[new.len() - 1] == all[j]);
            }
        }
    }
}

/// A session gives up exactly with 4097 forks. As long as it goes on it has at least one fork, and at most
/// 4096.
pub proof fn law_sessions_give_up_with_too_many_forks<'a>(
    before: Seq<MonitorPerSession<'a>>,
    after: Seq<MonitorPerSession<'a>>,
    route: Option<RouteView>,
    r: MonitoringResult,
)
    requires
        processed(before, after, route, r),
    ensures
        r is Ok <==> 1 <= after.len() <= 4096,
        r is Err && after.len() == 0 <==> (r matches Err(e) && e is UnexpectedEvent),
        r is Err && after.len() > 0 <==> (r matches Err(e) && e is Killed),
        r matches Err(e) ==> (e matches MonitoringError::Killed { num_forks, router, neighbor, .. }
            ==> num_forks == 4097 && router == before[0].router_id && neighbor
            == before[0].neighbor),
        r matches Err(e) ==> (e matches MonitoringError::UnexpectedEvent { router, session, event }
            ==> router == before[0].router_id && session == before[0].neighbor && event@.route()
            == route),
{
}

/// What a fork has sent last is a withdraw if one is unexplained, and otherwise what goes out.
pub proof fn law_what_was_sent_last(fork: MonitorPerSession, withdrawn: bool)
    ensures
        withdrawn ==> last_route(fork, withdrawn) is None,
        !withdrawn ==> emits(fork.out(), last_route(fork, withdrawn)),
        !withdrawn ==> (last_route(fork, withdrawn) is None <==> fork.out() is None),
{
}

/// A message that arrives waits behind the others of its sender, in every fork. Nothing else changes.
pub proof fn law_arriving_messages_wait<'a>(
    pre: MonitorPerSession<'a>,
    post: MonitorPerSession<'a>,
    from: RouterId,
    message: UncommittedMessagePerSession<'a>,
    n: RouterId,
)
    requires
        with_message(pre, post, from, message),
    ensures
        post.pending()[from].len() == pre.pending()[from].len() + 1,
        post.pending()[from].last() == message,
        post.pending()[from].drop_last() == pre.pending()[from],
        n != from ==> post.pending()[n] == pre.pending()[n],
        post.out() == pre.out(),
{
    assert(post.pending()[from].drop_last() =~= pre.pending()[from]);
}

// ---------------------------------------------------------------------------------------------
// Routers
// ---------------------------------------------------------------------------------------------
/// A session starts with the entry of each neighbor that has one, and with what goes out to the neighbor of
/// the session for it.
pub proof fn law_start_of_a_session(
    rib_in: Seq<ImportedRoute>,
    neighbor: RouterId,
    n: RouterId,
    i: int,
)
    requires
        0 <= i < rib_in.len(),
        rib_in[i].rib_entry is Some,
        rib_in[i].rib_entry->0.from_id == n,
        forall|j: int|
            0 <= j < rib_in.len() && j != i && (#[trigger] rib_in[j]).rib_entry is Some
                ==> rib_in[j].rib_entry->0.from_id != n,
    ensures
        ({
            let slot = initial_slot(rib_in, neighbor, n);
            &&& slot is Some
            &&& slot->0.entry == rib_in[i].rib_entry->0
            &&& slot->0.out is Some <==> rib_in[i].outgoing_routes@.contains_key(neighbor)
            &&& slot->0.out matches Some(e) ==> e == rib_in[i].outgoing_routes@[neighbor]
        }),
{
    assert(is_route_of(rib_in, i, n));
    let k = choose|k: int| #[trigger] is_route_of(rib_in, k, n);
    assert(is_route_of(rib_in, k, n));
    assert(k == i);
}

/// A neighbor without an entry has nothing at the start.
pub proof fn law_start_without_an_entry(rib_in: Seq<ImportedRoute>, neighbor: RouterId, n: RouterId)
    requires
        forall|j: int|
            0 <= j < rib_in.len() && (#[trigger] rib_in[j]).rib_entry is Some
                ==> rib_in[j].rib_entry->0.from_id != n,
    ensures
        initial_slot(rib_in, neighbor, n) is None,
{
}

/// A router is at fault exactly if one of its sessions has an error, and the error is one of theirs.
pub proof fn law_errors_of_sessions(
    results: Map<RouterId, MonitoringResult>,
    r: MonitoringResult,
    n: RouterId,
)
    requires
        outcome(results, r),
        results.contains_key(n),
    ensures
        results[n] is Err ==> r is Err,
        r is Ok ==> results[n] is Ok,
        (forall|m: RouterId| #[trigger] results.contains_key(m) ==> results[m] is Ok) ==> r is Ok,
{
}

/// A withdraw that arrives leaves nothing behind, whatever is known of a route. An announcement leaves its
/// entry, and what goes out to the neighbor of the session.
pub proof fn law_what_a_session_notes(
    id: usize,
    time: Time,
    e: BgpEvent,
    import: ImportedRoute,
    n: RouterId,
)
    ensures
        ({
            let m = observed(id, time, e, import, n);
            &&& m.id == id && m.time == time && *m.event == e
            &&& e is Withdraw ==> m.rib_entry is None && m.outgoing_route is None
            &&& e is Update ==> (m.rib_entry is Some <==> import.rib_entry is Some)
            &&& e is Update && import.rib_entry is Some ==> *m.rib_entry->0 == import.rib_entry->0
            &&& e is Update ==> (m.outgoing_route is Some <==> import.outgoing_routes@.contains_key(n))
            &&& e is Update && import.outgoing_routes@.contains_key(n) ==> *m.outgoing_route->0
                == import.outgoing_routes@[n]
        }),
{
}

/// A message that the router neither sends nor receives changes nothing. One that it receives gives no
/// error and is counted, and one that it sends to a router that it has no session with is ignored.
pub proof fn law_messages_of_others<'a>(
    pre: ReorderingMonitor<'a>,
    post: ReorderingMonitor<'a>,
    message: Message,
    r: MonitoringResult,
)
    requires
        message_step(pre, post, message, r),
    ensures
        ({
            let (e, x) = (message.event@, pre.router_id);
            &&& e is Ospf ==> r is Ok && post == pre
            &&& e.router() != x && e.source() != x ==> r is Ok && post == pre
            &&& e is Bgp && e.router() == x ==> r is Ok && post.incoming_counter
                == pre.incoming_counter + 1
            &&& e is Bgp && e.router() != x ==> post.incoming_counter == pre.incoming_counter
            &&& e.router() != x && !pre.per_session@.contains_key(e.router()) ==> r is Ok && post
                == pre
            &&& r is Err ==> e is Bgp && e.source() == x && e.router() != x
                && pre.per_session@.contains_key(e.router())
        }),
{
}

/// The history of a fork gets the numbers of the messages that a plan takes, and no others, in one batch
/// behind those that were there.
pub proof fn law_history_of_a_plan<'a>(
    pre: MonitorPerSession<'a>,
    post: MonitorPerSession<'a>,
    p: Map<RouterId, usize>,
    id: usize,
)
    requires
        applied(pre, post, p),
    ensures
        post.commit_history@.len() == pre.commit_history@.len() + 1,
        post.commit_history@.last()@.contains(id) <==> exists|n: RouterId, i: int| #[trigger]
            p.contains_key(n) && 0 <= i <= p[n] && (#[trigger] pre.pending()[n][i]).id == id,
        forall|k: int|
            0 <= k < pre.commit_history@.len() ==> (#[trigger] post.commit_history@[k])@
                == pre.commit_history@[k]@,
{
    reveal(applied);
    let last = post.commit_history@.last()@;
    assert(last.to_set().contains(id) <==> last.contains(id));
    assert(executed_ids(pre.pending(), p).contains(id) <==> executes(pre.pending(), p, id));
    assert forall|k: int| 0 <= k < pre.commit_history@.len() implies (
    #[trigger] post.commit_history@[k])@ == pre.commit_history@[k]@ by {
        assert(post.commit_history@.drop_last()[k] == post.commit_history@[k]);
        assert(pre.commit_history@[k]@ == post.commit_history@.drop_last()[k]@);
    }
}

/// A timeout leaves at least one fork and at most 4096, or else it ends with an error: the monitor gives up
/// with 4097 forks, and a message is missing if no fork is left.
pub proof fn law_timeouts_with_too_many_forks<'a>(
    before: Seq<MonitorPerSession<'a>>,
    after: Seq<MonitorPerSession<'a>>,
    time: Time,
    withdrawn: bool,
    r: MonitoringResult,
)
    requires
        settles(before, after, time, withdrawn, r),
    ensures
        r is Ok <==> 1 <= after.len() <= 4096,
        r is Err && after.len() == 0 <==> (r matches Err(e) && e is MissingOutgoingEvent),
        r matches Err(e) ==> (e matches MonitoringError::Killed { num_forks, router, neighbor, .. }
            ==> num_forks == 4097 && router == before[0].router_id && neighbor
            == before[0].neighbor),
        r matches Err(e) ==> (e matches MonitoringError::MissingOutgoingEvent {
            router,
            neighbor,
            current_event,
            ..
        } ==> router == before[0].router_id && neighbor == before[0].neighbor
            && current_event@.route() == last_route(before.last(), withdrawn)),
{
}

/// After an error a session starts afresh: with one fork that has processed everything, without a history,
/// and with nothing that waits.
pub proof fn law_sessions_start_afresh<'a>(
    pre: ForkingMonitorPerSession<'a>,
    post: ForkingMonitorPerSession<'a>,
    route: Option<RouteView>,
    mode: ProcessWithdraws,
    router_id: RouterId,
    neighbor: RouterId,
    r: MonitoringResult,
    n: RouterId,
)
    requires
        answer_step(pre, post, route, mode, router_id, neighbor, r),
        r is Err,
    ensures
        post.forks@.len() == 1,
        post.forks@[0].router_id == router_id,
        post.forks@[0].neighbor == neighbor,
        post.forks@[0].commit_history@.len() == 0,
        post.forks@[0].table() == everything(pre.base@, pre.received@),
        post.received@[n].len() == 0,
        !post.has_unprocessed_withdraw,
{
    let (mid, r0) = choose|mid: ForkingMonitorPerSession<'a>, r0: MonitoringResult| #[trigger]
        outgoing_step(pre, mid, route, r0) && then_switch(
            mid,
            post,
            mode,
            router_id,
            neighbor,
            r0,
            r,
        );
    if r0 is Ok {
        let end = choose|end: ForkingMonitorPerSession<'a>| #[trigger]
            switch_step(mid, end, mode, r) && match r {
                Err(_) => recover_step(end, post, router_id, neighbor, enables(mode, 1)),
                Ok(_) => post == end,
            };
        assert(recover_step(end, post, router_id, neighbor, enables(mode, 1)));
    }
    assert(post.received@[n] == Seq::<UncommittedMessagePerSession>::empty());
}

/// A new monitor has a session for each neighbor of its router and for no other one. None has seen a
/// message, and each has one fork that nothing waits in.
pub proof fn law_new_monitors<'a>(
    m: ReorderingMonitor<'a>,
    router: Router,
    arena: &'a MonitorArena,
    n: RouterId,
)
    requires
        is_monitor_of(m, router, arena),
    ensures
        m.router_id == router.router_id,
        m.incoming_counter == 0,
        m.process_withdraws is Always,
        m.per_session@.contains_key(n) <==> router.sessions@.contains(n),
        router.sessions@.contains(n) ==> {
            let s = m.per_session@[n];
            &&& s.forks@.len() == 1
            &&& s.received@[n].len() == 0
            &&& s.make_progress_on_withdraw
            &&& !s.has_unprocessed_withdraw
            &&& lookup(s.base@, n) == initial_slot(router.rib_in@, n, n)
        },
{
    if m.per_session@.contains_key(n) {
        let s = m.per_session@[n];
        assert(fresh_session(s, router.rib_in@, n));
        assert(lookup(s.forks@[0].table(), n) == initial_slot(router.rib_in@, n, n));
    }
}

/// A session that forgets its history keeps everything else, in every fork.
pub proof fn law_forgetting_the_history<'a>(
    pre: ForkingMonitorPerSession<'a>,
    post: ForkingMonitorPerSession<'a>,
    i: int,
)
    requires
        forgotten(pre, post),
        0 <= i < pre.forks@.len(),
    ensures
        post.forks@.len() == pre.forks@.len(),
        post.forks@[i].commit_history@.len() == 0,
        post.forks@[i].table() == pre.forks@[i].table(),
        post.forks@[i].pending() == pre.forks@[i].pending(),
        post.forks@[i].out() == pre.forks@[i].out(),
        post.received == pre.received && post.base == pre.base,
{
    assert(fork_forgotten(pre.forks@[i], post.forks@[i]));
}

} // verus!
