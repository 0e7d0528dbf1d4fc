//! The monitor of a router, for one prefix.
use vstd::prelude::*;

use crate::arena::MonitorArena;
use crate::bgp::{optional_view, BgpEvent, BgpRoute, Event, RouteView, RouterId, Time};
use crate::bgp::{Prefix, INFINITY};
use crate::forking_monitor::{enable_step, enables, in_order, incoming_step};
use crate::forking_monitor::{outgoing_step, recover_step, switch_step, timeout_step};
use crate::forking_monitor::{ForkingMonitorPerSession, ProcessWithdraws};
use crate::import::{is_single_of, message_for, ImportedRoute, Message, Router, UncommittedMessage};
use crate::keyed::{as_map, lemma_entry, lemma_key, lemma_same_keys, lemma_same_keys_update, Keyed};
use crate::monitoring::{MonitoringError, MonitoringResult};
use crate::numbering::{all_below, ids_below, lemma_enable_below, lemma_fresh_below, lemma_incoming_below};
use crate::numbering::{lemma_outgoing_below, lemma_recover_below, lemma_switch_below};
use crate::numbering::lemma_timeout_below;
use crate::serializability::{is_serializable, serializable};
use crate::session_monitor::{MonitorPerSession, UncommittedMessagePerSession};
use crate::session_monitor::{lookup, CommittedMessagePerSession, RibPerSession, Slot};

verus! {

/// Checks whether a router processes the messages that it receives as BGP prescribes, one session
/// at a time.
pub struct ReorderingMonitor<'a> {
    pub arena: &'a MonitorArena,
    pub router_id: RouterId,
    /// The monitors of the sessions, by neighbor
    pub per_session: Keyed<ForkingMonitorPerSession<'a>>,
    /// The number of the next incoming message
    pub incoming_counter: usize,
    /// Whether to explain outgoing withdraws right away
    pub process_withdraws: ProcessWithdraws,
}

/// What a session starts with: the slot of each neighbor that has a route in the RIB-in.
pub open spec fn initial_slot(rib_in: Seq<ImportedRoute>, neighbor: RouterId, n: RouterId) -> Option<
    Slot,
> {
    if exists|i: int| #[trigger] is_route_of(rib_in, i, n) {
        let i = choose|i: int| #[trigger] is_route_of(rib_in, i, n);
        Some(
            Slot {
                entry: rib_in[i].rib_entry->0,
                out: if rib_in[i].outgoing_routes@.contains_key(neighbor) {
                    Some(rib_in[i].outgoing_routes@[neighbor])
                } else {
                    None
                },
            },
        )
    } else {
        None
    }
}

/// The route at position `i` is from neighbor `n`.
pub open spec fn is_route_of(rib_in: Seq<ImportedRoute>, i: int, n: RouterId) -> bool {
    0 <= i < rib_in.len() && rib_in[i].rib_entry is Some && rib_in[i].rib_entry->0.from_id == n
}

/// A session belongs to the monitor of `router_id`: it is ready, and has no number from `bound` on.
pub open spec fn session_wf(
    s: ForkingMonitorPerSession,
    router_id: RouterId,
    neighbor: RouterId,
    bound: nat,
) -> bool {
    &&& s.ready()
    &&& s.forks@[0].router_id == router_id
    &&& s.forks@[0].neighbor == neighbor
    &&& all_below(s.forks@, bound)
}

/// What comes of an outgoing message: the session explains it, or it starts afresh.
pub open spec fn answer_step<'a>(
    pre: ForkingMonitorPerSession<'a>,
    post: ForkingMonitorPerSession<'a>,
    route: Option<RouteView>,
    mode: ProcessWithdraws,
    router_id: RouterId,
    neighbor: RouterId,
    r: MonitoringResult,
) -> bool {
    exists|mid: ForkingMonitorPerSession<'a>, r0: MonitoringResult| #[trigger]
        outgoing_step(pre, mid, route, r0) && then_switch(
            mid,
            post,
            mode,
            router_id,
            neighbor,
            r0,
            r,
        )
}

/// What comes of a timeout: the session has an explanation, or it starts afresh.
pub open spec fn deadline_step<'a>(
    pre: ForkingMonitorPerSession<'a>,
    post: ForkingMonitorPerSession<'a>,
    time: Time,
    mode: ProcessWithdraws,
    router_id: RouterId,
    neighbor: RouterId,
    r: MonitoringResult,
) -> bool {
    exists|mid: ForkingMonitorPerSession<'a>, r0: MonitoringResult| #[trigger]
        timeout_step(pre, mid, time, r0) && then_switch(
            mid,
            post,
            mode,
            router_id,
            neighbor,
            r0,
            r,
        )
}

/// What comes of the final check: the session has an explanation, or it starts afresh.
pub open spec fn final_step<'a>(
    pre: ForkingMonitorPerSession<'a>,
    post: ForkingMonitorPerSession<'a>,
    mode: ProcessWithdraws,
    router_id: RouterId,
    neighbor: RouterId,
    r: MonitoringResult,
) -> bool {
    exists|mid: ForkingMonitorPerSession<'a>| #[trigger]
        timeout_step(pre, mid, INFINITY, r) && match r {
            Ok(_) => post == mid,
            Err(_) => recover_step(mid, post, router_id, neighbor, enables(mode, 1)),
        }
}

/// What follows a step with result `r0`: a look at the mode, and a fresh start after an error.
pub open spec fn then_switch<'a>(
    mid: ForkingMonitorPerSession<'a>,
    post: ForkingMonitorPerSession<'a>,
    mode: ProcessWithdraws,
    router_id: RouterId,
    neighbor: RouterId,
    r0: MonitoringResult,
    r: MonitoringResult,
) -> bool {
    match r0 {
        Err(_) => r == r0 && recover_step(mid, post, router_id, neighbor, enables(mode, 1)),
        Ok(_) => exists|end: ForkingMonitorPerSession<'a>| #[trigger]
            switch_step(mid, end, mode, r) && match r {
                Err(_) => recover_step(end, post, router_id, neighbor, enables(mode, 1)),
                Ok(_) => post == end,
            },
    }
}

impl<'a> ReorderingMonitor<'a> {
    pub open spec fn wf(&self) -> bool {
        &&& self.per_session.wf()
        &&& forall|n: RouterId| #[trigger]
            self.per_session@.contains_key(n) ==> session_wf(
                self.per_session@[n],
                self.router_id,
                n,
                self.incoming_counter as nat,
            )
    }

    /// The parts of the monitor that no message changes.
    pub open spec fn same_setup(&self, other: &Self) -> bool {
        &&& self.arena == other.arena
        &&& self.router_id == other.router_id
        &&& self.process_withdraws == other.process_withdraws
        &&& forall|n: RouterId|
            self.per_session@.contains_key(n) == #[trigger] other.per_session@.contains_key(n)
    }
}

impl<'a> RibPerSession<'a> {
    /// The state of a router, as far as the session with a neighbor is concerned.
    pub fn new(rib_in: &Vec<&'a ImportedRoute>, neighbor: RouterId) -> (r: Self)
        requires
            forall|i: int| 0 <= i < rib_in@.len() ==> (#[trigger] rib_in@[i]).outgoing_routes.wf(),
            forall|i: int, j: int|
                0 <= i < j < rib_in@.len() && (#[trigger] rib_in@[i]).rib_entry is Some && (
                #[trigger] rib_in@[j]).rib_entry is Some ==> rib_in@[i].rib_entry->0.from_id
                    != rib_in@[j].rib_entry->0.from_id,
        ensures
            r.wf(),
            forall|n: RouterId| #[trigger]
                lookup(r.table(), n) == initial_slot(
                    rib_in@.map_values(|x: &'a ImportedRoute| *x),
                    neighbor,
                    n,
                ),
    {
        let mut s: RibPerSession<'a> = RibPerSession::empty();
        let ghost all = rib_in@.map_values(|x: &'a ImportedRoute| *x);
        assert(forall|i: int| 0 <= i < all.len() ==> #[trigger] all[i] == *rib_in@[i]);
        for k in 0..rib_in.len()
            invariant
                s.wf(),
                all.len() == rib_in@.len(),
                forall|i: int| 0 <= i < all.len() ==> #[trigger] all[i] == *rib_in@[i],
                forall|i: int|
                    0 <= i < rib_in@.len() ==> (#[trigger] rib_in@[i]).outgoing_routes.wf(),
                forall|i: int, j: int|
                    0 <= i < j < rib_in@.len() && (#[trigger] rib_in@[i]).rib_entry is Some && (
                    #[trigger] rib_in@[j]).rib_entry is Some ==> rib_in@[i].rib_entry->0.from_id
                        != rib_in@[j].rib_entry->0.from_id,
                forall|n: RouterId| #[trigger]
                    lookup(s.table(), n) == initial_slot(all.take(k as int), neighbor, n),
        {
            let ghost before = s.table();
            let ghost part = all.take(k as int);
            let ghost next = all.take(k + 1);
            match &rib_in[k].rib_entry {
                Some(e) => {
                    let c = CommittedMessagePerSession {
                        rib_in: e,
                        rib_out: rib_in[k].outgoing_routes.get(neighbor),
                    };
                    s.enter(c, e.from_id);
                    proof {
                        assert forall|n: RouterId| #[trigger] lookup(s.table(), n) == initial_slot(
                            next,
                            neighbor,
                            n,
                        ) by {
                            assert(lookup(before, n) == initial_slot(part, neighbor, n));
                            if n == e.from_id {
                                assert(is_route_of(next, k as int, n));
                                assert forall|i: int| #[trigger] is_route_of(next, i, n) implies i
                                    == k by {
                                    if i < k {
                                        assert(rib_in@[i].rib_entry is Some);
                                        assert(rib_in@[k as int].rib_entry is Some);
                                    }
                                }
                            } else {
                                lemma_initial_slot_grows(all, k as int, neighbor, n);
                            }
                        }
                    }
                },
                None => {
                    proof {
                        assert forall|n: RouterId| #[trigger] lookup(s.table(), n) == initial_slot(
                            next,
                            neighbor,
                            n,
                        ) by {
                            lemma_initial_slot_grows(all, k as int, neighbor, n);
                        }
                    }
                },
            }
        }
        assert(all.take(all.len() as int) =~= all);
        s
    }
}

/// A route of another neighbor does not change the slot of `n`.
proof fn lemma_initial_slot_grows(
    all: Seq<ImportedRoute>,
    k: int,
    neighbor: RouterId,
    n: RouterId,
)
    requires
        0 <= k < all.len(),
        !is_route_of(all, k, n),
        forall|i: int, j: int|
            0 <= i < j < all.len() && (#[trigger] all[i]).rib_entry is Some && (
            #[trigger] all[j]).rib_entry is Some ==> all[i].rib_entry->0.from_id
                != all[j].rib_entry->0.from_id,
    ensures
        initial_slot(all.take(k + 1), neighbor, n) == initial_slot(all.take(k), neighbor, n),
{
    let (a, b) = (all.take(k), all.take(k + 1));
    assert forall|i: int| is_route_of(a, i, n) == #[trigger] is_route_of(b, i, n) by {
        if 0 <= i < k {
            assert(a[i] == b[i]);
        }
    }
    if exists|i: int| #[trigger] is_route_of(a, i, n) {
        let i = choose|i: int| #[trigger] is_route_of(a, i, n);
        assert(is_route_of(b, i, n));
        let j = choose|j: int| #[trigger] is_route_of(b, j, n);
        assert(is_route_of(a, j, n) == is_route_of(b, j, n));
        assert(all[i].rib_entry is Some && all[j].rib_entry is Some);
        assert(i == j) by {
            if i < j {
                assert(all[i].rib_entry->0.from_id != all[j].rib_entry->0.from_id);
            }
            if j < i {
                assert(all[j].rib_entry->0.from_id != all[i].rib_entry->0.from_id);
            }
        }
    } else if exists|i: int| #[trigger] is_route_of(b, i, n) {
        let i = choose|i: int| #[trigger] is_route_of(b, i, n);
        assert(is_route_of(a, i, n) == is_route_of(b, i, n));
    }
}

impl<'a> ReorderingMonitor<'a> {
    /// A monitor for a router, with a single fork per session.
    pub fn new(router: Router, arena: &'a MonitorArena) -> (r: Self)
        requires
            router.is_single_prefix(),
        ensures
            r.wf(),
            is_monitor_of(r, router, arena),
    {
        let ghost all = router.rib_in@;
        let mut rib_in: Vec<&'a ImportedRoute> = Vec::new();
        let mut rest: Vec<ImportedRoute> = router.rib_in;
        let total: usize = rest.len();
        let mut k: usize = 0;
        while k < total
            invariant
                k <= total,
                total == all.len(),
                rest@ == all.skip(k as int),
                rib_in@.len() == k,
                forall|i: int| 0 <= i < k ==> *(#[trigger] rib_in@[i]) == all[i],
            decreases total - k,
        {
            assert(rest@[0] == all[k as int]);
            let route: ImportedRoute = rest.remove(0);
            assert(rest@ =~= all.skip(k + 1));
            rib_in.push(arena.alloc_rib(route));
            k += 1;
        }
        let ghost stored = rib_in@.map_values(|x: &'a ImportedRoute| *x);
        assert(stored =~= all);
        let mut per_session: Keyed<ForkingMonitorPerSession<'a>> = Keyed::new();
        for i in 0..router.sessions.len()
            invariant
                per_session.wf(),
                stored == rib_in@.map_values(|x: &'a ImportedRoute| *x),
                stored == all,
                forall|j: int|
                    0 <= j < rib_in@.len() ==> (#[trigger] rib_in@[j]).outgoing_routes.wf(),
                forall|a: int, b: int|
                    0 <= a < b < rib_in@.len() && (#[trigger] rib_in@[a]).rib_entry is Some && (
                    #[trigger] rib_in@[b]).rib_entry is Some ==> rib_in@[a].rib_entry->0.from_id
                        != rib_in@[b].rib_entry->0.from_id,
                forall|n: RouterId| #[trigger]
                    per_session@.contains_key(n) <==> router.sessions@.take(i as int).contains(n),
                forall|n: RouterId| #[trigger]
                    per_session@.contains_key(n) ==> fresh_session(per_session@[n], all, n)
                        && session_wf(per_session@[n], router.router_id, n, 0),
        {
            let neighbor: RouterId = router.sessions[i];
            let bgp_process: RibPerSession<'a> = RibPerSession::new(&rib_in, neighbor);
            let session: ForkingMonitorPerSession<'a> = ForkingMonitorPerSession::new(
                router.router_id,
                neighbor,
                bgp_process,
                true,
            );
            proof {
                lemma_fresh_below(session, 0);
                let (a, b) = (router.sessions@.take(i as int), router.sessions@.take(i + 1));
                assert(b =~= a.push(neighbor));
                assert forall|n: RouterId| b.contains(n) <==> a.contains(n) || n == neighbor by {
                    broadcast use vstd::seq_lib::group_seq_properties;

                }
            }
            per_session.insert(neighbor, session);
        }
        assert(router.sessions@.take(router.sessions@.len() as int) =~= router.sessions@);
        ReorderingMonitor {
            arena,
            router_id: router.router_id,
            per_session,
            incoming_counter: 0,
            process_withdraws: ProcessWithdraws::Always,
        }
    }
}

/// A session that has seen no message: its only fork is the router as it is.
pub open spec fn fresh_session(
    s: ForkingMonitorPerSession,
    rib_in: Seq<ImportedRoute>,
    neighbor: RouterId,
) -> bool {
    &&& s.forks@.len() == 1
    &&& forall|n: RouterId| #[trigger]
        lookup(s.forks@[0].table(), n) == initial_slot(rib_in, neighbor, n)
    &&& s.base@ == s.forks@[0].table()
    &&& forall|n: RouterId| #[trigger] s.received@[n].len() == 0
    &&& s.make_progress_on_withdraw
    &&& !s.has_unprocessed_withdraw
    &&& s.tracks()
    &&& s.covers(Map::new(|n: RouterId| true, |n: RouterId| 0nat))
    &&& in_order(s.received@)
}

/// A new monitor of a router.
pub open spec fn is_monitor_of<'a>(
    m: ReorderingMonitor<'a>,
    router: Router,
    arena: &'a MonitorArena,
) -> bool {
    &&& m.arena == arena
    &&& m.router_id == router.router_id
    &&& m.incoming_counter == 0
    &&& m.process_withdraws == ProcessWithdraws::Always
    &&& forall|n: RouterId| #[trigger]
        m.per_session@.contains_key(n) <==> router.sessions@.contains(n)
    &&& forall|n: RouterId| #[trigger]
        m.per_session@.contains_key(n) ==> fresh_session(m.per_session@[n], router.rib_in@, n)
}

/// A new monitor of a router, for one prefix.
#[verifier::opaque]
pub open spec fn is_monitor_for<'a>(
    m: ReorderingMonitor<'a>,
    router: Router,
    prefix: Prefix,
    arena: &'a MonitorArena,
) -> bool {
    exists|single: Router| #[trigger]
        is_single_of(router, prefix, single) && is_monitor_of(m, single, arena)
}

impl<'a> ReorderingMonitor<'a> {
    /// A monitor for a router, for one prefix.
    pub fn new_for_prefix(router: Router, prefix: Prefix, arena: &'a MonitorArena) -> (r: Self)
        requires
            router.is_consistent(),
        ensures
            r.wf(),
            is_monitor_for(r, router, prefix, arena),
    {
        let ghost given = router;
        let single = router.to_single_prefix(prefix);
        let ghost s = single;
        let r = ReorderingMonitor::new(single, arena);
        assert(is_monitor_for(r, given, prefix, arena)) by {
            reveal(is_monitor_for);
            assert(is_single_of(given, prefix, s) && is_monitor_of(r, s, arena));
        }
        r
    }
}

/// The outcome for a router is that of its sessions: an error if some session has one.
pub open spec fn outcome(results: Map<RouterId, MonitoringResult>, r: MonitoringResult) -> bool {
    match r {
        Ok(_) => forall|n: RouterId| #[trigger] results.contains_key(n) ==> results[n] is Ok,
        Err(_) => exists|n: RouterId| #[trigger] results.contains_key(n) && results[n] == r,
    }
}

/// Every session goes through a timeout.
pub open spec fn deadline_steps<'a>(
    pre: ReorderingMonitor<'a>,
    post: ReorderingMonitor<'a>,
    time: Time,
    results: Map<RouterId, MonitoringResult>,
) -> bool {
    &&& forall|n: RouterId| #[trigger]
        results.contains_key(n) <==> pre.per_session@.contains_key(n)
    &&& forall|n: RouterId| #[trigger]
        pre.per_session@.contains_key(n) ==> deadline_step(
            pre.per_session@[n],
            post.per_session@[n],
            time,
            pre.process_withdraws,
            pre.router_id,
            n,
            results[n],
        )
}

/// Every session goes through the final check.
pub open spec fn final_steps<'a>(
    pre: ReorderingMonitor<'a>,
    post: ReorderingMonitor<'a>,
    results: Map<RouterId, MonitoringResult>,
) -> bool {
    &&& forall|n: RouterId| #[trigger]
        results.contains_key(n) <==> pre.per_session@.contains_key(n)
    &&& forall|n: RouterId| #[trigger]
        pre.per_session@.contains_key(n) ==> final_step(
            pre.per_session@[n],
            post.per_session@[n],
            pre.process_withdraws,
            pre.router_id,
            n,
            results[n],
        )
}

/// The results at the positions of a list, by key.
spec fn by_key<'a>(
    entries: Seq<(u32, ForkingMonitorPerSession<'a>)>,
    results: Seq<MonitoringResult>,
) -> Map<RouterId, MonitoringResult> {
    Map::new(
        |n: RouterId| as_map(entries).contains_key(n),
        |n: RouterId| results[crate::keyed::position_of(entries, n)],
    )
}

proof fn lemma_by_key<'a>(
    entries: Seq<(u32, ForkingMonitorPerSession<'a>)>,
    results: Seq<MonitoringResult>,
    r: MonitoringResult,
)
    requires
        crate::keyed::unique_keys(entries),
        entries.len() == results.len(),
        r is Ok ==> forall|j: int| 0 <= j < results.len() ==> (#[trigger] results[j]) is Ok,
        r is Err ==> exists|j: int| 0 <= j < results.len() && #[trigger] results[j] == r,
    ensures
        outcome(by_key(entries, results), r),
        forall|j: int|
            0 <= j < entries.len() ==> by_key(entries, results)[(#[trigger] entries[j]).0]
                == results[j],
{
    let m = by_key(entries, results);
    assert forall|j: int| 0 <= j < entries.len() implies m[(#[trigger] entries[j]).0] == results[j]
        && m.contains_key(entries[j].0) by {
        lemma_entry(entries, j);
        let p = crate::keyed::position_of(entries, entries[j].0);
        assert(entries[p].0 == entries[j].0);
    }
    if r is Ok {
        assert forall|n: RouterId| #[trigger] m.contains_key(n) implies m[n] is Ok by {
            let j = lemma_key(entries, n);
            assert(entries[j].0 == n);
        }
    } else {
        let j = choose|j: int| 0 <= j < results.len() && #[trigger] results[j] == r;
        assert(m.contains_key(entries[j].0) && m[entries[j].0] == r);
    }
}

impl<'a> ReorderingMonitor<'a> {
    /// The router that is monitored.
    pub fn router_id(&self) -> (r: RouterId)
        ensures
            r == self.router_id,
    {
        self.router_id
    }

    /// The largest number of forks of a session.
    pub fn max_num_active_forks(&self) -> (r: usize)
        requires
            self.wf(),
        ensures
            forall|n: RouterId| #[trigger]
                self.per_session@.contains_key(n) ==> self.per_session@[n].forks@.len() <= r,
            (exists|n: RouterId| self.per_session@.contains_key(n)) ==> exists|n: RouterId| #[trigger]
                self.per_session@.contains_key(n) && self.per_session@[n].forks@.len() == r,
            (forall|n: RouterId| !self.per_session@.contains_key(n)) ==> r == 0,
    {
        let ghost entries = self.per_session.entries@;
        let mut max: usize = 0;
        for k in 0..self.per_session.entries.len()
            invariant
                entries == self.per_session.entries@,
                self.wf(),
                forall|j: int| 0 <= j < k ==> (#[trigger] entries[j]).1.forks@.len() <= max,
                k > 0 ==> exists|j: int| 0 <= j < k && (#[trigger] entries[j]).1.forks@.len() == max,
                k == 0 ==> max == 0,
        {
            let n: usize = self.per_session.entries[k].1.forks.len();
            proof {
                lemma_entry(entries, k as int);
                assert(entries[k as int].1.forks@.len() == n);
            }
            if n > max {
                max = n;
            } else if k == 0 {
                assert(self.per_session@.contains_key(entries[0].0));
                assert(false);
            }
        }
        proof {
            assert forall|n: RouterId| #[trigger] self.per_session@.contains_key(
                n,
            ) implies self.per_session@[n].forks@.len() <= max by {
                let j = lemma_key(entries, n);
                assert(entries[j].1.forks@.len() <= max);
            }
            if entries.len() > 0 {
                let j = choose|j: int|
                    0 <= j < entries.len() && (#[trigger] entries[j]).1.forks@.len() == max;
                lemma_entry(entries, j);
                assert(self.per_session@.contains_key(entries[j].0));
            } else {
                assert forall|n: RouterId| !self.per_session@.contains_key(n) by {
                    if self.per_session@.contains_key(n) {
                        let j = lemma_key(entries, n);
                    }
                }
            }
        }
        max
    }

    /// Note an incoming message, in all sessions. A withdraw needs no processing.
    fn process_incoming(&mut self, time: Time, src: RouterId, e: BgpEvent, import: ImportedRoute)
        requires
            old(self).wf(),
            import.is_from(src),
            old(self).incoming_counter < usize::MAX,
        ensures
            final(self).wf(),
            final(self).same_setup(old(self)),
            final(self).incoming_counter == old(self).incoming_counter + 1,
            incoming_steps(*old(self), *final(self), time, src, e, import),
    {
        let ghost pre = self.per_session.entries@;
        let ghost given = import;
        let import: ImportedRoute = match &e {
            BgpEvent::Withdraw(_) => ImportedRoute::rejected(),
            BgpEvent::Update(_) => import,
        };
        let id: usize = self.incoming_counter;
        let msg: &'a UncommittedMessage = self.arena.alloc_msg(
            UncommittedMessage { id, time, event: e, import },
        );
        self.incoming_counter = id + 1;
        let n: usize = self.per_session.entries.len();
        let mut k: usize = 0;
        while k < n
            invariant
                k <= n,
                n == pre.len(),
                n == self.per_session.entries@.len(),
                pre == old(self).per_session.entries@,
                old(self).wf(),
                self.arena == old(self).arena,
                self.router_id == old(self).router_id,
                self.process_withdraws == old(self).process_withdraws,
                self.incoming_counter == old(self).incoming_counter + 1,
                msg.id == old(self).incoming_counter,
                msg.import.is_from(src),
                forall|j: int|
                    0 <= j < n ==> (#[trigger] self.per_session.entries@[j]).0 == pre[j].0,
                forall|j: int|
                    k <= j < n ==> (#[trigger] self.per_session.entries@[j]).1 == pre[j].1,
                forall|j: int|
                    0 <= j < k ==> incoming_step(
                        pre[j].1,
                        (#[trigger] self.per_session.entries@[j]).1,
                        src,
                        message_for(msg, pre[j].0),
                    ),
            decreases n - k,
        {
            proof {
                lemma_entry(pre, k as int);
                assert(old(self).per_session@.contains_key(pre[k as int].0));
                assert(self.per_session.entries@[k as int].1 == pre[k as int].1);
            }
            let neighbor: RouterId = self.per_session.entries[k].0;
            self.per_session.entries[k].1.process_incoming(src, msg.per_session(neighbor));
            k += 1;
        }
        proof {
            let cur = self.per_session.entries@;
            lemma_same_keys(pre, cur);
            assert forall|m: RouterId| #[trigger] self.per_session@.contains_key(m) implies session_wf(
                self.per_session@[m],
                self.router_id,
                m,
                self.incoming_counter as nat,
            ) && incoming_step(
                old(self).per_session@[m],
                self.per_session@[m],
                src,
                message_for(msg, m),
            ) by {
                let j = choose|j: int|
                    0 <= j < pre.len() && (#[trigger] pre[j]).0 == m && as_map(pre)[m] == pre[j].1
                        && as_map(cur)[m] == cur[j].1;
                assert(old(self).per_session@.contains_key(m));
                assert(incoming_step(pre[j].1, cur[j].1, src, message_for(msg, m)));
                assert(crate::forking_monitor::with_message(
                    pre[j].1.forks@[0],
                    cur[j].1.forks@[0],
                    src,
                    message_for(msg, m),
                ));
                lemma_incoming_below(
                    pre[j].1,
                    cur[j].1,
                    src,
                    message_for(msg, m),
                    old(self).incoming_counter as nat,
                );
            }
            assert forall|m: RouterId| #[trigger] old(self).per_session@.contains_key(
                m,
            ) implies incoming_step(
                old(self).per_session@[m],
                self.per_session@[m],
                src,
                observed(old(self).incoming_counter, time, e, given, m),
            ) by {
                assert(self.per_session@.contains_key(m));
                assert(message_for(msg, m) == observed(
                    old(self).incoming_counter,
                    time,
                    e,
                    given,
                    m,
                ));
            }
        }
    }

    /// Check whether the router can have sent a message. If not, the session starts afresh.
    ///
    /// The session looks for the smallest sets of waiting messages after which the router sends
    /// what it has sent, and commits them. There can be several such sets: to send a withdraw, for
    /// example, the router can have selected no route, or one that it must not send. Then the
    /// session forks. Forks that lead to a contradiction later are dropped. If none is left, there
    /// is an error.
    fn process_outgoing_ok(&mut self, neighbor: RouterId, e: BgpEvent) -> (r: MonitoringResult)
        requires
            old(self).wf(),
        ensures
            final(self).wf(),
            final(self).same_setup(old(self)),
            final(self).incoming_counter == old(self).incoming_counter,
            outgoing_steps(*old(self), *final(self), neighbor, e, r),
    {
        let route: Option<BgpRoute> = match e {
            BgpEvent::Withdraw(_) => None,
            BgpEvent::Update(route) => Some(route),
        };
        let route_ref: Option<&BgpRoute> = match &route {
            Some(x) => Some(x),
            None => None,
        };
        let ghost want = optional_view(route_ref);
        let ghost pre = self.per_session.entries@;
        let ghost bound = self.incoming_counter as nat;
        let enable: bool = self.process_withdraws.should_enable(1);
        match self.per_session.find(neighbor) {
            None => Ok(()),
            Some(i) => {
                let ghost before = self.per_session.entries@[i as int].1;
                assert(old(self).per_session@.contains_key(neighbor));
                let r0: MonitoringResult = self.per_session.entries[i].1.process_outgoing_ok(
                    route_ref,
                );
                let ghost mid = self.per_session.entries@[i as int].1;
                proof {
                    lemma_outgoing_below(before, mid, want, r0, bound);
                }
                let r: MonitoringResult = match r0 {
                    Ok(_) => {
                        let mode: ProcessWithdraws = self.process_withdraws;
                        let r1: MonitoringResult =
                            self.per_session.entries[i].1.update_enable_withdraws(mode);
                        let ghost last = self.per_session.entries@[i as int].1;
                        proof {
                            lemma_switch_below(mid, last, mode, r1, bound);
                        }
                        assert(switch_step(mid, last, mode, r1));
                        if r1.is_err() {
                            self.per_session.entries[i].1.recover(
                                self.router_id,
                                neighbor,
                                enable,
                            );
                            proof {
                                lemma_recover_below(
                                    last,
                                    self.per_session.entries@[i as int].1,
                                    self.router_id,
                                    neighbor,
                                    enable,
                                    bound,
                                );
                            }
                        }
                        assert(then_switch(
                            mid,
                            self.per_session.entries@[i as int].1,
                            mode,
                            self.router_id,
                            neighbor,
                            r0,
                            r1,
                        ));
                        r1
                    },
                    Err(err) => {
                        self.per_session.entries[i].1.recover(self.router_id, neighbor, enable);
                        proof {
                            lemma_recover_below(
                                mid,
                                self.per_session.entries@[i as int].1,
                                self.router_id,
                                neighbor,
                                enable,
                                bound,
                            );
                        }
                        Err(err)
                    },
                };
                proof {
                    let cur = self.per_session.entries@;
                    let post = cur[i as int].1;
                    assert(cur =~= pre.update(i as int, (pre[i as int].0, post)));
                    lemma_same_keys_update(pre, i as int, post);
                    assert(self.per_session@ == old(self).per_session@.insert(neighbor, post));
                    assert(answer_step(
                        before,
                        post,
                        want,
                        self.process_withdraws,
                        self.router_id,
                        neighbor,
                        r,
                    ));
                    assert(session_wf(post, self.router_id, neighbor, bound));
                }
                r
            },
        }
    }

    /// Process a message. If the router has received it, it waits to be explained. If the router
    /// has sent it, it is explained. Other messages are ignored.
    ///
    /// The monitor can be used further, also after an error.
    pub fn process_message(&mut self, message: Message) -> (r: MonitoringResult)
        requires
            old(self).wf(),
            message.wf(),
            old(self).incoming_counter < usize::MAX,
        ensures
            final(self).wf(),
            final(self).same_setup(old(self)),
            message_step(*old(self), *final(self), message, r),
    {
        match message.event {
            Event::Ospf { .. } => Ok(()),
            Event::Bgp { p, src, dst, e } => {
                if dst == self.router_id {
                    self.process_incoming(p, src, e, message.import);
                    Ok(())
                } else if src == self.router_id {
                    self.process_outgoing_ok(dst, e)
                } else {
                    Ok(())
                }
            },
        }
    }
}

/// A message that the router receives, as seen by the session with neighbor `n`. A withdraw leaves
/// nothing behind.
pub open spec fn observed<'a>(
    id: usize,
    time: Time,
    e: BgpEvent,
    import: ImportedRoute,
    n: RouterId,
) -> UncommittedMessagePerSession<'a> {
    match e {
        BgpEvent::Update(_) => message_for(&UncommittedMessage { id, time, event: e, import }, n),
        BgpEvent::Withdraw(_) => UncommittedMessagePerSession {
            id,
            time,
            event: &e,
            rib_entry: None,
            outgoing_route: None,
        },
    }
}

/// Every session notes an incoming message.
pub open spec fn incoming_steps<'a>(
    pre: ReorderingMonitor<'a>,
    post: ReorderingMonitor<'a>,
    time: Time,
    src: RouterId,
    e: BgpEvent,
    import: ImportedRoute,
) -> bool {
    forall|n: RouterId| #[trigger]
        pre.per_session@.contains_key(n) ==> incoming_step(
            pre.per_session@[n],
            post.per_session@[n],
            src,
            observed(pre.incoming_counter, time, e, import, n),
        )
}

/// The session with the receiver explains an outgoing message. If there is no such session, the
/// message is ignored.
pub open spec fn outgoing_steps<'a>(
    pre: ReorderingMonitor<'a>,
    post: ReorderingMonitor<'a>,
    neighbor: RouterId,
    e: BgpEvent,
    r: MonitoringResult,
) -> bool {
    if pre.per_session@.contains_key(neighbor) {
        &&& answer_step(
            pre.per_session@[neighbor],
            post.per_session@[neighbor],
            e@.route(),
            pre.process_withdraws,
            pre.router_id,
            neighbor,
            r,
        )
        &&& forall|n: RouterId|
            n != neighbor && #[trigger] pre.per_session@.contains_key(n) ==> post.per_session@[n]
                == pre.per_session@[n]
    } else {
        r is Ok && post == pre
    }
}

/// What comes of a message.
pub open spec fn message_step<'a>(
    pre: ReorderingMonitor<'a>,
    post: ReorderingMonitor<'a>,
    message: Message,
    r: MonitoringResult,
) -> bool {
    match message.event {
        Event::Bgp { p, src, dst, e } => if dst == pre.router_id {
            &&& r is Ok
            &&& post.incoming_counter == pre.incoming_counter + 1
            &&& incoming_steps(pre, post, p, src, e, message.import)
        } else if src == pre.router_id {
            &&& post.incoming_counter == pre.incoming_counter
            &&& outgoing_steps(pre, post, dst, e, r)
        } else {
            r is Ok && post == pre
        },
        Event::Ospf { .. } => r is Ok && post == pre,
    }
}

impl<'a> ReorderingMonitor<'a> {
    /// Check that no session is overdue, given that the router has processed all messages that
    /// arrived by `time`. A session that is overdue starts afresh.
    pub fn assert_messages_processed_before(&mut self, time: Time) -> (r: MonitoringResult)
        requires
            old(self).wf(),
        ensures
            final(self).wf(),
            final(self).same_setup(old(self)),
            final(self).incoming_counter == old(self).incoming_counter,
            exists|results: Map<RouterId, MonitoringResult>| #[trigger]
                outcome(results, r) && deadline_steps(*old(self), *final(self), time, results),
    {
        let ghost pre = self.per_session.entries@;
        let ghost bound = self.incoming_counter as nat;
        let mode: ProcessWithdraws = self.process_withdraws;
        let router_id: RouterId = self.router_id;
        let enable: bool = mode.should_enable(1);
        let mut result: MonitoringResult = Ok(());
        let ghost mut results: Seq<MonitoringResult> = Seq::empty();
        let n: usize = self.per_session.entries.len();
        let mut k: usize = 0;
        while k < n
            invariant
                k <= n,
                n == pre.len(),
                n == self.per_session.entries@.len(),
                pre == old(self).per_session.entries@,
                old(self).wf(),
                self.arena == old(self).arena,
                self.router_id == old(self).router_id,
                self.process_withdraws == old(self).process_withdraws,
                self.incoming_counter == old(self).incoming_counter,
                bound == self.incoming_counter as nat,
                mode == self.process_withdraws,
                router_id == self.router_id,
                enable == enables(mode, 1),
                forall|j: int|
                    0 <= j < n ==> (#[trigger] self.per_session.entries@[j]).0 == pre[j].0,
                forall|j: int|
                    k <= j < n ==> (#[trigger] self.per_session.entries@[j]).1 == pre[j].1,
                results.len() == k,
                forall|j: int|
                    0 <= j < k ==> session_wf(
                        (#[trigger] self.per_session.entries@[j]).1,
                        router_id,
                        pre[j].0,
                        bound,
                    ) && deadline_step(
                        pre[j].1,
                        self.per_session.entries@[j].1,
                        time,
                        mode,
                        router_id,
                        pre[j].0,
                        results[j],
                    ),
                result is Ok ==> forall|j: int| 0 <= j < k ==> (#[trigger] results[j]) is Ok,
                result is Err ==> exists|j: int| 0 <= j < k && #[trigger] results[j] == result,
            decreases n - k,
        {
            proof {
                lemma_entry(pre, k as int);
                assert(old(self).per_session@.contains_key(pre[k as int].0));
                assert(self.per_session.entries@[k as int].1 == pre[k as int].1);
            }
            let neighbor: RouterId = self.per_session.entries[k].0;
            let ghost before = pre[k as int].1;
            let r0: MonitoringResult =
                self.per_session.entries[k].1.assert_messages_processed_before(time);
            let ghost mid = self.per_session.entries@[k as int].1;
            let ghost first = r0;
            proof {
                lemma_timeout_below(before, mid, time, r0, bound);
            }
            let r1: MonitoringResult = match r0 {
                Ok(_) => {
                    let r1: MonitoringResult =
                        self.per_session.entries[k].1.update_enable_withdraws(mode);
                    let ghost last = self.per_session.entries@[k as int].1;
                    proof {
                        lemma_switch_below(mid, last, mode, r1, bound);
                    }
                    if r1.is_err() {
                        self.per_session.entries[k].1.recover(router_id, neighbor, enable);
                        proof {
                            lemma_recover_below(
                                last,
                                self.per_session.entries@[k as int].1,
                                router_id,
                                neighbor,
                                enable,
                                bound,
                            );
                        }
                    }
                    assert(then_switch(
                        mid,
                        self.per_session.entries@[k as int].1,
                        mode,
                        router_id,
                        neighbor,
                        first,
                        r1,
                    ));
                    r1
                },
                Err(err) => {
                    self.per_session.entries[k].1.recover(router_id, neighbor, enable);
                    proof {
                        lemma_recover_below(
                            mid,
                            self.per_session.entries@[k as int].1,
                            router_id,
                            neighbor,
                            enable,
                            bound,
                        );
                    }
                    Err(err)
                },
            };
            proof {
                let post = self.per_session.entries@[k as int].1;
                assert(deadline_step(before, post, time, mode, router_id, neighbor, r1));
                assert(session_wf(post, router_id, neighbor, bound));
            }
            let ghost so_far = results;
            proof {
                results = results.push(r1);
                assert(results[k as int] == r1);
                assert(forall|j: int| 0 <= j < k ==> #[trigger] results[j] == so_far[j]);
            }
            if r1.is_err() {
                result = r1;
                assert(results[k as int] == result);
            } else {
                proof {
                    if result is Err {
                        let j = choose|j: int| 0 <= j < k && #[trigger] so_far[j] == result;
                        assert(results[j] == result);
                    }
                }
            }
            k += 1;
        }
        proof {
            let cur = self.per_session.entries@;
            lemma_same_keys(pre, cur);
            lemma_by_key(pre, results, result);
            let all = by_key(pre, results);
            assert forall|m: RouterId| #[trigger] old(self).per_session@.contains_key(m) implies
                session_wf(self.per_session@[m], router_id, m, bound) && deadline_step(
                old(self).per_session@[m],
                self.per_session@[m],
                time,
                mode,
                router_id,
                m,
                all[m],
            ) by {
                assert(self.per_session@.contains_key(m));
                let j = choose|j: int|
                    0 <= j < pre.len() && (#[trigger] pre[j]).0 == m && as_map(pre)[m] == pre[j].1
                        && as_map(cur)[m] == cur[j].1;
                assert(all[pre[j].0] == results[j]);
                assert(session_wf(cur[j].1, router_id, pre[j].0, bound));
            }
            assert(deadline_steps(*old(self), *self, time, all));
        }
        result
    }

    /// Check the final state: nothing more is coming, so the router has processed everything. A
    /// session that is overdue starts afresh. After this no session has waiting messages.
    pub fn final_check(&mut self) -> (r: MonitoringResult)
        requires
            old(self).wf(),
        ensures
            final(self).wf(),
            final(self).same_setup(old(self)),
            final(self).incoming_counter == old(self).incoming_counter,
            exists|results: Map<RouterId, MonitoringResult>| #[trigger]
                outcome(results, r) && final_steps(*old(self), *final(self), results),
    {
        let ghost pre = self.per_session.entries@;
        let ghost bound = self.incoming_counter as nat;
        let mode: ProcessWithdraws = self.process_withdraws;
        let router_id: RouterId = self.router_id;
        let enable: bool = mode.should_enable(1);
        let mut result: MonitoringResult = Ok(());
        let ghost mut results: Seq<MonitoringResult> = Seq::empty();
        let n: usize = self.per_session.entries.len();
        let mut k: usize = 0;
        while k < n
            invariant
                k <= n,
                n == pre.len(),
                n == self.per_session.entries@.len(),
                pre == old(self).per_session.entries@,
                old(self).wf(),
                self.arena == old(self).arena,
                self.router_id == old(self).router_id,
                self.process_withdraws == old(self).process_withdraws,
                self.incoming_counter == old(self).incoming_counter,
                bound == self.incoming_counter as nat,
                mode == self.process_withdraws,
                router_id == self.router_id,
                enable == enables(mode, 1),
                forall|j: int|
                    0 <= j < n ==> (#[trigger] self.per_session.entries@[j]).0 == pre[j].0,
                forall|j: int|
                    k <= j < n ==> (#[trigger] self.per_session.entries@[j]).1 == pre[j].1,
                results.len() == k,
                forall|j: int|
                    0 <= j < k ==> session_wf(
                        (#[trigger] self.per_session.entries@[j]).1,
                        router_id,
                        pre[j].0,
                        bound,
                    ) && final_step(
                        pre[j].1,
                        self.per_session.entries@[j].1,
                        mode,
                        router_id,
                        pre[j].0,
                        results[j],
                    ),
                result is Ok ==> forall|j: int| 0 <= j < k ==> (#[trigger] results[j]) is Ok,
                result is Err ==> exists|j: int| 0 <= j < k && #[trigger] results[j] == result,
            decreases n - k,
        {
            proof {
                lemma_entry(pre, k as int);
                assert(old(self).per_session@.contains_key(pre[k as int].0));
                assert(self.per_session.entries@[k as int].1 == pre[k as int].1);
            }
            let neighbor: RouterId = self.per_session.entries[k].0;
            let ghost before = pre[k as int].1;
            let r0: MonitoringResult = self.per_session.entries[k].1.final_check();
            let ghost mid = self.per_session.entries@[k as int].1;
            proof {
                lemma_timeout_below(before, mid, INFINITY, r0, bound);
            }
            if r0.is_err() {
                self.per_session.entries[k].1.recover(router_id, neighbor, enable);
                proof {
                    lemma_recover_below(
                        mid,
                        self.per_session.entries@[k as int].1,
                        router_id,
                        neighbor,
                        enable,
                        bound,
                    );
                }
            }
            proof {
                let post = self.per_session.entries@[k as int].1;
                assert(final_step(before, post, mode, router_id, neighbor, r0));
                assert(session_wf(post, router_id, neighbor, bound));
            }
            let ghost so_far = results;
            proof {
                results = results.push(r0);
                assert(results[k as int] == r0);
                assert(forall|j: int| 0 <= j < k ==> #[trigger] results[j] == so_far[j]);
            }
            // the first error is reported
            if result.is_ok() {
                result = r0;
                assert(results[k as int] == result);
            } else {
                proof {
                    let j = choose|j: int| 0 <= j < k && #[trigger] so_far[j] == result;
                    assert(results[j] == result);
                }
            }
            k += 1;
        }
        proof {
            let cur = self.per_session.entries@;
            lemma_same_keys(pre, cur);
            lemma_by_key(pre, results, result);
            let all = by_key(pre, results);
            assert forall|m: RouterId| #[trigger] old(self).per_session@.contains_key(m) implies
                session_wf(self.per_session@[m], router_id, m, bound) && final_step(
                old(self).per_session@[m],
                self.per_session@[m],
                mode,
                router_id,
                m,
                all[m],
            ) by {
                assert(self.per_session@.contains_key(m));
                let j = choose|j: int|
                    0 <= j < pre.len() && (#[trigger] pre[j]).0 == m && as_map(pre)[m] == pre[j].1
                        && as_map(cur)[m] == cur[j].1;
                assert(all[pre[j].0] == results[j]);
                assert(session_wf(cur[j].1, router_id, pre[j].0, bound));
            }
            assert(final_steps(*old(self), *self, all));
        }
        result
    }

    /// Configure the monitor to explain outgoing withdraws right away (which is the default). If
    /// that is disabled, they are still taken into account at a timeout and in the final check.
    ///
    /// If a withdraw that was put off turns out to be unexplained, the monitor cannot be used
    /// further.
    pub fn set_process_withdraw_mode(&mut self, mode: ProcessWithdraws) -> (r: MonitoringResult)
        requires
            old(self).wf(),
        ensures
            r is Ok ==> final(self).wf(),
            final(self).process_withdraws == mode,
            final(self).arena == old(self).arena,
            final(self).router_id == old(self).router_id,
            final(self).incoming_counter == old(self).incoming_counter,
            forall|n: RouterId|
                old(self).per_session@.contains_key(n)
                    == #[trigger] final(self).per_session@.contains_key(n),
            exists|results: Map<RouterId, MonitoringResult>| #[trigger]
                outcome(results, r) && enable_steps(*old(self), *final(self), mode, results),
    {
        let ghost pre = self.per_session.entries@;
        let ghost bound = self.incoming_counter as nat;
        self.process_withdraws = mode;
        let mut result: MonitoringResult = Ok(());
        let ghost mut results: Seq<MonitoringResult> = Seq::empty();
        let n: usize = self.per_session.entries.len();
        let mut k: usize = 0;
        while k < n
            invariant
                k <= n,
                n == pre.len(),
                n == self.per_session.entries@.len(),
                pre == old(self).per_session.entries@,
                old(self).wf(),
                self.arena == old(self).arena,
                self.router_id == old(self).router_id,
                self.process_withdraws == mode,
                self.incoming_counter == old(self).incoming_counter,
                bound == self.incoming_counter as nat,
                forall|j: int|
                    0 <= j < n ==> (#[trigger] self.per_session.entries@[j]).0 == pre[j].0,
                forall|j: int|
                    k <= j < n ==> (#[trigger] self.per_session.entries@[j]).1 == pre[j].1,
                results.len() == k,
                forall|j: int|
                    0 <= j < k ==> enable_step(
                        pre[j].1,
                        (#[trigger] self.per_session.entries@[j]).1,
                        enables(mode, pre[j].1.forks@.len() as usize),
                        results[j],
                    ) && all_below(self.per_session.entries@[j].1.forks@, bound),
                result is Ok ==> forall|j: int| 0 <= j < k ==> (#[trigger] results[j]) is Ok,
                result is Err ==> exists|j: int| 0 <= j < k && #[trigger] results[j] == result,
            decreases n - k,
        {
            proof {
                lemma_entry(pre, k as int);
                assert(old(self).per_session@.contains_key(pre[k as int].0));
                assert(self.per_session.entries@[k as int].1 == pre[k as int].1);
            }
            let ghost before = pre[k as int].1;
            let should_enable: bool = mode.should_enable(self.per_session.entries[k].1.forks.len());
            let r0: MonitoringResult = self.per_session.entries[k].1.enable_withdraws(
                should_enable,
            );
            proof {
                let post = self.per_session.entries@[k as int].1;
                lemma_enable_below(before, post, should_enable, r0, bound);
            }
            let ghost so_far = results;
            proof {
                results = results.push(r0);
                assert(results[k as int] == r0);
                assert(forall|j: int| 0 <= j < k ==> #[trigger] results[j] == so_far[j]);
            }
            if r0.is_err() {
                result = r0;
                assert(results[k as int] == result);
            } else {
                proof {
                    if result is Err {
                        let j = choose|j: int| 0 <= j < k && #[trigger] so_far[j] == result;
                        assert(results[j] == result);
                    }
                }
            }
            k += 1;
        }
        proof {
            let cur = self.per_session.entries@;
            lemma_same_keys(pre, cur);
            lemma_by_key(pre, results, result);
            let all = by_key(pre, results);
            assert forall|m: RouterId| #[trigger] old(self).per_session@.contains_key(m) implies
                enable_step(
                old(self).per_session@[m],
                self.per_session@[m],
                enables(mode, old(self).per_session@[m].forks@.len() as usize),
                all[m],
            ) && (result is Ok ==> session_wf(self.per_session@[m], self.router_id, m, bound)) by {
                assert(self.per_session@.contains_key(m));
                let j = choose|j: int|
                    0 <= j < pre.len() && (#[trigger] pre[j]).0 == m && as_map(pre)[m] == pre[j].1
                        && as_map(cur)[m] == cur[j].1;
                assert(all[pre[j].0] == results[j]);
                assert(cur[j].0 == m);
            }
            assert(enable_steps(*old(self), *self, mode, all));
        }
        result
    }
}

/// Every session adapts to a new mode.
pub open spec fn enable_steps<'a>(
    pre: ReorderingMonitor<'a>,
    post: ReorderingMonitor<'a>,
    mode: ProcessWithdraws,
    results: Map<RouterId, MonitoringResult>,
) -> bool {
    &&& forall|n: RouterId| #[trigger]
        results.contains_key(n) <==> pre.per_session@.contains_key(n)
    &&& forall|n: RouterId| #[trigger]
        pre.per_session@.contains_key(n) ==> enable_step(
            pre.per_session@[n],
            post.per_session@[n],
            enables(mode, pre.per_session@[n].forks@.len() as usize),
            results[n],
        )
}

/// `post` is `pre` without its history.
pub open spec fn forgotten<'a>(
    pre: ForkingMonitorPerSession<'a>,
    post: ForkingMonitorPerSession<'a>,
) -> bool {
    &&& post.forks@.len() == pre.forks@.len()
    &&& forall|i: int|
        0 <= i < pre.forks@.len() ==> fork_forgotten(pre.forks@[i], #[trigger] post.forks@[i])
    &&& post.make_progress_on_withdraw == pre.make_progress_on_withdraw
    &&& post.has_unprocessed_withdraw == pre.has_unprocessed_withdraw
    &&& post.recovery == pre.recovery
    &&& post.base == pre.base
    &&& post.received == pre.received
}

/// `post` is `pre` without its history.
pub open spec fn fork_forgotten<'a>(
    pre: MonitorPerSession<'a>,
    post: MonitorPerSession<'a>,
) -> bool {
    &&& post.router_id == pre.router_id
    &&& post.neighbor == pre.neighbor
    &&& post.bgp_process == pre.bgp_process
    &&& post.uncommitted_messages == pre.uncommitted_messages
    &&& post.commit_history@.len() == 0
}

impl<'a> ForkingMonitorPerSession<'a> {
    /// Forget in which order messages were committed.
    pub fn clear_history(&mut self)
        requires
            old(self).ready(),
        ensures
            final(self).ready(),
            forgotten(*old(self), *final(self)),
    {
        let ghost pre = self.forks@;
        let n: usize = self.forks.len();
        let mut k: usize = 0;
        while k < n
            invariant
                k <= n,
                n == pre.len(),
                n == self.forks@.len(),
                pre == old(self).forks@,
                forall|j: int| k <= j < n ==> #[trigger] self.forks@[j] == pre[j],
                forall|j: int| 0 <= j < k ==> fork_forgotten(pre[j], #[trigger] self.forks@[j]),
                self.make_progress_on_withdraw == old(self).make_progress_on_withdraw,
                self.has_unprocessed_withdraw == old(self).has_unprocessed_withdraw,
                self.recovery == old(self).recovery,
                self.base == old(self).base,
                self.received == old(self).received,
            decreases n - k,
        {
            self.forks[k].commit_history.clear();
            k += 1;
        }
        proof {
            assert forall|j: int| 0 <= j < n implies (#[trigger] self.forks@[j]).wf() by {
                assert(fork_forgotten(pre[j], self.forks@[j]));
                assert(pre[j].wf());
            }
            assert forall|j: int| 0 <= j < n implies (#[trigger] self.forks@[j]).router_id
                == self.forks@[0].router_id && self.forks@[j].neighbor == self.forks@[0].neighbor by {
                assert(fork_forgotten(pre[j], self.forks@[j]));
                assert(fork_forgotten(pre[0], self.forks@[0]));
                assert(pre[j].router_id == pre[0].router_id);
            }
        }
    }
}

impl<'a> ReorderingMonitor<'a> {
    /// Check whether the sessions can agree on one order of the incoming messages: whether in some
    /// choice of one fork per session, no message has to be committed before itself. All choices
    /// are tried. Best call this when there are few forks.
    ///
    /// After this, the order in which messages were committed is forgotten.
    pub fn check_incoming_serializability(&mut self) -> (r: MonitoringResult)
        requires
            old(self).wf(),
        ensures
            final(self).wf(),
            final(self).same_setup(old(self)),
            final(self).incoming_counter == old(self).incoming_counter,
            r is Ok <==> serializable(old(self).per_session.entries@),
            r matches Err(e) ==> e == MonitoringError::Unserializable(old(self).router_id),
            forall|n: RouterId| #[trigger]
                old(self).per_session@.contains_key(n) ==> forgotten(
                    old(self).per_session@[n],
                    final(self).per_session@[n],
                ),
    {
        let ghost pre = self.per_session.entries@;
        let ghost bound = self.incoming_counter as nat;
        proof {
            assert forall|j: int| 0 <= j < pre.len() implies all_below(
                (#[trigger] pre[j]).1.forks@,
                bound,
            ) by {
                lemma_entry(pre, j);
                assert(self.per_session@.contains_key(pre[j].0));
            }
        }
        let agree: bool = is_serializable(&self.per_session.entries, self.incoming_counter);
        let n: usize = self.per_session.entries.len();
        let mut k: usize = 0;
        while k < n
            invariant
                k <= n,
                n == pre.len(),
                n == self.per_session.entries@.len(),
                pre == old(self).per_session.entries@,
                old(self).wf(),
                self.arena == old(self).arena,
                self.router_id == old(self).router_id,
                self.process_withdraws == old(self).process_withdraws,
                self.incoming_counter == old(self).incoming_counter,
                forall|j: int|
                    0 <= j < n ==> (#[trigger] self.per_session.entries@[j]).0 == pre[j].0,
                forall|j: int|
                    k <= j < n ==> (#[trigger] self.per_session.entries@[j]).1 == pre[j].1,
                forall|j: int|
                    0 <= j < k ==> (#[trigger] self.per_session.entries@[j]).1.ready() && forgotten(
                        pre[j].1,
                        self.per_session.entries@[j].1,
                    ),
            decreases n - k,
        {
            proof {
                lemma_entry(pre, k as int);
                assert(old(self).per_session@.contains_key(pre[k as int].0));
                assert(self.per_session.entries@[k as int].1 == pre[k as int].1);
            }
            self.per_session.entries[k].1.clear_history();
            k += 1;
        }
        proof {
            let cur = self.per_session.entries@;
            lemma_same_keys(pre, cur);
            assert forall|m: RouterId| #[trigger] old(self).per_session@.contains_key(m) implies
                forgotten(old(self).per_session@[m], self.per_session@[m]) && session_wf(
                self.per_session@[m],
                self.router_id,
                m,
                bound,
            ) by {
                assert(self.per_session@.contains_key(m));
                let j = choose|j: int|
                    0 <= j < pre.len() && (#[trigger] pre[j]).0 == m && as_map(pre)[m] == pre[j].1
                        && as_map(cur)[m] == cur[j].1;
                assert(forgotten(pre[j].1, cur[j].1)) by {
                    assert(cur[j].0 == m);
                }
                assert(fork_forgotten(pre[j].1.forks@[0], cur[j].1.forks@[0]));
                assert forall|i: int| 0 <= i < cur[j].1.forks@.len() implies ids_below(
                    #[trigger] cur[j].1.forks@[i],
                    bound,
                ) by {
                    assert(fork_forgotten(pre[j].1.forks@[i], cur[j].1.forks@[i]));
                    assert(ids_below(pre[j].1.forks@[i], bound));
                    reveal(ids_below);
                }
            }
        }
        if agree {
            Ok(())
        } else {
            Err(MonitoringError::Unserializable(self.router_id))
        }
    }
}

} // verus!
