//! What one fork of the monitor knows of the session with one neighbor.
use vstd::prelude::*;

use crate::bgp::{better, lemma_better_asymmetric, lemma_better_decides, optional_view, same_optional};
use crate::bgp::{same_optional_route, BgpEvent, BgpEventView, BgpRibEntry, BgpRoute, RouteView, RouterId, Time};
use crate::bgp::{SINGLE_PREFIX};
use crate::keyed::{lemma_entry, lemma_key, Keyed};
use crate::monitoring::MonitoringError;

verus! {

/// A message that the router has received, and that it may not have processed yet, as seen by the
/// session with one neighbor.
#[derive(Debug, Clone, Copy)]
pub struct UncommittedMessagePerSession<'a> {
    /// Number of the message, in the order of arrival
    pub id: usize,
    pub time: Time,
    pub event: &'a BgpEvent,
    /// The entry that processing the message puts into the RIB-in. `None` for a withdraw, and for a
    /// route that is rejected.
    pub rib_entry: Option<&'a BgpRibEntry>,
    /// The entry that the neighbor is sent while `rib_entry` is selected
    pub outgoing_route: Option<&'a BgpRibEntry>,
}

/// An entry of the RIB-in, together with what the neighbor is sent while it is selected.
#[derive(Debug, Clone, Copy)]
pub struct CommittedMessagePerSession<'a> {
    pub rib_in: &'a BgpRibEntry,
    pub rib_out: Option<&'a BgpRibEntry>,
}

/// The state of the router, reduced to one prefix and to what one neighbor is sent.
#[derive(Debug)]
pub struct RibPerSession<'a> {
    pub rib_in: Keyed<CommittedMessagePerSession<'a>>,
    pub rib: Option<&'a BgpRibEntry>,
    pub rib_out: Option<&'a BgpRibEntry>,
}

/// One fork of the monitor of a session.
#[derive(Debug)]
pub struct MonitorPerSession<'a> {
    pub router_id: RouterId,
    pub neighbor: RouterId,
    /// The state of the router after it has processed all committed messages
    pub bgp_process: RibPerSession<'a>,
    /// The messages that are not committed yet, per sender in the order of arrival
    pub uncommitted_messages: Keyed<Vec<UncommittedMessagePerSession<'a>>>,
    /// The numbers of the committed messages, batch by batch
    pub commit_history: Vec<Vec<usize>>,
}

/// How far to go into the messages of each neighbor: up to and including the given position.
pub type EventsToExecute = Keyed<usize>;

// ---------------------------------------------------------------------------------------------
// Model
// ---------------------------------------------------------------------------------------------
/// An entry of the RIB-in, and what the neighbor is sent while it is selected.
pub struct Slot {
    pub entry: BgpRibEntry,
    pub out: Option<BgpRibEntry>,
}

/// The RIB-in of the router: at most one slot per neighbor.
pub type Table = Map<RouterId, Slot>;

/// The messages that are waiting, for every router that might have sent some.
pub type Pending<'a> = Map<RouterId, Seq<UncommittedMessagePerSession<'a>>>;

/// A number of messages for every router.
pub type Counts = Map<RouterId, nat>;

pub open spec fn deref_entry(e: Option<&BgpRibEntry>) -> Option<BgpRibEntry> {
    match e {
        Some(x) => Some(*x),
        None => None,
    }
}

impl<'a> View for CommittedMessagePerSession<'a> {
    type V = Slot;

    open spec fn view(&self) -> Slot {
        Slot { entry: *self.rib_in, out: deref_entry(self.rib_out) }
    }
}

/// The table that a map of committed messages stands for.
pub open spec fn as_table(committed: Map<RouterId, CommittedMessagePerSession>) -> Table {
    Map::new(|n: RouterId| committed.contains_key(n), |n: RouterId| committed[n]@)
}

/// The waiting messages of one neighbor.
pub open spec fn queue<'a>(
    lists: Map<RouterId, Vec<UncommittedMessagePerSession<'a>>>,
    n: RouterId,
) -> Seq<UncommittedMessagePerSession<'a>> {
    if lists.contains_key(n) {
        lists[n]@
    } else {
        Seq::empty()
    }
}

/// The waiting messages of all neighbors.
pub open spec fn all_queues<'a>(
    lists: Map<RouterId, Vec<UncommittedMessagePerSession<'a>>>,
) -> Pending<'a> {
    Map::new(|n: RouterId| true, |n: RouterId| queue(lists, n))
}

/// What the table holds for a neighbor.
pub open spec fn lookup(table: Table, n: RouterId) -> Option<Slot> {
    if table.contains_key(n) {
        Some(table[n])
    } else {
        None
    }
}

/// The slot that a message leaves behind.
pub open spec fn slot_of(m: UncommittedMessagePerSession) -> Option<Slot> {
    match m.rib_entry {
        Some(e) => Some(Slot { entry: *e, out: deref_entry(m.outgoing_route) }),
        None => None,
    }
}

/// The slot of neighbor `n` after the first `k` of its waiting messages.
pub open spec fn slot_after(table: Table, pending: Pending, n: RouterId, k: nat) -> Option<Slot> {
    if k == 0 {
        lookup(table, n)
    } else {
        slot_of(pending[n][k - 1])
    }
}

/// The table after the first `counts[n]` waiting messages of every neighbor `n`.
pub open spec fn advanced(table: Table, pending: Pending, counts: Counts) -> Table {
    Map::new(
        |n: RouterId| slot_after(table, pending, n, counts[n]) is Some,
        |n: RouterId| slot_after(table, pending, n, counts[n])->0,
    )
}

/// The entry of neighbor `n` is preferred to every other one.
pub open spec fn winner(table: Table, n: RouterId) -> bool {
    &&& table.contains_key(n)
    &&& forall|m: RouterId|
        #[trigger] table.contains_key(m) && m != n ==> better(table[n].entry, table[m].entry)
}

/// The outcome of the decision process. If the preference is cyclic there may be no winner; then
/// some entry is selected.
pub open spec fn decided(
    table: Table,
    rib: Option<BgpRibEntry>,
    rib_out: Option<BgpRibEntry>,
) -> bool {
    &&& (forall|n: RouterId| !table.contains_key(n)) ==> rib is None && rib_out is None
    &&& (exists|n: RouterId| table.contains_key(n)) ==> exists|n: RouterId|
        #[trigger] table.contains_key(n) && rib == Some(table[n].entry) && rib_out == table[n].out
    &&& forall|n: RouterId| #[trigger]
        winner(table, n) ==> rib == Some(table[n].entry) && rib_out == table[n].out
}

/// An entry of the RIB-out is the given route.
pub open spec fn emits(out: Option<BgpRibEntry>, route: Option<RouteView>) -> bool {
    same_optional(
        match out {
            Some(e) => Some(e.route@),
            None => None,
        },
        route,
    )
}

/// A router with this table sends the neighbor the given route: because the preferred entry leads
/// to it, or because there is no entry and the route is absent.
pub open spec fn exports(table: Table, route: Option<RouteView>) -> bool {
    ||| exists|n: RouterId| #[trigger] winner(table, n) && emits(table[n].out, route)
    ||| route is None && forall|n: RouterId| !table.contains_key(n)
}

/// The numbers of messages that a plan executes.
pub open spec fn counts_of(p: Map<RouterId, usize>) -> Counts {
    Map::new(
        |n: RouterId| true,
        |n: RouterId|
            if p.contains_key(n) {
                (p[n] + 1) as nat
            } else {
                0
            },
    )
}

/// A message makes its sender no obstacle to selecting `target`.
pub open spec fn lowers(m: UncommittedMessagePerSession, target: BgpRibEntry) -> bool {
    match slot_of(m) {
        Some(s) => better(target, s.entry),
        None => true,
    }
}

/// Position `i` holds the first waiting message after which its sender is no obstacle to `target`.
pub open spec fn first_lowering(
    q: Seq<UncommittedMessagePerSession>,
    target: BgpRibEntry,
    i: int,
) -> bool {
    &&& 0 <= i < q.len()
    &&& lowers(q[i], target)
    &&& forall|j: int| 0 <= j < i ==> !lowers(#[trigger] q[j], target)
}

/// Position `i` holds the first waiting message that takes the route of its sender away.
pub open spec fn first_withdraw(q: Seq<UncommittedMessagePerSession>, i: int) -> bool {
    &&& 0 <= i < q.len()
    &&& slot_of(q[i]) is None
    &&& forall|j: int| 0 <= j < i ==> slot_of(#[trigger] q[j]) is Some
}

/// The entry of neighbor `m` keeps `target` from being selected.
pub open spec fn rivals(table: Table, target: BgpRibEntry, m: RouterId) -> bool {
    table.contains_key(m) && m != target.from_id && better(table[m].entry, target)
}

/// `p` executes, of every rival of `target`, just enough messages to get it out of the way, and
/// no other message.
pub open spec fn plan_lowering(
    table: Table,
    pending: Pending,
    target: BgpRibEntry,
    p: Map<RouterId, usize>,
) -> bool {
    &&& forall|m: RouterId| #[trigger] p.contains_key(m) <==> rivals(table, target, m)
    &&& forall|m: RouterId| #[trigger]
        p.contains_key(m) ==> first_lowering(pending[m], target, p[m] as int)
}

/// `p` executes, of every neighbor in the table, just enough messages to withdraw its route.
pub open spec fn plan_withdrawing(
    table: Table,
    pending: Pending,
    p: Map<RouterId, usize>,
) -> bool {
    &&& forall|m: RouterId| #[trigger] p.contains_key(m) <==> table.contains_key(m)
    &&& forall|m: RouterId| #[trigger]
        p.contains_key(m) ==> first_withdraw(pending[m], p[m] as int)
}

/// `p` gets an entry selected that is in the table already and leads to `route`.
pub open spec fn possible_from_table(
    table: Table,
    pending: Pending,
    route: Option<RouteView>,
    n: RouterId,
    p: Map<RouterId, usize>,
) -> bool {
    &&& table.contains_key(n)
    &&& emits(table[n].out, route)
    &&& plan_lowering(table, pending, table[n].entry, p)
}

/// `p` gets the entry selected that message `i` of neighbor `n` brings, which leads to `route`.
pub open spec fn possible_from_message(
    table: Table,
    pending: Pending,
    route: Option<RouteView>,
    n: RouterId,
    i: usize,
    p: Map<RouterId, usize>,
) -> bool {
    &&& i < pending[n].len()
    &&& slot_of(pending[n][i as int]) matches Some(s) && emits(s.out, route) && exists|
        q: Map<RouterId, usize>,
    | #[trigger]
        plan_lowering(table, pending, s.entry, q) && p == q.insert(n, i)
}

/// `p` is a set of messages after which the router sends `route`: an entry of the table gets selected,
/// or all routes are withdrawn, or the entry of a waiting message gets selected. Of the other
/// neighbors it takes no message more than needed for that. There may still be another such set that
/// is a part of it (see `frugal`).
#[verifier::opaque]
pub open spec fn possible(
    table: Table,
    pending: Pending,
    route: Option<RouteView>,
    p: Map<RouterId, usize>,
) -> bool {
    ||| exists|n: RouterId| #[trigger] possible_from_table(table, pending, route, n, p)
    ||| route is None && plan_withdrawing(table, pending, p)
    ||| exists|n: RouterId, i: usize| #[trigger]
        possible_from_message(table, pending, route, n, i, p)
}

/// Plan `q` takes no more messages of any neighbor than plan `p`.
pub open spec fn contained(q: Map<RouterId, usize>, p: Map<RouterId, usize>) -> bool {
    forall|n: RouterId| #[trigger] counts_of(q)[n] <= counts_of(p)[n]
}

/// Plan `q` is looked for before the one that gets the entry of message `i` of neighbor `n` selected.
pub open spec fn found_before(
    table: Table,
    pending: Pending,
    route: Option<RouteView>,
    n: RouterId,
    i: usize,
    q: Map<RouterId, usize>,
) -> bool {
    ||| exists|m: RouterId| #[trigger] possible_from_table(table, pending, route, m, q)
    ||| route is None && plan_withdrawing(table, pending, q)
    ||| exists|j: usize| #[trigger] possible_from_message(table, pending, route, n, j, q) && j < i
}

/// Plan `p` is found after the plans `earlier`: those that select an entry of the table come first,
/// then the one that withdraws all routes, then those that select the entry of a waiting message. Of
/// the messages of one neighbor the first one comes first.
#[verifier::opaque]
pub open spec fn in_turn(
    table: Table,
    pending: Pending,
    route: Option<RouteView>,
    earlier: Seq<Map<RouterId, usize>>,
    p: Map<RouterId, usize>,
) -> bool {
    ||| exists|n: RouterId| #[trigger] possible_from_table(table, pending, route, n, p)
    ||| route is None && plan_withdrawing(table, pending, p) && forall|
        n: RouterId,
        q: Map<RouterId, usize>,
    | #[trigger]
        possible_from_table(table, pending, route, n, q) ==> earlier.contains(q)
    ||| exists|n: RouterId, i: usize| #[trigger]
        possible_from_message(table, pending, route, n, i, p) && forall|q: Map<RouterId, usize>|
         #[trigger]
            found_before(table, pending, route, n, i, q) ==> earlier.contains(q)
}

/// The plans of a list are found one after the other.
pub open spec fn orderly(
    table: Table,
    pending: Pending,
    route: Option<RouteView>,
    plans: Seq<Map<RouterId, usize>>,
) -> bool {
    forall|j: int|
        0 <= j < plans.len() ==> in_turn(
            table,
            pending,
            route,
            plans.take(j),
            #[trigger] plans[j],
        )
}

/// `p` is a possible plan, of which no plan that is looked for before it is a part.
#[verifier::opaque]
pub open spec fn frugal(
    table: Table,
    pending: Pending,
    route: Option<RouteView>,
    p: Map<RouterId, usize>,
) -> bool {
    ||| exists|n: RouterId| #[trigger] possible_from_table(table, pending, route, n, p)
    ||| route is None && plan_withdrawing(table, pending, p) && forall|
        n: RouterId,
        q: Map<RouterId, usize>,
    | #[trigger]
        possible_from_table(table, pending, route, n, q) ==> !contained(q, p)
    ||| exists|n: RouterId, i: usize| #[trigger]
        possible_from_message(table, pending, route, n, i, p) && forall|q: Map<RouterId, usize>|
         #[trigger]
            found_before(table, pending, route, n, i, q) ==> !contained(q, p)
}

/// The numbers of the messages that a plan executes.
pub open spec fn executed_ids(pending: Pending, p: Map<RouterId, usize>) -> Set<usize> {
    Set::new(|id: usize| executes(pending, p, id))
}

/// A plan executes the message with number `id`.
pub open spec fn executes(pending: Pending, p: Map<RouterId, usize>, id: usize) -> bool {
    exists|n: RouterId, i: int| #[trigger]
        p.contains_key(n) && 0 <= i <= p[n] && (#[trigger] pending[n][i]).id == id
}

/// Every entry of the table belongs to the neighbor that it is filed under.
pub open spec fn table_keyed(table: Table) -> bool {
    forall|n: RouterId| #[trigger] table.contains_key(n) ==> table[n].entry.from_id == n
}

/// Every waiting message brings an entry of its sender, if any.
pub open spec fn pending_keyed(pending: Pending) -> bool {
    forall|n: RouterId, i: int|
        0 <= i < pending[n].len() && (#[trigger] pending[n][i]).rib_entry is Some
            ==> pending[n][i].rib_entry->0.from_id == n
}

impl<'a> RibPerSession<'a> {
    /// The table of the router.
    #[verifier::inline]
    pub open spec fn table(&self) -> Table {
        as_table(self.rib_in@)
    }

    pub open spec fn wf(&self) -> bool {
        &&& self.rib_in.wf()
        &&& table_keyed(self.table())
        &&& decided(self.table(), deref_entry(self.rib), deref_entry(self.rib_out))
    }
}

impl<'a> MonitorPerSession<'a> {
    /// The RIB-in after the committed messages.
    #[verifier::inline]
    pub open spec fn table(&self) -> Table {
        self.bgp_process.table()
    }

    /// The waiting messages.
    #[verifier::inline]
    pub open spec fn pending(&self) -> Pending<'a> {
        all_queues(self.uncommitted_messages@)
    }

    /// What the neighbor was sent last.
    pub open spec fn out(&self) -> Option<BgpRibEntry> {
        deref_entry(self.bgp_process.rib_out)
    }

    pub open spec fn wf(&self) -> bool {
        &&& self.bgp_process.wf()
        &&& self.uncommitted_messages.wf()
        &&& pending_keyed(self.pending())
    }
}

/// Two histories are the same, batch by batch.
pub open spec fn same_history(a: Seq<Vec<usize>>, b: Seq<Vec<usize>>) -> bool {
    &&& a.len() == b.len()
    &&& forall|i: int| 0 <= i < a.len() ==> (#[trigger] a[i])@ == b[i]@
}

/// `post` is a copy of `pre`.
pub open spec fn copy_of<'a>(pre: MonitorPerSession<'a>, post: MonitorPerSession<'a>) -> bool {
    &&& post.router_id == pre.router_id
    &&& post.neighbor == pre.neighbor
    &&& post.table() == pre.table()
    &&& post.pending() == pre.pending()
    &&& post.bgp_process.rib == pre.bgp_process.rib
    &&& post.bgp_process.rib_out == pre.bgp_process.rib_out
    &&& same_history(pre.commit_history@, post.commit_history@)
}

/// `post` is `pre` after the messages of plan `p`, which form one batch of the history.
#[verifier::opaque]
pub open spec fn applied<'a>(
    pre: MonitorPerSession<'a>,
    post: MonitorPerSession<'a>,
    p: Map<RouterId, usize>,
) -> bool {
    &&& post.router_id == pre.router_id
    &&& post.neighbor == pre.neighbor
    &&& post.table() == advanced(pre.table(), pre.pending(), counts_of(p))
    &&& forall|n: RouterId| #[trigger]
        post.pending()[n] == pre.pending()[n].skip(counts_of(p)[n] as int)
    &&& post.commit_history@.len() == pre.commit_history@.len() + 1
    &&& same_history(pre.commit_history@, post.commit_history@.drop_last())
    &&& post.commit_history@.last()@.to_set() == executed_ids(pre.pending(), p)
}

/// `post` is one of the states in which `pre` can be once `route` was sent.
pub open spec fn successor<'a>(
    pre: MonitorPerSession<'a>,
    route: Option<RouteView>,
    post: MonitorPerSession<'a>,
) -> bool {
    if emits(pre.out(), route) {
        post == pre
    } else {
        exists|p: Map<RouterId, usize>| #[trigger]
            possible(pre.table(), pre.pending(), route, p) && applied(pre, post, p)
    }
}

/// `forks` are the states in which `pre` is after the plans, which are found one after the other, and
/// are all that there are.
pub open spec fn come_of<'a>(
    pre: MonitorPerSession<'a>,
    route: Option<RouteView>,
    plans: Seq<Map<RouterId, usize>>,
    forks: Seq<MonitorPerSession<'a>>,
) -> bool {
    &&& plans.len() == forks.len()
    &&& orderly(pre.table(), pre.pending(), route, plans)
    &&& forall|p: Map<RouterId, usize>| #[trigger]
        possible(pre.table(), pre.pending(), route, p) ==> plans.contains(p)
    &&& forall|j: int| 0 <= j < forks.len() ==> applied(pre, #[trigger] forks[j], plans[j])
}

/// `forks` are the explanations of `route` by `pre`, in the order in which they are found.
#[verifier::opaque]
pub open spec fn explanations<'a>(
    pre: MonitorPerSession<'a>,
    route: Option<RouteView>,
    forks: Seq<MonitorPerSession<'a>>,
) -> bool {
    if emits(pre.out(), route) {
        forks == seq![pre]
    } else {
        exists|plans: Seq<Map<RouterId, usize>>| #[trigger] come_of(pre, route, plans, forks)
    }
}

/// Some state is possible once `route` was sent.
pub open spec fn can_emit(pre: MonitorPerSession, route: Option<RouteView>) -> bool {
    ||| emits(pre.out(), route)
    ||| exists|p: Map<RouterId, usize>| #[trigger] possible(pre.table(), pre.pending(), route, p)
}

// ---------------------------------------------------------------------------------------------
// The plans do what they are meant to
// ---------------------------------------------------------------------------------------------
/// There is at most one plan that lowers the rivals of a target.
pub proof fn lemma_plan_lowering_unique(
    table: Table,
    pending: Pending,
    target: BgpRibEntry,
    p: Map<RouterId, usize>,
    q: Map<RouterId, usize>,
)
    requires
        plan_lowering(table, pending, target, p),
        plan_lowering(table, pending, target, q),
    ensures
        p == q,
{
    assert forall|m: RouterId| #[trigger] p.contains_key(m) implies p[m] == q[m] by {
        assert(rivals(table, target, m));
        assert(q.contains_key(m));
        let (i, j) = (p[m] as int, q[m] as int);
        assert(first_lowering(pending[m], target, i));
        assert(first_lowering(pending[m], target, j));
        if i < j {
            assert(!lowers(pending[m][i], target));
        }
        if j < i {
            assert(!lowers(pending[m][j], target));
        }
    }
    assert forall|m: RouterId| #[trigger] q.contains_key(m) implies p.contains_key(m) by {
        assert(rivals(table, target, m));
    }
    assert(p =~= q);
}

/// There is at most one plan that withdraws all routes.
pub proof fn lemma_plan_withdrawing_unique(
    table: Table,
    pending: Pending,
    p: Map<RouterId, usize>,
    q: Map<RouterId, usize>,
)
    requires
        plan_withdrawing(table, pending, p),
        plan_withdrawing(table, pending, q),
    ensures
        p == q,
{
    assert forall|m: RouterId| #[trigger] p.contains_key(m) implies p[m] == q[m] by {
        assert(table.contains_key(m));
        assert(q.contains_key(m));
        let (i, j) = (p[m] as int, q[m] as int);
        assert(first_withdraw(pending[m], i));
        assert(first_withdraw(pending[m], j));
        if i < j {
            assert(slot_of(pending[m][i]) is Some);
        }
        if j < i {
            assert(slot_of(pending[m][j]) is Some);
        }
    }
    assert forall|m: RouterId| #[trigger] q.contains_key(m) implies p.contains_key(m) by {
        assert(table.contains_key(m));
    }
    assert(p =~= q);
}

/// Every plan stays within the waiting messages.
pub proof fn lemma_plan_within(
    table: Table,
    pending: Pending,
    route: Option<RouteView>,
    p: Map<RouterId, usize>,
)
    requires
        possible(table, pending, route, p),
    ensures
        forall|n: RouterId| #[trigger] p.contains_key(n) ==> p[n] < pending[n].len(),
{
    reveal(possible);
    if exists|n: RouterId| #[trigger] possible_from_table(table, pending, route, n, p) {
    } else if route is None && plan_withdrawing(table, pending, p) {
    } else {
        let (n, i) = choose|n: RouterId, i: usize| #[trigger]
            possible_from_message(table, pending, route, n, i, p);
        let s = slot_of(pending[n][i as int])->0;
        let q = choose|q: Map<RouterId, usize>| #[trigger]
            plan_lowering(table, pending, s.entry, q) && p == q.insert(n, i);
        assert forall|m: RouterId| #[trigger] p.contains_key(m) implies p[m] < pending[m].len() by {
            if m != n {
                assert(q.contains_key(m));
            }
        }
    }
}

/// After its plan, the target is the winner, if it is in the table.
pub proof fn lemma_lowering_selects(
    table: Table,
    pending: Pending,
    target: Slot,
    n: RouterId,
    p: Map<RouterId, usize>,
    q: Map<RouterId, usize>,
)
    requires
        table_keyed(table),
        pending_keyed(pending),
        target.entry.from_id == n,
        plan_lowering(table, pending, target.entry, q),
        forall|m: RouterId| m != n ==> (#[trigger] p.contains_key(m) <==> q.contains_key(m)),
        forall|m: RouterId| m != n && #[trigger] p.contains_key(m) ==> p[m] == q[m],
        lookup(advanced(table, pending, counts_of(p)), n) == Some(target),
    ensures
        winner(advanced(table, pending, counts_of(p)), n),
{
    let after = advanced(table, pending, counts_of(p));
    assert forall|m: RouterId| #[trigger] after.contains_key(m) && m != n implies better(
        after[n].entry,
        after[m].entry,
    ) by {
        if p.contains_key(m) {
            assert(q.contains_key(m));
            assert(first_lowering(pending[m], target.entry, q[m] as int));
            assert(after[m] == slot_of(pending[m][p[m] as int])->0);
        } else {
            assert(!q.contains_key(m));
            assert(!rivals(table, target.entry, m));
            assert(after[m] == table[m]);
            lemma_better_decides(target.entry, table[m].entry);
        }
    }
}

/// After a possible plan the router sends the route that it is made for. The decision process
/// cannot select anything else.
pub proof fn law_plans_lead_to_the_route(
    table: Table,
    pending: Pending,
    route: Option<RouteView>,
    p: Map<RouterId, usize>,
)
    requires
        table_keyed(table),
        pending_keyed(pending),
        possible(table, pending, route, p),
    ensures
        exports(advanced(table, pending, counts_of(p)), route),
        table_keyed(advanced(table, pending, counts_of(p))),
{
    reveal(possible);
    let after = advanced(table, pending, counts_of(p));
    lemma_plan_within(table, pending, route, p);
    lemma_advanced_keyed(table, pending, counts_of(p));
    if exists|n: RouterId| #[trigger] possible_from_table(table, pending, route, n, p) {
        let n = choose|n: RouterId| #[trigger] possible_from_table(table, pending, route, n, p);
        assert(!rivals(table, table[n].entry, n));
        assert(!p.contains_key(n));
        lemma_lowering_selects(table, pending, table[n], n, p, p);
        assert(emits(after[n].out, route));
    } else if route is None && plan_withdrawing(table, pending, p) {
        assert forall|n: RouterId| !after.contains_key(n) by {
            if table.contains_key(n) {
                assert(p.contains_key(n));
                assert(first_withdraw(pending[n], p[n] as int));
            } else {
                assert(!p.contains_key(n));
            }
        }
    } else {
        let (n, i) = choose|n: RouterId, i: usize| #[trigger]
            possible_from_message(table, pending, route, n, i, p);
        let s = slot_of(pending[n][i as int])->0;
        let q = choose|q: Map<RouterId, usize>| #[trigger]
            plan_lowering(table, pending, s.entry, q) && p == q.insert(n, i);
        assert(pending[n][i as int].rib_entry is Some);
        lemma_lowering_selects(table, pending, s, n, p, q);
        assert(emits(after[n].out, route));
    }
}

/// Advancing keeps every entry under its neighbor.
pub proof fn lemma_advanced_keyed(table: Table, pending: Pending, counts: Counts)
    requires
        table_keyed(table),
        pending_keyed(pending),
        forall|n: RouterId| #[trigger] counts[n] <= pending[n].len(),
    ensures
        table_keyed(advanced(table, pending, counts)),
{
    let after = advanced(table, pending, counts);
    assert forall|n: RouterId| #[trigger] after.contains_key(n) implies after[n].entry.from_id
        == n by {
        let k = counts[n];
        if k > 0 {
            assert(pending[n][k - 1].rib_entry is Some);
        }
    }
}

/// A decided table that exports a route has it in the RIB-out.
pub proof fn lemma_exports_decided(
    table: Table,
    rib: Option<BgpRibEntry>,
    rib_out: Option<BgpRibEntry>,
    route: Option<RouteView>,
)
    requires
        decided(table, rib, rib_out),
        exports(table, route),
    ensures
        emits(rib_out, route),
{
    if exists|n: RouterId| #[trigger] winner(table, n) && emits(table[n].out, route) {
        let n = choose|n: RouterId| #[trigger] winner(table, n) && emits(table[n].out, route);
        assert(rib_out == table[n].out);
    }
}

/// The plans are the smallest ones: take a router that has processed `counts[n]` further messages of
/// every neighbor `n`, and that now sends `route`. Then some plan explains `route` and goes no
/// further than the router did.
pub proof fn law_plans_are_smallest(
    table: Table,
    pending: Pending,
    route: Option<RouteView>,
    counts: Counts,
)
    requires
        table_keyed(table),
        pending_keyed(pending),
        forall|n: RouterId| #[trigger] counts[n] <= pending[n].len(),
        forall|n: RouterId| #[trigger] pending[n].len() <= usize::MAX,
        exports(advanced(table, pending, counts), route),
    ensures
        exists|p: Map<RouterId, usize>| #[trigger]
            possible(table, pending, route, p) && forall|n: RouterId| #[trigger]
                counts_of(p)[n] <= counts[n],
{
    reveal(possible);
    let after = advanced(table, pending, counts);
    if exists|n: RouterId| #[trigger] winner(after, n) && emits(after[n].out, route) {
        let n = choose|n: RouterId| #[trigger] winner(after, n) && emits(after[n].out, route);
        let target = after[n].entry;
        lemma_advanced_keyed(table, pending, counts);
        // how far each rival has to go
        assert forall|m: RouterId| rivals(table, target, m) implies exists|i: int|
            #[trigger] first_lowering(pending[m], target, i) && i < counts[m] by {
            lemma_better_asymmetric(table[m].entry, target);
            let k = counts[m];
            if k == 0 {
                assert(after[m] == table[m]);
                assert(after.contains_key(m));
                assert(false);
            }
            assert(lowers(pending[m][k - 1], target)) by {
                if slot_of(pending[m][k - 1]) is Some {
                    assert(after.contains_key(m));
                }
            }
            lemma_first_lowering(pending[m], target, k - 1);
        }
        let q = Map::<RouterId, usize>::new(
            |m: RouterId| rivals(table, target, m),
            |m: RouterId| (choose|i: int| first_lowering(pending[m], target, i)) as usize,
        );
        assert forall|m: RouterId| #[trigger] q.contains_key(m) implies first_lowering(
            pending[m],
            target,
            q[m] as int,
        ) && q[m] < counts[m] by {
            let w = choose|i: int| #[trigger]
                first_lowering(pending[m], target, i) && i < counts[m];
            let c = choose|i: int| first_lowering(pending[m], target, i);
            assert(first_lowering(pending[m], target, w));
            assert(first_lowering(pending[m], target, c));
            if c < w {
                assert(!lowers(pending[m][c], target));
            }
            if w < c {
                assert(!lowers(pending[m][w], target));
            }
        }
        assert(plan_lowering(table, pending, target, q));
        if counts[n] == 0 {
            assert(after[n] == table[n]);
            assert(possible_from_table(table, pending, route, n, q));
            assert(possible(table, pending, route, q));
            assert forall|m: RouterId| #[trigger] counts_of(q)[m] <= counts[m] by {
                assert(q.contains_key(m) || !q.contains_key(m));
            }
        } else {
            let i = (counts[n] - 1) as usize;
            let p = q.insert(n, i);
            assert(slot_of(pending[n][i as int]) == Some(after[n]));
            assert(possible_from_message(table, pending, route, n, i, p));
            assert(possible(table, pending, route, p));
            assert forall|m: RouterId| #[trigger] counts_of(p)[m] <= counts[m] by {
                assert(q.contains_key(m) || !q.contains_key(m));
            }
        }
    } else {
        assert forall|m: RouterId| #[trigger] table.contains_key(m) implies exists|i: int|
            #[trigger] first_withdraw(pending[m], i) && i < counts[m] by {
            let k = counts[m];
            assert(!after.contains_key(m));
            lemma_first_withdraw(pending[m], k - 1);
        }
        let p = Map::<RouterId, usize>::new(
            |m: RouterId| table.contains_key(m),
            |m: RouterId| (choose|i: int| first_withdraw(pending[m], i)) as usize,
        );
        assert forall|m: RouterId| #[trigger] p.contains_key(m) implies first_withdraw(
            pending[m],
            p[m] as int,
        ) && p[m] < counts[m] by {
            assert(table.contains_key(m));
            let w = choose|i: int| #[trigger] first_withdraw(pending[m], i) && i < counts[m];
            let c = choose|i: int| first_withdraw(pending[m], i);
            assert(first_withdraw(pending[m], w));
            assert(first_withdraw(pending[m], c));
            if c < w {
                assert(slot_of(pending[m][c]) is Some);
            }
            if w < c {
                assert(slot_of(pending[m][w]) is Some);
            }
        }
        assert(plan_withdrawing(table, pending, p));
        assert(possible(table, pending, route, p));
        assert forall|m: RouterId| #[trigger] counts_of(p)[m] <= counts[m] by {
            assert(p.contains_key(m) || !p.contains_key(m));
        }
    }
}

/// If some message lowers its sender, there is a first one that does.
proof fn lemma_first_lowering(
    q: Seq<UncommittedMessagePerSession>,
    target: BgpRibEntry,
    k: int,
) -> (i: int)
    requires
        0 <= k < q.len(),
        lowers(q[k], target),
    ensures
        first_lowering(q, target, i),
        i <= k,
    decreases k,
{
    if exists|j: int| 0 <= j < k && lowers(#[trigger] q[j], target) {
        let j = choose|j: int| 0 <= j < k && lowers(#[trigger] q[j], target);
        lemma_first_lowering(q, target, j)
    } else {
        k
    }
}

/// If some message is a withdraw, there is a first one.
proof fn lemma_first_withdraw(q: Seq<UncommittedMessagePerSession>, k: int) -> (i: int)
    requires
        0 <= k < q.len(),
        slot_of(q[k]) is None,
    ensures
        first_withdraw(q, i),
        i <= k,
    decreases k,
{
    if exists|j: int| 0 <= j < k && slot_of(#[trigger] q[j]) is None {
        let j = choose|j: int| 0 <= j < k && slot_of(#[trigger] q[j]) is None;
        lemma_first_withdraw(q, j)
    } else {
        k
    }
}

// ---------------------------------------------------------------------------------------------
// The decision process
// ---------------------------------------------------------------------------------------------
/// The table after a message of `n` that leaves the given slot behind.
pub open spec fn with_slot(table: Table, n: RouterId, slot: Option<Slot>) -> Table {
    match slot {
        Some(s) => table.insert(n, s),
        None => table.remove(n),
    }
}

impl<'a> UncommittedMessagePerSession<'a> {
    /// Whether the message is a withdraw, or a route that is rejected.
    pub fn is_effective_withdraw(&self) -> (r: bool)
        ensures
            r == (slot_of(*self) is None),
    {
        self.rib_entry.is_none()
    }

    /// The entry that the message puts into the RIB-in.
    pub fn committed(&self) -> (r: Option<CommittedMessagePerSession<'a>>)
        ensures
            match r {
                Some(c) => slot_of(*self) == Some(c@),
                None => slot_of(*self) is None,
            },
    {
        match self.rib_entry {
            Some(e) => Some(
                CommittedMessagePerSession { rib_in: e, rib_out: self.outgoing_route },
            ),
            None => None,
        }
    }
}

impl<'a> RibPerSession<'a> {
    /// The state of a router without any route.
    pub fn empty() -> (r: Self)
        ensures
            r.wf(),
            r.table() == Map::<RouterId, Slot>::empty(),
    {
        let r = RibPerSession { rib_in: Keyed::new(), rib: None, rib_out: None };
        assert(r.table() =~= Map::<RouterId, Slot>::empty());
        r
    }

    /// A copy of the state.
    pub fn copy(&self) -> (r: Self)
        requires
            self.wf(),
        ensures
            r.wf(),
            r.table() == self.table(),
            r.rib == self.rib,
            r.rib_out == self.rib_out,
    {
        let mut rib_in: Keyed<CommittedMessagePerSession<'a>> = Keyed::new();
        for i in 0..self.rib_in.entries.len()
            invariant
                rib_in.entries@ == self.rib_in.entries@.take(i as int),
        {
            let e: (u32, CommittedMessagePerSession<'a>) = (
                self.rib_in.entries[i].0,
                self.rib_in.entries[i].1,
            );
            rib_in.entries.push(e);
            assert(self.rib_in.entries@.take(i + 1) =~= self.rib_in.entries@.take(i as int).push(
                self.rib_in.entries@[i as int],
            ));
        }
        assert(self.rib_in.entries@.take(self.rib_in.entries@.len() as int)
            =~= self.rib_in.entries@);
        RibPerSession { rib_in, rib: self.rib, rib_out: self.rib_out }
    }

    /// Commit a message: replace the entry of its sender, and select again.
    pub fn commit(&mut self, msg: UncommittedMessagePerSession<'a>, from: RouterId)
        requires
            old(self).wf(),
            msg.rib_entry is Some ==> msg.rib_entry->0.from_id == from,
        ensures
            final(self).wf(),
            final(self).table() == with_slot(old(self).table(), from, slot_of(msg)),
    {
        match msg.committed() {
            Some(c) => {
                self.rib_in.insert(from, c);
            },
            None => {
                self.rib_in.remove(from);
            },
        }
        assert(self.table() =~= with_slot(old(self).table(), from, slot_of(msg)));
        self.run_decision_process();
    }

    /// Enter a slot: replace the entry of its neighbor, and select again.
    pub fn enter(&mut self, c: CommittedMessagePerSession<'a>, from: RouterId)
        requires
            old(self).wf(),
            c.rib_in.from_id == from,
        ensures
            final(self).wf(),
            final(self).table() == old(self).table().insert(from, c@),
    {
        self.rib_in.insert(from, c);
        assert(self.table() =~= old(self).table().insert(from, c@));
        self.run_decision_process();
    }

    /// Select the preferred entry.
    pub fn run_decision_process(&mut self)
        requires
            old(self).rib_in.wf(),
            table_keyed(old(self).table()),
        ensures
            final(self).wf(),
            final(self).table() == old(self).table(),
            final(self).rib_in == old(self).rib_in,
    {
        let ghost table = self.table();
        let n: usize = self.rib_in.entries.len();
        if n == 0 {
            self.rib = None;
            self.rib_out = None;
            assert forall|k: RouterId| !table.contains_key(k) by {
                if table.contains_key(k) {
                    let i = lemma_key(self.rib_in.entries@, k);
                }
            }
            return;
        }
        let mut best: usize = 0;
        let mut i: usize = 1;
        proof {
            lemma_entry(self.rib_in.entries@, 0);
        }
        while i < n
            invariant
                n == self.rib_in.entries@.len(),
                self.rib_in.wf(),
                self.rib_in == old(self).rib_in,
                table == self.table(),
                table_keyed(table),
                1 <= i <= n,
                best < i,
                forall|w: int|
                    0 <= w < i && winner(table, (#[trigger] self.rib_in.entries@[w]).0) ==> best
                        == w,
            decreases n - i,
        {
            proof {
                lemma_entry(self.rib_in.entries@, i as int);
                lemma_entry(self.rib_in.entries@, best as int);
            }
            let ghost bk = self.rib_in.entries@[best as int].0;
            let ghost ik = self.rib_in.entries@[i as int].0;
            let ghost prev = best;
            proof {
                assert(bk != ik);
                assert(table.contains_key(bk) && table.contains_key(ik));
                lemma_better_asymmetric(table[bk].entry, table[ik].entry);
                lemma_better_asymmetric(table[ik].entry, table[bk].entry);
            }
            if !self.rib_in.entries[best].1.rib_in.is_better_than(
                self.rib_in.entries[i].1.rib_in,
            ) {
                best = i;
            }
            proof {
                assert forall|w: int|
                    0 <= w < i + 1 && winner(
                        table,
                        (#[trigger] self.rib_in.entries@[w]).0,
                    ) implies best == w by {
                    if w < i {
                        assert(prev == w);
                    }
                }
            }
            i += 1;
        }
        let c: CommittedMessagePerSession<'a> = self.rib_in.entries[best].1;
        self.rib = Some(c.rib_in);
        self.rib_out = c.rib_out;
        proof {
            lemma_entry(self.rib_in.entries@, best as int);
            let bk = self.rib_in.entries@[best as int].0;
            assert(table.contains_key(bk) && table[bk] == c@);
            assert forall|k: RouterId| #[trigger] winner(table, k) implies table[k] == c@ by {
                let w = lemma_key(self.rib_in.entries@, k);
                assert(self.rib_in.entries@[w].0 == k);
            }
        }
    }
}

// ---------------------------------------------------------------------------------------------
// Waiting messages
// ---------------------------------------------------------------------------------------------
/// Split the messages up to and including a position off the start of a list.
fn take_start<'a>(
    list: &mut Vec<UncommittedMessagePerSession<'a>>,
    up_to: usize,
) -> (r: Vec<UncommittedMessagePerSession<'a>>)
    requires
        up_to < old(list)@.len(),
    ensures
        r@ == old(list)@.take(up_to + 1),
        final(list)@ == old(list)@.skip(up_to + 1),
{
    let ghost before = list@;
    assert(list.len() == list@.len());
    let mut rest: Vec<UncommittedMessagePerSession<'a>> = list.split_off(up_to + 1);
    std::mem::swap(&mut rest, list);
    assert(rest@ =~= before.take(up_to + 1));
    assert(list@ =~= before.skip(up_to + 1));
    rest
}

/// Copy a list of messages.
fn copy_messages<'a>(list: &Vec<UncommittedMessagePerSession<'a>>) -> (r: Vec<
    UncommittedMessagePerSession<'a>,
>)
    ensures
        r@ == list@,
{
    let mut r: Vec<UncommittedMessagePerSession<'a>> = Vec::new();
    for i in 0..list.len()
        invariant
            r@ == list@.take(i as int),
    {
        r.push(list[i]);
        assert(list@.take(i + 1) =~= list@.take(i as int).push(list@[i as int]));
    }
    assert(list@.take(list@.len() as int) =~= list@);
    r
}

/// Copy a list of message numbers.
fn copy_ids(list: &Vec<usize>) -> (r: Vec<usize>)
    ensures
        r@ == list@,
{
    let mut r: Vec<usize> = Vec::new();
    for i in 0..list.len()
        invariant
            r@ == list@.take(i as int),
    {
        r.push(list[i]);
        assert(list@.take(i + 1) =~= list@.take(i as int).push(list@[i as int]));
    }
    assert(list@.take(list@.len() as int) =~= list@);
    r
}

/// The slot for `n` after a part of its messages, seen from a table that has them in.
proof fn lemma_with_slot(table: Table, n: RouterId, slot: Option<Slot>, m: RouterId)
    ensures
        lookup(with_slot(table, n, slot), m) == if m == n {
            slot
        } else {
            lookup(table, m)
        },
{
}

/// A plan that lowers the rivals is listed.
spec fn listed(list: Seq<EventsToExecute>, p: Map<RouterId, usize>) -> bool {
    exists|j: int| 0 <= j < list.len() && (#[trigger] list[j])@ == p
}

/// Every listed plan stays listed when another one is appended.
proof fn lemma_listed_push(list: Seq<EventsToExecute>, e: EventsToExecute)
    ensures
        listed(list.push(e), e@),
        forall|p: Map<RouterId, usize>| #[trigger] listed(list, p) ==> listed(list.push(e), p),
{
    let after = list.push(e);
    assert(after[list.len() as int]@ == e@);
    assert forall|p: Map<RouterId, usize>| #[trigger] listed(list, p) implies listed(after, p) by {
        let j = choose|j: int| 0 <= j < list.len() && (#[trigger] list[j])@ == p;
        assert(after[j]@ == p);
    }
}

/// The plans of a list.
spec fn plans_of(list: Seq<EventsToExecute>) -> Seq<Map<RouterId, usize>> {
    Seq::new(list.len(), |j: int| list[j]@)
}

/// A plan that is found in its turn is possible, and frugal if none of those before it is a part of it.
pub proof fn lemma_in_turn(
    table: Table,
    pending: Pending,
    route: Option<RouteView>,
    earlier: Seq<Map<RouterId, usize>>,
    p: Map<RouterId, usize>,
)
    requires
        in_turn(table, pending, route, earlier, p),
    ensures
        possible(table, pending, route, p),
        (forall|j: int| 0 <= j < earlier.len() ==> !contained(#[trigger] earlier[j], p)) ==> frugal(
            table,
            pending,
            route,
            p,
        ),
{
    reveal(in_turn);
    reveal(possible);
    reveal(frugal);
    assert forall|q: Map<RouterId, usize>|
        earlier.contains(q) && (forall|j: int|
            0 <= j < earlier.len() ==> !contained(#[trigger] earlier[j], p))
            implies !#[trigger] contained(q, p) by {
        let j = choose|j: int| 0 <= j < earlier.len() && earlier[j] == q;
        assert(!contained(earlier[j], p));
    }
}

/// A list stays orderly if a plan is appended that is in its turn.
proof fn lemma_orderly_push(
    table: Table,
    pending: Pending,
    route: Option<RouteView>,
    list: Seq<EventsToExecute>,
    e: EventsToExecute,
)
    requires
        orderly(table, pending, route, plans_of(list)),
        in_turn(table, pending, route, plans_of(list), e@),
    ensures
        orderly(table, pending, route, plans_of(list.push(e))),
{
    let (before, after) = (plans_of(list), plans_of(list.push(e)));
    assert forall|j: int| 0 <= j < after.len() implies in_turn(
        table,
        pending,
        route,
        after.take(j),
        #[trigger] after[j],
    ) by {
        assert(after.take(j) =~= before.take(j));
        if j < before.len() {
            assert(after[j] == before[j]);
        } else {
            assert(before.take(j) =~= before);
        }
    }
}

/// The plans of one queue, found after the plans `earlier`.
spec fn queue_turn(
    table: Table,
    pending: Pending,
    route: Option<RouteView>,
    n: RouterId,
    earlier: Seq<Map<RouterId, usize>>,
    p: Map<RouterId, usize>,
) -> bool {
    exists|i: usize| #[trigger]
        possible_from_message(table, pending, route, n, i, p) && forall|
            j: usize,
            q: Map<RouterId, usize>,
        | #[trigger]
            possible_from_message(table, pending, route, n, j, q) && j < i ==> earlier.contains(q)
}

/// The plan for the next message of a queue is appended in its turn.
proof fn lemma_queue_push(
    table: Table,
    pending: Pending,
    route: Option<RouteView>,
    n: RouterId,
    i: usize,
    list: Seq<EventsToExecute>,
    e: EventsToExecute,
)
    requires
        forall|j: int|
            0 <= j < list.len() ==> queue_turn(
                table,
                pending,
                route,
                n,
                plans_of(list).take(j),
                #[trigger] plans_of(list)[j],
            ),
        forall|j: usize, p: Map<RouterId, usize>|
            j < i && #[trigger] possible_from_message(table, pending, route, n, j, p) ==> listed(
                list,
                p,
            ),
        possible_from_message(table, pending, route, n, i, e@),
    ensures
        forall|j: int|
            0 <= j < list.len() + 1 ==> queue_turn(
                table,
                pending,
                route,
                n,
                plans_of(list.push(e)).take(j),
                #[trigger] plans_of(list.push(e))[j],
            ),
{
    let (before, after) = (plans_of(list), plans_of(list.push(e)));
    assert forall|j: int| 0 <= j < list.len() + 1 implies queue_turn(
        table,
        pending,
        route,
        n,
        after.take(j),
        #[trigger] after[j],
    ) by {
        assert(after.take(j) =~= before.take(j));
        if j < before.len() {
            assert(after[j] == before[j]);
        } else {
            assert(before.take(j) =~= before);
            assert forall|d: usize, q: Map<RouterId, usize>| #[trigger]
                possible_from_message(table, pending, route, n, d, q) && d < i implies before.contains(
                q,
            ) by {
                assert(listed(list, q));
                let c = choose|c: int| 0 <= c < list.len() && (#[trigger] list[c])@ == q;
                assert(before[c] == q);
            }
        }
    }
}

/// A list stays orderly if the plans of a queue are appended.
proof fn lemma_orderly_append(
    table: Table,
    pending: Pending,
    route: Option<RouteView>,
    n: RouterId,
    list: Seq<EventsToExecute>,
    extra: Seq<EventsToExecute>,
)
    requires
        orderly(table, pending, route, plans_of(list)),
        forall|m: RouterId, p: Map<RouterId, usize>| #[trigger]
            possible_from_table(table, pending, route, m, p) ==> listed(list, p),
        forall|p: Map<RouterId, usize>|
            route is None && #[trigger] plan_withdrawing(table, pending, p) ==> listed(list, p),
        forall|j: int|
            0 <= j < extra.len() ==> queue_turn(
                table,
                pending,
                route,
                n,
                plans_of(extra).take(j),
                #[trigger] plans_of(extra)[j],
            ),
    ensures
        orderly(table, pending, route, plans_of(list + extra)),
{
    let (before, after) = (plans_of(list), plans_of(list + extra));
    assert forall|j: int| 0 <= j < after.len() implies in_turn(
        table,
        pending,
        route,
        after.take(j),
        #[trigger] after[j],
    ) by {
        if j < before.len() {
            assert(after.take(j) =~= before.take(j));
            assert(after[j] == before[j]);
        } else {
            let c = j - before.len();
            let p = after[j];
            let first = plans_of(extra).take(c);
            assert(p == plans_of(extra)[c]);
            assert(queue_turn(table, pending, route, n, first, p));
            let i = choose|i: usize| #[trigger]
                possible_from_message(table, pending, route, n, i, p) && forall|
                    j: usize,
                    q: Map<RouterId, usize>,
                | #[trigger]
                    possible_from_message(table, pending, route, n, j, q) && j < i
                        ==> first.contains(q);
            assert forall|q: Map<RouterId, usize>| #[trigger]
                found_before(table, pending, route, n, i, q) implies after.take(j).contains(q) by {
                if listed(list, q) {
                    let d = choose|d: int| 0 <= d < list.len() && (#[trigger] list[d])@ == q;
                    assert(after.take(j)[d] == q);
                } else {
                    let i1 = choose|i1: usize| #[trigger]
                        possible_from_message(table, pending, route, n, i1, q) && i1 < i;
                    assert(first.contains(q));
                    let d = choose|d: int| 0 <= d < first.len() && first[d] == q;
                    assert(after.take(j)[before.len() + d] == q);
                }
            }
            reveal(in_turn);
        }
    }
}

/// The explanations of a route are the states in which the monitor can be once the route was sent.
pub proof fn lemma_explanations<'a>(
    pre: MonitorPerSession<'a>,
    route: Option<RouteView>,
    forks: Seq<MonitorPerSession<'a>>,
)
    requires
        explanations(pre, route, forks),
    ensures
        forall|j: int|
            0 <= j < forks.len() ==> successor(pre, route, #[trigger] forks[j])
                && forks[j].router_id == pre.router_id && forks[j].neighbor == pre.neighbor,
        emits(pre.out(), route) ==> forks.contains(pre),
        !emits(pre.out(), route) ==> forall|p: Map<RouterId, usize>| #[trigger]
            possible(pre.table(), pre.pending(), route, p) ==> exists|j: int|
                0 <= j < forks.len() && applied(pre, #[trigger] forks[j], p),
{
    reveal(explanations);
    if emits(pre.out(), route) {
        assert(forks[0] == pre);
    } else {
        let plans = choose|plans: Seq<Map<RouterId, usize>>| #[trigger]
            come_of(pre, route, plans, forks);
        assert forall|j: int| 0 <= j < forks.len() implies successor(pre, route, #[trigger] forks[j])
            && forks[j].router_id == pre.router_id && forks[j].neighbor == pre.neighbor by {
            assert(applied(pre, forks[j], plans[j]));
            lemma_in_turn(pre.table(), pre.pending(), route, plans.take(j), plans[j]);
            reveal(applied);
        }
        assert forall|p: Map<RouterId, usize>| #[trigger]
            possible(pre.table(), pre.pending(), route, p) implies exists|j: int|
            0 <= j < forks.len() && applied(pre, #[trigger] forks[j], p) by {
            assert(plans.contains(p));
            let j = choose|j: int| 0 <= j < plans.len() && plans[j] == p;
            assert(applied(pre, forks[j], p));
        }
    }
}

impl<'a> MonitorPerSession<'a> {
    /// A monitor without waiting messages.
    pub fn new(router_id: RouterId, neighbor: RouterId, bgp_process: RibPerSession<'a>) -> (r: Self)
        requires
            bgp_process.wf(),
        ensures
            r.wf(),
            r.router_id == router_id,
            r.neighbor == neighbor,
            r.bgp_process == bgp_process,
            forall|n: RouterId| #[trigger] r.pending()[n] == Seq::<UncommittedMessagePerSession>::empty(),
            r.commit_history@.len() == 0,
    {
        MonitorPerSession {
            router_id,
            neighbor,
            bgp_process,
            uncommitted_messages: Keyed::new(),
            commit_history: Vec::new(),
        }
    }

    /// A copy of the monitor.
    pub fn fork(&self) -> (r: Self)
        requires
            self.wf(),
        ensures
            r.wf(),
            copy_of(*self, r),
    {
        let mut uncommitted: Keyed<Vec<UncommittedMessagePerSession<'a>>> = Keyed::new();
        let ghost src = self.uncommitted_messages.entries@;
        for i in 0..self.uncommitted_messages.entries.len()
            invariant
                src == self.uncommitted_messages.entries@,
                uncommitted.entries@.len() == i,
                forall|j: int|
                    0 <= j < i ==> (#[trigger] uncommitted.entries@[j]).0 == src[j].0
                        && uncommitted.entries@[j].1@ == src[j].1@,
        {
            let e: (u32, Vec<UncommittedMessagePerSession<'a>>) = (
                self.uncommitted_messages.entries[i].0,
                copy_messages(&self.uncommitted_messages.entries[i].1),
            );
            uncommitted.entries.push(e);
        }
        let mut history: Vec<Vec<usize>> = Vec::new();
        for i in 0..self.commit_history.len()
            invariant
                history@.len() == i,
                forall|j: int|
                    0 <= j < i ==> (#[trigger] history@[j])@ == self.commit_history@[j]@,
        {
            let batch: Vec<usize> = copy_ids(&self.commit_history[i]);
            history.push(batch);
        }
        let r = MonitorPerSession {
            router_id: self.router_id,
            neighbor: self.neighbor,
            bgp_process: self.bgp_process.copy(),
            uncommitted_messages: uncommitted,
            commit_history: history,
        };
        proof {
            let dst = r.uncommitted_messages.entries@;
            assert forall|a: int, b: int|
                0 <= a < dst.len() && 0 <= b < dst.len() && (#[trigger] dst[a]).0 == (
                #[trigger] dst[b]).0 implies a == b by {
                assert(src[a].0 == src[b].0);
            }
            assert forall|n: RouterId| queue(r.uncommitted_messages@, n) == queue(
                self.uncommitted_messages@,
                n,
            ) by {
                if self.uncommitted_messages@.contains_key(n) {
                    let j = lemma_key(src, n);
                    lemma_entry(dst, j);
                }
                if r.uncommitted_messages@.contains_key(n) {
                    let j = lemma_key(dst, n);
                    lemma_entry(src, j);
                }
            }
            assert(r.pending() =~= self.pending());
        }
        r
    }

    /// Note an incoming message. It is not processed yet.
    pub fn process_incoming(&mut self, from: RouterId, message: UncommittedMessagePerSession<'a>)
        requires
            old(self).wf(),
            message.rib_entry is Some ==> message.rib_entry->0.from_id == from,
        ensures
            final(self).wf(),
            final(self).pending() == old(self).pending().insert(
                from,
                old(self).pending()[from].push(message),
            ),
            final(self).router_id == old(self).router_id,
            final(self).neighbor == old(self).neighbor,
            final(self).bgp_process == old(self).bgp_process,
            final(self).commit_history == old(self).commit_history,
    {
        if self.uncommitted_messages.contains(from) {
            match self.uncommitted_messages.get_mut(from) {
                Some(list) => {
                    list.push(message);
                },
                None => {},
            }
        } else {
            let mut list: Vec<UncommittedMessagePerSession<'a>> = Vec::new();
            list.push(message);
            self.uncommitted_messages.insert(from, list);
        }
        proof {
            let want = old(self).pending().insert(from, old(self).pending()[from].push(message));
            assert forall|n: RouterId| #[trigger] self.pending()[n] == want[n] by {
                assert(old(self).pending()[n] == queue(old(self).uncommitted_messages@, n));
            }
            assert(self.pending() =~= want);
            assert forall|n: RouterId, i: int|
                0 <= i < self.pending()[n].len() && (#[trigger] self.pending()[n][i]).rib_entry is Some
                implies self.pending()[n][i].rib_entry->0.from_id == n by {
                let before = old(self).pending()[n];
                if n != from || i < before.len() {
                    assert(self.pending()[n][i] == before[i]);
                }
            }
        }
    }

    /// The number of waiting messages of a neighbor.
    pub fn num_uncommitted(&self, n: RouterId) -> (r: usize)
        requires
            self.wf(),
        ensures
            r == self.pending()[n].len(),
    {
        match self.uncommitted_messages.get(n) {
            Some(l) => l.len(),
            None => 0,
        }
    }

    /// The first waiting message of `n` after which it is no obstacle to `target`.
    fn find_lowering(&self, n: RouterId, target: &BgpRibEntry) -> (r: Option<usize>)
        requires
            self.wf(),
        ensures
            match r {
                Some(i) => first_lowering(self.pending()[n], *target, i as int),
                None => forall|i: int| !first_lowering(self.pending()[n], *target, i),
            },
    {
        let list: &Vec<UncommittedMessagePerSession<'a>> = match self.uncommitted_messages.get(n) {
            Some(l) => l,
            None => {
                return None;
            },
        };
        assert(list@ == self.pending()[n]);
        for i in 0..list.len()
            invariant
                list@ == self.pending()[n],
                forall|j: int| 0 <= j < i ==> !lowers(#[trigger] list@[j], *target),
        {
            let low: bool = match list[i].rib_entry {
                Some(e) => target.is_better_than(e),
                None => true,
            };
            if low {
                return Some(i);
            }
        }
        None
    }

    /// The first waiting message of `n` that takes its route away.
    fn find_withdraw(&self, n: RouterId) -> (r: Option<usize>)
        requires
            self.wf(),
        ensures
            match r {
                Some(i) => first_withdraw(self.pending()[n], i as int),
                None => forall|i: int| !first_withdraw(self.pending()[n], i),
            },
    {
        let list: &Vec<UncommittedMessagePerSession<'a>> = match self.uncommitted_messages.get(n) {
            Some(l) => l,
            None => {
                return None;
            },
        };
        assert(list@ == self.pending()[n]);
        for i in 0..list.len()
            invariant
                list@ == self.pending()[n],
                forall|j: int| 0 <= j < i ==> slot_of(#[trigger] list@[j]) is Some,
        {
            if list[i].is_effective_withdraw() {
                return Some(i);
            }
        }
        None
    }

    /// Construct the smallest set of messages after which no entry is preferred to `target`.
    pub fn construct_events_by_updating_better_to_worse(&self, target: &BgpRibEntry) -> (r: Option<
        EventsToExecute,
    >)
        requires
            self.wf(),
        ensures
            match r {
                Some(p) => p.wf() && plan_lowering(self.table(), self.pending(), *target, p@),
                None => forall|p: Map<RouterId, usize>| #[trigger]
                    plan_lowering(self.table(), self.pending(), *target, p) ==> false,
            },
    {
        let mut events: EventsToExecute = Keyed::new();
        let ghost table = self.table();
        let ghost pending = self.pending();
        let ghost entries = self.bgp_process.rib_in.entries@;
        for k in 0..self.bgp_process.rib_in.entries.len()
            invariant
                self.wf(),
                table == self.table(),
                pending == self.pending(),
                entries == self.bgp_process.rib_in.entries@,
                events.wf(),
                forall|m: RouterId| #[trigger]
                    events@.contains_key(m) <==> (rivals(table, *target, m) && exists|j: int|
                        0 <= j < k && (#[trigger] entries[j]).0 == m),
                forall|m: RouterId| #[trigger]
                    events@.contains_key(m) ==> first_lowering(
                        pending[m],
                        *target,
                        events@[m] as int,
                    ),
        {
            proof {
                lemma_entry(entries, k as int);
            }
            let n: RouterId = self.bgp_process.rib_in.entries[k].0;
            let e: &BgpRibEntry = self.bgp_process.rib_in.entries[k].1.rib_in;
            assert(table.contains_key(n));
            assert(table[n] == self.bgp_process.rib_in@[n]@);
            assert(e.from_id == n);
            let ghost before = events@;
            if e.from_id != target.from_id && e.is_better_than(target) {
                assert(rivals(table, *target, n));
                match self.find_lowering(n, target) {
                    Some(i) => {
                        events.insert(n, i);
                    },
                    None => {
                        assert forall|p: Map<RouterId, usize>| #[trigger]
                            plan_lowering(table, pending, *target, p) implies false by {
                            assert(p.contains_key(n));
                            assert(first_lowering(pending[n], *target, p[n] as int));
                        }
                        return None;
                    },
                }
            }
            proof {
                assert forall|m: RouterId| #[trigger] events@.contains_key(m) <==> (rivals(
                    table,
                    *target,
                    m,
                ) && exists|j: int| 0 <= j < k + 1 && (#[trigger] entries[j]).0 == m) by {
                    if m == n {
                        assert(entries[k as int].0 == n);
                    } else {
                        assert(events@.contains_key(m) == before.contains_key(m));
                        if exists|j: int| 0 <= j < k + 1 && (#[trigger] entries[j]).0 == m {
                            let j = choose|j: int|
                                0 <= j < k + 1 && (#[trigger] entries[j]).0 == m;
                            assert(j < k);
                        }
                    }
                }
            }
        }
        proof {
            assert forall|m: RouterId| #[trigger] events@.contains_key(m) <==> rivals(
                table,
                *target,
                m,
            ) by {
                if rivals(table, *target, m) {
                    let j = lemma_key(entries, m);
                    assert(entries[j].0 == m);
                }
            }
        }
        Some(events)
    }

    /// Construct the smallest set of messages after which no neighbor has a route.
    pub fn construct_events_by_withdrawing_all(&self) -> (r: Option<EventsToExecute>)
        requires
            self.wf(),
        ensures
            match r {
                Some(p) => p.wf() && plan_withdrawing(self.table(), self.pending(), p@),
                None => forall|p: Map<RouterId, usize>| #[trigger]
                    plan_withdrawing(self.table(), self.pending(), p) ==> false,
            },
    {
        let mut events: EventsToExecute = Keyed::new();
        let ghost table = self.table();
        let ghost pending = self.pending();
        let ghost entries = self.bgp_process.rib_in.entries@;
        for k in 0..self.bgp_process.rib_in.entries.len()
            invariant
                self.wf(),
                table == self.table(),
                pending == self.pending(),
                entries == self.bgp_process.rib_in.entries@,
                events.wf(),
                forall|m: RouterId| #[trigger]
                    events@.contains_key(m) <==> exists|j: int|
                        0 <= j < k && (#[trigger] entries[j]).0 == m,
                forall|m: RouterId| #[trigger]
                    events@.contains_key(m) ==> first_withdraw(pending[m], events@[m] as int),
        {
            proof {
                lemma_entry(entries, k as int);
            }
            let n: RouterId = self.bgp_process.rib_in.entries[k].0;
            assert(table.contains_key(n));
            let ghost before = events@;
            match self.find_withdraw(n) {
                Some(i) => {
                    events.insert(n, i);
                },
                None => {
                    assert forall|p: Map<RouterId, usize>| #[trigger]
                        plan_withdrawing(table, pending, p) implies false by {
                        assert(p.contains_key(n));
                        assert(first_withdraw(pending[n], p[n] as int));
                    }
                    return None;
                },
            }
            proof {
                assert forall|m: RouterId| #[trigger] events@.contains_key(m) <==> exists|j: int|
                    0 <= j < k + 1 && (#[trigger] entries[j]).0 == m by {
                    if m == n {
                        assert(entries[k as int].0 == n);
                    } else {
                        assert(events@.contains_key(m) == before.contains_key(m));
                        if exists|j: int| 0 <= j < k + 1 && (#[trigger] entries[j]).0 == m {
                            let j = choose|j: int|
                                0 <= j < k + 1 && (#[trigger] entries[j]).0 == m;
                            assert(j < k);
                        }
                    }
                }
            }
        }
        proof {
            assert forall|m: RouterId| #[trigger] events@.contains_key(m)
                <==> table.contains_key(m) by {
                if table.contains_key(m) {
                    let j = lemma_key(entries, m);
                    assert(entries[j].0 == m);
                }
                if events@.contains_key(m) {
                    let j = choose|j: int| 0 <= j < entries.len() && (#[trigger] entries[j]).0 == m;
                    lemma_entry(entries, j);
                }
            }
        }
        Some(events)
    }
}

/// Tables that hold the same for every neighbor are equal.
proof fn lemma_same_table(a: Table, b: Table)
    requires
        forall|n: RouterId| lookup(a, n) == #[trigger] lookup(b, n),
    ensures
        a == b,
{
    assert forall|n: RouterId| a.contains_key(n) == #[trigger] b.contains_key(n) && (b.contains_key(n)
        ==> a[n] == b[n]) by {
        assert(lookup(a, n) == lookup(b, n));
    }
    assert(a =~= b);
}

/// The first `k` pairs of a plan execute the message with number `id`.
spec fn executes_among(
    pending: Pending,
    entries: Seq<(u32, usize)>,
    p: Map<RouterId, usize>,
    k: int,
    id: usize,
) -> bool {
    exists|n: RouterId, i: int| #[trigger]
        key_among(entries, k, n) && 0 <= i <= p[n] && (#[trigger] pending[n][i]).id == id
}

/// A number occurs among the first `k` messages.
spec fn id_among(msgs: Seq<UncommittedMessagePerSession>, k: int, id: usize) -> bool {
    exists|i: int| 0 <= i < k && (#[trigger] msgs[i]).id == id
}

impl<'a> MonitorPerSession<'a> {
    /// Commit the messages of a plan, as one batch of the history. The neighbor is then sent what
    /// the plan was made for.
    pub fn apply_single_possibility(
        &mut self,
        events_to_execute: EventsToExecute,
        want_rib_out: Option<&BgpRoute>,
    )
        requires
            old(self).wf(),
            events_to_execute.wf(),
            possible(
                old(self).table(),
                old(self).pending(),
                optional_view(want_rib_out),
                events_to_execute@,
            ),
        ensures
            final(self).wf(),
            applied(*old(self), *final(self), events_to_execute@),
            emits(final(self).out(), optional_view(want_rib_out)),
    {
        let ghost pre = *self;
        let ghost table = self.table();
        let ghost pending = self.pending();
        let ghost p = events_to_execute@;
        let ghost entries = events_to_execute.entries@;
        proof {
            lemma_plan_within(table, pending, optional_view(want_rib_out), p);
        }
        let mut batch: Vec<usize> = Vec::new();
        for k in 0..events_to_execute.entries.len()
            invariant
                entries == events_to_execute.entries@,
                events_to_execute.wf(),
                p == events_to_execute@,
                pre.wf(),
                table == pre.table(),
                pending == pre.pending(),
                self.router_id == pre.router_id,
                self.neighbor == pre.neighbor,
                self.commit_history == pre.commit_history,
                self.uncommitted_messages.wf(),
                self.bgp_process.wf(),
                forall|n: RouterId| #[trigger] p.contains_key(n) ==> p[n] < pending[n].len(),
                forall|n: RouterId| #[trigger]
                    self.pending()[n] == if key_among(entries, k as int, n) {
                        pending[n].skip(p[n] + 1)
                    } else {
                        pending[n]
                    },
                forall|n: RouterId| #[trigger]
                    lookup(self.table(), n) == if key_among(entries, k as int, n) {
                        slot_of(pending[n][p[n] as int])
                    } else {
                        lookup(table, n)
                    },
                forall|id: usize| #[trigger]
                    batch@.contains(id) <==> executes_among(pending, entries, p, k as int, id),
        {
            let n: RouterId = events_to_execute.entries[k].0;
            let position: usize = events_to_execute.entries[k].1;
            proof {
                lemma_entry(entries, k as int);
                assert(p.contains_key(n) && p[n] == position);
                assert(!key_among(entries, k as int, n));
                assert(self.pending()[n] == pending[n]);
                assert(queue(self.uncommitted_messages@, n) == pending[n]);
            }
            let ghost here = self.pending();
            let ghost before_table = self.table();
            let ghost before_batch = batch@;
            let msgs: Vec<UncommittedMessagePerSession<'a>> = match self.uncommitted_messages.get_mut(
                n,
            ) {
                Some(list) => take_start(list, position),
                None => Vec::new(),
            };
            assert(msgs@ == pending[n].take(position + 1));
            for j in 0..msgs.len()
                invariant
                    pending_keyed(pending),
                    msgs@ == pending[n].take(position + 1),
                    position < pending[n].len(),
                    self.router_id == pre.router_id,
                    self.neighbor == pre.neighbor,
                    self.commit_history == pre.commit_history,
                    self.uncommitted_messages.wf(),
                    forall|m: RouterId| #[trigger]
                        self.pending()[m] == if m == n {
                            pending[n].skip(position + 1)
                        } else {
                            here[m]
                        },
                    self.bgp_process.wf(),
                    forall|m: RouterId| #[trigger]
                        lookup(self.table(), m) == if m == n && j > 0 {
                            slot_of(msgs@[j - 1])
                        } else {
                            lookup(before_table, m)
                        },
                    forall|id: usize| #[trigger]
                        batch@.contains(id) <==> before_batch.contains(id) || id_among(
                            msgs@,
                            j as int,
                            id,
                        ),
            {
                let msg: UncommittedMessagePerSession<'a> = msgs[j];
                assert(pending[n][j as int] == msg);
                let ghost batch0 = batch@;
                let ghost table0 = self.table();
                batch.push(msg.id);
                proof {
                    assert forall|id: usize| #[trigger] batch@.contains(id) <==> before_batch.contains(
                        id,
                    ) || id_among(msgs@, j + 1, id) by {
                        assert(batch@.contains(id) <==> batch0.contains(id) || id == msg.id) by {
                            broadcast use vstd::seq_lib::group_seq_properties;

                        }
                        if id_among(msgs@, j + 1, id) {
                            let i = choose|i: int| 0 <= i < j + 1 && (#[trigger] msgs@[i]).id == id;
                            if i < j {
                                assert(id_among(msgs@, j as int, id));
                            }
                        }
                        if id_among(msgs@, j as int, id) {
                            let i = choose|i: int| 0 <= i < j && (#[trigger] msgs@[i]).id == id;
                            assert(msgs@[i].id == id);
                        }
                        if id == msg.id {
                            assert(msgs@[j as int].id == id);
                        }
                    }
                }
                self.bgp_process.commit(msg, n);
                proof {
                    assert forall|m: RouterId| #[trigger] lookup(self.table(), m) == if m == n {
                        slot_of(msg)
                    } else {
                        lookup(before_table, m)
                    } by {
                        lemma_with_slot(table0, n, slot_of(msg), m);
                        assert(m != n ==> lookup(table0, m) == lookup(before_table, m));
                    }
                }
            }
            proof {
                assert(msgs@[position as int] == pending[n][position as int]);
                assert forall|m: RouterId| #[trigger] self.pending()[m] == if key_among(
                    entries,
                    k + 1,
                    m,
                ) {
                    pending[m].skip(p[m] + 1)
                } else {
                    pending[m]
                } by {
                    lemma_key_among_next(entries, k as int, m);
                    assert(m != n ==> self.pending()[m] == here[m]);
                }
                assert forall|m: RouterId| #[trigger] lookup(self.table(), m) == if key_among(
                    entries,
                    k + 1,
                    m,
                ) {
                    slot_of(pending[m][p[m] as int])
                } else {
                    lookup(table, m)
                } by {
                    lemma_key_among_next(entries, k as int, m);
                    assert(m != n ==> lookup(self.table(), m) == lookup(before_table, m));
                }
                assert forall|id: usize| #[trigger] batch@.contains(id) <==> executes_among(
                    pending,
                    entries,
                    p,
                    k + 1,
                    id,
                ) by {
                    if executes_among(pending, entries, p, k + 1, id) {
                        let (m, i) = choose|m: RouterId, i: int| #[trigger]
                            key_among(entries, k + 1, m) && 0 <= i <= p[m] && (
                            #[trigger] pending[m][i]).id == id;
                        lemma_key_among_next(entries, k as int, m);
                        if m == n {
                            assert(msgs@[i] == pending[n][i]);
                            assert(id_among(msgs@, msgs@.len() as int, id));
                        } else {
                            assert(executes_among(pending, entries, p, k as int, id));
                        }
                    }
                    if executes_among(pending, entries, p, k as int, id) {
                        let (m, i) = choose|m: RouterId, i: int| #[trigger]
                            key_among(entries, k as int, m) && 0 <= i <= p[m] && (
                            #[trigger] pending[m][i]).id == id;
                        lemma_key_among_next(entries, k as int, m);
                        assert(pending[m][i].id == id);
                    }
                    if id_among(msgs@, msgs@.len() as int, id) {
                        let i = choose|i: int|
                            0 <= i < msgs@.len() && (#[trigger] msgs@[i]).id == id;
                        assert(pending[n][i].id == id);
                        lemma_key_among_next(entries, k as int, n);
                    }
                }
            }
        }
        let ghost ids = batch@;
        self.commit_history.push(batch);
        proof {
            reveal(applied);
            let len = entries.len() as int;
            assert forall|n: RouterId| key_among(entries, len, n) == p.contains_key(n) by {
                if p.contains_key(n) {
                    let j = lemma_key(entries, n);
                    assert(entries[j].0 == n);
                }
                if key_among(entries, len, n) {
                    let j = choose|j: int| 0 <= j < len && (#[trigger] entries[j]).0 == n;
                    lemma_entry(entries, j);
                }
            }
            let after = advanced(table, pending, counts_of(p));
            assert forall|n: RouterId| lookup(self.table(), n) == #[trigger] lookup(after, n) by {
                assert(key_among(entries, len, n) == p.contains_key(n));
                assert(lookup(self.table(), n) == if key_among(entries, len, n) {
                    slot_of(pending[n][p[n] as int])
                } else {
                    lookup(table, n)
                });
            }
            lemma_same_table(self.table(), after);
            assert forall|n: RouterId| #[trigger] self.pending()[n] == pending[n].skip(
                counts_of(p)[n] as int,
            ) by {
                assert(key_among(entries, len, n) == p.contains_key(n));
                assert(pending[n].skip(0) =~= pending[n]);
            }
            assert forall|id: usize| ids.contains(id) == #[trigger] executes(pending, p, id) by {
                assert(executes_among(pending, entries, p, len, id) == executes(pending, p, id)) by {
                    if executes(pending, p, id) {
                        let (n, i) = choose|n: RouterId, i: int| #[trigger]
                            p.contains_key(n) && 0 <= i <= p[n] && (#[trigger] pending[n][i]).id
                                == id;
                        assert(key_among(entries, len, n));
                        assert(pending[n][i].id == id);
                    }
                    if executes_among(pending, entries, p, len, id) {
                        let (n, i) = choose|n: RouterId, i: int| #[trigger]
                            key_among(entries, len, n) && 0 <= i <= p[n] && (#[trigger] pending[n][i]).id
                                == id;
                        assert(p.contains_key(n));
                        assert(pending[n][i].id == id);
                    }
                }
            }
            assert(ids.to_set() =~= executed_ids(pending, p)) by {
                assert forall|id: usize| ids.to_set().contains(id) == #[trigger] executed_ids(
                    pending,
                    p,
                ).contains(id) by {
                    assert(executes(pending, p, id) == ids.contains(id));
                }
            }
            assert(self.commit_history@.drop_last() =~= pre.commit_history@);
            assert forall|n: RouterId, i: int|
                0 <= i < self.pending()[n].len() && (#[trigger] self.pending()[n][i]).rib_entry is Some
                implies self.pending()[n][i].rib_entry->0.from_id == n by {
                let c = counts_of(p)[n] as int;
                assert(self.pending()[n] == pending[n].skip(c));
                assert(self.pending()[n][i] == pending[n][i + c]);
            }
            law_plans_lead_to_the_route(table, pending, optional_view(want_rib_out), p);
            lemma_exports_decided(
                self.table(),
                deref_entry(self.bgp_process.rib),
                deref_entry(self.bgp_process.rib_out),
                optional_view(want_rib_out),
            );
        }
    }

    /// Apply each of the possibilities, on a fork of its own.
    pub fn apply_all_possibilities(
        self,
        possibilities: Vec<EventsToExecute>,
        want_rib_out: Option<&BgpRoute>,
    ) -> (r: Vec<Self>)
        requires
            self.wf(),
            possibilities@.len() > 0,
            forall|i: int|
                0 <= i < possibilities@.len() ==> (#[trigger] possibilities@[i]).wf() && possible(
                    self.table(),
                    self.pending(),
                    optional_view(want_rib_out),
                    possibilities@[i]@,
                ),
        ensures
            r@.len() == possibilities@.len(),
            forall|i: int|
                0 <= i < r@.len() ==> (#[trigger] r@[i]).wf() && applied(
                    self,
                    r@[i],
                    possibilities@[i]@,
                ) && emits(r@[i].out(), optional_view(want_rib_out)),
    {
        let mut possibilities: Vec<EventsToExecute> = possibilities;
        let mut new_forks: Vec<Self> = Vec::new();
        if possibilities.len() == 1 {
            // nothing to copy
            let mut monitor: MonitorPerSession<'a> = self;
            let only: EventsToExecute = possibilities.remove(0);
            monitor.apply_single_possibility(only, want_rib_out);
            new_forks.push(monitor);
            return new_forks;
        }
        let ghost all = possibilities@;
        let ghost pre = self;
        let mut i: usize = 0;
        let n: usize = possibilities.len();
        while i < n
            invariant
                self == pre,
                self.wf(),
                n == all.len(),
                i <= n,
                possibilities@ == all.skip(i as int),
                forall|j: int|
                    0 <= j < all.len() ==> (#[trigger] all[j]).wf() && possible(
                        self.table(),
                        self.pending(),
                        optional_view(want_rib_out),
                        all[j]@,
                    ),
                new_forks@.len() == i,
                forall|j: int|
                    0 <= j < i ==> (#[trigger] new_forks@[j]).wf() && applied(
                        pre,
                        new_forks@[j],
                        all[j]@,
                    ) && emits(new_forks@[j].out(), optional_view(want_rib_out)),
            decreases n - i,
        {
            assert(possibilities@[0] == all[i as int]);
            let events: EventsToExecute = possibilities.remove(0);
            assert(possibilities@ =~= all.skip(i + 1));
            let mut fork: MonitorPerSession<'a> = self.fork();
            let ghost copy = fork;
            fork.apply_single_possibility(events, want_rib_out);
            assert(applied(pre, fork, all[i as int]@)) by {
                reveal(applied);
                assert(applied(copy, fork, all[i as int]@));
                assert(same_history(pre.commit_history@, copy.commit_history@));
            }
            new_forks.push(fork);
            i += 1;
        }
        new_forks
    }
}

/// The message that leaves a route behind.
pub open spec fn event_of(route: Option<RouteView>) -> BgpEventView {
    match route {
        Some(r) => BgpEventView::Update(r),
        None => BgpEventView::Withdraw(SINGLE_PREFIX),
    }
}

/// The error for a route that a fork cannot explain.
pub open spec fn is_unexpected(
    e: MonitoringError,
    router_id: RouterId,
    neighbor: RouterId,
    route: Option<RouteView>,
) -> bool {
    e matches MonitoringError::UnexpectedEvent { router, session, event } && router == router_id
        && session == neighbor && event@ == event_of(route)
}

/// The messages that arrived at a time or before.
pub open spec fn arrived_by<'a>(time: Time) -> spec_fn(UncommittedMessagePerSession<'a>) -> bool {
    |m: UncommittedMessagePerSession<'a>| m.time <= time
}

/// The messages that arrived after a time.
pub open spec fn arrived_after<'a>(time: Time) -> spec_fn(
    UncommittedMessagePerSession<'a>,
) -> bool {
    |m: UncommittedMessagePerSession<'a>| m.time > time
}

/// What the table holds for a neighbor after those of its messages `q` that arrived by `time`.
pub open spec fn slot_by(
    table: Table,
    n: RouterId,
    q: Seq<UncommittedMessagePerSession>,
    time: Time,
) -> Option<Slot> {
    let due = q.filter(arrived_by(time));
    if due.len() == 0 {
        lookup(table, n)
    } else {
        slot_of(due.last())
    }
}

/// No message arrived by `time`.
pub open spec fn nothing_due(pending: Pending, time: Time) -> bool {
    forall|n: RouterId| (#[trigger] pending[n]).filter(arrived_by(time)).len() == 0
}

/// `post` is `pre` after every message that arrived by `time`. The history is unchanged. If there was no
/// such message, then so are the selected route, and the one that was sent last.
pub open spec fn applied_before<'a>(
    pre: MonitorPerSession<'a>,
    post: MonitorPerSession<'a>,
    time: Time,
) -> bool {
    &&& post.router_id == pre.router_id
    &&& post.neighbor == pre.neighbor
    &&& post.commit_history == pre.commit_history
    &&& forall|n: RouterId| #[trigger]
        post.pending()[n] == pre.pending()[n].filter(arrived_after(time))
    &&& forall|n: RouterId| #[trigger]
        lookup(post.table(), n) == slot_by(pre.table(), n, pre.pending()[n], time)
    &&& nothing_due(pre.pending(), time) ==> post.bgp_process == pre.bgp_process
}

/// `a` has at least as many waiting messages of every neighbor as `b` has.
#[verifier::opaque]
pub open spec fn subsumption(a: MonitorPerSession, b: MonitorPerSession) -> bool {
    forall|n: RouterId| (#[trigger] b.pending()[n]).len() <= a.pending()[n].len()
}

/// The message that leaves a route behind.
fn make_event(route: Option<&BgpRoute>) -> (r: BgpEvent)
    ensures
        r@ == event_of(optional_view(route)),
{
    match route {
        Some(r) => BgpEvent::Update(r.clone()),
        None => BgpEvent::Withdraw(SINGLE_PREFIX),
    }
}

/// The route of an optional entry.
pub fn route_of<'b>(e: Option<&'b BgpRibEntry>) -> (r: Option<&'b BgpRoute>)
    ensures
        forall|route: Option<RouteView>| #[trigger]
            same_optional(optional_view(r), route) == emits(deref_entry(e), route),
        optional_view(r) == match deref_entry(e) {
            Some(x) => Some(x.route@),
            None => None,
        },
{
    match e {
        Some(x) => Some(&x.route),
        None => None,
    }
}

impl<'a> MonitorPerSession<'a> {
    /// The plans that get an entry selected that is in the table already.
    fn possibilities_from_table(&self, route: Option<&BgpRoute>) -> (r: Vec<EventsToExecute>)
        requires
            self.wf(),
        ensures
            forall|j: int|
                0 <= j < r@.len() ==> (#[trigger] r@[j]).wf() && possible(
                    self.table(),
                    self.pending(),
                    optional_view(route),
                    r@[j]@,
                ),
            forall|n: RouterId, p: Map<RouterId, usize>| #[trigger]
                possible_from_table(self.table(), self.pending(), optional_view(route), n, p)
                    ==> listed(r@, p),
            orderly(self.table(), self.pending(), optional_view(route), plans_of(r@)),
    {
        let ghost table = self.table();
        let ghost pending = self.pending();
        let ghost want = optional_view(route);
        let ghost entries = self.bgp_process.rib_in.entries@;
        let mut possibilities: Vec<EventsToExecute> = Vec::new();
        for k in 0..self.bgp_process.rib_in.entries.len()
            invariant
                self.wf(),
                table == self.table(),
                pending == self.pending(),
                want == optional_view(route),
                entries == self.bgp_process.rib_in.entries@,
                forall|j: int|
                    0 <= j < possibilities@.len() ==> (#[trigger] possibilities@[j]).wf()
                        && possible(table, pending, want, possibilities@[j]@),
                orderly(table, pending, want, plans_of(possibilities@)),
                forall|j: int, p: Map<RouterId, usize>|
                    0 <= j < k && #[trigger] possible_from_table(
                        table,
                        pending,
                        want,
                        entries[j].0,
                        p,
                    ) ==> listed(possibilities@, p),
        {
            proof {
                lemma_entry(entries, k as int);
            }
            let ghost n = entries[k as int].0;
            let ghost before = possibilities@;
            let c: CommittedMessagePerSession<'a> = self.bgp_process.rib_in.entries[k].1;
            assert(table.contains_key(n) && table[n] == c@);
            if same_optional_route(route_of(c.rib_out), route) {
                assert(emits(table[n].out, want));
                match self.construct_events_by_updating_better_to_worse(c.rib_in) {
                    Some(possibility) => {
                        proof {
                            reveal(possible);
                            assert(possible_from_table(table, pending, want, n, possibility@));
                            lemma_listed_push(before, possibility);
                            assert(in_turn(table, pending, want, plans_of(before), possibility@)) by {
                                reveal(in_turn);
                            }
                            lemma_orderly_push(table, pending, want, before, possibility);
                            assert forall|p: Map<RouterId, usize>| #[trigger]
                                possible_from_table(table, pending, want, n, p) implies p
                                == possibility@ by {
                                lemma_plan_lowering_unique(
                                    table,
                                    pending,
                                    table[n].entry,
                                    p,
                                    possibility@,
                                );
                            }
                        }
                        possibilities.push(possibility);
                    },
                    None => {},
                }
            }
        }
        proof {
            assert forall|n: RouterId, p: Map<RouterId, usize>| #[trigger]
                possible_from_table(table, pending, want, n, p) implies listed(possibilities@, p) by {
                let j = lemma_key(entries, n);
                assert(possible_from_table(table, pending, want, entries[j].0, p));
            }
        }
        possibilities
    }

    /// The plans that get the entry of a waiting message of one neighbor selected, for the first
    /// message first.
    fn possibilities_from_queue(
        &self,
        n: RouterId,
        list: &Vec<UncommittedMessagePerSession<'a>>,
        route: Option<&BgpRoute>,
    ) -> (r: Vec<EventsToExecute>)
        requires
            self.wf(),
            list@ == self.pending()[n],
        ensures
            forall|j: int|
                0 <= j < r@.len() ==> (#[trigger] r@[j]).wf() && possible(
                    self.table(),
                    self.pending(),
                    optional_view(route),
                    r@[j]@,
                ),
            forall|i: usize, p: Map<RouterId, usize>| #[trigger]
                possible_from_message(
                    self.table(),
                    self.pending(),
                    optional_view(route),
                    n,
                    i,
                    p,
                ) ==> listed(r@, p),
            forall|j: int|
                0 <= j < r@.len() ==> queue_turn(
                    self.table(),
                    self.pending(),
                    optional_view(route),
                    n,
                    plans_of(r@).take(j),
                    #[trigger] plans_of(r@)[j],
                ),
    {
        let ghost table = self.table();
        let ghost pending = self.pending();
        let ghost want = optional_view(route);
        let mut possibilities: Vec<EventsToExecute> = Vec::new();
        for position in 0..list.len()
            invariant
                self.wf(),
                list@ == pending[n],
                table == self.table(),
                pending == self.pending(),
                want == optional_view(route),
                forall|j: int|
                    0 <= j < possibilities@.len() ==> (#[trigger] possibilities@[j]).wf()
                        && possible(table, pending, want, possibilities@[j]@),
                forall|j: int|
                    0 <= j < possibilities@.len() ==> queue_turn(
                        table,
                        pending,
                        want,
                        n,
                        plans_of(possibilities@).take(j),
                        #[trigger] plans_of(possibilities@)[j],
                    ),
                forall|i: usize, p: Map<RouterId, usize>|
                    i < position && #[trigger] possible_from_message(
                        table,
                        pending,
                        want,
                        n,
                        i,
                        p,
                    ) ==> listed(possibilities@, p),
        {
            let ghost before = possibilities@;
            let msg: UncommittedMessagePerSession<'a> = list[position];
            // an effective withdraw is left to the plan that withdraws all routes
            match msg.committed() {
                Some(c) => {
                    if same_optional_route(route_of(c.rib_out), route) {
                        match self.construct_events_by_updating_better_to_worse(c.rib_in) {
                            Some(lowering) => {
                                let ghost q = lowering@;
                                let mut possibility: EventsToExecute = lowering;
                                possibility.insert(n, position);
                                proof {
                                    reveal(possible);
                                    assert(plan_lowering(table, pending, c@.entry, q));
                                    assert(possible_from_message(
                                        table,
                                        pending,
                                        want,
                                        n,
                                        position,
                                        possibility@,
                                    ));
                                    lemma_listed_push(before, possibility);
                                    assert forall|p: Map<RouterId, usize>| #[trigger]
                                        possible_from_message(table, pending, want, n, position, p)
                                        implies p == possibility@ by {
                                        let q2 = choose|q2: Map<RouterId, usize>| #[trigger]
                                            plan_lowering(table, pending, c@.entry, q2) && p
                                                == q2.insert(n, position);
                                        lemma_plan_lowering_unique(
                                            table,
                                            pending,
                                            c@.entry,
                                            q,
                                            q2,
                                        );
                                    }
                                }
                                proof {
                                    lemma_queue_push(
                                        table,
                                        pending,
                                        want,
                                        n,
                                        position,
                                        before,
                                        possibility,
                                    );
                                }
                                possibilities.push(possibility);
                            },
                            None => {
                                assert forall|p: Map<RouterId, usize>| #[trigger]
                                    possible_from_message(table, pending, want, n, position, p)
                                    implies false by {
                                    let q2 = choose|q2: Map<RouterId, usize>| #[trigger]
                                        plan_lowering(table, pending, c@.entry, q2) && p
                                            == q2.insert(n, position);
                                    assert(plan_lowering(table, pending, c@.entry, q2));
                                }
                            },
                        }
                    }
                },
                None => {},
            }
        }
        possibilities
    }

    /// Find the sets of waiting messages after which the router sends `route`.
    fn find_possibilities(&self, route: Option<&BgpRoute>) -> (r: Vec<EventsToExecute>)
        requires
            self.wf(),
        ensures
            forall|j: int|
                0 <= j < r@.len() ==> (#[trigger] r@[j]).wf() && possible(
                    self.table(),
                    self.pending(),
                    optional_view(route),
                    r@[j]@,
                ),
            forall|p: Map<RouterId, usize>| #[trigger]
                possible(self.table(), self.pending(), optional_view(route), p) ==> listed(r@, p),
            orderly(self.table(), self.pending(), optional_view(route), plans_of(r@)),
    {
        let ghost table = self.table();
        let ghost pending = self.pending();
        let ghost want = optional_view(route);
        // an entry of the table gets selected
        let mut possibilities: Vec<EventsToExecute> = self.possibilities_from_table(route);
        // all routes are withdrawn
        if route.is_none() {
            match self.construct_events_by_withdrawing_all() {
                Some(possibility) => {
                    proof {
                        lemma_listed_push(possibilities@, possibility);
                        assert(possible(table, pending, want, possibility@)) by {
                            reveal(possible);
                        }
                        assert forall|p: Map<RouterId, usize>| #[trigger]
                            plan_withdrawing(table, pending, p) implies p == possibility@ by {
                            lemma_plan_withdrawing_unique(table, pending, p, possibility@);
                        }
                        assert(in_turn(
                            table,
                            pending,
                            want,
                            plans_of(possibilities@),
                            possibility@,
                        )) by {
                            reveal(in_turn);
                            assert forall|n: RouterId, q: Map<RouterId, usize>| #[trigger]
                                possible_from_table(table, pending, want, n, q) implies plans_of(
                                possibilities@,
                            ).contains(q) by {
                                assert(listed(possibilities@, q));
                                let j = choose|j: int|
                                    0 <= j < possibilities@.len() && (
                                    #[trigger] possibilities@[j])@ == q;
                                assert(plans_of(possibilities@)[j] == q);
                            }
                        }
                        lemma_orderly_push(table, pending, want, possibilities@, possibility);
                    }
                    possibilities.push(possibility);
                },
                None => {},
            }
        }
        // the entry of a waiting message gets selected

        let ghost lists = self.uncommitted_messages.entries@;
        for k in 0..self.uncommitted_messages.entries.len()
            invariant
                self.wf(),
                table == self.table(),
                pending == self.pending(),
                want == optional_view(route),
                lists == self.uncommitted_messages.entries@,
                forall|j: int|
                    0 <= j < possibilities@.len() ==> (#[trigger] possibilities@[j]).wf()
                        && possible(table, pending, want, possibilities@[j]@),
                orderly(table, pending, want, plans_of(possibilities@)),
                forall|n: RouterId, p: Map<RouterId, usize>| #[trigger]
                    possible_from_table(table, pending, want, n, p) ==> listed(possibilities@, p),
                forall|p: Map<RouterId, usize>|
                    want is None && #[trigger] plan_withdrawing(table, pending, p) ==> listed(
                        possibilities@,
                        p,
                    ),
                forall|j: int, i: usize, p: Map<RouterId, usize>|
                    0 <= j < k && #[trigger] possible_from_message(
                        table,
                        pending,
                        want,
                        lists[j].0,
                        i,
                        p,
                    ) ==> listed(possibilities@, p),
        {
            proof {
                lemma_entry(lists, k as int);
            }
            let n: RouterId = self.uncommitted_messages.entries[k].0;
            assert(self.uncommitted_messages.entries@[k as int].1@ == pending[n]);
            let mut more: Vec<EventsToExecute> = self.possibilities_from_queue(
                n,
                &self.uncommitted_messages.entries[k].1,
                route,
            );
            let ghost before = possibilities@;
            let ghost extra = more@;
            possibilities.append(&mut more);
            proof {
                assert(possibilities@ =~= before + extra);
                lemma_orderly_append(table, pending, want, n, before, extra);
                assert forall|p: Map<RouterId, usize>| #[trigger] listed(before, p) implies listed(
                    possibilities@,
                    p,
                ) by {
                    let j = choose|j: int| 0 <= j < before.len() && (#[trigger] before[j])@ == p;
                    assert(possibilities@[j]@ == p);
                }
                assert forall|p: Map<RouterId, usize>| #[trigger] listed(extra, p) implies listed(
                    possibilities@,
                    p,
                ) by {
                    let j = choose|j: int| 0 <= j < extra.len() && (#[trigger] extra[j])@ == p;
                    assert(possibilities@[before.len() + j]@ == p);
                }
                assert forall|j: int| 0 <= j < possibilities@.len() implies (
                #[trigger] possibilities@[j]).wf() && possible(
                    table,
                    pending,
                    want,
                    possibilities@[j]@,
                ) by {
                    if j < before.len() {
                        assert(possibilities@[j] == before[j]);
                    } else {
                        assert(possibilities@[j] == extra[j - before.len()]);
                    }
                }
            }
        }
        proof {
            assert forall|p: Map<RouterId, usize>| #[trigger]
                possible(table, pending, want, p) implies listed(possibilities@, p) by {
                reveal(possible);
                if exists|n: RouterId| #[trigger] possible_from_table(table, pending, want, n, p) {
                } else if want is None && plan_withdrawing(table, pending, p) {
                } else {
                    let (n, i) = choose|n: RouterId, i: usize| #[trigger]
                        possible_from_message(table, pending, want, n, i, p);
                    assert(self.uncommitted_messages@.contains_key(n));
                    let j = lemma_key(lists, n);
                    assert(possible_from_message(table, pending, want, lists[j].0, i, p));
                }
            }
        }
        possibilities
    }

    /// Find the sets of waiting messages after which the router sends `route`, and apply each of them
    /// on a fork of its own, in the order in which they are found.
    pub fn find_minimal_messages_to_observe(self, route: Option<&BgpRoute>) -> (r: Result<
        Vec<Self>,
        MonitoringError,
    >)
        requires
            self.wf(),
        ensures
            match r {
                Ok(forks) => {
                    &&& forks@.len() > 0
                    &&& forall|j: int|
                        0 <= j < forks@.len() ==> (#[trigger] forks@[j]).wf() && emits(
                            forks@[j].out(),
                            optional_view(route),
                        ) && exists|p: Map<RouterId, usize>| #[trigger]
                            possible(self.table(), self.pending(), optional_view(route), p)
                                && applied(self, forks@[j], p)
                    &&& forall|p: Map<RouterId, usize>| #[trigger]
                        possible(self.table(), self.pending(), optional_view(route), p)
                            ==> exists|j: int|
                            0 <= j < forks@.len() && applied(self, #[trigger] forks@[j], p)
                    &&& exists|plans: Seq<Map<RouterId, usize>>| #[trigger]
                        come_of(self, optional_view(route), plans, forks@)
                },
                Err(e) => {
                    &&& is_unexpected(e, self.router_id, self.neighbor, optional_view(route))
                    &&& forall|p: Map<RouterId, usize>|
                        !#[trigger] possible(
                            self.table(),
                            self.pending(),
                            optional_view(route),
                            p,
                        )
                },
            },
    {
        let ghost table = self.table();
        let ghost pending = self.pending();
        let ghost want = optional_view(route);
        let possibilities: Vec<EventsToExecute> = self.find_possibilities(route);
        if possibilities.len() == 0 {
            assert forall|p: Map<RouterId, usize>| !#[trigger] possible(table, pending, want, p) by {
                if possible(table, pending, want, p) {
                    assert(listed(possibilities@, p));
                }
            }
            Err(
                MonitoringError::UnexpectedEvent {
                    router: self.router_id,
                    session: self.neighbor,
                    event: make_event(route),
                },
            )
        } else {
            let ghost all = possibilities@;
            let ghost pre = self;
            let forks: Vec<Self> = self.apply_all_possibilities(possibilities, route);
            proof {
                assert forall|p: Map<RouterId, usize>| #[trigger]
                    possible(table, pending, want, p) implies exists|j: int|
                    0 <= j < forks@.len() && applied(pre, #[trigger] forks@[j], p) by {
                    assert(listed(all, p));
                    let j = choose|j: int| 0 <= j < all.len() && (#[trigger] all[j])@ == p;
                    assert(applied(pre, forks@[j], p));
                }
                assert forall|j: int| 0 <= j < forks@.len() implies exists|
                    p: Map<RouterId, usize>,
                | #[trigger]
                    possible(table, pending, want, p) && applied(pre, #[trigger] forks@[j], p) by {
                    assert(possible(table, pending, want, all[j]@));
                }
                assert forall|p: Map<RouterId, usize>| #[trigger]
                    possible(table, pending, want, p) implies plans_of(all).contains(p) by {
                    assert(listed(all, p));
                    let j = choose|j: int| 0 <= j < all.len() && (#[trigger] all[j])@ == p;
                    assert(plans_of(all)[j] == p);
                }
                assert(come_of(pre, want, plans_of(all), forks@));
            }
            Ok(forks)
        }
    }

    /// Find the states in which the router can be once it has sent `route`. If it has sent that
    /// before, nothing has changed.
    pub fn process_outgoing_ok(self, route: Option<&BgpRoute>) -> (r: Result<
        Vec<Self>,
        MonitoringError,
    >)
        requires
            self.wf(),
        ensures
            match r {
                Ok(forks) => {
                    &&& forks@.len() > 0
                    &&& forall|j: int|
                        0 <= j < forks@.len() ==> (#[trigger] forks@[j]).wf() && emits(
                            forks@[j].out(),
                            optional_view(route),
                        )
                    &&& explanations(self, optional_view(route), forks@)
                },
                Err(e) => {
                    &&& is_unexpected(e, self.router_id, self.neighbor, optional_view(route))
                    &&& !can_emit(self, optional_view(route))
                },
            },
    {
        reveal(explanations);
        if same_optional_route(route_of(self.bgp_process.rib_out), route) {
            let mut forks: Vec<Self> = Vec::new();
            let ghost pre = self;
            forks.push(self);
            assert(forks@[0] == pre);
            assert(forks@ =~= seq![pre]);
            return Ok(forks);
        }
        self.find_minimal_messages_to_observe(route)
    }

    /// Commit all messages that arrived by `time`.
    pub fn apply_uncommitted_messages_before(&mut self, time: Time)
        requires
            old(self).wf(),
        ensures
            final(self).wf(),
            applied_before(*old(self), *final(self), time),
    {
        let ghost pre = *self;
        let ghost table = self.table();
        let ghost pending = self.pending();
        let mut lists: Keyed<Vec<UncommittedMessagePerSession<'a>>> = Keyed::new();
        std::mem::swap(&mut lists, &mut self.uncommitted_messages);
        let ghost entries = lists.entries@;
        assert forall|n: RouterId| #[trigger] self.pending()[n] =~= Seq::<
            UncommittedMessagePerSession,
        >::empty() by {}
        for k in 0..lists.entries.len()
            invariant
                pre.wf(),
                table == pre.table(),
                pending == pre.pending(),
                lists.wf(),
                lists == pre.uncommitted_messages,
                entries == lists.entries@,
                self.router_id == pre.router_id,
                self.neighbor == pre.neighbor,
                self.commit_history == pre.commit_history,
                self.uncommitted_messages.wf(),
                self.bgp_process.wf(),
                forall|n: RouterId| #[trigger]
                    self.pending()[n] == if key_among(entries, k as int, n) {
                        pending[n].filter(arrived_after(time))
                    } else {
                        Seq::empty()
                    },
                forall|n: RouterId| #[trigger]
                    lookup(self.table(), n) == if key_among(entries, k as int, n) {
                        slot_by(table, n, pending[n], time)
                    } else {
                        lookup(table, n)
                    },
                nothing_due(pending, time) ==> self.bgp_process == pre.bgp_process,
        {
            proof {
                lemma_entry(entries, k as int);
            }
            let n: RouterId = lists.entries[k].0;
            let ghost q = lists.entries@[k as int].1@;
            assert(q == pending[n]);
            assert(!key_among(entries, k as int, n));
            let ghost before_table = self.table();
            let ghost before_pending = self.pending();
            let mut late: Vec<UncommittedMessagePerSession<'a>> = Vec::new();
            let len: usize = lists.entries[k].1.len();
            proof {
                assert(q.take(0) =~= Seq::<UncommittedMessagePerSession>::empty());
                reveal(Seq::filter);
            }
            for j in 0..len
                invariant
                    k < lists.entries@.len(),
                    q == lists.entries@[k as int].1@,
                    len == q.len(),
                    q == pending[n],
                    pending_keyed(pending),
                    self.router_id == pre.router_id,
                    self.neighbor == pre.neighbor,
                    self.commit_history == pre.commit_history,
                    self.uncommitted_messages.wf(),
                    self.pending() == before_pending,
                    self.bgp_process.wf(),
                    late@ == q.take(j as int).filter(arrived_after(time)),
                    nothing_due(pending, time) ==> self.bgp_process == pre.bgp_process,
                    forall|m: RouterId| #[trigger]
                        lookup(self.table(), m) == if m == n {
                            slot_by(before_table, n, q.take(j as int), time)
                        } else {
                            lookup(before_table, m)
                        },
            {
                let msg: UncommittedMessagePerSession<'a> = lists.entries[k].1[j];
                let ghost table0 = self.table();
                proof {
                    assert(msg == q[j as int]);
                    assert(q.take(j + 1).drop_last() =~= q.take(j as int));
                    assert(q.take(j + 1).last() == msg);
                    reveal(Seq::filter);
                }
                if msg.time > time {
                    late.push(msg);
                } else {
                    assert(msg.rib_entry is Some ==> msg.rib_entry->0.from_id == n);
                    self.bgp_process.commit(msg, n);
                    proof {
                        assert(!nothing_due(pending, time)) by {
                            q.lemma_filter_contains(arrived_by(time), j as int);
                            assert(pending[n].filter(arrived_by(time)).contains(msg));
                        }
                        assert forall|m: RouterId| #[trigger] lookup(self.table(), m) == if m == n {
                            slot_of(msg)
                        } else {
                            lookup(before_table, m)
                        } by {
                            lemma_with_slot(table0, n, slot_of(msg), m);
                            assert(m != n ==> lookup(table0, m) == lookup(before_table, m));
                        }
                    }
                }
            }
            proof {
                assert(q.take(len as int) =~= q);
            }
            if late.len() > 0 {
                self.uncommitted_messages.insert(n, late);
            } else {
                assert(late@ =~= Seq::<UncommittedMessagePerSession>::empty());
                assert(before_pending[n] == Seq::<UncommittedMessagePerSession>::empty());
            }
            proof {
                assert(lookup(before_table, n) == lookup(table, n));
                assert forall|m: RouterId| #[trigger] self.pending()[m] == if key_among(
                    entries,
                    k + 1,
                    m,
                ) {
                    pending[m].filter(arrived_after(time))
                } else {
                    Seq::empty()
                } by {
                    lemma_key_among_next(entries, k as int, m);
                    assert(m != n ==> self.pending()[m] == before_pending[m]);
                }
                assert forall|m: RouterId| #[trigger] lookup(self.table(), m) == if key_among(
                    entries,
                    k + 1,
                    m,
                ) {
                    slot_by(table, m, pending[m], time)
                } else {
                    lookup(table, m)
                } by {
                    lemma_key_among_next(entries, k as int, m);
                    assert(m != n ==> lookup(self.table(), m) == lookup(before_table, m));
                }
            }
        }
        proof {
            let len = entries.len() as int;
            assert forall|n: RouterId| #[trigger] self.pending()[n] == pending[n].filter(
                arrived_after(time),
            ) && lookup(self.table(), n) == slot_by(table, n, pending[n], time) by {
                assert(self.pending()[n] == if key_among(entries, len, n) {
                    pending[n].filter(arrived_after(time))
                } else {
                    Seq::empty()
                });
                assert(lookup(self.table(), n) == if key_among(entries, len, n) {
                    slot_by(table, n, pending[n], time)
                } else {
                    lookup(table, n)
                });
                if key_among(entries, len, n) {
                } else {
                    assert(!pre.uncommitted_messages@.contains_key(n)) by {
                        if pre.uncommitted_messages@.contains_key(n) {
                            let j = lemma_key(entries, n);
                            assert(entries[j].0 == n);
                        }
                    }
                    assert(pending[n] =~= Seq::<UncommittedMessagePerSession>::empty());
                    reveal(Seq::filter);
                }
            }
            assert forall|n: RouterId, i: int|
                0 <= i < self.pending()[n].len() && (#[trigger] self.pending()[n][i]).rib_entry is Some
                implies self.pending()[n][i].rib_entry->0.from_id == n by {
                let m = self.pending()[n][i];
                assert(self.pending()[n] == pending[n].filter(arrived_after(time)));
                pending[n].lemma_filter_contains_rev(arrived_after(time), m);
                let j = choose|j: int| 0 <= j < pending[n].len() && pending[n][j] == m;
                assert(pending[n][j].rib_entry is Some);
            }
        }
    }

    /// Whether this monitor has at least as many waiting messages of every neighbor as another.
    pub fn subsumes(&self, other: &Self) -> (r: bool)
        requires
            self.wf(),
            other.wf(),
        ensures
            r == subsumption(*self, *other),
    {
        reveal(subsumption);
        let ghost lists = other.uncommitted_messages.entries@;
        for k in 0..other.uncommitted_messages.entries.len()
            invariant
                self.wf(),
                other.wf(),
                lists == other.uncommitted_messages.entries@,
                forall|j: int|
                    0 <= j < k ==> other.pending()[(#[trigger] lists[j]).0].len()
                        <= self.pending()[lists[j].0].len(),
        {
            proof {
                lemma_entry(lists, k as int);
            }
            let n: RouterId = other.uncommitted_messages.entries[k].0;
            reveal(subsumption);
            if other.uncommitted_messages.entries[k].1.len() > self.num_uncommitted(n) {
                proof {
                    assert(other.pending()[n].len() > self.pending()[n].len());
                }
                return false;
            }
        }
        proof {
            assert forall|n: RouterId| (#[trigger] other.pending()[n]).len()
                <= self.pending()[n].len() by {
                if other.uncommitted_messages@.contains_key(n) {
                    let j = lemma_key(lists, n);
                    assert(lists[j].0 == n);
                }
            }
        }
        true
    }
}

/// Key `n` is among the first `k` pairs.
spec fn key_among<V>(entries: Seq<(u32, V)>, k: int, n: RouterId) -> bool {
    exists|j: int| 0 <= j < k && (#[trigger] entries[j]).0 == n
}

proof fn lemma_key_among_next<V>(entries: Seq<(u32, V)>, k: int, n: RouterId)
    requires
        0 <= k < entries.len(),
    ensures
        key_among(entries, k + 1, n) <==> key_among(entries, k, n) || entries[k].0 == n,
{
    if key_among(entries, k + 1, n) {
        let j = choose|j: int| 0 <= j < k + 1 && (#[trigger] entries[j]).0 == n;
        if j < k {
            assert(key_among(entries, k, n));
        }
    }
    if key_among(entries, k, n) {
        let j = choose|j: int| 0 <= j < k && (#[trigger] entries[j]).0 == n;
        assert(entries[j].0 == n);
    }
}

} // verus!
