//! What a router makes of the routes that it is sent.
use vstd::prelude::*;

use crate::bgp::{BgpEvent, BgpRibEntry, EntryView, Event, EventView, Prefix, RouterId, Time};
use crate::bgp::SINGLE_PREFIX;
use crate::keyed::{lemma_same_keys, Keyed};
use crate::session_monitor::UncommittedMessagePerSession;

verus! {

/// What a router does with a route if it knows no other one.
#[derive(Debug)]
pub struct ImportedRoute {
    /// The entry that gets selected. `None` if the route is rejected.
    pub rib_entry: Option<BgpRibEntry>,
    /// The entries that are then sent to the neighbors
    pub outgoing_routes: Keyed<BgpRibEntry>,
}

/// What a router does with a route.
#[verifier::ext_equal]
pub struct ImportView {
    pub rib_entry: Option<EntryView>,
    pub outgoing_routes: Map<RouterId, EntryView>,
}

/// The views of entries.
pub open spec fn entry_views(m: Map<RouterId, BgpRibEntry>) -> Map<RouterId, EntryView> {
    m.map_values(|e: BgpRibEntry| e@)
}

impl View for ImportedRoute {
    type V = ImportView;

    open spec fn view(&self) -> ImportView {
        ImportView {
            rib_entry: match self.rib_entry {
                Some(e) => Some(e@),
                None => None,
            },
            outgoing_routes: entry_views(self.outgoing_routes@),
        }
    }
}

impl ImportView {
    /// The same, on another prefix.
    pub open spec fn with_prefix(self, prefix: Prefix) -> ImportView {
        ImportView {
            rib_entry: match self.rib_entry {
                Some(e) => Some(e.with_prefix(prefix)),
                None => None,
            },
            outgoing_routes: self.outgoing_routes.map_values(|e: EntryView| e.with_prefix(prefix)),
        }
    }
}

impl ImportedRoute {
    /// A copy.
    pub fn copy(&self) -> (r: Self)
        requires
            self.outgoing_routes.wf(),
        ensures
            r.outgoing_routes.wf(),
            r@ == self@,
    {
        let ghost all = self.outgoing_routes.entries@;
        let mut entries: Vec<(u32, BgpRibEntry)> = Vec::new();
        for i in 0..self.outgoing_routes.entries.len()
            invariant
                all == self.outgoing_routes.entries@,
                entries@.len() == i,
                forall|j: int|
                    0 <= j < i ==> (#[trigger] all[j]).0 == entries@[j].0 && all[j].1@
                        == entries@[j].1@,
        {
            entries.push(
                (self.outgoing_routes.entries[i].0, self.outgoing_routes.entries[i].1.clone()),
            );
        }
        let r = ImportedRoute {
            rib_entry: match &self.rib_entry {
                Some(e) => Some(e.clone()),
                None => None,
            },
            outgoing_routes: Keyed { entries },
        };
        proof {
            lemma_same_keys(all, entries@);
            assert(r@.outgoing_routes =~= self@.outgoing_routes);
        }
        r
    }

    /// The same, on another prefix.
    pub fn with_prefix(self, prefix: Prefix) -> (r: Self)
        requires
            self.outgoing_routes.wf(),
        ensures
            r.outgoing_routes.wf(),
            r@ == self@.with_prefix(prefix),
            forall|from: RouterId| #[trigger] self.is_from(from) ==> r.is_from(from),
    {
        let ghost before = self@;
        let ghost all = self.outgoing_routes.entries@;
        let mut entries: Vec<(u32, BgpRibEntry)> = Vec::new();
        for e in it: self.outgoing_routes.entries
            invariant
                it.seq() == all,
                entries@.len() == it.index(),
                forall|j: int|
                    0 <= j < entries@.len() ==> (#[trigger] all[j]).0 == entries@[j].0
                        && all[j].1@.with_prefix(prefix) == entries@[j].1@,
        {
            let (k, entry) = e;
            entries.push((k, entry.with_prefix(prefix)));
        }
        let r = ImportedRoute {
            rib_entry: match self.rib_entry {
                Some(e) => Some(e.with_prefix(prefix)),
                None => None,
            },
            outgoing_routes: Keyed { entries },
        };
        proof {
            lemma_same_keys(all, entries@);
            assert(r@.outgoing_routes =~= before.with_prefix(prefix).outgoing_routes);
        }
        r
    }

    /// No neighbor is sent two routes, and the entry is from neighbor `from`.
    pub open spec fn is_from(&self, from: RouterId) -> bool {
        self.outgoing_routes.wf() && (self.rib_entry is Some ==> self.rib_entry->0.from_id == from)
    }

    /// A route that is rejected.
    pub fn rejected() -> (r: Self)
        ensures
            r.rib_entry is None,
            r.outgoing_routes.wf(),
            r.outgoing_routes@ == Map::<RouterId, BgpRibEntry>::empty(),
    {
        ImportedRoute { rib_entry: None, outgoing_routes: Keyed::new() }
    }
}

/// A message that was observed, and what its receiver makes of it.
#[derive(Debug)]
pub struct Message {
    pub event: Event<Time>,
    /// What the receiver does with the announced route. Of no interest for a withdraw.
    pub import: ImportedRoute,
}

/// What an observed message says.
pub struct ObservedView {
    pub event: EventView<Time>,
    pub import: ImportView,
}

impl View for Message {
    type V = ObservedView;

    open spec fn view(&self) -> ObservedView {
        ObservedView { event: self.event@, import: self.import@ }
    }
}

impl ObservedView {
    /// The same message, on another prefix.
    pub open spec fn with_prefix(self, prefix: Prefix) -> ObservedView {
        ObservedView {
            event: self.event.with_prefix(prefix),
            import: self.import.with_prefix(prefix),
        }
    }

    /// The same message at another time.
    pub open spec fn at(self, time: Time) -> ObservedView {
        ObservedView { event: self.event.at(time), import: self.import }
    }
}

impl Message {
    /// A copy.
    pub fn copy(&self) -> (r: Self)
        requires
            self.import.outgoing_routes.wf(),
        ensures
            r@ == self@,
            r.import.outgoing_routes.wf(),
            self.wf() ==> r.wf(),
    {
        let r = Message { event: self.event.clone(), import: self.import.copy() };
        assert(r.event@ == self.event@);
        r
    }

    /// If the message announces a route, what the receiver does with it fits.
    pub open spec fn wf(&self) -> bool {
        self.event matches Event::Bgp { src, .. } ==> self.import.is_from(src)
    }
}

/// A message that the router has received, and that it may not have processed yet.
#[derive(Debug)]
pub struct UncommittedMessage {
    /// Number of the message, in the order of arrival
    pub id: usize,
    pub time: Time,
    pub event: BgpEvent,
    pub import: ImportedRoute,
}

/// The message, as seen by the session with neighbor `n`.
pub open spec fn message_for<'a>(
    m: &'a UncommittedMessage,
    n: RouterId,
) -> UncommittedMessagePerSession<'a> {
    UncommittedMessagePerSession {
        id: m.id,
        time: m.time,
        event: &m.event,
        rib_entry: match m.import.rib_entry {
            Some(e) => Some(&e),
            None => None,
        },
        outgoing_route: if m.import.outgoing_routes@.contains_key(n) {
            Some(&m.import.outgoing_routes@[n])
        } else {
            None
        },
    }
}

impl UncommittedMessage {
    /// The message, as seen by the session with a neighbor.
    pub fn per_session<'a>(&'a self, neighbor: RouterId) -> (r: UncommittedMessagePerSession<'a>)
        requires
            self.import.outgoing_routes.wf(),
        ensures
            r == message_for(self, neighbor),
    {
        UncommittedMessagePerSession {
            id: self.id,
            time: self.time,
            event: &self.event,
            rib_entry: match &self.import.rib_entry {
                Some(e) => Some(e),
                None => None,
            },
            outgoing_route: self.import.outgoing_routes.get(neighbor),
        }
    }
}

/// The routes that a router has received, and the neighbors to which it has sessions.
#[derive(Debug)]
pub struct Router {
    pub router_id: RouterId,
    pub sessions: Vec<RouterId>,
    /// What the router makes of each route in its RIB-in
    pub rib_in: Vec<ImportedRoute>,
}

impl Router {
    /// The router has at most one route per neighbor.
    pub open spec fn is_single_prefix(&self) -> bool {
        &&& forall|i: int| 0 <= i < self.rib_in@.len() ==> (#[trigger] self.rib_in@[i]).outgoing_routes.wf()
        &&& forall|i: int, j: int|
            0 <= i < j < self.rib_in@.len() && (#[trigger] self.rib_in@[i]).rib_entry is Some && (
            #[trigger] self.rib_in@[j]).rib_entry is Some ==> self.rib_in@[i].rib_entry->0.from_id
                != self.rib_in@[j].rib_entry->0.from_id
    }
}

/// An imported route is one of a prefix.
pub open spec fn is_on(i: ImportView, prefix: Prefix) -> bool {
    i.rib_entry matches Some(e) && e.route.prefix == prefix
}

/// The views of imported routes.
pub open spec fn import_views(s: Seq<ImportedRoute>) -> Seq<ImportView> {
    Seq::new(s.len(), |i: int| s[i]@)
}

impl Router {
    /// The router has at most one route per neighbor and prefix.
    pub open spec fn is_consistent(&self) -> bool {
        &&& forall|i: int| 0 <= i < self.rib_in@.len() ==> (#[trigger] self.rib_in@[i]).outgoing_routes.wf()
        &&& forall|i: int, j: int|
            0 <= i < j < self.rib_in@.len() && (#[trigger] self.rib_in@[i]).rib_entry is Some && (
            #[trigger] self.rib_in@[j]).rib_entry is Some && self.rib_in@[i].rib_entry->0.route.prefix
                == self.rib_in@[j].rib_entry->0.route.prefix
                ==> self.rib_in@[i].rib_entry->0.from_id != self.rib_in@[j].rib_entry->0.from_id
    }

    /// A copy.
    pub fn copy(&self) -> (r: Self)
        requires
            forall|i: int|
                0 <= i < self.rib_in@.len() ==> (#[trigger] self.rib_in@[i]).outgoing_routes.wf(),
        ensures
            r.router_id == self.router_id,
            r.sessions@ == self.sessions@,
            import_views(r.rib_in@) == import_views(self.rib_in@),
            self.is_consistent() ==> r.is_consistent(),
            self.is_single_prefix() ==> r.is_single_prefix(),
    {
        let mut rib_in: Vec<ImportedRoute> = Vec::new();
        for i in 0..self.rib_in.len()
            invariant
                forall|j: int|
                    0 <= j < self.rib_in@.len() ==> (#[trigger] self.rib_in@[j]).outgoing_routes.wf(),
                rib_in@.len() == i,
                forall|j: int|
                    0 <= j < i ==> (#[trigger] rib_in@[j])@ == self.rib_in@[j]@
                        && rib_in@[j].outgoing_routes.wf(),
        {
            rib_in.push(self.rib_in[i].copy());
        }
        let r = Router {
            router_id: self.router_id,
            sessions: crate::bgp::copy_list(&self.sessions),
            rib_in,
        };
        proof {
            assert(import_views(r.rib_in@) =~= import_views(self.rib_in@));
            assert forall|i: int, j: int|
                0 <= i < j < r.rib_in@.len() && (#[trigger] r.rib_in@[i]).rib_entry is Some && (
                #[trigger] r.rib_in@[j]).rib_entry is Some implies {
                let (a, b) = (self.rib_in@[i].rib_entry, self.rib_in@[j].rib_entry);
                &&& a is Some && b is Some
                &&& r.rib_in@[i].rib_entry->0.from_id == a->0.from_id
                &&& r.rib_in@[j].rib_entry->0.from_id == b->0.from_id
                &&& r.rib_in@[i].rib_entry->0.route.prefix == a->0.route.prefix
                &&& r.rib_in@[j].rib_entry->0.route.prefix == b->0.route.prefix
            } by {
                let (x, y) = (r.rib_in@[i]@, r.rib_in@[j]@);
                assert(x == self.rib_in@[i]@ && y == self.rib_in@[j]@);
                assert(x.rib_entry->0.from_id == r.rib_in@[i].rib_entry->0.from_id);
                assert(y.rib_entry->0.from_id == r.rib_in@[j].rib_entry->0.from_id);
                assert(x.rib_entry->0.route.prefix == r.rib_in@[i].rib_entry->0.route.prefix);
                assert(y.rib_entry->0.route.prefix == r.rib_in@[j].rib_entry->0.route.prefix);
            }
        }
        r
    }

    /// The router as it is for one prefix only, which becomes that of a single-prefix plane.
    pub fn to_single_prefix(self, prefix: Prefix) -> (r: Self)
        requires
            self.is_consistent(),
        ensures
            r.is_single_prefix(),
            r.router_id == self.router_id,
            r.sessions == self.sessions,
            is_single_of(self, prefix, r),
    {
        let ghost all = self.rib_in@;
        let mut rib_in: Vec<ImportedRoute> = Vec::new();
        let ghost mut kept: Seq<int> = seq![];
        for i in it: self.rib_in
            invariant
                it.seq() == all,
                self.is_consistent(),
                all == self.rib_in@,
                kept.len() == rib_in@.len(),
                forall|k: int, l: int| 0 <= k < l < kept.len() ==> kept[k] < kept[l],
                forall|k: int|
                    0 <= k < kept.len() ==> 0 <= #[trigger] kept[k] < it.index() && is_on(
                        all[kept[k]]@,
                        prefix,
                    ) && rib_in@[k]@ == all[kept[k]]@.with_prefix(SINGLE_PREFIX)
                        && rib_in@[k].outgoing_routes.wf(),
                forall|k: int|
                    0 <= k < it.index() && is_on((#[trigger] all[k])@, prefix) ==> kept.contains(k),
        {
            let ghost n = it.index() as int;
            let ghost before = kept;
            assert(i == all[n]);
            let on: bool = match &i.rib_entry {
                Some(e) => e.route.prefix == prefix,
                None => false,
            };
            if on {
                rib_in.push(i.with_prefix(SINGLE_PREFIX));
                proof {
                    kept = kept.push(n);
                    assert(kept[before.len() as int] == n);
                }
            }
            proof {
                assert forall|k: int| 0 <= k < n + 1 && is_on((#[trigger] all[k])@, prefix) implies
                    kept.contains(k) by {
                    if k < n {
                        assert(before.contains(k));
                        let j = before.index_of(k);
                        assert(kept[j] == k);
                    } else {
                        assert(kept[before.len() as int] == k);
                    }
                }
            }
        }
        let r = Router { router_id: self.router_id, sessions: self.sessions, rib_in };
        proof {
            let v = import_views(all);
            assert(are_kept(v, prefix, kept)) by {
                assert forall|k: int| 0 <= k < v.len() && is_on(#[trigger] v[k], prefix) implies
                    kept.contains(k) by {
                    assert(v[k] == all[k]@);
                }
                assert forall|k: int| 0 <= k < kept.len() implies 0 <= #[trigger] kept[k] < v.len()
                    && is_on(v[kept[k]], prefix) by {
                    assert(v[kept[k]] == all[kept[k]]@);
                }
            }
            assert forall|i: int| 0 <= i < r.rib_in@.len() implies (
            #[trigger] r.rib_in@[i]).outgoing_routes.wf() by {
                assert(0 <= kept[i]);
            }
            assert(import_views(r.rib_in@) =~= kept_routes(v, kept));
            assert forall|i: int, j: int|
                0 <= i < j < r.rib_in@.len() && (#[trigger] r.rib_in@[i]).rib_entry is Some && (
                #[trigger] r.rib_in@[j]).rib_entry is Some implies r.rib_in@[i].rib_entry->0.from_id
                != r.rib_in@[j].rib_entry->0.from_id by {
                let (a, b) = (all[kept[i]], all[kept[j]]);
                assert(kept[i] < kept[j]);
                assert(is_on(a@, prefix) && is_on(b@, prefix));
                assert(r.rib_in@[i]@ == a@.with_prefix(SINGLE_PREFIX));
                assert(r.rib_in@[j]@ == b@.with_prefix(SINGLE_PREFIX));
                assert(r.rib_in@[i]@.rib_entry->0.from_id == a.rib_entry->0.from_id);
                assert(r.rib_in@[j]@.rib_entry->0.from_id == b.rib_entry->0.from_id);
            }
        }
        r
    }
}

/// The positions of the routes of a prefix, in their order.
pub open spec fn are_kept(rib_in: Seq<ImportView>, prefix: Prefix, kept: Seq<int>) -> bool {
    &&& forall|k: int, l: int| 0 <= k < l < kept.len() ==> kept[k] < kept[l]
    &&& forall|k: int|
        0 <= k < kept.len() ==> 0 <= #[trigger] kept[k] < rib_in.len() && is_on(
            rib_in[kept[k]],
            prefix,
        )
    &&& forall|k: int|
        0 <= k < rib_in.len() && is_on(#[trigger] rib_in[k], prefix) ==> kept.contains(k)
}

/// The routes at some positions, on the prefix of a single-prefix plane.
pub open spec fn kept_routes(rib_in: Seq<ImportView>, kept: Seq<int>) -> Seq<ImportView> {
    Seq::new(kept.len(), |i: int| rib_in[kept[i]].with_prefix(SINGLE_PREFIX))
}

/// A router as it is for one prefix only.
pub open spec fn is_single_of(router: Router, prefix: Prefix, single: Router) -> bool {
    &&& single.router_id == router.router_id
    &&& single.sessions@ == router.sessions@
    &&& exists|kept: Seq<int>| #[trigger]
        are_kept(import_views(router.rib_in@), prefix, kept) && import_views(single.rib_in@)
            == kept_routes(import_views(router.rib_in@), kept)
}

/// A session sees of a message what it is told: its number, its time, what it says, and what goes out to
/// the neighbor of the session. What goes out to others does not matter.
pub proof fn law_what_a_session_sees<'a>(m: &'a UncommittedMessage, k: &'a UncommittedMessage, n: RouterId)
    ensures
        message_for(m, n).id == m.id,
        message_for(m, n).time == m.time,
        *message_for(m, n).event == m.event,
        message_for(m, n).rib_entry is Some <==> m.import.rib_entry is Some,
        message_for(m, n).outgoing_route is Some <==> m.import.outgoing_routes@.contains_key(n),
        message_for(m, n).outgoing_route matches Some(e) ==> *e == m.import.outgoing_routes@[n],
        m.id == k.id && m.time == k.time && m.event == k.event && m.import.rib_entry
            == k.import.rib_entry && m.import.outgoing_routes@ == k.import.outgoing_routes@
            ==> message_for(m, n) == message_for(k, n),
{
}

/// What a router does with a route that is moved to another prefix goes out to the same neighbors, and
/// still comes from the same one.
pub proof fn law_moving_what_a_router_does(i: ImportView, p: Prefix, n: RouterId)
    ensures
        i.with_prefix(p).rib_entry is Some <==> i.rib_entry is Some,
        i.rib_entry matches Some(e) ==> i.with_prefix(p).rib_entry->0.from_id == e.from_id
            && i.with_prefix(p).rib_entry->0.route.prefix == p,
        i.with_prefix(p).outgoing_routes.contains_key(n) <==> i.outgoing_routes.contains_key(n),
        i.outgoing_routes.contains_key(n) ==> i.with_prefix(p).outgoing_routes[n].route.prefix == p,
        i.rib_entry is Some ==> is_on(i.with_prefix(p), p),
{
}

/// A router as it is for one prefix has the routes of that prefix, and no others, in their order.
pub proof fn law_routes_of_one_prefix(
    rib_in: Seq<ImportView>,
    prefix: Prefix,
    kept: Seq<int>,
    i: int,
)
    requires
        are_kept(rib_in, prefix, kept),
        0 <= i < rib_in.len(),
    ensures
        kept.contains(i) <==> (rib_in[i].rib_entry matches Some(e) && e.route.prefix == prefix),
        kept_routes(rib_in, kept).len() == kept.len(),
        kept.no_duplicates(),
        forall|k: int| 0 <= k < kept.len() ==> #[trigger] kept_routes(rib_in, kept)[k] == rib_in[kept[k]].with_prefix(SINGLE_PREFIX),
{
    if kept.contains(i) {
        let k = kept.index_of(i);
        assert(is_on(rib_in[kept[k]], prefix));
    }
    assert forall|k: int, l: int| 0 <= k < kept.len() && 0 <= l < kept.len() && k != l implies kept[k]
        != kept[l] by {
        if k < l {
            assert(kept[k] < kept[l]);
        } else {
            assert(kept[l] < kept[k]);
        }
    }
}

} // verus!
