//! Propagation delays along the paths of a network.
use vstd::prelude::*;

use crate::bgp::{list_contains, RouterId, Time};
use crate::keyed::lemma_key;
use crate::pairs::Pairs;
use crate::session_queue::{later, later_than};

verus! {

/// The routing state of a network.
#[derive(Debug)]
pub struct Routing {
    /// All routers, internal and external ones.
    pub routers: Vec<RouterId>,
    /// The next hops of an internal router towards another router.
    pub next_hops: Pairs<Vec<RouterId>>,
}

impl Routing {
    pub open spec fn wf(&self) -> bool {
        &&& self.next_hops.wf()
        &&& forall|k: (RouterId, RouterId)| #[trigger]
            self.next_hops@.contains_key(k) ==> self.routers@.contains(k.0)
    }

    /// The first next hop of a router towards a target.
    pub open spec fn next_hop(&self, r: RouterId, target: RouterId) -> Option<RouterId> {
        if self.next_hops@.contains_key((r, target)) && self.next_hops@[(r, target)]@.len() > 0 {
            Some(self.next_hops@[(r, target)]@[0])
        } else {
            None
        }
    }

    /// Messages from `src` to `dst` travel along `p`.
    pub open spec fn is_path(&self, p: Seq<RouterId>, src: RouterId, dst: RouterId) -> bool {
        &&& p.len() > 0
        &&& p[0] == src
        &&& p.last() == dst
        &&& forall|i: int|
            0 <= i < p.len() - 1 ==> #[trigger] p[i] != dst && self.next_hop(p[i], dst) == Some(
                p[i + 1],
            )
    }

    /// Messages from `src` reach `dst`.
    pub open spec fn reaches(&self, src: RouterId, dst: RouterId) -> bool {
        exists|p: Seq<RouterId>| self.is_path(p, src, dst)
    }

    fn get_next_hop(&self, r: RouterId, target: RouterId) -> (h: Option<RouterId>)
        requires
            self.next_hops.wf(),
        ensures
            h == self.next_hop(r, target),
    {
        match self.next_hops.get((r, target)) {
            Some(hops) => if hops.len() > 0 {
                Some(hops[0])
            } else {
                None
            },
            None => None,
        }
    }

    /// Follow the next hops from `src` to `dst`. `None` if they end somewhere else, or in a loop.
    pub fn find_path(&self, src: RouterId, dst: RouterId) -> (r: Option<Vec<RouterId>>)
        requires
            self.wf(),
        ensures
            match r {
                Some(p) => self.is_path(p@, src, dst),
                None => !self.reaches(src, dst),
            },
    {
        let mut path: Vec<RouterId> = Vec::new();
        let mut current: RouterId = src;
        proof {
            lemma_entries_bound(*self, path@, dst);
        }
        while current != dst
            invariant
                self.wf(),
                path@.len() <= self.next_hops.entries@.len(),
                path@.no_duplicates(),
                !path@.contains(current),
                path@.len() > 0 ==> path@[0] == src && self.next_hop(path@.last(), dst) == Some(
                    current,
                ),
                path@.len() == 0 ==> current == src,
                forall|i: int|
                    0 <= i < path@.len() ==> #[trigger] path@[i] != dst && self.next_hop(
                        path@[i],
                        dst,
                    ) is Some,
                forall|i: int|
                    0 <= i < path@.len() - 1 ==> self.next_hop(#[trigger] path@[i], dst) == Some(
                        path@[i + 1],
                    ),
            decreases self.next_hops.entries@.len() - path@.len(),
        {
            let ghost before = path@;
            path.push(current);
            match self.get_next_hop(current, dst) {
                Some(next) => {
                    if list_contains(&path, next) {
                        proof {
                            assert(path@[0] == src);
                            assert forall|r: RouterId| path@.contains(r) implies match #[trigger]
                                self.next_hop(r, dst) {
                                Some(h) => path@.contains(h),
                                None => true,
                            } by {
                                let i = path@.index_of(r);
                                assert(path@[i] == r);
                                if i < before.len() {
                                    assert(before[i] == r);
                                    if i + 1 < before.len() {
                                        assert(path@[i + 1] == before[i + 1]);
                                    } else {
                                        assert(path@[i + 1] == current);
                                    }
                                }
                            }
                            lemma_never_leaves(*self, path@, src, dst);
                        }
                        return None;
                    }
                    proof {
                        assert forall|i: int, j: int|
                            0 <= i < path@.len() && 0 <= j < path@.len() && i
                                != j implies path@[i] != path@[j] by {
                            if i < before.len() && j < before.len() {
                                assert(before[i] != before[j]);
                            } else if i < before.len() {
                                assert(before[i] != current);
                            } else if j < before.len() {
                                assert(before[j] != current);
                            }
                        }
                        assert forall|i: int| 0 <= i < path@.len() - 1 implies self.next_hop(
                            #[trigger] path@[i],
                            dst,
                        ) == Some(path@[i + 1]) by {
                            if i < before.len() - 1 {
                                assert(before[i] == path@[i]);
                            }
                        }
                        assert(path@[0] == src);
                        lemma_entries_bound(*self, path@, dst);
                    }
                    current = next;
                },
                None => {
                    proof {
                        assert(path@[0] == src);
                        assert forall|r: RouterId| path@.contains(r) implies match #[trigger]
                            self.next_hop(r, dst) {
                            Some(h) => path@.contains(h),
                            None => true,
                        } by {
                            let i = path@.index_of(r);
                            assert(path@[i] == r);
                            if i < before.len() {
                                assert(before[i] == r);
                                if i + 1 < before.len() {
                                    assert(path@[i + 1] == before[i + 1]);
                                } else {
                                    assert(path@[i + 1] == current);
                                }
                            }
                        }
                        lemma_never_leaves(*self, path@, src, dst);
                    }
                    return None;
                },
            }
        }
        let ghost before = path@;
        path.push(dst);
        proof {
            assert(path@[0] == src);
            assert forall|i: int| 0 <= i < path@.len() - 1 implies #[trigger] path@[i] != dst
                && self.next_hop(path@[i], dst) == Some(path@[i + 1]) by {
                assert(before[i] == path@[i]);
                if i + 1 < before.len() {
                    assert(before[i + 1] == path@[i + 1]);
                }
            }
            assert(self.is_path(path@, src, dst));
        }
        Some(path)
    }
}

/// Next hops that stay among certain routers never reach another one.
proof fn lemma_never_leaves(routing: Routing, c: Seq<RouterId>, src: RouterId, dst: RouterId)
    requires
        c.contains(src),
        !c.contains(dst),
        forall|r: RouterId|
            c.contains(r) ==> match #[trigger] routing.next_hop(r, dst) {
                Some(h) => c.contains(h),
                None => true,
            },
    ensures
        !routing.reaches(src, dst),
{
    if routing.reaches(src, dst) {
        let p = choose|p: Seq<RouterId>| routing.is_path(p, src, dst);
        lemma_stays(routing, c, p, src, dst, p.len() - 1);
        assert(p.last() == p[p.len() - 1]);
    }
}

proof fn lemma_stays(
    routing: Routing,
    c: Seq<RouterId>,
    p: Seq<RouterId>,
    src: RouterId,
    dst: RouterId,
    i: int,
)
    requires
        c.contains(src),
        routing.is_path(p, src, dst),
        0 <= i < p.len(),
        forall|r: RouterId|
            c.contains(r) ==> match #[trigger] routing.next_hop(r, dst) {
                Some(h) => c.contains(h),
                None => true,
            },
    ensures
        c.contains(p[i]),
    decreases i,
{
    if i > 0 {
        lemma_stays(routing, c, p, src, dst, i - 1);
        assert(routing.next_hop(p[i - 1], dst) == Some(p[i]));
    }
}

/// There is at most one path from a router to another one.
pub proof fn law_path_is_unique(
    routing: Routing,
    p: Seq<RouterId>,
    q: Seq<RouterId>,
    src: RouterId,
    dst: RouterId,
)
    requires
        routing.is_path(p, src, dst),
        routing.is_path(q, src, dst),
    ensures
        p == q,
{
    lemma_agree(routing, p, q, src, dst, (if p.len() < q.len() {
        p.len()
    } else {
        q.len()
    }) - 1);
    if p.len() < q.len() {
        assert(q[p.len() - 1] == p.last());
        assert(q[p.len() - 1] != dst);
    } else if q.len() < p.len() {
        assert(p[q.len() - 1] == q.last());
        assert(p[q.len() - 1] != dst);
    } else {
        assert(p =~= q);
    }
}

proof fn lemma_agree(
    routing: Routing,
    p: Seq<RouterId>,
    q: Seq<RouterId>,
    src: RouterId,
    dst: RouterId,
    i: int,
)
    requires
        routing.is_path(p, src, dst),
        routing.is_path(q, src, dst),
        0 <= i < p.len(),
        i < q.len(),
    ensures
        forall|j: int| 0 <= j <= i ==> p[j] == q[j],
    decreases i,
{
    if i > 0 {
        lemma_agree(routing, p, q, src, dst, i - 1);
        assert(p[i - 1] == q[i - 1]);
    }
}

/// There are no more different routers with a next hop than there are entries.
proof fn lemma_entries_bound(routing: Routing, p: Seq<RouterId>, dst: RouterId)
    requires
        routing.wf(),
        p.no_duplicates(),
        forall|i: int| 0 <= i < p.len() ==> routing.next_hop(#[trigger] p[i], dst) is Some,
    ensures
        p.len() <= routing.next_hops.entries@.len(),
{
    let entries = routing.next_hops.entries@;
    let n = entries.len();
    let at = |i: int| crate::keyed::position_of(entries, (p[i], dst));
    let s = Seq::new(p.len(), at);
    assert forall|i: int| 0 <= i < p.len() implies 0 <= #[trigger] at(i) < n && entries[at(i)].0 == (
        p[i],
        dst,
    ) by {
        assert(routing.next_hop(p[i], dst) is Some);
        let k = lemma_key(entries, (p[i], dst));
    }
    assert(s.no_duplicates()) by {
        assert forall|i: int, j: int|
            0 <= i < s.len() && 0 <= j < s.len() && i != j implies s[i] != s[j] by {
            assert(s[i] == at(i) && s[j] == at(j));
            assert(p[i] != p[j]);
        }
    }
    s.unique_seq_to_set();
    let range = vstd::set_lib::set_int_range(0, n as int);
    vstd::set_lib::lemma_int_range(0, n as int);
    assert(s.to_set().subset_of(range)) by {
        assert forall|x: int| s.to_set().contains(x) implies range.contains(x) by {
            let i = choose|i: int| 0 <= i < s.len() && s[i] == x;
            assert(s[i] == at(i));
        }
    }
    vstd::set_lib::lemma_len_subset(s.to_set(), range);
}

/// The delays of messages between two routers: along the path from one to the other, each link adds
/// the time that it takes light to travel between its ends.
///
/// All distances are in the ticks that light takes for them.
#[derive(Debug)]
pub struct GeoDistance {
    /// Used for a link with an end that has no location.
    pub default_delay: Time,
    pub paths: Pairs<(Time, usize)>,
    pub distances: Pairs<Time>,
}

impl GeoDistance {
    pub open spec fn wf(&self) -> bool {
        self.paths.wf() && self.distances.wf()
    }

    /// The delay of a link.
    pub open spec fn link(&self, a: RouterId, b: RouterId) -> Time {
        if self.distances@.contains_key((a, b)) {
            self.distances@[(a, b)]
        } else {
            self.default_delay
        }
    }

    /// The delay along a path.
    pub open spec fn along(&self, p: Seq<RouterId>) -> Time
        decreases p.len(),
    {
        if p.len() <= 1 {
            0
        } else {
            later(self.along(p.drop_last()), self.link(p[p.len() - 2], p.last()))
        }
    }

    /// The delay and the number of hops of a path. A router is no hops away from itself.
    pub open spec fn measure(&self, p: Seq<RouterId>) -> (Time, usize) {
        if p.len() <= 1 {
            (0, 0)
        } else {
            (self.along(p), (p.len() - 1) as usize)
        }
    }

    /// The paths are those of the routing state.
    pub open spec fn follows(&self, routing: Routing) -> bool {
        forall|src: RouterId, dst: RouterId|
            {
                &&& #[trigger] self.paths@.contains_key((src, dst)) <==> routing.routers@.contains(
                    src,
                ) && routing.routers@.contains(dst) && routing.reaches(src, dst)
                &&& self.paths@.contains_key((src, dst)) ==> exists|p: Seq<RouterId>|
                    #[trigger] routing.is_path(p, src, dst) && self.paths@[(src, dst)]
                        == self.measure(p)
            }
    }

    /// A new model, with the distances between the routers.
    pub fn new(distances: Pairs<Time>, default_delay: Time) -> (r: Self)
        requires
            distances.wf(),
        ensures
            r.wf(),
            r.distances == distances,
            r.default_delay == default_delay,
            r.paths@ == Map::<(RouterId, RouterId), (Time, usize)>::empty(),
    {
        GeoDistance { default_delay, paths: Pairs::new(), distances }
    }

    /// The distance between two routers.
    pub fn get_link_distance(&self, src: RouterId, dst: RouterId) -> (r: Option<Time>)
        requires
            self.wf(),
        ensures
            r == if self.distances@.contains_key((src, dst)) {
                Some(self.distances@[(src, dst)])
            } else {
                None
            },
    {
        match self.distances.get((src, dst)) {
            Some(x) => Some(*x),
            None => None,
        }
    }

    /// The delay and the number of hops of the path from `src` to `dst`.
    pub fn get_path_distance(&self, src: RouterId, dst: RouterId) -> (r: Option<(Time, usize)>)
        requires
            self.wf(),
        ensures
            r == if self.paths@.contains_key((src, dst)) {
                Some(self.paths@[(src, dst)])
            } else {
                None
            },
    {
        match self.paths.get((src, dst)) {
            Some(x) => Some(*x),
            None => None,
        }
    }

    /// Set the distance between two routers, in both directions.
    pub fn set_distance(&mut self, src: RouterId, dst: RouterId, dist: Time)
        requires
            old(self).wf(),
        ensures
            final(self).wf(),
            final(self).distances@ == old(self).distances@.insert((src, dst), dist).insert(
                (dst, src),
                dist,
            ),
            final(self).paths == old(self).paths,
            final(self).default_delay == old(self).default_delay,
    {
        self.distances.insert((src, dst), dist);
        self.distances.insert((dst, src), dist);
    }

    /// The delay and the number of hops of a path.
    fn measure_path(&self, p: &Vec<RouterId>) -> (r: (Time, usize))
        requires
            self.wf(),
            p@.len() > 0,
        ensures
            r == self.measure(p@),
    {
        if p.len() == 1 {
            return (0, 0);
        }
        let mut delay: Time = 0;
        let mut i: usize = 1;
        while i < p.len()
            invariant
                self.wf(),
                1 <= i <= p@.len(),
                delay == self.along(p@.take(i as int)),
            decreases p@.len() - i,
        {
            let d: Time = match self.distances.get((p[i - 1], p[i])) {
                Some(x) => *x,
                None => self.default_delay,
            };
            proof {
                assert(p@.take(i + 1).drop_last() =~= p@.take(i as int));
            }
            delay = later_than(delay, d);
            i += 1;
        }
        assert(p@.take(p@.len() as int) =~= p@);
        (delay, p.len() - 1)
    }

    /// Compute the paths between all routers.
    pub fn update_params(&mut self, routing: &Routing)
        requires
            old(self).wf(),
            routing.wf(),
        ensures
            final(self).wf(),
            final(self).follows(*routing),
            final(self).distances == old(self).distances,
            final(self).default_delay == old(self).default_delay,
    {
        self.paths = Pairs::new();
        let n: usize = routing.routers.len();
        for i in 0..n
            invariant
                n == routing.routers@.len(),
                self.wf(),
                routing.wf(),
                self.distances == old(self).distances,
                self.default_delay == old(self).default_delay,
                self.covers(*routing, i as int, 0),
        {
            for j in 0..n
                invariant
                    i < n,
                    n == routing.routers@.len(),
                    self.wf(),
                    routing.wf(),
                    self.distances == old(self).distances,
                    self.default_delay == old(self).default_delay,
                    self.covers(*routing, i as int, j as int),
            {
                let src: RouterId = routing.routers[i];
                let dst: RouterId = routing.routers[j];
                let ghost before = *self;
                match routing.find_path(src, dst) {
                    Some(p) => {
                        let m = self.measure_path(&p);
                        self.paths.insert((src, dst), m);
                        proof {
                            assert(routing.is_path(p@, src, dst));
                            assert(self.measure(p@) == m) by {
                                lemma_same_along(before, *self, p@);
                            }
                        }
                    },
                    None => {},
                }
                proof {
                    lemma_covers_next(before, *self, *routing, i as int, j as int);
                }
            }
            assert(self.covers(*routing, i + 1, 0));
        }
        assert(self.follows(*routing));
    }

    /// The pair stands before position `(i, j)` of the table of all pairs.
    pub open spec fn visited(
        routing: Routing,
        i: int,
        j: int,
        src: RouterId,
        dst: RouterId,
    ) -> bool {
        exists|a: int, b: int|
            0 <= a < routing.routers@.len() && 0 <= b < routing.routers@.len() && (a < i || (a == i
                && b < j)) && #[trigger] routing.routers@[a] == src && #[trigger] routing.routers@[b]
                == dst
    }

    /// The paths of the pairs before position `(i, j)` are known, and no others.
    spec fn covers(&self, routing: Routing, i: int, j: int) -> bool {
        forall|src: RouterId, dst: RouterId|
            {
                &&& #[trigger] self.paths@.contains_key((src, dst)) <==> Self::visited(
                    routing,
                    i,
                    j,
                    src,
                    dst,
                ) && routing.reaches(src, dst)
                &&& self.paths@.contains_key((src, dst)) ==> exists|p: Seq<RouterId>|
                    #[trigger] routing.is_path(p, src, dst) && self.paths@[(src, dst)]
                        == self.measure(p)
            }
    }
}

/// The delay along a path does not depend on the paths that are known.
proof fn lemma_same_along(a: GeoDistance, b: GeoDistance, p: Seq<RouterId>)
    requires
        a.distances == b.distances,
        a.default_delay == b.default_delay,
    ensures
        a.along(p) == b.along(p),
        a.measure(p) == b.measure(p),
    decreases p.len(),
{
    if p.len() > 1 {
        lemma_same_along(a, b, p.drop_last());
    }
}

proof fn lemma_covers_next(
    before: GeoDistance,
    after: GeoDistance,
    routing: Routing,
    i: int,
    j: int,
)
    requires
        before.covers(routing, i, j),
        0 <= i < routing.routers@.len(),
        0 <= j < routing.routers@.len(),
        after.distances == before.distances,
        after.default_delay == before.default_delay,
        ({
            let (src, dst) = (routing.routers@[i], routing.routers@[j]);
            if routing.reaches(src, dst) {
                exists|p: Seq<RouterId>| #[trigger]
                    routing.is_path(p, src, dst) && after.paths@ == before.paths@.insert(
                        (src, dst),
                        after.measure(p),
                    )
            } else {
                after.paths == before.paths
            }
        }),
    ensures
        after.covers(routing, i, j + 1),
{
    let (s, d) = (routing.routers@[i], routing.routers@[j]);
    assert forall|src: RouterId, dst: RouterId|
        {
            &&& #[trigger] after.paths@.contains_key((src, dst)) <==> GeoDistance::visited(
                routing,
                i,
                j + 1,
                src,
                dst,
            ) && routing.reaches(src, dst)
            &&& after.paths@.contains_key((src, dst)) ==> exists|p: Seq<RouterId>|
                #[trigger] routing.is_path(p, src, dst) && after.paths@[(src, dst)]
                    == after.measure(p)
        } by {
        assert(before.paths@.contains_key((src, dst)) || !before.paths@.contains_key((src, dst)));
        assert(GeoDistance::visited(routing, i, j + 1, src, dst) <==> (GeoDistance::visited(
            routing,
            i,
            j,
            src,
            dst,
        ) || (src == s && dst == d))) by {
            if GeoDistance::visited(routing, i, j + 1, src, dst) {
                let (a, b) = choose|a: int, b: int|
                    0 <= a < routing.routers@.len() && 0 <= b < routing.routers@.len() && (a < i
                        || (a == i && b < j + 1)) && #[trigger] routing.routers@[a] == src
                        && #[trigger] routing.routers@[b] == dst;
                if a < i || b < j {
                    assert(routing.routers@[a] == src && routing.routers@[b] == dst);
                }
            }
            if GeoDistance::visited(routing, i, j, src, dst) {
                let (a, b) = choose|a: int, b: int|
                    0 <= a < routing.routers@.len() && 0 <= b < routing.routers@.len() && (a < i
                        || (a == i && b < j)) && #[trigger] routing.routers@[a] == src
                        && #[trigger] routing.routers@[b] == dst;
                assert(routing.routers@[a] == src && routing.routers@[b] == dst);
            }
        }
        if after.paths@.contains_key((src, dst)) {
            if src == s && dst == d && routing.reaches(s, d) {
            } else {
                assert(before.paths@.contains_key((src, dst)));
                let p = choose|p: Seq<RouterId>| #[trigger]
                    routing.is_path(p, src, dst) && before.paths@[(src, dst)] == before.measure(p);
                lemma_same_along(before, after, p);
                assert(routing.is_path(p, src, dst) && after.paths@[(src, dst)] == after.measure(
                    p,
                ));
            }
        }
    }
}

/// The delay along a path is that of its links together: a router is no delay away from itself, a further
/// hop adds the delay of its link, and a link without a known distance has the default delay. The hops are
/// counted one by one.
pub proof fn law_delays_add_up(geo: GeoDistance, p: Seq<RouterId>, r: RouterId)
    requires
        p.len() > 0,
        p.len() < usize::MAX,
        ({
            let link = if geo.distances@.contains_key((p.last(), r)) {
                geo.distances@[(p.last(), r)]
            } else {
                geo.default_delay
            };
            i64::MIN <= geo.along(p) + link <= i64::MAX
        }),
    ensures
        geo.along(seq![r]) == 0,
        geo.measure(seq![r]) == (0i64, 0usize),
        geo.distances@.contains_key((p.last(), r)) ==> geo.along(p.push(r)) == geo.along(p)
            + geo.distances@[(p.last(), r)],
        !geo.distances@.contains_key((p.last(), r)) ==> geo.along(p.push(r)) == geo.along(p)
            + geo.default_delay,
        geo.measure(p.push(r)).1 == p.len(),
        geo.measure(p.push(r)).1 == geo.measure(p).1 + 1,
        geo.measure(p.push(r)).0 == geo.along(p.push(r)),
{
    assert(p.push(r).drop_last() =~= p);
    assert(p.push(r)[p.push(r).len() - 2] == p.last());
}

/// Messages take the first of the next hops at each router, and there is a path exactly if they lead to
/// the target. Every part of a path that ends at the target is a path.
pub proof fn law_following_next_hops(routing: Routing, p: Seq<RouterId>, src: RouterId, dst: RouterId)
    requires
        routing.is_path(p, src, dst),
    ensures
        p[0] == src,
        p.last() == dst,
        routing.reaches(src, dst),
        src == dst ==> p == seq![src],
        src != dst ==> p.len() > 1 && routing.next_hops@.contains_key((src, dst))
            && routing.next_hops@[(src, dst)]@.len() > 0 && p[1] == routing.next_hops@[(
            src,
            dst,
        )]@[0] && routing.is_path(p.skip(1), p[1], dst),
        routing.is_path(seq![src], src, src),
{
    if src == dst {
        if p.len() > 1 {
            assert(p[0] != dst);
        }
        assert(p =~= seq![src]);
    } else {
        assert(p[0] != p.last());
        let q = p.skip(1);
        assert(routing.next_hop(p[0], dst) == Some(p[1]));
        assert forall|i: int| 0 <= i < q.len() - 1 implies #[trigger] q[i] != dst
            && routing.next_hop(q[i], dst) == Some(q[i + 1]) by {
            assert(p[i + 1] != dst && routing.next_hop(p[i + 1], dst) == Some(p[i + 2]));
        }
    }
}

/// Exactly the routers that reach each other have a path, and it has as many hops as there are links on it.
pub proof fn law_paths_of_the_routes(
    geo: GeoDistance,
    routing: Routing,
    src: RouterId,
    dst: RouterId,
) -> (p: Seq<RouterId>)
    requires
        geo.follows(routing),
        geo.paths@.contains_key((src, dst)),
    ensures
        p.len() > 0,
        p[0] == src,
        p.last() == dst,
        geo.paths@[(src, dst)].0 == geo.along(p),
        p.len() <= usize::MAX ==> geo.paths@[(src, dst)].1 == p.len() - 1,
        routing.routers@.contains(src) && routing.routers@.contains(dst),
{
    let p = choose|p: Seq<RouterId>| #[trigger]
        routing.is_path(p, src, dst) && geo.paths@[(src, dst)] == geo.measure(p);
    p
}

/// Routers of the network that reach each other are not left out.
pub proof fn law_no_path_is_left_out(geo: GeoDistance, routing: Routing, src: RouterId, dst: RouterId)
    requires
        geo.follows(routing),
    ensures
        routing.routers@.contains(src) && routing.routers@.contains(dst) && routing.reaches(src, dst)
            ==> geo.paths@.contains_key((src, dst)),
        !routing.reaches(src, dst) ==> !geo.paths@.contains_key((src, dst)),
{
    assert(geo.paths@.contains_key((src, dst)) || !geo.paths@.contains_key((src, dst)));
}

} // verus!
