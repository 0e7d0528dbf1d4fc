//! How far apart two networks are, and what is wrong with the forwarding of one.
use vstd::prelude::*;

use crate::bgp::RouterId;

verus! {

/// The next hops that the internal routers of a network have selected, in a fixed order.
#[derive(Debug)]
pub struct Selection {
    pub next_hops: Vec<Option<RouterId>>,
}

/// The number of positions below `n` at which two lists differ.
pub open spec fn differing(
    a: Seq<Option<RouterId>>,
    b: Seq<Option<RouterId>>,
    n: int,
) -> nat
    decreases n,
{
    if n <= 0 {
        0
    } else if a[n - 1] != b[n - 1] {
        differing(a, b, n - 1) + 1
    } else {
        differing(a, b, n - 1)
    }
}

/// The smaller one of two numbers.
pub open spec fn smaller(a: nat, b: nat) -> nat {
    if a < b {
        a
    } else {
        b
    }
}

/// The number of routers that have selected different next hops. Routers that only one of the
/// networks has do not count.
pub open spec fn distance_between(a: Seq<Option<RouterId>>, b: Seq<Option<RouterId>>) -> nat {
    differing(a, b, smaller(a.len(), b.len()) as int)
}

proof fn lemma_differing_bound(a: Seq<Option<RouterId>>, b: Seq<Option<RouterId>>, n: int)
    requires
        0 <= n,
    ensures
        differing(a, b, n) <= n,
    decreases n,
{
    if n > 0 {
        lemma_differing_bound(a, b, n - 1);
    }
}

/// Something that has a distance to others.
pub trait NetworkDistance {
    spec fn selected(&self) -> Seq<Option<RouterId>>;

    fn distance(&self, other: &Self) -> (r: u32)
        requires
            smaller(self.selected().len(), other.selected().len()) <= u32::MAX,
        ensures
            r == distance_between(self.selected(), other.selected()),
    ;
}

impl NetworkDistance for Selection {
    open spec fn selected(&self) -> Seq<Option<RouterId>> {
        self.next_hops@
    }

    fn distance(&self, other: &Self) -> (r: u32) {
        let n: usize = if self.next_hops.len() < other.next_hops.len() {
            self.next_hops.len()
        } else {
            other.next_hops.len()
        };
        let mut sum: u32 = 0;
        for i in 0..n
            invariant
                n <= self.next_hops@.len(),
                n <= other.next_hops@.len(),
                n <= u32::MAX,
                sum == differing(self.next_hops@, other.next_hops@, i as int),
                sum <= i,
        {
            let same: bool = match (self.next_hops[i], other.next_hops[i]) {
                (Some(a), Some(b)) => a == b,
                (None, None) => true,
                _ => false,
            };
            if !same {
                sum += 1;
            }
        }
        sum
    }
}

/// A network has no distance to itself.
pub proof fn law_distance_to_itself(a: Seq<Option<RouterId>>)
    ensures
        distance_between(a, a) == 0,
{
    lemma_same(a, a.len() as int);
}

proof fn lemma_same(a: Seq<Option<RouterId>>, n: int)
    ensures
        differing(a, a, n) == 0,
    decreases n,
{
    if n > 0 {
        lemma_same(a, n - 1);
    }
}

/// Only networks that have selected the same next hops have no distance.
pub proof fn law_distance_tells_apart(a: Seq<Option<RouterId>>, b: Seq<Option<RouterId>>)
    requires
        a.len() == b.len(),
        distance_between(a, b) == 0,
    ensures
        a == b,
{
    lemma_tells_apart(a, b, a.len() as int);
    assert(a =~= b);
}

proof fn lemma_tells_apart(a: Seq<Option<RouterId>>, b: Seq<Option<RouterId>>, n: int)
    requires
        differing(a, b, n) == 0,
    ensures
        forall|i: int| 0 <= i < n ==> a[i] == b[i],
    decreases n,
{
    if n > 0 {
        lemma_tells_apart(a, b, n - 1);
    }
}

/// The distance is the same in both directions.
pub proof fn law_distance_is_symmetric(a: Seq<Option<RouterId>>, b: Seq<Option<RouterId>>)
    ensures
        distance_between(a, b) == distance_between(b, a),
{
    lemma_symmetric(a, b, smaller(a.len(), b.len()) as int);
}

proof fn lemma_symmetric(a: Seq<Option<RouterId>>, b: Seq<Option<RouterId>>, n: int)
    ensures
        differing(a, b, n) == differing(b, a, n),
    decreases n,
{
    if n > 0 {
        lemma_symmetric(a, b, n - 1);
    }
}

/// A detour is no shortcut.
pub proof fn law_distance_has_no_shortcut(
    a: Seq<Option<RouterId>>,
    b: Seq<Option<RouterId>>,
    c: Seq<Option<RouterId>>,
)
    requires
        a.len() == b.len(),
        b.len() == c.len(),
    ensures
        distance_between(a, c) <= distance_between(a, b) + distance_between(b, c),
{
    lemma_triangle(a, b, c, a.len() as int);
}

proof fn lemma_triangle(
    a: Seq<Option<RouterId>>,
    b: Seq<Option<RouterId>>,
    c: Seq<Option<RouterId>>,
    n: int,
)
    ensures
        differing(a, c, n) <= differing(a, b, n) + differing(b, c, n),
    decreases n,
{
    if n > 0 {
        lemma_triangle(a, b, c, n - 1);
    }
}

/// What becomes of the packets of a router.
#[derive(Debug, Clone, Copy, PartialEq, Eq, Structural)]
pub enum Forwarding {
    /// They arrive.
    Reachable,
    /// Some router drops them.
    BlackHole,
    /// They go in circles.
    ForwardingLoop,
    /// Something else is wrong.
    Other,
}

/// What becomes of the packets of all internal routers.
#[derive(Debug)]
pub struct ForwardingState {
    pub outcomes: Vec<Forwarding>,
}

/// How often something becomes of the packets of the first `n` routers.
pub open spec fn how_often(s: Seq<Forwarding>, x: Forwarding, n: int) -> nat
    decreases n,
{
    if n <= 0 {
        0
    } else if s[n - 1] == x {
        how_often(s, x, n - 1) + 1
    } else {
        how_often(s, x, n - 1)
    }
}

/// What is wrong with the forwarding of a network.
pub trait NetworkPolicies {
    spec fn forwarding(&self) -> Seq<Forwarding>;

    /// The number of routers whose packets are dropped.
    fn blackholes(&self) -> (r: u32)
        requires
            self.forwarding().len() <= u32::MAX,
        ensures
            r == how_often(
                self.forwarding(),
                Forwarding::BlackHole,
                self.forwarding().len() as int,
            ),
    ;

    /// The number of routers whose packets go in circles.
    fn forwarding_loops(&self) -> (r: u32)
        requires
            self.forwarding().len() <= u32::MAX,
        ensures
            r == how_often(
                self.forwarding(),
                Forwarding::ForwardingLoop,
                self.forwarding().len() as int,
            ),
    ;
}

fn count(s: &Vec<Forwarding>, x: Forwarding) -> (r: u32)
    requires
        s@.len() <= u32::MAX,
    ensures
        r == how_often(s@, x, s@.len() as int),
{
    let mut r: u32 = 0;
    for i in 0..s.len()
        invariant
            s@.len() <= u32::MAX,
            r == how_often(s@, x, i as int),
            r <= i,
    {
        if s[i] == x {
            r += 1;
        }
    }
    r
}

impl NetworkPolicies for ForwardingState {
    open spec fn forwarding(&self) -> Seq<Forwarding> {
        self.outcomes@
    }

    fn blackholes(&self) -> (r: u32) {
        count(&self.outcomes, Forwarding::BlackHole)
    }

    fn forwarding_loops(&self) -> (r: u32) {
        count(&self.outcomes, Forwarding::ForwardingLoop)
    }
}

/// Every router that selects another next hop adds one to the distance, and the others add nothing.
pub proof fn law_distance_counts_routers(
    a: Seq<Option<RouterId>>,
    b: Seq<Option<RouterId>>,
    x: Option<RouterId>,
    y: Option<RouterId>,
)
    requires
        a.len() == b.len(),
    ensures
        distance_between(a.push(x), b.push(y)) == distance_between(a, b) + if x == y {
            0int
        } else {
            1
        },
{
    lemma_differing_prefix(a, b, a.push(x), b.push(y), a.len() as int);
}

proof fn lemma_differing_prefix(
    a: Seq<Option<RouterId>>,
    b: Seq<Option<RouterId>>,
    c: Seq<Option<RouterId>>,
    d: Seq<Option<RouterId>>,
    n: int,
)
    requires
        0 <= n <= a.len(),
        n <= b.len(),
        a.len() <= c.len(),
        b.len() <= d.len(),
        c.take(a.len() as int) =~= a,
        d.take(b.len() as int) =~= b,
    ensures
        differing(a, b, n) == differing(c, d, n),
    decreases n,
{
    if n > 0 {
        lemma_differing_prefix(a, b, c, d, n - 1);
        assert(c.take(a.len() as int)[n - 1] == c[n - 1]);
        assert(d.take(b.len() as int)[n - 1] == d[n - 1]);
    }
}

/// Every router is counted under exactly one of the things that can become of its packets.
pub proof fn law_every_router_is_counted_once(s: Seq<Forwarding>, n: int)
    requires
        0 <= n <= s.len(),
    ensures
        how_often(s, Forwarding::Reachable, n) + how_often(s, Forwarding::BlackHole, n) + how_often(
            s,
            Forwarding::ForwardingLoop,
            n,
        ) + how_often(s, Forwarding::Other, n) == n,
        forall|x: Forwarding|
            (forall|i: int| 0 <= i < n ==> #[trigger] s[i] != x) ==> #[trigger] how_often(s, x, n)
                == 0,
        forall|x: Forwarding|
            (forall|i: int| 0 <= i < n ==> #[trigger] s[i] == x) ==> #[trigger] how_often(s, x, n)
                == n,
    decreases n,
{
    if n > 0 {
        law_every_router_is_counted_once(s, n - 1);
        assert forall|x: Forwarding|
            (forall|i: int| 0 <= i < n ==> #[trigger] s[i] != x) implies #[trigger] how_often(
            s,
            x,
            n,
        ) == 0 by {
            assert(s[n - 1] != x);
            assert(how_often(s, x, n - 1) == 0);
        }
        assert forall|x: Forwarding|
            (forall|i: int| 0 <= i < n ==> #[trigger] s[i] == x) implies #[trigger] how_often(
            s,
            x,
            n,
        ) == n by {
            assert(s[n - 1] == x);
            assert(how_often(s, x, n - 1) == n - 1);
        }
    }
}

/// If one network has more routers than the other, then those that only one has do not count.
pub proof fn law_further_routers_do_not_count(
    a: Seq<Option<RouterId>>,
    b: Seq<Option<RouterId>>,
    c: Seq<Option<RouterId>>,
)
    requires
        a.len() == b.len(),
    ensures
        distance_between(a, b + c) == distance_between(a, b),
        distance_between(a + c, b) == distance_between(a, b),
        distance_between(a, a) == 0,
{
    assert((b + c).take(b.len() as int) =~= b);
    assert((a + c).take(a.len() as int) =~= a);
    assert(a.take(a.len() as int) =~= a && b.take(b.len() as int) =~= b);
    lemma_differing_prefix(a, b, a, b + c, a.len() as int);
    lemma_differing_prefix(a, b, a + c, b, a.len() as int);
    lemma_no_difference(a, a.len() as int);
}

proof fn lemma_no_difference(a: Seq<Option<RouterId>>, n: int)
    requires
        0 <= n <= a.len(),
    ensures
        differing(a, a, n) == 0,
    decreases n,
{
    if n > 0 {
        lemma_no_difference(a, n - 1);
    }
}

} // verus!
