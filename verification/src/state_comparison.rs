//! Comparing the BGP tables of two networks.
use vstd::prelude::*;

use crate::bgp::{same_optional, same_optional_route, same_route, BgpRoute, RouterId};
use crate::keyed::{lemma_entry, lemma_key, Keyed};

verus! {

/// A route, and the neighbor that it is from.
#[derive(Debug)]
pub struct LearnedRoute {
    pub from_id: RouterId,
    pub route: BgpRoute,
}

/// The BGP tables of a router.
#[derive(Debug)]
pub struct BgpTables {
    pub rib_in: Vec<LearnedRoute>,
    pub rib_in_processed: Vec<LearnedRoute>,
    pub selected: Option<BgpRoute>,
    pub rib_out: Vec<LearnedRoute>,
}

/// The list with a further route: behind those from the same neighbor, and before those from neighbors
/// with a larger number.
pub open spec fn with_route(s: Seq<LearnedRoute>, e: LearnedRoute) -> Seq<LearnedRoute>
    decreases s.len(),
{
    if s.len() == 0 || s.last().from_id <= e.from_id {
        s.push(e)
    } else {
        with_route(s.drop_last(), e).push(s.last())
    }
}

/// The routes, sorted by neighbor. Those from the same neighbor keep their order.
pub open spec fn by_neighbor(s: Seq<LearnedRoute>) -> Seq<LearnedRoute>
    decreases s.len(),
{
    if s.len() == 0 {
        s
    } else {
        with_route(by_neighbor(s.drop_last()), s.last())
    }
}

proof fn lemma_with_route(s: Seq<LearnedRoute>, e: LearnedRoute, i: int)
    requires
        0 <= i <= s.len(),
        i == 0 || s[i - 1].from_id <= e.from_id,
        forall|j: int| i <= j < s.len() ==> (#[trigger] s[j]).from_id > e.from_id,
    ensures
        with_route(s, e) == s.insert(i, e),
    decreases s.len(),
{
    if i < s.len() {
        lemma_with_route(s.drop_last(), e, i);
        assert(s.insert(i, e) =~= s.drop_last().insert(i, e).push(s.last()));
    } else {
        assert(s.insert(i, e) =~= s.push(e));
    }
}

/// Sorting keeps every route, and leaves them in the order of their neighbors.
pub proof fn law_routes_are_sorted(s: Seq<LearnedRoute>)
    ensures
        by_neighbor(s).len() == s.len(),
        by_neighbor(s).to_multiset() == s.to_multiset(),
        forall|i: int, j: int|
            0 <= i <= j < s.len() ==> (#[trigger] by_neighbor(s)[i]).from_id
                <= (#[trigger] by_neighbor(s)[j]).from_id,
    decreases s.len(),
{
    broadcast use vstd::seq_lib::group_to_multiset_ensures;

    if s.len() > 0 {
        law_routes_are_sorted(s.drop_last());
        lemma_inserted(by_neighbor(s.drop_last()), s.last());
        assert(s =~= s.drop_last().push(s.last()));
    }
}

proof fn lemma_inserted(s: Seq<LearnedRoute>, e: LearnedRoute)
    requires
        forall|i: int, j: int|
            0 <= i <= j < s.len() ==> (#[trigger] s[i]).from_id <= (#[trigger] s[j]).from_id,
    ensures
        with_route(s, e).len() == s.len() + 1,
        with_route(s, e).to_multiset() == s.to_multiset().insert(e),
        forall|i: int, j: int|
            0 <= i <= j < s.len() + 1 ==> (#[trigger] with_route(s, e)[i]).from_id
                <= (#[trigger] with_route(s, e)[j]).from_id,
        forall|i: int|
            0 <= i < s.len() + 1 ==> (#[trigger] with_route(s, e)[i]).from_id <= if s.len() > 0
                && s.last().from_id > e.from_id {
                s.last().from_id
            } else {
                e.from_id
            },
    decreases s.len(),
{
    broadcast use vstd::seq_lib::group_to_multiset_ensures;

    if s.len() > 0 && s.last().from_id > e.from_id {
        let init = s.drop_last();
        lemma_inserted(init, e);
        assert(s =~= init.push(s.last()));
        assert(s.to_multiset().insert(e) =~= init.to_multiset().insert(e).insert(s.last()));
        assert forall|i: int|
            0 <= i < init.len() + 1 implies (#[trigger] with_route(init, e)[i]).from_id
            <= s.last().from_id by {
            if init.len() > 0 {
                assert(init.last() == s[s.len() - 2]);
            }
        }
    }
}

/// Sort routes by neighbor.
pub fn sort_by_neighbor(list: Vec<LearnedRoute>) -> (r: Vec<LearnedRoute>)
    ensures
        r@ == by_neighbor(list@),
{
    let ghost all = list@;
    let mut r: Vec<LearnedRoute> = Vec::new();
    assert(all.take(0) =~= Seq::<LearnedRoute>::empty());
    for e in it: list
        invariant
            it.seq() == all,
            r@ == by_neighbor(all.take(it.index() as int)),
    {
        let ghost k = it.index() as int;
        let ghost before = r@;
        let mut i: usize = r.len();
        while i > 0 && r[i - 1].from_id > e.from_id
            invariant
                i <= r@.len(),
                r@ == before,
                forall|j: int| i <= j < before.len() ==> (#[trigger] before[j]).from_id > e.from_id,
            decreases i,
        {
            i -= 1;
        }
        proof {
            assert(all.take(k + 1).drop_last() =~= all.take(k));
            assert(all.take(k + 1).last() == e);
            lemma_with_route(before, e, i as int);
        }
        r.insert(i, e);
    }
    assert(all.take(all.len() as int) =~= all);
    r
}

/// The same announcements, in the same order.
pub open spec fn same_routes(a: Seq<LearnedRoute>, b: Seq<LearnedRoute>) -> bool {
    a.len() == b.len() && forall|i: int|
        0 <= i < a.len() ==> same_route((#[trigger] a[i]).route@, b[i].route@)
}

/// The two tables differ: sorted by neighbor, they are not the same announcements.
pub open spec fn tables_differ(a: Seq<LearnedRoute>, b: Seq<LearnedRoute>) -> bool {
    !same_routes(by_neighbor(a), by_neighbor(b))
}

fn are_same_routes(a: &Vec<LearnedRoute>, b: &Vec<LearnedRoute>) -> (r: bool)
    ensures
        r == same_routes(a@, b@),
{
    if a.len() != b.len() {
        return false;
    }
    for i in 0..a.len()
        invariant
            a@.len() == b@.len(),
            forall|j: int| 0 <= j < i ==> same_route((#[trigger] a@[j]).route@, b@[j].route@),
    {
        if !a[i].route.same(&b[i].route) {
            assert(!same_route(a@[i as int].route@, b@[i as int].route@));
            return false;
        }
    }
    true
}

fn do_tables_differ(a: Vec<LearnedRoute>, b: Vec<LearnedRoute>) -> (r: bool)
    ensures
        r == tables_differ(a@, b@),
{
    !are_same_routes(&sort_by_neighbor(a), &sort_by_neighbor(b))
}

/// In which tables two networks differ.
#[derive(Debug, Clone, Copy, PartialEq, Eq)]
pub struct Mismatch {
    pub rib_in: bool,
    pub rib_in_processed: bool,
    pub rib_selected: bool,
    pub rib_out: bool,
}

/// The incoming routes of a router, before they are processed. A router that does not exist has none.
pub open spec fn rib_in_of(m: Map<RouterId, BgpTables>, x: RouterId) -> Seq<LearnedRoute> {
    if m.contains_key(x) {
        m[x].rib_in@
    } else {
        Seq::empty()
    }
}

/// The incoming routes of a router, after they are processed.
pub open spec fn processed_of(m: Map<RouterId, BgpTables>, x: RouterId) -> Seq<LearnedRoute> {
    if m.contains_key(x) {
        m[x].rib_in_processed@
    } else {
        Seq::empty()
    }
}

/// The outgoing routes of a router.
pub open spec fn rib_out_of(m: Map<RouterId, BgpTables>, x: RouterId) -> Seq<LearnedRoute> {
    if m.contains_key(x) {
        m[x].rib_out@
    } else {
        Seq::empty()
    }
}

/// The route that a router has selected.
pub open spec fn selected_of(m: Map<RouterId, BgpTables>, x: RouterId) -> Option<
    crate::bgp::RouteView,
> {
    if m.contains_key(x) {
        match m[x].selected {
            Some(route) => Some(route@),
            None => None,
        }
    } else {
        None
    }
}

/// What the comparison of the tables of a router adds.
pub open spec fn mismatch_at(
    healthy: Map<RouterId, BgpTables>,
    dut: Map<RouterId, BgpTables>,
    x: RouterId,
) -> Mismatch {
    Mismatch {
        rib_in: tables_differ(rib_in_of(healthy, x), rib_in_of(dut, x)),
        rib_in_processed: tables_differ(processed_of(healthy, x), processed_of(dut, x)),
        rib_selected: !same_optional(selected_of(healthy, x), selected_of(dut, x)),
        rib_out: tables_differ(rib_out_of(healthy, x), rib_out_of(dut, x)),
    }
}

/// The tables of a router that does not exist.
fn no_tables() -> (r: BgpTables)
    ensures
        r.rib_in@.len() == 0,
        r.rib_in_processed@.len() == 0,
        r.selected is None,
        r.rib_out@.len() == 0,
{
    BgpTables {
        rib_in: Vec::new(),
        rib_in_processed: Vec::new(),
        selected: None,
        rib_out: Vec::new(),
    }
}

/// The tables of a router of the first network, which are compared with those of the second.
#[derive(Debug)]
pub struct TablePair {
    pub router: RouterId,
    pub healthy: Option<BgpTables>,
    pub dut: Option<BgpTables>,
}

/// The mismatch of a pair of tables.
pub open spec fn pair_mismatch(pair: TablePair) -> Mismatch {
    mismatch_at(tables_at(pair.router, pair.healthy), tables_at(pair.router, pair.dut), pair.router)
}

/// The tables of a network with at most one router.
pub open spec fn tables_at(router: RouterId, tables: Option<BgpTables>) -> Map<RouterId, BgpTables> {
    match tables {
        Some(t) => Map::empty().insert(router, t),
        None => Map::empty(),
    }
}

fn compare_tables(pair: TablePair) -> (r: Mismatch)
    ensures
        r == pair_mismatch(pair),
{
    let ghost (h, d) = (
        tables_at(pair.router, pair.healthy),
        tables_at(pair.router, pair.dut),
    );
    let healthy = match pair.healthy {
        Some(t) => t,
        None => no_tables(),
    };
    let dut = match pair.dut {
        Some(t) => t,
        None => no_tables(),
    };
    proof {
        let x = pair.router;
        assert(rib_in_of(h, x) =~= healthy.rib_in@ && rib_in_of(d, x) =~= dut.rib_in@);
        assert(processed_of(h, x) =~= healthy.rib_in_processed@);
        assert(processed_of(d, x) =~= dut.rib_in_processed@);
        assert(rib_out_of(h, x) =~= healthy.rib_out@ && rib_out_of(d, x) =~= dut.rib_out@);
    }
    let rib_selected: bool = !same_optional_route(healthy.selected.as_ref(), dut.selected.as_ref());
    Mismatch {
        rib_in: do_tables_differ(healthy.rib_in, dut.rib_in),
        rib_in_processed: do_tables_differ(healthy.rib_in_processed, dut.rib_in_processed),
        rib_selected,
        rib_out: do_tables_differ(healthy.rib_out, dut.rib_out),
    }
}

/// Put together the tables of the routers that one of the two networks has.
fn pair_tables(healthy: Keyed<BgpTables>, dut: Keyed<BgpTables>) -> (r: Vec<TablePair>)
    requires
        healthy.wf(),
        dut.wf(),
    ensures
        forall|x: RouterId|
            healthy@.contains_key(x) || dut@.contains_key(x) ==> exists|i: int|
                0 <= i < r@.len() && (#[trigger] r@[i]).router == x,
        forall|i: int|
            0 <= i < r@.len() ==> {
                let x = (#[trigger] r@[i]).router;
                &&& healthy@.contains_key(x) || dut@.contains_key(x)
                &&& pair_mismatch(r@[i]) == mismatch_at(healthy@, dut@, x)
            },
{
    let ghost (h, d) = (healthy.entries@, dut.entries@);
    let mut rest: Keyed<BgpTables> = dut;
    let mut r: Vec<TablePair> = Vec::new();
    for e in it: healthy.entries
        invariant
            it.seq() == h,
            h == healthy.entries@,
            d == dut.entries@,
            healthy.wf(),
            dut.wf(),
            rest.wf(),
            forall|x: RouterId|
                #![trigger rest@.contains_key(x)]
                {
                    &&& rest@.contains_key(x) ==> dut@.contains_key(x) && rest@[x] == dut@[x]
                    &&& dut@.contains_key(x) && !crate::keyed::has_key(
                        h.take(it.index() as int),
                        x,
                    ) ==> rest@.contains_key(x)
                    &&& crate::keyed::has_key(h.take(it.index() as int), x) ==> !rest@.contains_key(x)
                },
            r@.len() == it.index(),
            forall|i: int|
                0 <= i < r@.len() ==> (#[trigger] r@[i]).router == h[i].0 && pair_mismatch(r@[i])
                    == mismatch_at(healthy@, dut@, h[i].0),
    {
        let ghost k = it.index() as int;
        let (router, tables) = e;
        let ghost before = rest@;
        proof {
            lemma_entry(h, k);
            assert(!crate::keyed::has_key(h.take(k), router)) by {
                if crate::keyed::has_key(h.take(k), router) {
                    let j = choose|j: int|
                        0 <= j < h.take(k).len() && (#[trigger] h.take(k)[j]).0 == router;
                    assert(h[j].0 == h[k].0);
                }
            }
            assert(before.contains_key(router) == dut@.contains_key(router));
        }
        let other = take_tables(&mut rest, router);
        let pair = TablePair { router, healthy: Some(tables), dut: other };
        proof {
            assert(pair_mismatch(pair) == mismatch_at(healthy@, dut@, router));
            assert forall|x: RouterId|
                #![trigger rest@.contains_key(x)]
                {
                    &&& rest@.contains_key(x) ==> dut@.contains_key(x) && rest@[x] == dut@[x]
                    &&& dut@.contains_key(x) && !crate::keyed::has_key(h.take(k + 1), x)
                        ==> rest@.contains_key(x)
                    &&& crate::keyed::has_key(h.take(k + 1), x) ==> !rest@.contains_key(x)
                } by {
                crate::keyed::lemma_has_key_take(h, k, x);
                assert(before.contains_key(x) || !before.contains_key(x));
            }
        }
        r.push(pair);
    }
    let ghost first = r@;
    let ghost others = rest.entries@;
    let ghost m = rest@;
    proof {
        assert(h.take(h.len() as int) =~= h);
        assert forall|x: RouterId| #[trigger] m.contains_key(x) implies dut@.contains_key(x) && m[x]
            == dut@[x] && !healthy@.contains_key(x) by {
            assert(healthy@.contains_key(x) == crate::keyed::has_key(h, x));
        }
    }
    for e in it: rest.entries
        invariant
            it.seq() == others,
            others == rest.entries@,
            m == rest@,
            rest.wf(),
            h == healthy.entries@,
            healthy.wf(),
            dut.wf(),
            forall|x: RouterId| #[trigger]
                m.contains_key(x) ==> dut@.contains_key(x) && m[x] == dut@[x]
                    && !healthy@.contains_key(x),
            first.len() == h.len(),
            forall|i: int|
                0 <= i < first.len() ==> (#[trigger] first[i]).router == h[i].0 && pair_mismatch(
                    first[i],
                ) == mismatch_at(healthy@, dut@, h[i].0),
            r@.len() == first.len() + it.index(),
            r@.take(first.len() as int) == first,
            forall|i: int|
                first.len() <= i < r@.len() ==> (#[trigger] r@[i]).router == others[i
                    - first.len()].0 && pair_mismatch(r@[i]) == mismatch_at(
                    healthy@,
                    dut@,
                    r@[i].router,
                ),
    {
        let ghost k = it.index() as int;
        let ghost before = r@;
        let (router, tables) = e;
        proof {
            lemma_entry(others, k);
            assert(m.contains_key(router));
        }
        let pair = TablePair { router, healthy: None, dut: Some(tables) };
        assert(pair_mismatch(pair) == mismatch_at(healthy@, dut@, router));
        r.push(pair);
        assert(r@.take(first.len() as int) =~= first);
    }
    proof {
        assert forall|x: RouterId| healthy@.contains_key(x) || dut@.contains_key(x) implies exists|
            i: int,
        |
            0 <= i < r@.len() && (#[trigger] r@[i]).router == x by {
            if healthy@.contains_key(x) {
                let i = lemma_key(h, x);
                assert(first[i].router == x);
                assert(r@.take(first.len() as int)[i] == r@[i]);
            } else {
                assert(h.take(h.len() as int) =~= h);
                assert(m.contains_key(x));
                let i = lemma_key(others, x);
                assert(r@[first.len() + i].router == x);
            }
        }
        assert forall|i: int| 0 <= i < r@.len() implies {
            let x = (#[trigger] r@[i]).router;
            &&& healthy@.contains_key(x) || dut@.contains_key(x)
            &&& pair_mismatch(r@[i]) == mismatch_at(healthy@, dut@, x)
        } by {
            if i < first.len() {
                assert(r@.take(first.len() as int)[i] == r@[i]);
                lemma_entry(h, i);
            } else {
                lemma_entry(others, i - first.len());
                assert(m.contains_key(others[i - first.len()].0));
            }
        }
    }
    r
}

/// Take the tables of a router out of a map.
fn take_tables(m: &mut Keyed<BgpTables>, x: RouterId) -> (r: Option<BgpTables>)
    requires
        old(m).wf(),
    ensures
        final(m).wf(),
        final(m)@ == old(m)@.remove(x),
        match r {
            Some(t) => old(m)@.contains_key(x) && t == old(m)@[x],
            None => !old(m)@.contains_key(x),
        },
{
    let ghost before = m.entries@;
    match m.find(x) {
        Some(i) => {
            proof {
                crate::keyed::lemma_remove(before, i as int);
                lemma_entry(before, i as int);
            }
            let (_, t) = m.entries.remove(i);
            Some(t)
        },
        None => {
            assert(m@.remove(x) =~= m@);
            None
        },
    }
}

/// Some router of one of the networks has a mismatch.
pub open spec fn some_router(
    healthy: Map<RouterId, BgpTables>,
    dut: Map<RouterId, BgpTables>,
    test: spec_fn(Mismatch) -> bool,
) -> bool {
    exists|x: RouterId| #[trigger]
        test(mismatch_at(healthy, dut, x)) && (healthy.contains_key(x) || dut.contains_key(x))
}

/// Compare the tables of two networks, and note where they differ.
pub fn compare_bgp_state(result: &mut Mismatch, healthy: Keyed<BgpTables>, dut: Keyed<BgpTables>)
    requires
        healthy.wf(),
        dut.wf(),
    ensures
        final(result).rib_in == (old(result).rib_in || some_router(
            healthy@,
            dut@,
            |m: Mismatch| m.rib_in,
        )),
        final(result).rib_in_processed == (old(result).rib_in_processed || some_router(
            healthy@,
            dut@,
            |m: Mismatch| m.rib_in_processed,
        )),
        final(result).rib_selected == (old(result).rib_selected || some_router(
            healthy@,
            dut@,
            |m: Mismatch| m.rib_selected,
        )),
        final(result).rib_out == (old(result).rib_out || some_router(
            healthy@,
            dut@,
            |m: Mismatch| m.rib_out,
        )),
{
    let ghost (h, d) = (healthy@, dut@);
    let ghost start = *result;
    let pairs = pair_tables(healthy, dut);
    let ghost all = pairs@;
    for pair in it: pairs
        invariant
            it.seq() == all,
            result.rib_in == (start.rib_in || exists|i: int|
                0 <= i < it.index() && pair_mismatch(#[trigger] all[i]).rib_in),
            result.rib_in_processed == (start.rib_in_processed || exists|i: int|
                0 <= i < it.index() && pair_mismatch(#[trigger] all[i]).rib_in_processed),
            result.rib_selected == (start.rib_selected || exists|i: int|
                0 <= i < it.index() && pair_mismatch(#[trigger] all[i]).rib_selected),
            result.rib_out == (start.rib_out || exists|i: int|
                0 <= i < it.index() && pair_mismatch(#[trigger] all[i]).rib_out),
    {
        let ghost k = it.index() as int;
        assert(pair == all[k]);
        let m = compare_tables(pair);
        assert(m == pair_mismatch(all[k]));
        if m.rib_in {
            result.rib_in = true;
        }
        if m.rib_in_processed {
            result.rib_in_processed = true;
        }
        if m.rib_selected {
            result.rib_selected = true;
        }
        if m.rib_out {
            result.rib_out = true;
        }
    }
    proof {
        lemma_some_router(h, d, all, |m: Mismatch| m.rib_in);
        lemma_some_router(h, d, all, |m: Mismatch| m.rib_in_processed);
        lemma_some_router(h, d, all, |m: Mismatch| m.rib_selected);
        lemma_some_router(h, d, all, |m: Mismatch| m.rib_out);
        assert forall|i: int| 0 <= i < all.len() implies (|m: Mismatch| m.rib_in)(
            pair_mismatch(#[trigger] all[i]),
        ) == pair_mismatch(all[i]).rib_in by {}
        assert forall|i: int| 0 <= i < all.len() implies (|m: Mismatch| m.rib_in_processed)(
            pair_mismatch(#[trigger] all[i]),
        ) == pair_mismatch(all[i]).rib_in_processed by {}
        assert forall|i: int| 0 <= i < all.len() implies (|m: Mismatch| m.rib_selected)(
            pair_mismatch(#[trigger] all[i]),
        ) == pair_mismatch(all[i]).rib_selected by {}
        assert forall|i: int| 0 <= i < all.len() implies (|m: Mismatch| m.rib_out)(
            pair_mismatch(#[trigger] all[i]),
        ) == pair_mismatch(all[i]).rib_out by {}
    }
}

proof fn lemma_some_router(
    h: Map<RouterId, BgpTables>,
    d: Map<RouterId, BgpTables>,
    all: Seq<TablePair>,
    test: spec_fn(Mismatch) -> bool,
)
    requires
        forall|x: RouterId|
            h.contains_key(x) || d.contains_key(x) ==> exists|i: int|
                0 <= i < all.len() && (#[trigger] all[i]).router == x,
        forall|i: int|
            0 <= i < all.len() ==> {
                let x = (#[trigger] all[i]).router;
                &&& h.contains_key(x) || d.contains_key(x)
                &&& pair_mismatch(all[i]) == mismatch_at(h, d, x)
            },
    ensures
        some_router(h, d, test) <==> exists|i: int|
            0 <= i < all.len() && test(pair_mismatch(#[trigger] all[i])),
{
    if some_router(h, d, test) {
        let x = choose|x: RouterId| #[trigger]
            test(mismatch_at(h, d, x)) && (h.contains_key(x) || d.contains_key(x));
        let i = choose|i: int| 0 <= i < all.len() && (#[trigger] all[i]).router == x;
        assert(test(pair_mismatch(all[i])));
    }
    if exists|i: int| 0 <= i < all.len() && test(pair_mismatch(#[trigger] all[i])) {
        let i = choose|i: int| 0 <= i < all.len() && test(pair_mismatch(#[trigger] all[i]));
        assert(test(mismatch_at(h, d, all[i].router)));
    }
}

/// A network has the same tables as itself.
pub proof fn law_no_mismatch_with_itself(tables: Map<RouterId, BgpTables>, x: RouterId)
    ensures
        mismatch_at(tables, tables, x) == (Mismatch {
            rib_in: false,
            rib_in_processed: false,
            rib_selected: false,
            rib_out: false,
        }),
{
}

/// Routes that stand in the order of their neighbors are not moved. So two such tables differ exactly if
/// one has more routes than the other, or if at some position they are not the same announcement.
pub proof fn law_difference_of_sorted_tables(a: Seq<LearnedRoute>, b: Seq<LearnedRoute>)
    requires
        forall|i: int, j: int|
            0 <= i <= j < a.len() ==> (#[trigger] a[i]).from_id <= (#[trigger] a[j]).from_id,
        forall|i: int, j: int|
            0 <= i <= j < b.len() ==> (#[trigger] b[i]).from_id <= (#[trigger] b[j]).from_id,
    ensures
        tables_differ(a, b) <==> a.len() != b.len() || exists|i: int|
            0 <= i < a.len() && !same_route((#[trigger] a[i]).route@, b[i].route@),
{
    lemma_sorted_stays(a);
    lemma_sorted_stays(b);
}

proof fn lemma_sorted_stays(s: Seq<LearnedRoute>)
    requires
        forall|i: int, j: int|
            0 <= i <= j < s.len() ==> (#[trigger] s[i]).from_id <= (#[trigger] s[j]).from_id,
    ensures
        by_neighbor(s) == s,
    decreases s.len(),
{
    if s.len() > 0 {
        let init = s.drop_last();
        assert forall|i: int, j: int| 0 <= i <= j < init.len() implies (#[trigger] init[i]).from_id
            <= (#[trigger] init[j]).from_id by {
            assert(s[i].from_id <= s[j].from_id);
        }
        lemma_sorted_stays(init);
        if init.len() > 0 {
            assert(s[s.len() - 2].from_id <= s[s.len() - 1].from_id);
        }
        assert(init.push(s.last()) =~= s);
    }
}

/// It does not matter which of two neighbors is asked first.
pub proof fn law_order_of_neighbors_does_not_matter(x: LearnedRoute, y: LearnedRoute)
    ensures
        x.from_id != y.from_id ==> !tables_differ(seq![x, y], seq![y, x]),
{
    let (a, b) = (seq![x, y], seq![y, x]);
    reveal_with_fuel(by_neighbor, 3);
    reveal_with_fuel(with_route, 3);
    assert(a.drop_last() =~= seq![x] && b.drop_last() =~= seq![y]);
    assert(seq![x].drop_last() =~= Seq::empty() && seq![y].drop_last() =~= Seq::empty());
    assert(Seq::<LearnedRoute>::empty().push(x) =~= seq![x]);
    assert(Seq::<LearnedRoute>::empty().push(y) =~= seq![y]);
    if x.from_id < y.from_id {
        assert(by_neighbor(a) =~= a);
        assert(by_neighbor(b) =~= a);
    } else if y.from_id < x.from_id {
        assert(by_neighbor(a) =~= b);
        assert(by_neighbor(b) =~= b);
    }
}

/// Each table is compared with the same table of the other network: where a table has another number of
/// routes there is a mismatch, and where a table is the same there is none, whatever the others are. The
/// selected routes match if there are none, or if they are the same announcement.
pub proof fn law_each_table_is_compared(
    healthy: Map<RouterId, BgpTables>,
    dut: Map<RouterId, BgpTables>,
    x: RouterId,
)
    requires
        healthy.contains_key(x),
        dut.contains_key(x),
    ensures
        ({
            let (h, d, m) = (healthy[x], dut[x], mismatch_at(healthy, dut, x));
            &&& h.rib_in@.len() != d.rib_in@.len() ==> m.rib_in
            &&& h.rib_in@ == d.rib_in@ ==> !m.rib_in
            &&& h.rib_in_processed@.len() != d.rib_in_processed@.len() ==> m.rib_in_processed
            &&& h.rib_in_processed@ == d.rib_in_processed@ ==> !m.rib_in_processed
            &&& h.rib_out@.len() != d.rib_out@.len() ==> m.rib_out
            &&& h.rib_out@ == d.rib_out@ ==> !m.rib_out
            &&& h.selected is None && d.selected is None ==> !m.rib_selected
            &&& (h.selected is None) != (d.selected is None) ==> m.rib_selected
            &&& h.selected is Some && d.selected is Some ==> m.rib_selected == !same_route(
                h.selected->0@,
                d.selected->0@,
            )
        }),
{
    lemma_sorting_keeps_length(healthy[x].rib_in@);
    lemma_sorting_keeps_length(dut[x].rib_in@);
    lemma_sorting_keeps_length(healthy[x].rib_in_processed@);
    lemma_sorting_keeps_length(dut[x].rib_in_processed@);
    lemma_sorting_keeps_length(healthy[x].rib_out@);
    lemma_sorting_keeps_length(dut[x].rib_out@);
}

proof fn lemma_with_route_len(s: Seq<LearnedRoute>, e: LearnedRoute)
    ensures
        with_route(s, e).len() == s.len() + 1,
    decreases s.len(),
{
    if s.len() > 0 && s.last().from_id > e.from_id {
        lemma_with_route_len(s.drop_last(), e);
    }
}

proof fn lemma_sorting_keeps_length(s: Seq<LearnedRoute>)
    ensures
        by_neighbor(s).len() == s.len(),
    decreases s.len(),
{
    if s.len() > 0 {
        lemma_sorting_keeps_length(s.drop_last());
        lemma_with_route_len(by_neighbor(s.drop_last()), s.last());
    }
}

/// A router that only one of the networks has counts as one without routes: if it has a route in the other
/// network, then that is a mismatch of the networks.
pub proof fn law_missing_router_is_a_mismatch(
    healthy: Map<RouterId, BgpTables>,
    dut: Map<RouterId, BgpTables>,
    x: RouterId,
)
    requires
        healthy.contains_key(x) != dut.contains_key(x),
    ensures
        ({
            let t = if healthy.contains_key(x) {
                healthy[x]
            } else {
                dut[x]
            };
            let m = mismatch_at(healthy, dut, x);
            &&& m.rib_in == (t.rib_in@.len() > 0)
            &&& m.rib_in_processed == (t.rib_in_processed@.len() > 0)
            &&& m.rib_out == (t.rib_out@.len() > 0)
            &&& m.rib_selected == (t.selected is Some)
            &&& t.rib_in@.len() > 0 ==> some_router(healthy, dut, |m: Mismatch| m.rib_in)
        }),
{
    let t = if healthy.contains_key(x) {
        healthy[x]
    } else {
        dut[x]
    };
    lemma_sorting_keeps_length(t.rib_in@);
    lemma_sorting_keeps_length(t.rib_in_processed@);
    lemma_sorting_keeps_length(t.rib_out@);
    lemma_sorting_keeps_length(Seq::empty());
    let test = |m: Mismatch| m.rib_in;
    assert(test(mismatch_at(healthy, dut, x)) == mismatch_at(healthy, dut, x).rib_in);
}

} // verus!
