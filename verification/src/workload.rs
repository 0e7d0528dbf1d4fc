//! The random bugs and events of the evaluation.
use vstd::prelude::*;

use crate::bgp::{AsId, RouterId};
use crate::evaluation::{lists, ConfigureNetworkResult};
use crate::keyed::Keyed;
use crate::number_set::NumberSet;
use crate::random::{gen_range, gen_ratio, pick_draw, pick_one, range_draw, ratio_draw};
use crate::reordering_measurement::Failure;
use crate::reordering_session::{Bug, FailureLocation, Probability};

verus! {

/// Random fractions have this denominator.
pub const SCALE: u32 = 1_000_000_000;

/// What kind of bug there is.
#[derive(Debug, Clone, Copy, PartialEq, Eq, Structural)]
pub enum BugKind {
    DropWithdraws,
    DropUpdates,
    TransformLocalPref,
    TransformCommunity,
    UpdateToWithdraw,
    WithdrawToUpdate,
}

/// Half of the bugs are destructive, a quarter of them are transformative, and the others are
/// constructive. The coin decides between the two kinds of each class.
pub open spec fn kind_for(x: u64, coin: bool) -> BugKind {
    if 2 * x < SCALE {
        if coin {
            BugKind::DropWithdraws
        } else {
            BugKind::DropUpdates
        }
    } else if 4 * x < 3 * SCALE {
        if coin {
            BugKind::TransformLocalPref
        } else {
            BugKind::TransformCommunity
        }
    } else if coin {
        BugKind::UpdateToWithdraw
    } else {
        BugKind::WithdrawToUpdate
    }
}

/// The kind of bug for a number below the scale, and a coin.
pub fn bug_kind(x: u64, coin: bool) -> (r: BugKind)
    requires
        x < SCALE,
    ensures
        r == kind_for(x, coin),
{
    if 2 * x < SCALE as u64 {
        if coin {
            BugKind::DropWithdraws
        } else {
            BugKind::DropUpdates
        }
    } else if 4 * x < 3 * SCALE as u64 {
        if coin {
            BugKind::TransformLocalPref
        } else {
            BugKind::TransformCommunity
        }
    } else if coin {
        BugKind::UpdateToWithdraw
    } else {
        BugKind::WithdrawToUpdate
    }
}

/// The bug is one that can be drawn: it shows with a probability from 1/10 up to 1, exclusive, and its
/// value is one of those that are given.
pub open spec fn is_possible(bug: Bug, lp_values: Seq<u32>, communities: Seq<u32>) -> bool {
    let p = bug.probability();
    &&& p.denominator == SCALE
    &&& p.numerator < SCALE <= 10 * p.numerator
    &&& bug matches Bug::TransformLocalPref { new_val, .. } ==> lp_values.contains(new_val)
    &&& bug matches Bug::TransformCommunity { swap, .. } ==> communities.contains(swap)
}

/// The bug of a kind that shows with a probability. If it changes an attribute, then it sets or swaps the
/// value.
pub open spec fn bug_for(kind: BugKind, p: Probability, value: u32) -> Bug {
    match kind {
        BugKind::DropWithdraws => Bug::DropWithdraws { p },
        BugKind::DropUpdates => Bug::DropUpdates { p },
        BugKind::TransformLocalPref => Bug::TransformLocalPref { p, new_val: value },
        BugKind::TransformCommunity => Bug::TransformCommunity { p, swap: value },
        BugKind::UpdateToWithdraw => Bug::UpdateToWithdraw { p },
        BugKind::WithdrawToUpdate => Bug::WithdrawToUpdate { p },
    }
}

/// Put a bug together from its kind, its probability, and the value that was drawn for it.
pub fn make_bug(kind: BugKind, p: Probability, value: u32) -> (r: Bug)
    ensures
        r == bug_for(kind, p, value),
{
    match kind {
        BugKind::DropWithdraws => Bug::DropWithdraws { p },
        BugKind::DropUpdates => Bug::DropUpdates { p },
        BugKind::TransformLocalPref => Bug::TransformLocalPref { p, new_val: value },
        BugKind::TransformCommunity => Bug::TransformCommunity { p, swap: value },
        BugKind::UpdateToWithdraw => Bug::UpdateToWithdraw { p },
        BugKind::WithdrawToUpdate => Bug::WithdrawToUpdate { p },
    }
}

/// The bug that is drawn from a source, and the source after that: first its probability, then its kind,
/// and then the value, if it needs one.
pub open spec fn bug_drawn(
    rng: rand::rngs::StdRng,
    lp_values: Seq<u32>,
    communities: Seq<u32>,
) -> (Bug, rand::rngs::StdRng) {
    let (numerator, s1) = range_draw(rng, 100_000_000, 999_999_999);
    let p = Probability { numerator: numerator as u32, denominator: SCALE };
    let (x, s2) = range_draw(s1, 0, 999_999_999);
    let (coin, s3) = ratio_draw(s2, 1, 2);
    match kind_for(x, coin) {
        BugKind::TransformLocalPref => {
            let (i, s4) = pick_draw(s3, lp_values.len());
            (Bug::TransformLocalPref { p, new_val: lp_values[i] }, s4)
        },
        BugKind::TransformCommunity => {
            let (i, s4) = pick_draw(s3, communities.len());
            (Bug::TransformCommunity { p, swap: communities[i] }, s4)
        },
        kind => (bug_for(kind, p, 0), s3),
    }
}

/// Draw a bug.
pub fn gen_bug(
    rng: &mut rand::rngs::StdRng,
    lp_values: &Vec<u32>,
    communities: &Vec<u32>,
) -> (r: Bug)
    requires
        lp_values@.len() > 0,
        communities@.len() > 0,
    ensures
        is_possible(r, lp_values@, communities@),
        (r, *final(rng)) == bug_drawn(*old(rng), lp_values@, communities@),
{
    let numerator: u64 = gen_range(rng, 100_000_000, 999_999_999);
    let p = Probability { numerator: numerator as u32, denominator: SCALE };
    let x: u64 = gen_range(rng, 0, 999_999_999);
    let coin: bool = gen_ratio(rng, 1, 2);
    let kind = bug_kind(x, coin);
    let drawn: Option<u32> = match kind {
        BugKind::TransformLocalPref => pick_one(lp_values, rng),
        BugKind::TransformCommunity => pick_one(communities, rng),
        _ => None,
    };
    let value: u32 = match drawn {
        Some(v) => v,
        None => 0,
    };
    make_bug(kind, p, value)
}

/// The values of LOCAL-PREF that a bug may set.
pub fn possible_local_prefs() -> (r: Vec<u32>)
    ensures
        r@ == seq![20u32, 50, 80, 100, 150, 200, 250],
{
    let r: Vec<u32> = vec![20, 50, 80, 100, 150, 200, 250];
    assert(r@ =~= seq![20u32, 50, 80, 100, 150, 200, 250]);
    r
}

/// The communities that a bug may add or remove.
pub fn possible_communities() -> (r: Vec<u32>)
    ensures
        r@ == seq![501u32, 502, 503, 500],
{
    let r: Vec<u32> = vec![501, 502, 503, 500];
    assert(r@ =~= seq![501u32, 502, 503, 500]);
    r
}

/// The routers that may have a bug: for egress, the border routers and the reflectors; for ingress, all
/// internal routers.
pub open spec fn candidates(parts: ConfigureNetworkResult, egress: bool) -> Seq<RouterId> {
    if egress {
        parts.borders@ + parts.reflectors@
    } else {
        parts.internals@
    }
}

fn get_candidates(parts: &ConfigureNetworkResult, egress: bool) -> (r: Vec<RouterId>)
    ensures
        r@ == candidates(*parts, egress),
{
    let mut r: Vec<RouterId> = Vec::new();
    let first: &Vec<RouterId> = if egress {
        &parts.borders
    } else {
        &parts.internals
    };
    for i in 0..first.len()
        invariant
            r@ == first@.take(i as int),
    {
        r.push(first[i]);
        assert(first@.take(i + 1) =~= first@.take(i as int).push(first@[i as int]));
    }
    assert(first@.take(first@.len() as int) =~= first@);
    if egress {
        let second: &Vec<RouterId> = &parts.reflectors;
        assert(r@ =~= first@ + second@.take(0));
        for i in 0..second.len()
            invariant
                r@ == first@ + second@.take(i as int),
        {
            r.push(second[i]);
            assert(first@ + second@.take(i + 1) =~= (first@ + second@.take(i as int)).push(
                second@[i as int],
            ));
        }
        assert(second@.take(second@.len() as int) =~= second@);
    }
    r
}

/// The bug may sit on the session with this neighbor: for ingress, the neighbor must be a border router,
/// a reflector or an external router.
pub open spec fn may_neighbor(parts: ConfigureNetworkResult, egress: bool, n: RouterId) -> bool {
    egress || parts.borders@.contains(n) || parts.reflectors@.contains(n)
        || parts.externals@.contains(n)
}

/// The neighbors on whose sessions a bug may sit.
pub fn candidate_neighbors(parts: &ConfigureNetworkResult, egress: bool, neighbors: &NumberSet) -> (r: Vec<
    RouterId,
>)
    ensures
        r@ == neighbors.items@.filter(|n: RouterId| may_neighbor(*parts, egress, n)),
{
    let ghost test = |n: RouterId| may_neighbor(*parts, egress, n);
    let ghost all = neighbors.items@;
    let mut r: Vec<RouterId> = Vec::new();
    proof {
        reveal(Seq::filter);
        assert(all.take(0) =~= Seq::<RouterId>::empty());
    }
    for i in 0..neighbors.items.len()
        invariant
            all == neighbors.items@,
            test == (|n: RouterId| may_neighbor(*parts, egress, n)),
            r@ == all.take(i as int).filter(test),
    {
        proof {
            reveal(Seq::filter);
            assert(all.take(i + 1).drop_last() =~= all.take(i as int));
            assert(all.take(i + 1).last() == all[i as int]);
        }
        let n: RouterId = neighbors.items[i];
        let keep: bool = egress || lists(&parts.borders, n) || lists(&parts.reflectors, n) || lists(
            &parts.externals,
            n,
        );
        if keep {
            r.push(n);
        }
    }
    assert(all.take(all.len() as int) =~= all);
    r
}

/// A bug can be put onto each candidate: there is one, and each has a neighbor to go with it.
pub open spec fn can_fail(parts: ConfigureNetworkResult, egress: bool, neighbors: Map<RouterId, NumberSet>) -> bool {
    &&& candidates(parts, egress).len() > 0
    &&& forall|x: RouterId| #[trigger]
        candidates(parts, egress).contains(x) && neighbors.contains_key(x) ==> exists|n: RouterId|
            neighbors[x]@.contains(n) && may_neighbor(parts, egress, n)
}

/// The failure is one that can be drawn.
pub open spec fn is_candidate(
    f: Failure,
    parts: ConfigureNetworkResult,
    neighbors: Map<RouterId, NumberSet>,
) -> bool {
    let egress = f.location is Egress;
    &&& candidates(parts, egress).contains(f.router)
    &&& neighbors.contains_key(f.router)
    &&& neighbors[f.router]@.contains(f.neighbor)
    &&& may_neighbor(parts, egress, f.neighbor)
    &&& is_possible(
        f.bug,
        seq![20u32, 50, 80, 100, 150, 200, 250],
        seq![501u32, 502, 503, 500],
    )
}

/// The bug that is drawn from a source, where it sits, and the source after that: first the side of the
/// session, then the router, its neighbor, and the bug. The error names a router whose neighbors are not
/// known.
pub open spec fn failure_drawn(
    rng: rand::rngs::StdRng,
    parts: ConfigureNetworkResult,
    neighbors: Map<RouterId, NumberSet>,
) -> (Result<Failure, RouterId>, rand::rngs::StdRng) {
    let (egress, s1) = ratio_draw(rng, 66, 100);
    let choices = candidates(parts, egress);
    let (i, s2) = pick_draw(s1, choices.len());
    let router = choices[i];
    if !neighbors.contains_key(router) {
        (Err(router), s2)
    } else {
        let list = neighbors[router].items@.filter(|n: RouterId| may_neighbor(parts, egress, n));
        let (j, s3) = pick_draw(s2, list.len());
        let (bug, s4) = bug_drawn(
            s3,
            seq![20u32, 50, 80, 100, 150, 200, 250],
            seq![501u32, 502, 503, 500],
        );
        let location = if egress {
            FailureLocation::Egress
        } else {
            FailureLocation::Ingress
        };
        (Ok(Failure { router, neighbor: list[j], location, bug }), s4)
    }
}

/// Draw a bug and where it sits, if there is to be one. Two thirds of the bugs sit on the egress. The
/// error names a router whose neighbors are not known.
pub fn gen_failure(
    rng: &mut rand::rngs::StdRng,
    with_failure: bool,
    parts: &ConfigureNetworkResult,
    neighbors: &Keyed<NumberSet>,
) -> (r: Result<Option<Failure>, RouterId>)
    requires
        neighbors.wf(),
        with_failure ==> can_fail(*parts, true, neighbors@) && can_fail(*parts, false, neighbors@),
    ensures
        match r {
            Ok(Some(f)) => with_failure && is_candidate(f, *parts, neighbors@),
            Ok(None) => !with_failure,
            Err(x) => with_failure && !neighbors@.contains_key(x) && (candidates(
                *parts,
                true,
            ).contains(x) || candidates(*parts, false).contains(x)),
        },
        !with_failure ==> *final(rng) == *old(rng),
        with_failure ==> {
            let (drawn, after) = failure_drawn(*old(rng), *parts, neighbors@);
            &&& *final(rng) == after
            &&& match r {
                Ok(f) => drawn is Ok && f == Some(drawn->Ok_0),
                Err(x) => drawn == Err::<Failure, RouterId>(x),
            }
        },
{
    if !with_failure {
        return Ok(None);
    }
    let egress: bool = gen_ratio(rng, 66, 100);
    let choices = get_candidates(parts, egress);
    let router: RouterId = match pick_one(&choices, rng) {
        Some(x) => x,
        None => 0,
    };
    assert(candidates(*parts, egress).contains(router));
    match neighbors.get(router) {
        None => Err(router),
        Some(set) => {
            let list = candidate_neighbors(parts, egress, set);
            let ghost test = |n: RouterId| may_neighbor(*parts, egress, n);
            proof {
                let n = choose|n: RouterId|
                    neighbors@[router]@.contains(n) && may_neighbor(*parts, egress, n);
                assert(set.items@.contains(n));
                let i = set.items@.index_of(n);
                assert(test(set.items@[i]));
                set.items@.lemma_filter_contains(test, i);
                assert(list@.contains(n));
            }
            let neighbor: RouterId = match pick_one(&list, rng) {
                Some(x) => x,
                None => 0,
            };
            proof {
                assert(list@.contains(neighbor));
                set.items@.lemma_filter_contains_rev(test, neighbor);
                let i = list@.index_of(neighbor);
                set.items@.lemma_filter_pred(test, i);
                assert(set.items@.contains(neighbor));
            }
            let bug = gen_bug(rng, &possible_local_prefs(), &possible_communities());
            let location = if egress {
                FailureLocation::Egress
            } else {
                FailureLocation::Ingress
            };
            Ok(Some(Failure { router, neighbor, location, bug }))
        },
    }
}

/// An announcement or a withdrawal of an external router, and how many steps to simulate after it.
#[derive(Debug)]
pub struct ExternalEvent {
    pub source: RouterId,
    /// The AS path that is announced, or `None` for a withdrawal
    pub route: Option<Vec<AsId>>,
    pub num_steps_after: usize,
}

/// The routers that have announced a route and not withdrawn it, after some events.
pub open spec fn announcing(events: Seq<ExternalEvent>) -> Set<RouterId>
    decreases events.len(),
{
    if events.len() == 0 {
        Set::empty()
    } else {
        let before = announcing(events.drop_last());
        match events.last().route {
            Some(_) => before.insert(events.last().source),
            None => before.remove(events.last().source),
        }
    }
}

/// A path through one AS only.
pub open spec fn is_own_path(path: Seq<AsId>, as_id: AsId) -> bool {
    forall|i: int| 0 <= i < path.len() ==> #[trigger] path[i] == as_id
}

/// The event can be drawn, where some routers announce a route.
pub open spec fn is_valid_event(
    e: ExternalEvent,
    before: Set<RouterId>,
    externals: Seq<RouterId>,
    as_ids: Map<RouterId, AsId>,
) -> bool {
    &&& externals.contains(e.source)
    &&& 2 <= e.num_steps_after < 20
    &&& match e.route {
        Some(path) => as_ids.contains_key(e.source) && 1 <= path@.len() < 4 && is_own_path(
            path@,
            as_ids[e.source],
        ),
        None => before.contains(e.source),
    }
}

/// All events can be drawn, one after the other: only routers that announce a route withdraw one.
pub open spec fn are_valid_events(
    events: Seq<ExternalEvent>,
    externals: Seq<RouterId>,
    as_ids: Map<RouterId, AsId>,
) -> bool {
    forall|i: int|
        0 <= i < events.len() ==> is_valid_event(
            #[trigger] events[i],
            announcing(events.take(i)),
            externals,
            as_ids,
        )
}

/// The event of a router: a router that announces no route announces one, and otherwise the coin
/// decides. Keep track of the routers that announce a route.
pub fn next_event(
    already_advertised: &mut NumberSet,
    source: RouterId,
    as_id: AsId,
    coin: bool,
    path_len: usize,
    num_steps_after: usize,
) -> (r: ExternalEvent)
    requires
        old(already_advertised).wf(),
    ensures
        final(already_advertised).wf(),
        r.source == source,
        r.num_steps_after == num_steps_after,
        if coin || !old(already_advertised)@.contains(source) {
            &&& r.route matches Some(path) && path@ == Seq::new(path_len as nat, |i: int| as_id)
            &&& final(already_advertised)@ == old(already_advertised)@.insert(source)
        } else {
            &&& r.route is None
            &&& final(already_advertised)@ == old(already_advertised)@.remove(source)
        },
        final(already_advertised)@.contains(source) <==> r.route is Some,
        r.route is None ==> old(already_advertised)@.contains(source),
        forall|x: RouterId|
            x != source ==> (#[trigger] final(already_advertised)@.contains(x)
                == old(already_advertised)@.contains(x)),
{
    if coin || !already_advertised.contains(source) {
        already_advertised.insert(source);
        let mut path: Vec<AsId> = Vec::new();
        for i in 0..path_len
            invariant
                path@.len() == i,
                forall|j: int| 0 <= j < i ==> #[trigger] path@[j] == as_id,
        {
            path.push(as_id);
        }
        assert(path@ =~= Seq::new(path_len as nat, |i: int| as_id));
        ExternalEvent { source, route: Some(path), num_steps_after }
    } else {
        let _ = already_advertised.remove(source);
        ExternalEvent { source, route: None, num_steps_after }
    }
}

/// What an event of an external router says.
#[verifier::ext_equal]
pub struct EventPlan {
    pub source: RouterId,
    pub route: Option<Seq<AsId>>,
    pub num_steps_after: usize,
}

impl View for ExternalEvent {
    type V = EventPlan;

    open spec fn view(&self) -> EventPlan {
        EventPlan {
            source: self.source,
            route: match self.route {
                Some(path) => Some(path@),
                None => None,
            },
            num_steps_after: self.num_steps_after,
        }
    }
}

/// What some events say.
pub open spec fn plans(events: Seq<ExternalEvent>) -> Seq<EventPlan> {
    events.map_values(|e: ExternalEvent| e@)
}

/// The event that is drawn from a source, where some routers announce a route, and the source after that:
/// first the router, then whether it announces a route, the length of its path, and the number of steps
/// after it. The error names a router whose AS is not known.
pub open spec fn event_drawn(
    rng: rand::rngs::StdRng,
    before: Set<RouterId>,
    externals: Seq<RouterId>,
    as_ids: Map<RouterId, AsId>,
) -> (Result<EventPlan, RouterId>, rand::rngs::StdRng) {
    let (i, s1) = pick_draw(rng, externals.len());
    let source = externals[i];
    let (coin, s2) = if before.contains(source) {
        ratio_draw(s1, 1, 2)
    } else {
        (true, s1)
    };
    if !coin {
        let (steps, s3) = range_draw(s2, 2, 19);
        (Ok(EventPlan { source, route: None, num_steps_after: steps as usize }), s3)
    } else {
        let (len, s3) = range_draw(s2, 1, 3);
        if as_ids.contains_key(source) {
            let (steps, s4) = range_draw(s3, 2, 19);
            let path = Seq::new(len as nat, |j: int| as_ids[source]);
            (Ok(EventPlan { source, route: Some(path), num_steps_after: steps as usize }), s4)
        } else {
            (Err(source), s3)
        }
    }
}

/// Events that were drawn.
#[verifier::ext_equal]
pub struct Drawing {
    pub events: Seq<EventPlan>,
    /// The routers that announce a route.
    pub announcing: Set<RouterId>,
    pub rng: rand::rngs::StdRng,
    /// A router whose AS is not known. Then no more events are drawn.
    pub error: Option<RouterId>,
}

/// The first `n` events that are drawn from a source.
pub open spec fn events_drawn(
    rng: rand::rngs::StdRng,
    n: nat,
    externals: Seq<RouterId>,
    as_ids: Map<RouterId, AsId>,
) -> Drawing
    decreases n,
{
    if n == 0 {
        Drawing { events: Seq::empty(), announcing: Set::empty(), rng, error: None }
    } else {
        let d = events_drawn(rng, (n - 1) as nat, externals, as_ids);
        if d.error is Some {
            d
        } else {
            let (drawn, after) = event_drawn(d.rng, d.announcing, externals, as_ids);
            match drawn {
                Ok(e) => Drawing {
                    events: d.events.push(e),
                    announcing: if e.route is Some {
                        d.announcing.insert(e.source)
                    } else {
                        d.announcing.remove(e.source)
                    },
                    rng: after,
                    error: None,
                },
                Err(x) => Drawing { rng: after, error: Some(x), ..d },
            }
        }
    }
}

/// After an error no more events are drawn.
proof fn lemma_error_stays(
    rng: rand::rngs::StdRng,
    k: nat,
    n: nat,
    externals: Seq<RouterId>,
    as_ids: Map<RouterId, AsId>,
)
    requires
        k <= n,
        events_drawn(rng, k, externals, as_ids).error is Some,
    ensures
        events_drawn(rng, n, externals, as_ids) == events_drawn(rng, k, externals, as_ids),
    decreases n,
{
    if k < n {
        lemma_error_stays(rng, k, (n - 1) as nat, externals, as_ids);
    }
}

/// Draw an event, and append it to those that were drawn before.
fn gen_event(
    rng: &mut rand::rngs::StdRng,
    events: &mut Vec<ExternalEvent>,
    already_advertised: &mut NumberSet,
    externals: &Vec<RouterId>,
    as_ids: &Keyed<AsId>,
) -> (r: Result<(), RouterId>)
    requires
        externals@.len() > 0,
        as_ids.wf(),
        old(already_advertised).wf(),
        old(already_advertised)@ == announcing(old(events)@),
        are_valid_events(old(events)@, externals@, as_ids@),
    ensures
        final(already_advertised).wf(),
        final(already_advertised)@ == announcing(final(events)@),
        are_valid_events(final(events)@, externals@, as_ids@),
        match r {
            Ok(_) => final(events)@.len() == old(events)@.len() + 1 && final(events)@.drop_last()
                == old(events)@,
            Err(x) => externals@.contains(x) && !as_ids@.contains_key(x),
        },
        ({
            let (drawn, after) = event_drawn(
                *old(rng),
                old(already_advertised)@,
                externals@,
                as_ids@,
            );
            &&& *final(rng) == after
            &&& match r {
                Ok(_) => drawn == Ok::<EventPlan, RouterId>(final(events)@.last()@),
                Err(x) => drawn == Err::<EventPlan, RouterId>(x),
            }
        }),
{
    let ghost start = events@;
    let router: RouterId = match pick_one(externals, rng) {
        Some(x) => x,
        None => 0,
    };
    let advertised: bool = already_advertised.contains(router);
    let coin: bool = if advertised {
        gen_ratio(rng, 1, 2)
    } else {
        true
    };
    let (as_id, path_len): (AsId, usize) = if coin {
        let len: usize = gen_range(rng, 1, 3) as usize;
        match as_ids.get(router) {
            Some(as_id) => (*as_id, len),
            None => {
                return Err(router);
            },
        }
    } else {
        (0, 0)
    };
    let steps: usize = gen_range(rng, 2, 19) as usize;
    let e = next_event(already_advertised, router, as_id, coin, path_len, steps);
    let ghost event = e;
    events.push(e);
    proof {
        let end = events@;
        assert(end.drop_last() =~= start);
        assert(is_valid_event(event, announcing(start), externals@, as_ids@));
        assert forall|i: int| 0 <= i < end.len() implies is_valid_event(
            #[trigger] end[i],
            announcing(end.take(i)),
            externals@,
            as_ids@,
        ) by {
            assert(end.take(i) =~= start.take(i));
            if i < start.len() {
                assert(is_valid_event(
                    start[i],
                    announcing(start.take(i)),
                    externals@,
                    as_ids@,
                ));
            } else {
                assert(start.take(i) =~= start);
            }
        }
    }
    Ok(())
}

/// The events are the first `n` that are drawn.
spec fn is_drawn(
    start: rand::rngs::StdRng,
    n: nat,
    externals: Seq<RouterId>,
    as_ids: Map<RouterId, AsId>,
    events: Seq<ExternalEvent>,
    rng: rand::rngs::StdRng,
) -> bool {
    events_drawn(start, n, externals, as_ids) == (Drawing {
        events: plans(events),
        announcing: announcing(events),
        rng,
        error: None,
    })
}

/// Draw the events that set up a network, and those that follow. The error names an external router
/// whose AS is not known.
pub fn gen_event_sequence(
    rng: &mut rand::rngs::StdRng,
    num_externals: usize,
    num_external_events: usize,
    externals: &Vec<RouterId>,
    as_ids: &Keyed<AsId>,
) -> (r: Result<(Vec<ExternalEvent>, Vec<ExternalEvent>), RouterId>)
    requires
        as_ids.wf(),
        num_externals + num_external_events > 0 ==> externals@.len() > 0,
    ensures
        match r {
            Ok((setup, sequence)) => {
                &&& setup@.len() == num_externals
                &&& sequence@.len() == num_external_events
                &&& are_valid_events(setup@ + sequence@, externals@, as_ids@)
            },
            Err(x) => externals@.contains(x) && !as_ids@.contains_key(x),
        },
        ({
            let d = events_drawn(
                *old(rng),
                (num_externals + num_external_events) as nat,
                externals@,
                as_ids@,
            );
            &&& *final(rng) == d.rng
            &&& match r {
                Ok((setup, sequence)) => d.error is None && plans(setup@ + sequence@) == d.events,
                Err(x) => d.error == Some(x),
            }
        }),
{
    let mut already_advertised = NumberSet::new();
    let mut setup: Vec<ExternalEvent> = Vec::new();
    assert(plans(setup@) =~= Seq::<EventPlan>::empty());
    for i in 0..num_externals
        invariant
            num_externals + num_external_events > 0 ==> externals@.len() > 0,
            as_ids.wf(),
            already_advertised.wf(),
            setup@.len() == i,
            already_advertised@ == announcing(setup@),
            are_valid_events(setup@, externals@, as_ids@),
            is_drawn(*old(rng), i as nat, externals@, as_ids@, setup@, *rng),
    {
        let ghost before = setup@;
        match gen_event(rng, &mut setup, &mut already_advertised, externals, as_ids) {
            Ok(_) => {
                assert(plans(setup@) =~= plans(before).push(setup@.last()@));
                assert(setup@.drop_last() =~= before);
            },
            Err(x) => {
                proof {
                    let n = (num_externals + num_external_events) as nat;
                    lemma_error_stays(*old(rng), (i + 1) as nat, n, externals@, as_ids@);
                }
                return Err(x);
            },
        }
    }
    let ghost first = setup@;
    let mut all: Vec<ExternalEvent> = setup;
    assert(all@.take(num_externals as int) =~= first);
    for i in 0..num_external_events
        invariant
            num_externals + num_external_events > 0 ==> externals@.len() > 0,
            as_ids.wf(),
            already_advertised.wf(),
            first.len() == num_externals,
            all@.len() == num_externals + i,
            all@.take(num_externals as int) == first,
            already_advertised@ == announcing(all@),
            are_valid_events(all@, externals@, as_ids@),
            is_drawn(*old(rng), (num_externals + i) as nat, externals@, as_ids@, all@, *rng),
    {
        let ghost before = all@;
        match gen_event(rng, &mut all, &mut already_advertised, externals, as_ids) {
            Ok(_) => {
                assert(all@.take(num_externals as int) =~= before.take(num_externals as int));
                assert(plans(all@) =~= plans(before).push(all@.last()@));
                assert(all@.drop_last() =~= before);
            },
            Err(x) => {
                proof {
                    let (k, n) = (num_externals + i + 1, num_externals + num_external_events);
                    lemma_error_stays(*old(rng), k as nat, n as nat, externals@, as_ids@);
                }
                return Err(x);
            },
        }
    }
    let ghost total = all@;
    let sequence: Vec<ExternalEvent> = all.split_off(num_externals);
    assert(all@ + sequence@ =~= total);
    Ok((all, sequence))
}

/// The first half of the numbers below the scale gives bugs that drop messages, the next quarter gives
/// bugs that change an attribute, and the last one gives bugs that turn a message into another one. The
/// coin decides which.
pub proof fn law_shares_of_bugs(x: u64, coin: bool)
    requires
        x < 1_000_000_000,
    ensures
        kind_for(x, true) is DropWithdraws <==> x < 500_000_000,
        kind_for(x, false) is DropUpdates <==> x < 500_000_000,
        kind_for(x, true) is TransformLocalPref <==> 500_000_000 <= x < 750_000_000,
        kind_for(x, false) is TransformCommunity <==> 500_000_000 <= x < 750_000_000,
        kind_for(x, true) is UpdateToWithdraw <==> 750_000_000 <= x,
        kind_for(x, false) is WithdrawToUpdate <==> 750_000_000 <= x,
        kind_for(x, coin) != kind_for(x, !coin),
{
}

/// A bug has the probability and the value that were drawn for it. Bugs of different kinds differ.
pub proof fn law_bugs_have_what_was_drawn(k: BugKind, l: BugKind, p: Probability, value: u32)
    ensures
        bug_for(k, p, value).probability() == p,
        bug_for(k, p, value) == bug_for(l, p, value) ==> k == l,
        bug_for(k, p, value) matches Bug::TransformLocalPref { new_val, .. } ==> new_val == value && k
            is TransformLocalPref,
        bug_for(k, p, value) matches Bug::TransformCommunity { swap, .. } ==> swap == value && k
            is TransformCommunity,
        bug_for(k, p, value) is DropUpdates ==> k is DropUpdates,
        bug_for(k, p, value) is DropWithdraws ==> k is DropWithdraws,
        bug_for(k, p, value) is UpdateToWithdraw ==> k is UpdateToWithdraw,
        bug_for(k, p, value) is WithdrawToUpdate ==> k is WithdrawToUpdate,
{
}

/// On egress, border routers and reflectors can have a bug, on the session with any neighbor. On ingress,
/// all internal routers can, but not on a session with an internal router that neither is at the border
/// nor reflects routes.
pub proof fn law_where_bugs_sit(parts: ConfigureNetworkResult, x: RouterId)
    ensures
        candidates(parts, true).contains(x) <==> parts.borders@.contains(x)
            || parts.reflectors@.contains(x),
        candidates(parts, false).contains(x) <==> parts.internals@.contains(x),
        may_neighbor(parts, true, x),
        parts.externals@.contains(x) ==> may_neighbor(parts, false, x),
        parts.borders@.contains(x) ==> may_neighbor(parts, false, x),
        parts.reflectors@.contains(x) ==> may_neighbor(parts, false, x),
        may_neighbor(parts, false, x) && !parts.externals@.contains(x) ==> candidates(
            parts,
            true,
        ).contains(x),
{
    let (a, b) = (parts.borders@, parts.reflectors@);
    if a.contains(x) {
        assert((a + b)[a.index_of(x)] == x);
    }
    if b.contains(x) {
        assert((a + b)[a.len() + b.index_of(x)] == x);
    }
    if (a + b).contains(x) {
        let i = (a + b).index_of(x);
        if i < a.len() {
            assert(a[i] == x);
        } else {
            assert(b[i - a.len()] == x);
        }
    }
}

/// What a bug is drawn from: the first draw decides about the side of the session, with 66 chances in 100
/// for the egress, and the router is one of those that can have a bug there.
pub proof fn law_draws_of_a_failure(
    rng: rand::rngs::StdRng,
    parts: ConfigureNetworkResult,
    neighbors: Map<RouterId, NumberSet>,
)
    ensures
        ({
            let egress = ratio_draw(rng, 66, 100).0;
            let choices = if egress {
                parts.borders@ + parts.reflectors@
            } else {
                parts.internals@
            };
            let router = choices[pick_draw(ratio_draw(rng, 66, 100).1, choices.len()).0];
            match failure_drawn(rng, parts, neighbors).0 {
                Ok(f) => f.router == router && neighbors.contains_key(router) && (
                f.location is Egress <==> egress) && (f.location is Ingress <==> !egress),
                Err(x) => x == router && !neighbors.contains_key(router),
            }
        }),
{
}

/// A router announces a route after some events exactly if it has announced one, and has sent nothing
/// since.
pub proof fn law_announcing_routers(events: Seq<ExternalEvent>, x: RouterId)
    ensures
        announcing(events).contains(x) <==> exists|i: int|
            0 <= i < events.len() && (#[trigger] events[i]).source == x && events[i].route is Some
                && forall|j: int| i < j < events.len() ==> (#[trigger] events[j]).source != x,
    decreases events.len(),
{
    if events.len() > 0 {
        let init = events.drop_last();
        let last = events.len() - 1;
        law_announcing_routers(init, x);
        assert forall|j: int| 0 <= j < last implies init[j] == #[trigger] events[j] by {}
        if events[last].source != x {
            if announcing(init).contains(x) {
                let i = choose|i: int|
                    0 <= i < init.len() && (#[trigger] init[i]).source == x && init[i].route is Some
                        && forall|j: int| i < j < init.len() ==> (#[trigger] init[j]).source != x;
                assert(events[i].source == x && events[i].route is Some);
                assert forall|j: int| i < j < events.len() implies (#[trigger] events[j]).source
                    != x by {
                    if j < last {
                        assert(init[j].source != x);
                    }
                }
            }
            if exists|i: int|
                0 <= i < events.len() && (#[trigger] events[i]).source == x && events[i].route
                    is Some && forall|j: int|
                    i < j < events.len() ==> (#[trigger] events[j]).source != x {
                let i = choose|i: int|
                    0 <= i < events.len() && (#[trigger] events[i]).source == x && events[i].route
                        is Some && forall|j: int|
                        i < j < events.len() ==> (#[trigger] events[j]).source != x;
                assert(i < last);
                assert(init[i].source == x && init[i].route is Some);
                assert forall|j: int| i < j < init.len() implies (#[trigger] init[j]).source
                    != x by {
                    assert(events[j].source != x);
                }
            }
        } else {
            if events[last].route is Some {
                assert(events[last].source == x);
            } else {
                assert forall|i: int|
                    0 <= i < events.len() && (#[trigger] events[i]).source == x && events[i].route
                        is Some implies exists|j: int|
                    i < j < events.len() && (#[trigger] events[j]).source == x by {
                    assert(events[last].source == x && i < last);
                }
            }
        }
    }
}

/// Only an external router whose route is announced withdraws it: it has announced one before, and has
/// sent nothing since. An announced path is not empty, has less than four hops, and leads through the AS
/// of the router only.
pub proof fn law_withdrawals_follow_announcements(
    events: Seq<ExternalEvent>,
    externals: Seq<RouterId>,
    as_ids: Map<RouterId, AsId>,
    k: int,
)
    requires
        are_valid_events(events, externals, as_ids),
        0 <= k < events.len(),
    ensures
        externals.contains(events[k].source),
        2 <= events[k].num_steps_after <= 19,
        events[k].route is None ==> exists|i: int|
            0 <= i < k && (#[trigger] events[i]).source == events[k].source && events[i].route is Some
                && forall|j: int| i < j < k ==> (#[trigger] events[j]).source != events[k].source,
        events[k].route matches Some(path) ==> 1 <= path@.len() <= 3 && forall|j: int|
            0 <= j < path@.len() ==> #[trigger] path@[j] == as_ids[events[k].source],
{
    let before = events.take(k);
    let x = events[k].source;
    assert(is_valid_event(events[k], announcing(before), externals, as_ids));
    if events[k].route is None {
        law_announcing_routers(before, x);
        let i = choose|i: int|
            0 <= i < before.len() && (#[trigger] before[i]).source == x && before[i].route is Some
                && forall|j: int| i < j < before.len() ==> (#[trigger] before[j]).source != x;
        assert(events[i].source == x && events[i].route is Some);
        assert forall|j: int| i < j < k implies (#[trigger] events[j]).source != x by {
            assert(before[j].source != x);
        }
    }
}

/// What an event is drawn from: the first draw is the router, and a router that announces no route
/// announces one. The number of steps is the last draw.
pub proof fn law_draws_of_an_event(
    rng: rand::rngs::StdRng,
    before: Set<RouterId>,
    externals: Seq<RouterId>,
    as_ids: Map<RouterId, AsId>,
)
    ensures
        ({
            let (i, s) = pick_draw(rng, externals.len());
            match event_drawn(rng, before, externals, as_ids).0 {
                Ok(e) => {
                    &&& e.source == externals[i]
                    &&& e.route is None ==> before.contains(e.source) && !ratio_draw(s, 1, 2).0
                    &&& e.route is Some && before.contains(e.source) ==> ratio_draw(s, 1, 2).0
                    &&& e.route matches Some(path) ==> as_ids.contains_key(e.source) && forall|j: int|
                        0 <= j < path.len() ==> #[trigger] path[j] == as_ids[e.source]
                    &&& e.route matches Some(path) ==> path.len() == range_draw(
                        if before.contains(e.source) {
                            ratio_draw(s, 1, 2).1
                        } else {
                            s
                        },
                        1,
                        3,
                    ).0
                },
                Err(x) => x == externals[i] && !as_ids.contains_key(x),
            }
        }),
{
}

/// What a bug is drawn from: the first draw is its probability, in parts of a thousand million, and the
/// next two decide about its kind.
pub proof fn law_draws_of_a_bug(rng: rand::rngs::StdRng, lp_values: Seq<u32>, communities: Seq<u32>)
    ensures
        ({
            let bug = bug_drawn(rng, lp_values, communities).0;
            let (p, s1) = range_draw(rng, 100_000_000, 999_999_999);
            let (x, s2) = range_draw(s1, 0, 999_999_999);
            let (coin, s3) = ratio_draw(s2, 1, 2);
            &&& bug.probability().numerator == p as u32
            &&& bug.probability().denominator == 1_000_000_000
            &&& x < 500_000_000 ==> (bug is DropWithdraws <==> coin) && (bug is DropUpdates <==> !coin)
            &&& 500_000_000 <= x < 750_000_000 ==> (bug is TransformLocalPref <==> coin) && (bug
                is TransformCommunity <==> !coin)
            &&& 750_000_000 <= x ==> (bug is UpdateToWithdraw <==> coin) && (bug is WithdrawToUpdate
                <==> !coin)
            &&& bug matches Bug::TransformLocalPref { new_val, .. } ==> new_val
                == lp_values[pick_draw(s3, lp_values.len()).0]
            &&& bug matches Bug::TransformCommunity { swap, .. } ==> swap
                == communities[pick_draw(s3, communities.len()).0]
        }),
{
}

/// Of some events one more is drawn, or a router is found whose AS is not known. Those that were drawn
/// before stay.
pub proof fn law_events_are_drawn_in_turn(
    rng: rand::rngs::StdRng,
    n: nat,
    externals: Seq<RouterId>,
    as_ids: Map<RouterId, AsId>,
)
    ensures
        ({
            let (d, e) = (
                events_drawn(rng, n, externals, as_ids),
                events_drawn(rng, n + 1, externals, as_ids),
            );
            &&& d.error is Some ==> e == d
            &&& d.error is None && e.error is Some ==> e.events == d.events && !as_ids.contains_key(
                e.error->0,
            )
            &&& e.error is None ==> d.error is None && e.events.len() == d.events.len() + 1
                && e.events.drop_last() == d.events
            &&& e.error is None ==> (e.announcing.contains(e.events.last().source)
                <==> e.events.last().route is Some)
        }),
        events_drawn(rng, 0, externals, as_ids).events.len() == 0,
{
    let (d, e) = (
        events_drawn(rng, n, externals, as_ids),
        events_drawn(rng, n + 1, externals, as_ids),
    );
    if e.error is None {
        assert(e.events.drop_last() =~= d.events);
    }
}

} // verus!
