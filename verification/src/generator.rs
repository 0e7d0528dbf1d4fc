//! Random events of external neighbors.
use vstd::prelude::*;

use crate::bgp::{AsId, Prefix, RouterId};
use crate::keyed::{lemma_key, Keyed};
use crate::number_set::{lemma_increasing_unique, NumberSet};
use crate::pairs::Pairs;
use crate::random::{gen_ratio, pick_draw, pick_one, ratio_draw};
use crate::simulation::{simulation_views, ExternalEvent, ExternalView, SimulationEvent};
use crate::simulation::{SimulationTimeStep, SimulationView};

verus! {

/// A reconfiguration comes once in so many time steps, until it has come.
pub const STEPS_PER_RECONFIGURATION: u32 = 200;

/// Generates sequences of events for all external routers.
pub struct UniformEventGenerator {
    pub rng: rand::rngs::StdRng,
    pub prefixes: Vec<Prefix>,
    pub routers: Keyed<AsId>,
    /// The routers, in increasing order
    pub order: NumberSet,
    /// Which routers advertise which prefixes
    pub advertised_prefixes: Pairs<()>,
    /// Whether a reconfiguration event is still to come
    pub reconfig: bool,
}

/// The event of a router on a prefix: a withdrawal if the prefix is advertised, and else an
/// announcement.
pub open spec fn toggled(
    advertised: Set<(RouterId, Prefix)>,
    routers: Map<RouterId, AsId>,
    k: (RouterId, Prefix),
) -> ExternalView {
    ExternalView {
        external_neighbor: k.0,
        prefix: k.1,
        route: if advertised.contains(k) {
            None
        } else {
            Some(seq![routers[k.0]])
        },
    }
}

/// The advertised prefixes after the event of a router on a prefix.
pub open spec fn toggle(
    advertised: Set<(RouterId, Prefix)>,
    k: (RouterId, Prefix),
) -> Set<(RouterId, Prefix)> {
    if advertised.contains(k) {
        advertised.remove(k)
    } else {
        advertised.insert(k)
    }
}

/// What the first `n` routers do, if `picks` tells which prefix each of them is to change, and the
/// advertised prefixes after it.
pub open spec fn events_of(
    order: Seq<RouterId>,
    routers: Map<RouterId, AsId>,
    advertised: Set<(RouterId, Prefix)>,
    picks: Seq<Option<Prefix>>,
    n: int,
) -> (Seq<SimulationView>, Set<(RouterId, Prefix)>)
    decreases n,
{
    if n <= 0 {
        (Seq::empty(), advertised)
    } else {
        let (events, now) = events_of(order, routers, advertised, picks, n - 1);
        match picks[n - 1] {
            Some(p) => (
                events.push(SimulationView::External(toggled(now, routers, (order[n - 1], p)))),
                toggle(now, (order[n - 1], p)),
            ),
            None => (events, now),
        }
    }
}

/// Each router picks one of the prefixes, or none.
pub open spec fn are_picks(
    picks: Seq<Option<Prefix>>,
    order: Seq<RouterId>,
    prefixes: Seq<Prefix>,
) -> bool {
    &&& picks.len() == order.len()
    &&& forall|i: int|
        0 <= i < picks.len() ==> (#[trigger] picks[i] matches Some(p) ==> prefixes.contains(p))
}

/// What the first `n` routers pick, drawn from a source, and the source after that: each of them picks one
/// of the prefixes, or none.
pub open spec fn picks_drawn(
    rng: rand::rngs::StdRng,
    n: nat,
    prefixes: Seq<Prefix>,
) -> (Seq<Option<Prefix>>, rand::rngs::StdRng)
    decreases n,
{
    if n == 0 {
        (Seq::empty(), rng)
    } else {
        let (picks, before) = picks_drawn(rng, (n - 1) as nat, prefixes);
        let (coin, mid) = ratio_draw(before, 1, 2);
        if coin {
            let (i, after) = pick_draw(mid, prefixes.len());
            (picks.push(Some(prefixes[i])), after)
        } else {
            (picks.push(None), mid)
        }
    }
}

impl UniformEventGenerator {
    pub open spec fn wf(&self) -> bool {
        &&& self.routers.wf()
        &&& self.order.wf()
        &&& self.advertised_prefixes.wf()
        &&& forall|r: RouterId| #[trigger]
            self.order.items@.contains(r) <==> self.routers@.contains_key(r)
        &&& self.order.items@.len() > 0 ==> self.prefixes@.len() > 0
    }

    /// The routers and the prefixes that they advertise.
    pub open spec fn advertised(&self) -> Set<(RouterId, Prefix)> {
        self.advertised_prefixes@.dom()
    }

    /// The parts that no event changes.
    pub open spec fn same_setup(&self, other: &Self) -> bool {
        &&& self.prefixes == other.prefixes
        &&& self.routers == other.routers
        &&& self.order == other.order
    }

    /// A time step in which each router does what it has picked.
    pub open spec fn steps(
        before: Self,
        picks: Seq<Option<Prefix>>,
        out: Seq<SimulationView>,
        after: Self,
    ) -> bool {
        &&& after.same_setup(&before)
        &&& after.reconfig == before.reconfig
        &&& (out, after.advertised()) == events_of(
            before.order.items@,
            before.routers@,
            before.advertised(),
            picks,
            before.order.items@.len() as int,
        )
    }

    /// A time step: the reconfiguration, if it is still to come and the coin came up, or else what the
    /// routers have picked.
    pub open spec fn steps_with(
        before: Self,
        coin: bool,
        picks: Seq<Option<Prefix>>,
        out: Seq<SimulationView>,
        after: Self,
    ) -> bool {
        if before.reconfig && coin {
            &&& out == seq![SimulationView::Reconfiguration]
            &&& !after.reconfig
            &&& after.advertised() == before.advertised()
            &&& after.same_setup(&before)
        } else {
            Self::steps(before, picks, out, after)
        }
    }

    /// The coin of the next time step, and the source after it. It is drawn only if the reconfiguration is
    /// still to come.
    pub open spec fn coin_drawn(&self) -> (bool, rand::rngs::StdRng) {
        if self.reconfig {
            ratio_draw(self.rng, 1, STEPS_PER_RECONFIGURATION)
        } else {
            (false, self.rng)
        }
    }

    /// What comes next: the coin is drawn, and then, unless it came up, what the routers pick.
    pub open spec fn generates(before: Self, out: Seq<SimulationView>, after: Self) -> bool {
        let (coin, rng) = before.coin_drawn();
        if coin {
            &&& Self::steps_with(before, coin, Seq::empty(), out, after)
            &&& after.rng == rng
        } else {
            let (picks, end) = picks_drawn(rng, before.order.items@.len(), before.prefixes@);
            &&& are_picks(picks, before.order.items@, before.prefixes@)
            &&& Self::steps_with(before, coin, picks, out, after)
            &&& after.rng == end
        }
    }

    /// A generator for external routers, with a single reconfiguration event somewhere, or without
    /// any.
    pub fn new(
        rng: rand::rngs::StdRng,
        external_routers: Keyed<AsId>,
        prefixes: Vec<Prefix>,
        with_reconfiguration: bool,
    ) -> (r: Self)
        requires
            external_routers.wf(),
            external_routers.entries@.len() > 0 ==> prefixes@.len() > 0,
        ensures
            r.wf(),
            r.prefixes == prefixes,
            r.routers == external_routers,
            r.advertised() == Set::<(RouterId, Prefix)>::empty(),
            r.reconfig == with_reconfiguration,
            r.rng == rng,
    {
        let mut order = NumberSet::new();
        let ghost entries = external_routers.entries@;
        for i in 0..external_routers.entries.len()
            invariant
                entries == external_routers.entries@,
                order.wf(),
                forall|x: RouterId| #[trigger]
                    order@.contains(x) <==> crate::keyed::has_key(entries.take(i as int), x),
        {
            let ghost before = order@;
            order.insert(external_routers.entries[i].0);
            proof {
                assert forall|x: RouterId| #[trigger] order@.contains(x) <==> crate::keyed::has_key(
                    entries.take(i + 1),
                    x,
                ) by {
                    crate::keyed::lemma_has_key_take(entries, i as int, x);
                    assert(before.contains(x) || !before.contains(x));
                }
            }
        }
        let advertised_prefixes: Pairs<()> = Pairs::new();
        proof {
            assert(entries.take(entries.len() as int) =~= entries);
            assert forall|x: RouterId| #[trigger] order.items@.contains(x)
                <==> external_routers@.contains_key(x) by {
                assert(order@.contains(x) == order.items@.contains(x));
            }
            if order.items@.len() > 0 {
                assert(order.items@.contains(order.items@[0]));
                let j = lemma_key(entries, order.items@[0]);
            }
            assert(advertised_prefixes@.dom() =~= Set::<(RouterId, Prefix)>::empty());
        }
        UniformEventGenerator {
            rng,
            prefixes,
            routers: external_routers,
            order,
            advertised_prefixes,
            reconfig: with_reconfiguration,
        }
    }

    /// The event of a router on a prefix. Keep track of what is advertised.
    pub fn get_external_event(&mut self, external_neighbor: RouterId, prefix: Prefix) -> (r: ExternalEvent)
        requires
            old(self).wf(),
            old(self).routers@.contains_key(external_neighbor),
        ensures
            final(self).wf(),
            final(self).same_setup(old(self)),
            final(self).reconfig == old(self).reconfig,
            r@ == toggled(old(self).advertised(), old(self).routers@, (external_neighbor, prefix)),
            final(self).advertised() == toggle(
                old(self).advertised(),
                (external_neighbor, prefix),
            ),
            final(self).rng == old(self).rng,
    {
        let ghost k: (RouterId, Prefix) = (external_neighbor, prefix);
        if self.advertised_prefixes.contains((external_neighbor, prefix)) {
            self.advertised_prefixes.remove((external_neighbor, prefix));
            assert(self.advertised() =~= old(self).advertised().remove(k));
            ExternalEvent { external_neighbor, prefix, route: None }
        } else {
            self.advertised_prefixes.insert((external_neighbor, prefix), ());
            assert(self.advertised() =~= old(self).advertised().insert(k));
            let as_id: AsId = match self.routers.get(external_neighbor) {
                Some(x) => *x,
                None => {
                    assert(false);
                    0
                },
            };
            let mut path: Vec<AsId> = Vec::new();
            path.push(as_id);
            assert(path@ =~= seq![as_id]);
            ExternalEvent { external_neighbor, prefix, route: Some(path) }
        }
    }

    /// The events of a time step in which each router does what it has picked.
    pub fn step(&mut self, picks: &Vec<Option<Prefix>>) -> (r: SimulationTimeStep)
        requires
            old(self).wf(),
            picks@.len() == old(self).order.items@.len(),
        ensures
            final(self).wf(),
            Self::steps(*old(self), picks@, simulation_views(r@), *final(self)),
            final(self).rng == old(self).rng,
    {
        let mut r: SimulationTimeStep = Vec::new();
        let n: usize = picks.len();
        assert(simulation_views(r@) =~= Seq::<SimulationView>::empty());
        for i in 0..n
            invariant
                n == picks@.len(),
                n == self.order.items@.len(),
                self.wf(),
                self.same_setup(old(self)),
                self.reconfig == old(self).reconfig,
                self.rng == old(self).rng,
                (simulation_views(r@), self.advertised()) == events_of(
                    self.order.items@,
                    self.routers@,
                    old(self).advertised(),
                    picks@,
                    i as int,
                ),
        {
            match picks[i] {
                Some(prefix) => {
                    let router: RouterId = self.order.items[i];
                    assert(self.order.items@.contains(router));
                    let ghost before = r@;
                    let event = self.get_external_event(router, prefix);
                    r.push(SimulationEvent::External(event));
                    assert(simulation_views(r@) =~= simulation_views(before).push(
                        SimulationView::External(event@),
                    ));
                },
                None => {},
            }
        }
        r
    }

    /// The events of a time step, once the coin is thrown that decides whether the reconfiguration comes
    /// now, and each router has picked what to do.
    pub fn step_with(&mut self, coin: bool, picks: &Vec<Option<Prefix>>) -> (r: SimulationTimeStep)
        requires
            old(self).wf(),
            !(old(self).reconfig && coin) ==> picks@.len() == old(self).order.items@.len(),
        ensures
            final(self).wf(),
            Self::steps_with(*old(self), coin, picks@, simulation_views(r@), *final(self)),
            final(self).rng == old(self).rng,
    {
        if self.reconfig && coin {
            self.reconfig = false;
            let mut r: SimulationTimeStep = Vec::new();
            r.push(SimulationEvent::Reconfiguration);
            assert(simulation_views(r@) =~= seq![SimulationView::Reconfiguration]);
            r
        } else {
            self.step(picks)
        }
    }

    /// Each router picks one of the prefixes, or none.
    fn pick(&mut self) -> (picks: Vec<Option<Prefix>>)
        requires
            old(self).wf(),
        ensures
            *final(self) == (UniformEventGenerator { rng: final(self).rng, ..*old(self) }),
            are_picks(picks@, old(self).order.items@, old(self).prefixes@),
            (picks@, final(self).rng) == picks_drawn(
                old(self).rng,
                old(self).order.items@.len(),
                old(self).prefixes@,
            ),
    {
        let n: usize = self.order.items.len();
        let mut picks: Vec<Option<Prefix>> = Vec::new();
        for i in 0..n
            invariant
                n == self.order.items@.len(),
                self.wf(),
                *self == (UniformEventGenerator { rng: self.rng, ..*old(self) }),
                (picks@, self.rng) == picks_drawn(old(self).rng, i as nat, self.prefixes@),
                picks@.len() == i,
                forall|j: int|
                    0 <= j < i ==> (#[trigger] picks@[j] matches Some(p)
                        ==> self.prefixes@.contains(p)),
        {
            let mut pick: Option<Prefix> = None;
            if gen_ratio(&mut self.rng, 1, 2) {
                pick = pick_one(&self.prefixes, &mut self.rng);
            }
            picks.push(pick);
        }
        picks
    }

    /// The events of the next time step.
    pub fn next(&mut self) -> (r: Option<SimulationTimeStep>)
        requires
            old(self).wf(),
        ensures
            final(self).wf(),
            r matches Some(events) && Self::generates(
                *old(self),
                simulation_views(events@),
                *final(self),
            ),
    {
        let coin: bool = if self.reconfig {
            gen_ratio(&mut self.rng, 1, STEPS_PER_RECONFIGURATION)
        } else {
            false
        };
        let picks: Vec<Option<Prefix>> = if coin {
            Vec::new()
        } else {
            self.pick()
        };
        assert(coin ==> picks@ =~= Seq::<Option<Prefix>>::empty());
        Some(self.step_with(coin, &picks))
    }
}

/// A time step is a reconfiguration.
pub open spec fn is_reconfiguration(out: Seq<SimulationView>) -> bool {
    exists|i: int| 0 <= i < out.len() && #[trigger] out[i] is Reconfiguration
}

proof fn lemma_events_are_external(
    order: Seq<RouterId>,
    routers: Map<RouterId, AsId>,
    advertised: Set<(RouterId, Prefix)>,
    picks: Seq<Option<Prefix>>,
    n: int,
)
    ensures
        forall|i: int|
            0 <= i < events_of(order, routers, advertised, picks, n).0.len()
                ==> #[trigger] events_of(order, routers, advertised, picks, n).0[i] is External,
    decreases n,
{
    if n > 0 {
        lemma_events_are_external(order, routers, advertised, picks, n - 1);
    }
}

/// The reconfiguration comes exactly if it is still to come and the coin comes up. Then it is not to come
/// any more. Else it is still to come if it was.
pub proof fn law_reconfiguration_only_when_due(
    before: UniformEventGenerator,
    out: Seq<SimulationView>,
    after: UniformEventGenerator,
)
    requires
        UniformEventGenerator::generates(before, out, after),
    ensures
        is_reconfiguration(out) <==> before.reconfig && before.coin_drawn().0,
        after.reconfig == (before.reconfig && !is_reconfiguration(out)),
{
    let (coin, rng) = before.coin_drawn();
    if coin {
        assert(out[0] is Reconfiguration);
    } else {
        let picks = picks_drawn(rng, before.order.items@.len(), before.prefixes@).0;
        lemma_events_are_external(
            before.order.items@,
            before.routers@,
            before.advertised(),
            picks,
            before.order.items@.len() as int,
        );
    }
}

/// A run of the generator: each time step leads from one state to the next.
pub open spec fn is_run(
    states: Seq<UniformEventGenerator>,
    outs: Seq<Seq<SimulationView>>,
) -> bool {
    &&& states.len() == outs.len() + 1
    &&& forall|i: int|
        0 <= i < outs.len() ==> UniformEventGenerator::generates(
            states[i],
            #[trigger] outs[i],
            states[i + 1],
        )
}

/// In a run there is at most one reconfiguration, and none if it was disabled.
pub proof fn law_at_most_one_reconfiguration(
    states: Seq<UniformEventGenerator>,
    outs: Seq<Seq<SimulationView>>,
    i: int,
    j: int,
)
    requires
        is_run(states, outs),
        0 <= i <= j < outs.len(),
        is_reconfiguration(outs[j]),
    ensures
        states[0].reconfig,
        i < j ==> !is_reconfiguration(outs[i]),
{
    lemma_still_due(states, outs, 0, j);
    if i < j {
        lemma_still_due(states, outs, i + 1, j);
        law_reconfiguration_only_when_due(states[i], outs[i], states[i + 1]);
    }
}

proof fn lemma_still_due(
    states: Seq<UniformEventGenerator>,
    outs: Seq<Seq<SimulationView>>,
    i: int,
    j: int,
)
    requires
        is_run(states, outs),
        0 <= i <= j < outs.len(),
        is_reconfiguration(outs[j]),
    ensures
        states[i].reconfig,
    decreases j - i,
{
    assert(UniformEventGenerator::generates(states[i], outs[i], states[i + 1]));
    law_reconfiguration_only_when_due(states[i], outs[i], states[i + 1]);
    if i < j {
        lemma_still_due(states, outs, i + 1, j);
    }
}

/// Events of external routers only, in the strictly increasing order of the routers, each on one of the
/// prefixes.
pub open spec fn is_external_step(
    out: Seq<SimulationView>,
    routers: Map<RouterId, AsId>,
    prefixes: Seq<Prefix>,
) -> bool {
    &&& forall|i: int|
        0 <= i < out.len() ==> (#[trigger] out[i] matches SimulationView::External(e)
            && routers.contains_key(e.external_neighbor) && prefixes.contains(e.prefix))
    &&& forall|i: int, j: int|
        0 <= i < j < out.len() ==> (#[trigger] out[i])->External_0.external_neighbor < (
        #[trigger] out[j])->External_0.external_neighbor
}

proof fn lemma_external_step(
    order: Seq<RouterId>,
    routers: Map<RouterId, AsId>,
    advertised: Set<(RouterId, Prefix)>,
    picks: Seq<Option<Prefix>>,
    prefixes: Seq<Prefix>,
    n: int,
)
    requires
        0 <= n <= order.len(),
        are_picks(picks, order, prefixes),
        forall|i: int, j: int|
            0 <= i < j < order.len() ==> (#[trigger] order[i]) < (#[trigger] order[j]),
        forall|i: int| 0 <= i < order.len() ==> routers.contains_key(#[trigger] order[i]),
    ensures
        is_external_step(events_of(order, routers, advertised, picks, n).0, routers, prefixes),
        forall|i: int|
            0 <= i < events_of(order, routers, advertised, picks, n).0.len() ==> n > 0 && (
            #[trigger] events_of(
                order,
                routers,
                advertised,
                picks,
                n,
            ).0[i])->External_0.external_neighbor <= order[n - 1],
    decreases n,
{
    if n > 0 {
        lemma_external_step(order, routers, advertised, picks, prefixes, n - 1);
        let (events, now) = events_of(order, routers, advertised, picks, n - 1);
        let out = events_of(order, routers, advertised, picks, n).0;
        assert(n > 1 ==> order[n - 2] < order[n - 1]);
        if let Some(p) = picks[n - 1] {
            assert(prefixes.contains(p));
            assert forall|i: int| 0 <= i < out.len() implies (#[trigger] out[i] matches
                SimulationView::External(e) && routers.contains_key(e.external_neighbor)
                && prefixes.contains(e.prefix) && e.external_neighbor <= order[n - 1] && (i
                < events.len() ==> e.external_neighbor < order[n - 1])) by {
                if i < events.len() {
                    assert(out[i] == events[i]);
                }
            }
            assert forall|i: int, j: int| 0 <= i < j < out.len() implies (
            #[trigger] out[i])->External_0.external_neighbor < (
            #[trigger] out[j])->External_0.external_neighbor by {
                assert(out[i] == events[i]);
                if j < events.len() {
                    assert(out[j] == events[j]);
                }
            }
        }
    }
}

/// A time step is the reconfiguration alone, or events of external routers only, in the strictly
/// increasing order of the routers, each on one of the prefixes.
pub proof fn law_shape_of_a_time_step(
    before: UniformEventGenerator,
    out: Seq<SimulationView>,
    after: UniformEventGenerator,
)
    requires
        before.wf(),
        UniformEventGenerator::generates(before, out, after),
    ensures
        out == seq![SimulationView::Reconfiguration] || is_external_step(
            out,
            before.routers@,
            before.prefixes@,
        ),
{
    let order = before.order.items@;
    assert forall|i: int| 0 <= i < order.len() implies before.routers@.contains_key(
        #[trigger] order[i],
    ) by {
        assert(order.contains(order[i]));
    }
    if !before.coin_drawn().0 {
        let picks = picks_drawn(before.coin_drawn().1, order.len(), before.prefixes@).0;
        lemma_external_step(
            order,
            before.routers@,
            before.advertised(),
            picks,
            before.prefixes@,
            order.len() as int,
        );
    }
}

/// The routes of the events of a router on a prefix.
pub open spec fn routes_in(
    events: Seq<SimulationView>,
    k: (RouterId, Prefix),
) -> Seq<Option<Seq<AsId>>>
    decreases events.len(),
{
    if events.len() == 0 {
        seq![]
    } else {
        let routes = routes_in(events.drop_last(), k);
        match events.last() {
            SimulationView::External(e) => if (e.external_neighbor, e.prefix) == k {
                routes.push(e.route)
            } else {
                routes
            },
            SimulationView::Reconfiguration => routes,
        }
    }
}

/// The routes of the events of a router on a prefix, in all time steps.
pub open spec fn routes_of(
    outs: Seq<Seq<SimulationView>>,
    k: (RouterId, Prefix),
) -> Seq<Option<Seq<AsId>>>
    decreases outs.len(),
{
    if outs.len() == 0 {
        seq![]
    } else {
        routes_of(outs.drop_last(), k) + routes_in(outs.last(), k)
    }
}

/// Announcements and withdrawals in turn. If `first`, then an announcement comes first.
pub open spec fn alternate(routes: Seq<Option<Seq<AsId>>>, as_id: AsId, first: bool) -> bool {
    forall|i: int|
        0 <= i < routes.len() ==> #[trigger] routes[i] == if (i % 2 == 0) == first {
            Some(seq![as_id])
        } else {
            None
        }
}

proof fn lemma_step_alternates(
    order: Seq<RouterId>,
    routers: Map<RouterId, AsId>,
    advertised: Set<(RouterId, Prefix)>,
    picks: Seq<Option<Prefix>>,
    n: int,
    k: (RouterId, Prefix),
)
    ensures
        ({
            let (events, now) = events_of(order, routers, advertised, picks, n);
            let routes = routes_in(events, k);
            &&& alternate(routes, routers[k.0], !advertised.contains(k))
            &&& now.contains(k) == (advertised.contains(k) == (routes.len() % 2 == 0))
        }),
    decreases n,
{
    if n > 0 {
        lemma_step_alternates(order, routers, advertised, picks, n - 1, k);
        let (events, now) = events_of(order, routers, advertised, picks, n - 1);
        if let Some(p) = picks[n - 1] {
            let e = SimulationView::External(toggled(now, routers, (order[n - 1], p)));
            assert(events.push(e).drop_last() =~= events);
            assert(events.push(e).last() == e);
        }
    }
}

proof fn lemma_run_alternates(
    states: Seq<UniformEventGenerator>,
    outs: Seq<Seq<SimulationView>>,
    k: (RouterId, Prefix),
)
    requires
        is_run(states, outs),
    ensures
        ({
            let routes = routes_of(outs, k);
            let (before, after) = (states[0].advertised(), states.last().advertised());
            &&& alternate(routes, states[0].routers@[k.0], !before.contains(k))
            &&& after.contains(k) == (before.contains(k) == (routes.len() % 2 == 0))
        }),
        states.last().same_setup(&states[0]),
    decreases outs.len(),
{
    if outs.len() > 0 {
        let n = outs.len() - 1;
        let (init, done) = (states.drop_last(), outs.drop_last());
        assert forall|i: int| 0 <= i < done.len() implies UniformEventGenerator::generates(
            init[i],
            #[trigger] done[i],
            init[i + 1],
        ) by {
            assert(UniformEventGenerator::generates(states[i], outs[i], states[i + 1]));
        }
        lemma_run_alternates(init, done, k);
        let (before, out, after) = (states[n], outs[n], states[n + 1]);
        assert(UniformEventGenerator::generates(before, out, after));
        let a = routes_of(done, k);
        let b = routes_in(out, k);
        let order = before.order.items@;
        if before.coin_drawn().0 {
            assert(routes_in(out.drop_last(), k) =~= Seq::<Option<Seq<AsId>>>::empty());
            assert(out.last() is Reconfiguration);
            assert(b =~= Seq::<Option<Seq<AsId>>>::empty());
            assert(a + b =~= a);
        } else {
            let picks = picks_drawn(before.coin_drawn().1, order.len(), before.prefixes@).0;
            lemma_step_alternates(
                order,
                before.routers@,
                before.advertised(),
                picks,
                order.len() as int,
                k,
            );
            let (first, id) = (!states[0].advertised().contains(k), states[0].routers@[k.0]);
            assert forall|i: int| 0 <= i < (a + b).len() implies #[trigger] (a + b)[i] == if (i % 2
                == 0) == first {
                Some(seq![id])
            } else {
                None
            } by {
                if i < a.len() {
                    assert((a + b)[i] == a[i]);
                } else {
                    assert((a + b)[i] == b[i - a.len()]);
                }
            }
        }
    }
}

/// In a run of a new generator, a router announces and withdraws a prefix in turn. An announcement comes
/// first. The path is just the router's own AS.
pub proof fn law_announcements_and_withdrawals_alternate(
    states: Seq<UniformEventGenerator>,
    outs: Seq<Seq<SimulationView>>,
    k: (RouterId, Prefix),
)
    requires
        is_run(states, outs),
        states[0].advertised() == Set::<(RouterId, Prefix)>::empty(),
    ensures
        alternate(routes_of(outs, k), states[0].routers@[k.0], true),
{
    lemma_run_alternates(states, outs, k);
}

/// If the reconfiguration is enabled, and the coin comes up in some time step, then there is one: in the
/// first such step.
pub proof fn law_reconfiguration_comes_with_the_coin(
    states: Seq<UniformEventGenerator>,
    outs: Seq<Seq<SimulationView>>,
    i: int,
)
    requires
        is_run(states, outs),
        states[0].reconfig,
        0 <= i < outs.len(),
        ratio_draw(states[i].rng, 1, STEPS_PER_RECONFIGURATION).0,
        forall|j: int|
            0 <= j < i ==> !ratio_draw(
                (#[trigger] states[j]).rng,
                1,
                STEPS_PER_RECONFIGURATION,
            ).0,
    ensures
        outs[i] == seq![SimulationView::Reconfiguration],
        forall|j: int| 0 <= j < outs.len() && j != i ==> !is_reconfiguration(#[trigger] outs[j]),
{
    lemma_not_yet(states, outs, i);
    assert(UniformEventGenerator::generates(states[i], outs[i], states[i + 1]));
    law_reconfiguration_only_when_due(states[i], outs[i], states[i + 1]);
    assert forall|j: int| 0 <= j < outs.len() && j != i implies !is_reconfiguration(
        #[trigger] outs[j],
    ) by {
        if is_reconfiguration(outs[j]) {
            if i < j {
                law_at_most_one_reconfiguration(states, outs, i, j);
            } else {
                law_at_most_one_reconfiguration(states, outs, j, i);
            }
        }
    }
}

proof fn lemma_not_yet(
    states: Seq<UniformEventGenerator>,
    outs: Seq<Seq<SimulationView>>,
    i: int,
)
    requires
        is_run(states, outs),
        states[0].reconfig,
        0 <= i < outs.len(),
        forall|j: int|
            0 <= j < i ==> !ratio_draw(
                (#[trigger] states[j]).rng,
                1,
                STEPS_PER_RECONFIGURATION,
            ).0,
    ensures
        states[i].reconfig,
    decreases i,
{
    if i > 0 {
        lemma_not_yet(states, outs, i - 1);
        let (before, out, after) = (states[i - 1], outs[i - 1], states[i - 1 + 1]);
        assert(UniformEventGenerator::generates(before, out, after));
        law_reconfiguration_only_when_due(before, out, after);
    }
}

/// Two generators will do the same: they have equal sources, prefixes and routers, however those are
/// listed, and the same is advertised and still to come.
pub open spec fn are_alike(a: UniformEventGenerator, b: UniformEventGenerator) -> bool {
    &&& a.rng == b.rng
    &&& a.prefixes@ == b.prefixes@
    &&& a.routers@ == b.routers@
    &&& a.advertised() == b.advertised()
    &&& a.reconfig == b.reconfig
}

/// Two runs of generators with equal sources, prefixes, routers and settings give the same events, in the
/// same order, in each time step.
pub proof fn law_equal_sources_give_equal_events(
    a: Seq<UniformEventGenerator>,
    b: Seq<UniformEventGenerator>,
    outs: Seq<Seq<SimulationView>>,
    others: Seq<Seq<SimulationView>>,
)
    requires
        is_run(a, outs),
        is_run(b, others),
        outs.len() == others.len(),
        a[0].wf(),
        b[0].wf(),
        are_alike(a[0], b[0]),
    ensures
        outs == others,
        are_alike(a.last(), b.last()),
{
    lemma_alike(a, b, outs, others, outs.len() as int);
    assert forall|i: int| 0 <= i < outs.len() implies outs[i] == others[i] by {
        lemma_alike(a, b, outs, others, i + 1);
    }
    assert(outs =~= others);
}

proof fn lemma_alike(
    a: Seq<UniformEventGenerator>,
    b: Seq<UniformEventGenerator>,
    outs: Seq<Seq<SimulationView>>,
    others: Seq<Seq<SimulationView>>,
    n: int,
)
    requires
        is_run(a, outs),
        is_run(b, others),
        outs.len() == others.len(),
        a[0].wf(),
        b[0].wf(),
        are_alike(a[0], b[0]),
        0 <= n <= outs.len(),
    ensures
        are_alike(a[n], b[n]),
        a[n].order.items@ == b[n].order.items@,
        n > 0 ==> outs[n - 1] == others[n - 1],
    decreases n,
{
    if n == 0 {
        let (s, t) = (a[0].order.items@, b[0].order.items@);
        assert forall|x: RouterId| s.contains(x) == t.contains(x) by {
            assert(s.contains(x) <==> a[0].routers@.contains_key(x));
            assert(t.contains(x) <==> b[0].routers@.contains_key(x));
        }
        lemma_increasing_unique(s, t);
    } else {
        lemma_alike(a, b, outs, others, n - 1);
        let i = n - 1;
        assert(UniformEventGenerator::generates(a[i], outs[i], a[i + 1]));
        assert(UniformEventGenerator::generates(b[i], others[i], b[i + 1]));
    }
}

/// A router that withdraws a prefix has advertised it, and does not advertise it any more. One that
/// announces a prefix has not advertised it, and does so from now on, with a path through its own AS only.
/// What others advertise, and other prefixes, stay.
pub proof fn law_events_toggle(
    advertised: Set<(RouterId, Prefix)>,
    routers: Map<RouterId, AsId>,
    k: (RouterId, Prefix),
    l: (RouterId, Prefix),
)
    ensures
        ({
            let (e, after) = (toggled(advertised, routers, k), toggle(advertised, k));
            &&& e.external_neighbor == k.0 && e.prefix == k.1
            &&& e.route is None <==> advertised.contains(k)
            &&& e.route is Some <==> after.contains(k)
            &&& e.route matches Some(path) ==> path.len() == 1 && path[0] == routers[k.0]
            &&& l != k ==> (after.contains(l) <==> advertised.contains(l))
            &&& toggle(after, k) == advertised
        }),
{
    assert(toggle(toggle(advertised, k), k) =~= advertised);
}

/// The coin for the reconfiguration has one chance in 200, and it is drawn only if the reconfiguration is
/// still to come.
pub proof fn law_chance_of_a_reconfiguration(g: UniformEventGenerator)
    ensures
        g.reconfig ==> g.coin_drawn() == ratio_draw(g.rng, 1, 200),
        !g.reconfig ==> !g.coin_drawn().0 && g.coin_drawn().1 == g.rng,
{
}

/// Each router picks a prefix with one chance in two.
pub proof fn law_chance_of_an_event(rng: rand::rngs::StdRng, n: nat, prefixes: Seq<Prefix>)
    requires
        n > 0,
    ensures
        ({
            let (picks, before) = picks_drawn(rng, (n - 1) as nat, prefixes);
            let all = picks_drawn(rng, n, prefixes).0;
            &&& all.len() == picks.len() + 1
            &&& all.drop_last() == picks
            &&& all.last() is Some <==> ratio_draw(before, 1, 2).0
            &&& all.last() matches Some(p) ==> p == prefixes[pick_draw(
                ratio_draw(before, 1, 2).1,
                prefixes.len(),
            ).0]
        }),
{
    let (picks, before) = picks_drawn(rng, (n - 1) as nat, prefixes);
    assert(picks_drawn(rng, n, prefixes).0.drop_last() =~= picks);
}

} // verus!
