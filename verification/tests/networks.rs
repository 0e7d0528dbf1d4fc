// Queues, monitors and controllers on small networks, which are simulated by hand.
use ghostbuster::arena::MonitorArena;
use ghostbuster::bgp::{
    BgpEvent, BgpRibEntry, BgpRoute, BgpSessionType, CommunitySet, Event, RouterId,
    TICKS_PER_SECOND,
};
use ghostbuster::controller::{Controller, ControllerError};
use ghostbuster::distance::{NetworkDistance, Selection};
use ghostbuster::failure::Failure;
use ghostbuster::import::{ImportedRoute, Router};
use ghostbuster::keyed::Keyed;
use ghostbuster::monitoring::MonitoringError;
use ghostbuster::number_set::NumberSet;
use ghostbuster::queue::{
    BatchQueue, EventQueue, FailureQueue, OrderedEventQueue, TriggerId, TriggerQueue,
};
use ghostbuster::recording::Recording;
use ghostbuster::reordering_measurement::ReorderingQueue;
use ghostbuster::reordering_session::ReorderingSessionQueueInit;
use rand::rngs::StdRng;
use rand::SeedableRng;
use std::collections::{BTreeMap, BTreeSet};
use BgpSessionType::{EBgp, IBgpClient, IBgpPeer};

type Net = SimpleNetwork;
type Inner = OrderedEventQueue<TriggerQueue>;
type Observed = Vec<(Event<TriggerId>, ImportedRoute)>;

struct SimpleNetwork {
    external: BTreeSet<RouterId>,
    sessions: BTreeMap<RouterId, BTreeMap<RouterId, BgpSessionType>>,
    local_pref: BTreeMap<(RouterId, RouterId), u32>,
    rib_in: BTreeMap<RouterId, BTreeMap<RouterId, BgpRoute>>,
    rib_out: BTreeMap<(RouterId, RouterId), BgpRoute>,
}

impl SimpleNetwork {
    fn new(external: &[RouterId], sessions: &[(RouterId, RouterId, BgpSessionType)]) -> Self {
        let mut net = SimpleNetwork {
            external: external.iter().copied().collect(),
            sessions: BTreeMap::new(),
            local_pref: BTreeMap::new(),
            rib_in: BTreeMap::new(),
            rib_out: BTreeMap::new(),
        };
        for (a, b, ty) in sessions {
            let back = match ty {
                IBgpClient => IBgpPeer,
                _ => *ty,
            };
            net.sessions.entry(*a).or_default().insert(*b, *ty);
            net.sessions.entry(*b).or_default().insert(*a, back);
        }
        net
    }

    fn internals(&self) -> Vec<RouterId> {
        self.sessions.keys().copied().filter(|r| !self.external.contains(r)).collect()
    }

    // What a router makes of a route from a neighbor.
    fn import(&self, router: RouterId, from: RouterId, route: &BgpRoute) -> ImportedRoute {
        let from_type = self.sessions[&router][&from];
        let mut incoming = route.clone();
        if from_type == EBgp {
            incoming.local_pref = Some(*self.local_pref.get(&(router, from)).unwrap_or(&100));
        }
        let mut outgoing_routes = Keyed::new();
        for (to, to_type) in &self.sessions[&router] {
            let exported = from_type == EBgp
                || from_type == IBgpClient
                || *to_type == EBgp
                || *to_type == IBgpClient;
            if !exported {
                continue;
            }
            let mut out = incoming.clone();
            if *to_type == EBgp {
                out.as_path.insert(0, 65535);
                out.local_pref = None;
                out.next_hop = router;
            } else if from_type == EBgp {
                out.next_hop = router;
            } else {
                out.originator_id = Some(from);
                out.cluster_list.push(router);
            }
            outgoing_routes.insert(
                *to,
                BgpRibEntry {
                    route: out,
                    from_type,
                    from_id: from,
                    to_id: Some(*to),
                    igp_cost: 0,
                    weight: 100,
                },
            );
        }
        let rib_entry = BgpRibEntry {
            route: incoming,
            from_type,
            from_id: from,
            to_id: None,
            igp_cost: if from_type == EBgp { 0 } else { 1 },
            weight: 100,
        };
        ImportedRoute { rib_entry: Some(rib_entry), outgoing_routes }
    }

    fn imports(&self, router: RouterId) -> Vec<ImportedRoute> {
        match self.rib_in.get(&router) {
            Some(table) => table.iter().map(|(n, route)| self.import(router, *n, route)).collect(),
            None => vec![],
        }
    }

    fn best(&self, router: RouterId) -> Option<ImportedRoute> {
        let mut best: Option<ImportedRoute> = None;
        for i in self.imports(router) {
            let better = match &best {
                Some(b) => i
                    .rib_entry
                    .as_ref()
                    .unwrap()
                    .is_better_than(b.rib_entry.as_ref().unwrap()),
                None => true,
            };
            if better {
                best = Some(i);
            }
        }
        best
    }

    fn next_hop(&self, router: RouterId) -> Option<RouterId> {
        self.best(router).map(|i| i.rib_entry.unwrap().route.next_hop)
    }

    // Process an event, and return those that it triggers.
    fn process(&mut self, event: &Event<TriggerId>) -> Vec<Event<TriggerId>> {
        let (src, router, e) = match event {
            Event::Bgp { src, dst, e, .. } => (*src, *dst, e),
            Event::Ospf { .. } => return vec![],
        };
        if self.external.contains(&router) {
            return vec![];
        }
        let table = self.rib_in.entry(router).or_default();
        match e {
            BgpEvent::Update(route) => {
                table.insert(src, route.clone());
            }
            BgpEvent::Withdraw(_) => {
                table.remove(&src);
            }
        }
        let best = self.best(router);
        let neighbors: Vec<RouterId> = self.sessions[&router].keys().copied().collect();
        let mut triggered = Vec::new();
        for n in neighbors {
            let route = best
                .as_ref()
                .and_then(|i| i.outgoing_routes.get(n))
                .map(|entry| entry.route.clone());
            let last = self.rib_out.remove(&(router, n));
            let e = match (route, last) {
                (Some(new), Some(old)) if new.same(&old) => {
                    self.rib_out.insert((router, n), old);
                    continue;
                }
                (Some(new), _) => {
                    self.rib_out.insert((router, n), new.clone());
                    BgpEvent::Update(new)
                }
                (None, Some(_)) => BgpEvent::Withdraw(0),
                (None, None) => continue,
            };
            triggered.push(Event::Bgp { p: TriggerId(None), src: router, dst: n, e });
        }
        triggered
    }

    fn observe(&self, event: &Event<TriggerId>) -> ImportedRoute {
        match event {
            Event::Bgp { src, dst, e: BgpEvent::Update(route), .. }
                if !self.external.contains(dst) =>
            {
                self.import(*dst, *src, route)
            }
            _ => ImportedRoute::rejected(),
        }
    }

    fn snapshot(&self) -> Vec<Router> {
        self.internals()
            .into_iter()
            .map(|r| Router {
                router_id: r,
                sessions: self.sessions[&r].keys().copied().collect(),
                rib_in: self.imports(r),
            })
            .collect()
    }
}

fn advertisement(external: RouterId, router: RouterId, as_path: &[u32]) -> Event<TriggerId> {
    let route = BgpRoute {
        prefix: 0,
        as_path: as_path.to_vec(),
        next_hop: external,
        local_pref: None,
        med: None,
        community: CommunitySet::new(),
        originator_id: None,
        cluster_list: vec![],
    };
    Event::Bgp { p: TriggerId(None), src: external, dst: router, e: BgpEvent::Update(route) }
}

fn withdrawal(external: RouterId, router: RouterId) -> Event<TriggerId> {
    Event::Bgp { p: TriggerId(None), src: external, dst: router, e: BgpEvent::Withdraw(0) }
}

fn queue() -> Inner {
    OrderedEventQueue::new(None, TriggerQueue::new())
}

fn run(net: &mut Net, queue: &mut Inner) {
    while let Some(event) = queue.pop() {
        let triggered = net.process(&event);
        queue.push_many(triggered);
    }
}

const MSG_LIMIT: usize = 1000;

// Returns the events that reached their destination. The network may not converge.
fn run_with_failure(net: &mut Net, queue: &mut FailureQueue<Inner>) -> Observed {
    let mut observed = Vec::new();
    while observed.len() < MSG_LIMIT {
        let Some(event) = queue.pop::<TriggerId>() else { break };
        let triggered = net.process(&event);
        let import = net.observe(&event);
        observed.push((event, import));
        queue.push_many(triggered);
    }
    observed
}

// An external router 0, a border router 1, and perhaps an internal router 2.
fn line_network() -> Net {
    Net::new(&[0], &[(1, 0, EBgp)])
}

fn long_line_network() -> Net {
    Net::new(&[0], &[(1, 0, EBgp), (1, 2, IBgpPeer)])
}

#[test]
fn test_line_network_failure_queue() {
    let mut net = line_network();
    assert_eq!(net.next_hop(1), None);
    let mut q = queue();
    q.push(advertisement(0, 1, &[1, 2, 3]));
    run(&mut net, &mut q);
    assert_eq!(net.next_hop(1), Some(0));
}

#[test]
fn failure_queue_drop_updates() {
    let (e, b, r) = (0, 1, 2);
    let mut net = long_line_network();
    let mut q = queue();
    q.push(advertisement(e, b, &[1, 2, 3]));
    run(&mut net, &mut q);
    assert_eq!(net.next_hop(r), Some(b));

    // Add a failure to the queue, drop all withdrawals from b
    let mut q = FailureQueue::new(Failure::BGPDropWithdraw((Some(b), None)), q);
    q.push(withdrawal(e, b));
    for (event, _) in run_with_failure(&mut net, &mut q) {
        if let Event::Bgp { src, e: BgpEvent::Withdraw(_), .. } = event {
            assert_ne!(src, b);
        }
    }
    // Since r has not received the withdraw it should still be forwarding to b
    assert_eq!(net.next_hop(r), Some(b));
}

fn key(event: &Event<TriggerId>) -> (RouterId, RouterId, bool, TriggerId) {
    match event {
        Event::Bgp { p, src, dst, e } => (*src, *dst, matches!(e, BgpEvent::Update(_)), *p),
        Event::Ospf { p, src, dst } => (*src, *dst, false, *p),
    }
}

#[test]
fn failure_queue_trigger_id_single() {
    let (e, b, r) = (0, 1, 2);
    let mut net = long_line_network();
    let mut q = queue();
    q.push(advertisement(e, b, &[1, 2, 3]));
    while let Some(event) = q.pop() {
        let id = q.inner_queue.last_event_id;
        let triggered = net.process(&event);
        let expected: Vec<_> = triggered
            .iter()
            .map(|e| {
                let (src, dst, update, _) = key(e);
                (src, dst, update, id)
            })
            .collect();
        q.push_many(triggered);
        // The triggered events are in the queue, with the right trigger id
        for e in expected {
            assert!(q.inner_queue.events.iter().any(|x| key(x) == e));
        }
    }
    assert_eq!(net.next_hop(r), Some(b));

    q.inner_queue.reset_trigger_id_counter();
    assert_eq!(q.inner_queue.last_event_id, TriggerId(None));

    let mut q = FailureQueue::new(Failure::BGPDropWithdraw((Some(b), None)), q);
    q.push(withdrawal(e, b));
    while let Some(event) = q.pop::<TriggerId>() {
        let id = q.inner_queue.inner_queue.last_event_id;
        let triggered = net.process(&event);
        let expected: Vec<_> = triggered
            .iter()
            .map(|e| {
                let (src, dst, update, _) = key(e);
                (src, dst, update, id)
            })
            .collect();
        q.push_many(triggered);
        for e in expected {
            assert!(q.inner_queue.inner_queue.events.iter().any(|x| key(x) == e));
        }
    }
    assert_eq!(net.next_hop(r), Some(b));
}

#[test]
fn failure_queue_around_timing() {
    // Routers 0 to 10 are those of Abilene, of which Kansas City and Indianapolis are the route
    // reflectors. The external routers 11, 12 and 13 are connected to Kansas City, Seattle and
    // Indianapolis.
    let (seattle, sunnyvale, kansas_city, indianapolis) = (3, 4, 7, 10);
    let (kansas_city_e, seattle_e, indianapolis_e) = (11, 12, 13);
    let mut sessions = vec![
        (kansas_city, kansas_city_e, EBgp),
        (seattle, seattle_e, EBgp),
        (indianapolis, indianapolis_e, EBgp),
        (kansas_city, indianapolis, IBgpPeer),
    ];
    for client in [0, 1, 2, seattle, sunnyvale, 5, 6, 8, 9] {
        sessions.push((kansas_city, client, IBgpClient));
        sessions.push((indianapolis, client, IBgpClient));
    }
    let mut net = Net::new(&[kansas_city_e, seattle_e, indianapolis_e], &sessions);
    let mut q = queue();
    q.push(advertisement(seattle_e, seattle, &[12, 100]));
    q.push(advertisement(indianapolis_e, indianapolis, &[13, 13, 100]));
    q.push(advertisement(kansas_city_e, kansas_city, &[11, 11, 11, 100]));
    run(&mut net, &mut q);
    assert_eq!(net.next_hop(seattle), Some(seattle_e));
    assert_eq!(net.next_hop(indianapolis), Some(seattle));
    assert_eq!(net.next_hop(sunnyvale), Some(seattle));

    // Isolate the Sunnyvale router
    let mut q = FailureQueue::new(Failure::BGPDropUpdate((None, Some(sunnyvale))), q);
    q.push(withdrawal(seattle_e, seattle));
    assert!(run_with_failure(&mut net, &mut q).len() < MSG_LIMIT);
    // Seattle now has to go through indianapolis
    assert_eq!(net.next_hop(seattle), Some(indianapolis));
    assert_eq!(net.next_hop(indianapolis), Some(indianapolis_e));
    // But sunnyvale should still be forwarding to seattle, it did not receive any of the update messages
    assert_eq!(net.next_hop(sunnyvale), Some(seattle));
}

#[test]
fn failure_queue_hides_nothing_until_it_pops() {
    let mut q = FailureQueue::new(Failure::BGPDropWithdraw((None, None)), queue());
    assert!(q.is_empty::<TriggerId>());
    q.push(withdrawal(0, 1));
    q.push(advertisement(0, 1, &[1]));
    assert_eq!(q.len::<TriggerId>(), 2);
    assert!(matches!(
        q.peek::<TriggerId>(),
        Some(Event::Bgp { e: BgpEvent::Withdraw(_), .. })
    ));
    assert!(matches!(
        q.pop::<TriggerId>(),
        Some(Event::Bgp { e: BgpEvent::Update(_), .. })
    ));
    assert!(q.pop::<TriggerId>().is_none());
    q.push(advertisement(0, 1, &[1]));
    q.clear::<TriggerId>();
    assert!(q.is_empty::<TriggerId>());
}

#[test]
fn test_distance() {
    let net1 = line_network();
    let mut net2 = line_network();
    let selection = |net: &Net| Selection {
        next_hops: net.internals().into_iter().map(|r| net.next_hop(r)).collect(),
    };
    // The networks are the same, so the distance should be 0
    assert_eq!(selection(&net1).distance(&selection(&net2)), 0);
    // Now lets only advertise a route in one of the networks
    let mut q = queue();
    q.push(advertisement(0, 1, &[1, 2, 3]));
    run(&mut net2, &mut q);
    assert_eq!(selection(&net1).distance(&selection(&net2)), 1);
    assert_eq!(selection(&net2).distance(&selection(&net1)), 1);
}

// External routers 0, 1 and 2, which are preferred in this order, their border routers 3, 4 and 5, and
// the reflector 6. All external routers have announced a route.
fn e_network_route_map_scenario() -> Net {
    let mut net = Net::new(
        &[0, 1, 2],
        &[
            (3, 0, EBgp),
            (4, 1, EBgp),
            (5, 2, EBgp),
            (6, 3, IBgpClient),
            (6, 4, IBgpClient),
            (6, 5, IBgpClient),
        ],
    );
    for (i, lp) in [200, 150, 100].into_iter().enumerate() {
        net.local_pref.insert((3 + i as u32, i as u32), lp);
    }
    let mut q = queue();
    for e in [0, 1, 2] {
        q.push(advertisement(e, 3 + e, &[e + 1]));
        run(&mut net, &mut q);
    }
    net
}

fn internal_set(net: &Net) -> NumberSet {
    let mut set = NumberSet::new();
    for r in net.internals() {
        set.insert(r);
    }
    set
}

#[test]
fn test_monitoring_basic() {
    let (e1, [b1, b2, b3], r) = (0, [3, 4, 5], 6);
    let missing = |e: &MonitoringError| matches!(e, MonitoringError::MissingOutgoingEvent { .. });
    let unexpected = |e: &MonitoringError| matches!(e, MonitoringError::UnexpectedEvent { .. });
    type Test = Option<fn(&MonitoringError) -> bool>;
    let failures: Vec<(Failure, Test)> = vec![
        (Failure::BGPDropWithdraw((Some(b1), Some(r))), Some(missing)),
        // The following failure should be ignored due to the possibility of debouncing
        (Failure::BGPDropWithdraw((Some(r), Some(b2))), None),
        (Failure::BGPDropWithdraw((Some(r), None)), Some(missing)),
        (Failure::BGPChangeLocalPref((Some(b3), Some(r)), 175), Some(unexpected)),
    ];

    // Check the healthy network
    let mut net = e_network_route_map_scenario();
    assert_eq!(net.next_hop(b1), Some(e1));
    assert_eq!(net.next_hop(b2), Some(b1));
    assert_eq!(net.next_hop(b3), Some(b1));
    let mut q = queue();
    q.push(withdrawal(e1, b1));
    run(&mut net, &mut q);
    assert_eq!(net.next_hop(b1), Some(b2));

    // Check the failures
    for (failure, should_error) in failures {
        let mut net = e_network_route_map_scenario();
        let mut q = FailureQueue::new(failure, queue());
        let arena = MonitorArena::new();
        let mut controller = Controller::new(net.snapshot(), &arena);
        q.push(withdrawal(e1, b1));
        let events = run_with_failure(&mut net, &mut q);
        let recording = Recording::from_vec(events).filter_routers(&internal_set(&net));
        let results = controller.monitor_recording(recording).unwrap();
        match should_error {
            Some(expected) => assert!(
                results.get_errors().iter().any(expected),
                "{:?}: {:?}",
                failure,
                results.get_errors()
            ),
            None => assert!(results.is_empty(), "{:?}: {:?}", failure, results.get_errors()),
        }
    }
}

#[test]
fn test_e_network_non_convergence() {
    let (e1, b3, r) = (0, 5, 6);
    let non_converging_failures = vec![
        Failure::BGPChangeLocalPref((Some(b3), None), 175),
        Failure::BGPChangeLocalPref((Some(b3), None), 200),
        Failure::BGPChangeLocalPref((Some(b3), None), 400),
        Failure::BGPChangeLocalPref((Some(b3), Some(r)), 175),
        Failure::BGPChangeLocalPref((Some(b3), Some(r)), 200),
        Failure::BGPChangeLocalPref((Some(b3), Some(r)), 400),
    ];
    for failure in non_converging_failures {
        let mut net = e_network_route_map_scenario();
        let mut q = FailureQueue::new(failure, queue());
        q.push(withdrawal(e1, 3));
        assert_eq!(run_with_failure(&mut net, &mut q).len(), MSG_LIMIT);
        assert!(!q.is_empty::<TriggerId>());
    }
}

#[test]
fn healthy_network_gives_no_errors() {
    let mut net = e_network_route_map_scenario();
    let mut q = FailureQueue::new(Failure::BGPDropUpdate((Some(99), None)), queue());
    let arena = MonitorArena::new();
    let mut prefixes = NumberSet::new();
    prefixes.insert(0);
    let mut controller = Controller::new_for_prefixes(&net.snapshot(), &prefixes, &arena);
    q.push(withdrawal(0, 3));
    q.push(advertisement(1, 4, &[2, 2]));
    let events = run_with_failure(&mut net, &mut q);
    let recording = Recording::from_vec(events).filter_routers(&internal_set(&net));
    assert!(recording.get_events(0, 6).is_some());
    assert!(recording.get_events(1, 6).is_none());
    let results = controller.monitor_recording(recording).unwrap();
    assert!(results.is_empty());
    assert_eq!(results.get_errors_per_prefix(0), 0);
}

#[test]
fn unknown_prefixes_and_routers_are_refused() {
    let net = e_network_route_map_scenario();
    let arena = MonitorArena::new();
    let mut prefixes = NumberSet::new();
    prefixes.insert(7);
    let mut controller = Controller::new_for_prefixes(&net.snapshot(), &prefixes, &arena);
    let recording = Recording::from_vec(vec![(withdrawal(0, 3), ImportedRoute::rejected())]);
    assert!(matches!(
        controller.monitor_recording(recording),
        Err(ControllerError::NoPrefix(0))
    ));
    let arena = MonitorArena::new();
    let mut controller = Controller::new(net.snapshot(), &arena);
    let recording = Recording::from_vec(vec![(withdrawal(0, 3), ImportedRoute::rejected())]);
    assert!(matches!(
        controller.monitor_recording(recording),
        Err(ControllerError::NoRouter(0))
    ));
}

// The same network on a queue that can reorder and debounce messages.
fn withdraw_and_count_messages(with_reordering: bool, with_debouncing: bool) -> (Net, usize) {
    let mut net = e_network_route_map_scenario();
    let mut queue = ReorderingQueue::new(ReorderingSessionQueueInit::new(42));
    let sessions: Vec<(RouterId, RouterId)> = net
        .sessions
        .iter()
        .flat_map(|(a, n)| n.keys().map(|b| (*a, *b)).collect::<Vec<_>>())
        .collect();
    for (r, n) in sessions {
        queue.init_session(r, n, with_reordering, with_debouncing, TICKS_PER_SECOND);
    }
    let timeless = |e: Event<TriggerId>| match e {
        Event::Bgp { src, dst, e, .. } => Event::Bgp { p: (), src, dst, e },
        Event::Ospf { src, dst, .. } => Event::Ospf { p: (), src, dst },
    };
    queue.push(timeless(withdrawal(0, 3)));
    queue.push(timeless(withdrawal(1, 4)));
    queue.push(timeless(advertisement(0, 3, &[1])));
    queue.push(timeless(withdrawal(2, 5)));
    while let Some(event) = queue.pop() {
        let stamped = match event {
            Event::Bgp { src, dst, e, .. } => Event::Bgp { p: TriggerId(None), src, dst, e },
            Event::Ospf { src, dst, .. } => Event::Ospf { p: TriggerId(None), src, dst },
        };
        for triggered in net.process(&stamped) {
            queue.push(timeless(triggered));
        }
    }
    let traces = queue.all_measurement_traces();
    let messages = traces.entries.iter().map(|(_, trace)| trace.len()).sum();
    (net, messages)
}

#[test]
fn debouncing_reduces_messages_without_changing_the_outcome() {
    let (plain, plain_messages) = withdraw_and_count_messages(false, false);
    let (debounced, debounced_messages) = withdraw_and_count_messages(false, true);
    for r in plain.internals() {
        assert_eq!(
            plain.next_hop(r),
            debounced.next_hop(r),
            "debouncing must not change the forwarding state the network settles on"
        );
    }
    assert!(
        debounced_messages < plain_messages,
        "debouncing should suppress messages: {} with, {} without",
        debounced_messages,
        plain_messages
    );
}

fn batch(n: u32) -> Vec<Event<TriggerId>> {
    (0..n)
        .map(|i| Event::Bgp { p: TriggerId(None), src: n - i, dst: i, e: BgpEvent::Withdraw(0) })
        .collect()
}

fn popped(queue: &mut Inner) -> Vec<RouterId> {
    let mut r = Vec::new();
    while let Some(Event::Bgp { src, .. }) = queue.pop() {
        r.push(src);
    }
    r
}

#[test]
fn batches_are_ordered_or_shuffled() {
    let mut fixed = OrderedEventQueue::new(None, TriggerQueue::new());
    fixed.push_many(batch(20));
    let order = popped(&mut fixed);
    let mut backwards = OrderedEventQueue::new(None, TriggerQueue::new());
    let mut events = batch(20);
    events.reverse();
    backwards.push_many(events);
    assert_eq!(popped(&mut backwards), order);

    let mut shuffled =
        OrderedEventQueue::new(Some(StdRng::seed_from_u64(1)), TriggerQueue::new());
    shuffled.push_many(batch(20));
    let other = popped(&mut shuffled);
    assert_ne!(other, order);
    let (mut a, mut b) = (order, other);
    a.sort();
    b.sort();
    assert_eq!(a, b);
}
