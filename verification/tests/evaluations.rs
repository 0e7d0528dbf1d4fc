use ghostbuster::bgp::{BgpEvent, BgpRoute, CommunitySet, Event, RouterId, Time};
use ghostbuster::controller::ControllerError;
use ghostbuster::distance::{
    Forwarding, ForwardingState, NetworkDistance, NetworkPolicies, Selection,
};
use ghostbuster::evaluation::{
    bug_affected_msg, bug_args, bug_class, bug_probability, configure_network, describe,
    direction_of, failure_count_num_triggered, failure_enable_bug_in_route_map,
    failure_setup_route_map_in_healthy, is_bug_triggered, is_verified, location_pipeline, raw_name,
    raw_reference, reflector_tags, retain_traces, role_of, sort_numbers, ConfigureNetworkResult,
    MeasurementInput, RouteMapError, BUG_ORDER,
};
use ghostbuster::forking_monitor::ProcessWithdraws;
use ghostbuster::formatting::{
    append_padded, fmt_multiline_indent, fmt_recording, fmt_sequence, MessageText,
};
use ghostbuster::ground_truth::BugReport;
use ghostbuster::keyed::Keyed;
use ghostbuster::monitoring::MonitoringError;
use ghostbuster::number_set::NumberSet;
use ghostbuster::performance::{
    busiest_router, next_step, prepare, session_order, start_simulation, AbstractMessage, PeerIds,
    Step, Task, TaskCollector,
};
use ghostbuster::reordering_measurement::{Failure, ReorderingQueue};
use ghostbuster::reordering_session::{
    Bug, FailureLocation, Probability, ReorderingSessionQueueInit,
};
use ghostbuster::route_map::{RouteMap, RouteMapDirection, RouteMapMatch, RouteMapSet};
use ghostbuster::scenarios::{
    all_choices, build_scenarios, is_default_topology, with_defaults, GivenOptions, Topology,
};
use ghostbuster::simulation::{ExternalEvent, SimulationEvent};
use ghostbuster::state_comparison::{
    compare_bgp_state, sort_by_neighbor, BgpTables, LearnedRoute, Mismatch,
};
use ghostbuster::text::Names;
use ghostbuster::trace_test::TraceOutcome;
use ghostbuster::workload::{
    bug_kind, candidate_neighbors, gen_bug, gen_event_sequence, gen_failure, make_bug, next_event,
    possible_communities, possible_local_prefs, BugKind, SCALE,
};
use rand::rngs::StdRng;
use rand::SeedableRng;

fn numbers(list: &[u32]) -> NumberSet {
    let mut r = NumberSet::new();
    for x in list {
        r.insert(*x);
    }
    r
}

fn keyed<V>(list: Vec<(u32, V)>) -> Keyed<V> {
    let mut r = Keyed::new();
    for (k, v) in list {
        r.insert(k, v);
    }
    r
}

fn half() -> Probability {
    Probability { numerator: 1, denominator: 4 }
}

fn failure(location: FailureLocation, bug: Bug) -> Failure {
    Failure { router: 1, neighbor: 2, location, bug }
}

// The network: internal routers 1, 2 and 3, of which 2 is a reflector; external routers 8 and 9.
fn network() -> ConfigureNetworkResult {
    configure_network(
        numbers(&[1, 2, 3]),
        numbers(&[8, 9]),
        numbers(&[2]),
        &keyed(vec![(8, 3), (9, 2)]),
        Some(7),
        &numbers(&[1, 2, 3, 7, 8, 9]),
    )
}

fn neighbors() -> Keyed<NumberSet> {
    keyed(vec![
        (1, numbers(&[2, 7])),
        (2, numbers(&[1, 3, 7, 9])),
        (3, numbers(&[2, 7, 8])),
    ])
}

#[test]
fn routers_have_roles() {
    let net = network();
    assert_eq!(net.internals, vec![1, 2, 3]);
    assert_eq!(net.borders, vec![2, 3]);
    assert_eq!(net.monitor, Some(7));
    let role = |r: RouterId| net.roles.get(r).unwrap().as_str();
    assert_eq!(role(1), "internal");
    assert_eq!(role(2), "reflector+egress");
    assert_eq!(role(3), "egress");
    assert_eq!(role(8), "external");
    assert_eq!(role_of(&vec![], &vec![4], &vec![], 4), "reflector");
    assert_eq!(sort_numbers(&vec![3, 1, 2, 1]), vec![1, 1, 2, 3]);
}

#[test]
fn reflectors_tag_what_they_receive() {
    let tags = reflector_tags(2, &vec![5, 6]);
    assert_eq!(tags.len(), 2);
    assert_eq!((tags[0].0, tags[1].0), (5, 6));
    assert_eq!(tags[0].1.set, vec![RouteMapSet::SetCommunity(1002)]);
    assert_eq!(tags[0].1.order, 1);
    assert!(tags[0].1.allow);
}

#[test]
fn bugs_are_prepared_in_route_maps() {
    assert_eq!(direction_of(&FailureLocation::Ingress), RouteMapDirection::Incoming);
    assert_eq!(direction_of(&FailureLocation::Egress), RouteMapDirection::Outgoing);
    let to_update = failure(FailureLocation::Egress, Bug::WithdrawToUpdate { p: half() });
    let to_withdraw = failure(FailureLocation::Egress, Bug::UpdateToWithdraw { p: half() });
    let dropping = failure(FailureLocation::Egress, Bug::DropUpdates { p: half() });
    let cond = |numerator, denominator| RouteMapMatch::Probabilistic {
        p: Probability { numerator, denominator },
        num_matched: 0,
        num_not_matched: 0,
    };

    let always = failure_setup_route_map_in_healthy(&to_update).unwrap();
    assert_eq!(always.order, BUG_ORDER);
    assert!(!always.allow);
    assert_eq!(always.conds, vec![cond(1, 1)]);
    let never = failure_setup_route_map_in_healthy(&to_withdraw).unwrap();
    assert_eq!(never.conds, vec![cond(0, 1)]);
    assert!(failure_setup_route_map_in_healthy(&dropping).is_none());

    let buggy = failure_enable_bug_in_route_map(&to_update, Some(always)).unwrap().unwrap();
    assert_eq!(buggy.conds, vec![cond(3, 4)]);
    let buggy = failure_enable_bug_in_route_map(&to_withdraw, Some(never)).unwrap().unwrap();
    assert_eq!(buggy.conds, vec![cond(1, 4)]);
    assert!(failure_enable_bug_in_route_map(&dropping, None).unwrap().is_none());
}

#[test]
fn unprepared_bugs_are_errors() {
    let f = failure(FailureLocation::Egress, Bug::UpdateToWithdraw { p: half() });
    let item = |conds| RouteMap { order: 0, allow: false, conds, set: vec![], exit: false };
    assert_eq!(failure_enable_bug_in_route_map(&f, None).unwrap_err(), RouteMapError::NotPrepared);
    assert_eq!(
        failure_enable_bug_in_route_map(&f, Some(item(vec![]))).unwrap_err(),
        RouteMapError::Incorrect
    );
    assert_eq!(
        failure_enable_bug_in_route_map(&f, Some(item(vec![RouteMapMatch::Prefix(0)]))).unwrap_err(),
        RouteMapError::Incorrect
    );
    assert_eq!(RouteMapError::NotPrepared.message(), "Failure was not already prepared!");
    assert_eq!(
        RouteMapError::Incorrect.message(),
        "The failure route map was established incorrectly"
    );
    assert_eq!(failure_count_num_triggered(&f, 9, None), Err(RouteMapError::NotPrepared));
    assert_eq!(
        failure_count_num_triggered(&f, 9, Some(&item(vec![]))),
        Err(RouteMapError::Incorrect)
    );
}

#[test]
fn triggered_bugs_are_counted() {
    let counts = RouteMapMatch::Probabilistic { p: half(), num_matched: 3, num_not_matched: 5 };
    let item =
        RouteMap { order: 0, allow: false, conds: vec![counts], set: vec![], exit: false };
    let count = |bug| {
        failure_count_num_triggered(&failure(FailureLocation::Egress, bug), 9, Some(&item))
    };
    assert_eq!(count(Bug::UpdateToWithdraw { p: half() }), Ok(3));
    assert_eq!(count(Bug::WithdrawToUpdate { p: half() }), Ok(5));
    assert_eq!(count(Bug::DropUpdates { p: half() }), Ok(9));
}

#[test]
fn bugs_are_described() {
    let swap = Bug::TransformCommunity { p: half(), swap: 502 };
    let set = Bug::TransformLocalPref { p: half(), new_val: 150 };
    assert_eq!(bug_class(&swap), "transformative");
    assert_eq!(bug_class(&Bug::DropUpdates { p: half() }), "destructive");
    assert_eq!(bug_class(&Bug::WithdrawToUpdate { p: half() }), "swap_type");
    assert_eq!(bug_affected_msg(&swap), "update");
    assert_eq!(bug_affected_msg(&Bug::DropWithdraws { p: half() }), "withdraw");
    assert_eq!(bug_args(&swap), "swap 502");
    assert_eq!(bug_args(&set), "set 150");
    assert_eq!(bug_args(&Bug::DropUpdates { p: half() }), "");
    assert_eq!(bug_probability(&set), half());
    assert_eq!(location_pipeline(&FailureLocation::Ingress), "ingress");
    assert_eq!(location_pipeline(&FailureLocation::Egress), "egress");

    let d = describe(&failure(FailureLocation::Egress, set), &network().roles);
    assert_eq!(d.class, "transformative");
    assert_eq!(d.pipeline, "egress");
    assert_eq!((d.router, d.neighbor), (1, 2));
    assert_eq!((d.router_roles.as_str(), d.neighbor_roles.as_str()), ("internal", "reflector+egress"));
}

#[test]
fn raw_results_have_names() {
    assert_eq!(raw_name("out", 12), "out_raw_12.json.gz");
    assert_eq!(raw_reference("out_raw_12.json.gz"), "./raw/out_raw_12.json.gz");
}

fn inputs(with_failure: bool) -> MeasurementInput {
    MeasurementInput {
        commit_hash: "abc".to_string(),
        seed: 1,
        topology: "t".to_string(),
        num_nodes: 3,
        num_edges: 2,
        num_externals: 2,
        num_route_reflectors: 1,
        num_external_events: 4,
        with_failure,
        with_monitor_speaker: true,
        with_reordering: true,
        with_debouncing: true,
        process_withdraws: ProcessWithdraws::Adaptive,
    }
}

fn as_ids() -> Keyed<u32> {
    keyed(vec![(8, 108), (9, 109)])
}

#[test]
fn traces_get_verdicts() {
    let mut rng = StdRng::seed_from_u64(5);
    let experiment =
        inputs(true).setup_experiment(&mut rng, network(), &neighbors(), &as_ids()).unwrap();
    let failing = experiment.failure.unwrap();
    assert!(failing.router != 7);
    let mut result = experiment.empty_measurement();
    assert!(result.bug.is_some());
    assert_eq!(result.total_max_num_forks, 1);
    result.num_failures_triggered = 2;
    let good = TraceOutcome { max_forks: 4, ok: true, killed: false };
    let bad = TraceOutcome { max_forks: 2, ok: false, killed: false };
    let killed = TraceOutcome { max_forks: 9, ok: true, killed: true };
    let name = || "x".to_string();
    let other = if failing.router == 1 { 3 } else { 1 };

    let p = experiment.verify_trace(&mut result, failing.router, name(), 10, bad, 5).unwrap();
    assert!(p.bug_triggered && p.found_bug && !p.was_killed);
    assert_eq!((p.num_events, p.verif_time, p.max_num_forks), (10, 5, 2));
    experiment.verify_trace(&mut result, failing.router, name(), 1, good, 1).unwrap();
    experiment.verify_trace(&mut result, other, name(), 1, good, 1).unwrap();
    experiment.verify_trace(&mut result, other, name(), 1, bad, 1).unwrap();
    experiment.verify_trace(&mut result, other, name(), 1, killed, 1).unwrap();
    // The speaker itself is not verified.
    assert!(experiment.verify_trace(&mut result, 7, name(), 1, bad, 1).is_none());

    let v = result.verdicts;
    assert_eq!(
        (v.num_true_positives, v.num_false_negatives, v.num_true_negatives, v.num_false_positives),
        (1, 1, 1, 1)
    );
    assert_eq!(v.num_monitors_killed, 1);
    assert_eq!(result.total_num_events, 14);
    assert_eq!(result.total_verif_time, 9);
    assert_eq!(result.total_max_num_forks, 9);
}

#[test]
fn experiments_draw_the_bug_and_then_the_events() {
    let mut rng = StdRng::seed_from_u64(5);
    let experiment =
        inputs(true).setup_experiment(&mut rng, network(), &neighbors(), &as_ids()).unwrap();
    let mut again = StdRng::seed_from_u64(5);
    let failure = gen_failure(&mut again, true, &network(), &neighbors()).unwrap().unwrap();
    let (setup, events) =
        gen_event_sequence(&mut again, 2, 4, &network().externals, &as_ids()).unwrap();
    let drawn = experiment.failure.unwrap();
    assert_eq!((drawn.router, drawn.neighbor), (failure.router, failure.neighbor));
    assert_eq!(format!("{:?}", drawn), format!("{:?}", failure));
    assert_eq!(format!("{:?}", experiment.setup), format!("{:?}", setup));
    assert_eq!(format!("{:?}", experiment.external_events), format!("{:?}", events));
    assert_eq!(rng, again);
}

#[test]
fn experiments_can_have_no_bug() {
    let mut rng = StdRng::seed_from_u64(5);
    let experiment =
        inputs(false).setup_experiment(&mut rng, network(), &neighbors(), &as_ids()).unwrap();
    assert!(experiment.failure.is_none());
    assert!(experiment.empty_measurement().bug.is_none());
    assert_eq!(experiment.setup.len(), 2);
    assert_eq!(experiment.external_events.len(), 4);
    // An external router without an AS number is an error.
    let r = inputs(false).setup_experiment(&mut rng, network(), &neighbors(), &Keyed::new());
    assert!(matches!(r, Err(8 | 9)));
}

#[test]
fn only_the_faulty_router_triggers_bugs() {
    let f = Some(failure(FailureLocation::Egress, Bug::DropUpdates { p: half() }));
    assert!(is_bug_triggered(&f, 1, 1));
    assert!(!is_bug_triggered(&f, 1, 0));
    assert!(!is_bug_triggered(&f, 2, 1));
    assert!(!is_bug_triggered(&None, 1, 1));
    assert!(is_verified(None, 1));
    assert!(!is_verified(Some(1), 1));
}

#[test]
fn only_internal_traces_are_kept() {
    let kept = retain_traces(keyed(vec![(1, 'a'), (9, 'b')]), &numbers(&[1, 2]));
    assert_eq!(kept.entries, vec![(1, 'a')]);
}

// Workloads.

#[test]
fn kinds_of_bugs_by_chance() {
    let x = |percent: u64| percent * SCALE as u64 / 100;
    assert_eq!(bug_kind(0, true), BugKind::DropWithdraws);
    assert_eq!(bug_kind(x(49), false), BugKind::DropUpdates);
    assert_eq!(bug_kind(x(50), true), BugKind::TransformLocalPref);
    assert_eq!(bug_kind(x(74), false), BugKind::TransformCommunity);
    assert_eq!(bug_kind(x(75), true), BugKind::UpdateToWithdraw);
    assert_eq!(bug_kind(x(99), false), BugKind::WithdrawToUpdate);
}

#[test]
fn bugs_are_made_of_what_was_drawn() {
    let p = Probability { numerator: 1, denominator: 4 };
    let cases = [
        (BugKind::DropWithdraws, Bug::DropWithdraws { p }),
        (BugKind::DropUpdates, Bug::DropUpdates { p }),
        (BugKind::TransformLocalPref, Bug::TransformLocalPref { p, new_val: 80 }),
        (BugKind::TransformCommunity, Bug::TransformCommunity { p, swap: 80 }),
        (BugKind::UpdateToWithdraw, Bug::UpdateToWithdraw { p }),
        (BugKind::WithdrawToUpdate, Bug::WithdrawToUpdate { p }),
    ];
    for (kind, bug) in cases {
        assert_eq!(make_bug(kind, p, 80), bug);
    }
}

#[test]
fn generated_bugs_are_possible() {
    let mut rng = StdRng::seed_from_u64(1);
    let (prefs, communities) = (possible_local_prefs(), possible_communities());
    assert_eq!(prefs, vec![20, 50, 80, 100, 150, 200, 250]);
    assert_eq!(communities, vec![501, 502, 503, 500]);
    let mut classes: Vec<String> = vec![];
    for _ in 0..200 {
        let bug = gen_bug(&mut rng, &prefs, &communities);
        let p = bug_probability(&bug);
        assert!(p.denominator == SCALE && p.numerator < SCALE && 10 * (p.numerator as u64) >= SCALE as u64);
        match bug {
            Bug::TransformLocalPref { new_val, .. } => assert!(prefs.contains(&new_val)),
            Bug::TransformCommunity { swap, .. } => assert!(communities.contains(&swap)),
            _ => {}
        }
        let class = bug_class(&bug);
        if !classes.contains(&class) {
            classes.push(class);
        }
    }
    assert_eq!(classes.len(), 3);
}

#[test]
fn failures_are_on_sessions() {
    let net = network();
    // A bug of incoming messages is on a session with a border router, a reflector or an external one.
    let sessions = neighbors();
    assert_eq!(candidate_neighbors(&net, true, sessions.get(2).unwrap()), vec![1, 3, 7, 9]);
    assert_eq!(candidate_neighbors(&net, false, sessions.get(2).unwrap()), vec![3, 9]);
    let mut rng = StdRng::seed_from_u64(2);
    for _ in 0..50 {
        let f = gen_failure(&mut rng, true, &net, &neighbors()).unwrap().unwrap();
        assert!(net.internals.contains(&f.router));
        assert!(neighbors().get(f.router).unwrap().contains(f.neighbor));
        if f.location == FailureLocation::Egress {
            assert!(f.router != 1);
        } else {
            assert!(f.neighbor != 7 && f.neighbor != 1);
        }
    }
    assert!(gen_failure(&mut rng, false, &net, &neighbors()).unwrap().is_none());
}

#[test]
fn events_alternate_per_source() {
    let mut advertised = NumberSet::new();
    // A route that is not advertised yet cannot be withdrawn.
    let e = next_event(&mut advertised, 8, 108, false, 3, 5);
    assert_eq!(e.route, Some(vec![108, 108, 108]));
    assert_eq!((e.source, e.num_steps_after), (8, 5));
    let e = next_event(&mut advertised, 8, 108, false, 3, 5);
    assert_eq!(e.route, None);
    let e = next_event(&mut advertised, 8, 108, true, 1, 0);
    assert_eq!(e.route, Some(vec![108]));
    assert!(advertised.contains(8));
}

#[test]
fn event_sequences_have_their_length() {
    let mut rng = StdRng::seed_from_u64(3);
    let (setup, events) = gen_event_sequence(&mut rng, 3, 10, &vec![8, 9], &as_ids()).unwrap();
    assert_eq!((setup.len(), events.len()), (3, 10));
    assert!(events.iter().all(|e| e.source == 8 || e.source == 9));
    let same = {
        let mut rng = StdRng::seed_from_u64(3);
        gen_event_sequence(&mut rng, 3, 10, &vec![8, 9], &as_ids()).unwrap()
    };
    assert_eq!(format!("{:?}", (setup, events)), format!("{:?}", same));
    assert!(gen_event_sequence(&mut rng, 1, 0, &vec![4], &as_ids()).is_err());
}

// Scenarios.

fn line(n: u32) -> Topology {
    Topology {
        name: "line".to_string(),
        num_internals: n as usize,
        num_internal_edges: n as usize - 1,
        links: (1..n).map(|i| (i - 1, i)).collect(),
    }
}

#[test]
fn default_topologies_are_connected() {
    assert!(is_default_topology(&line(7)));
    // Too small
    assert!(!is_default_topology(&line(6)));
    // Too large
    assert!(!is_default_topology(&line(300)));
    assert!(is_default_topology(&line(299)));
    let mut split = line(8);
    split.links.remove(3);
    assert!(!is_default_topology(&split));
    let mut lonely = line(8);
    lonely.links.pop();
    assert!(!is_default_topology(&lonely));
}

#[test]
fn choices_are_all_combinations() {
    let mut choices = all_choices(&vec![2, 1, 3]);
    choices.sort();
    assert_eq!(
        choices,
        vec![
            vec![0, 0, 0],
            vec![0, 0, 1],
            vec![0, 0, 2],
            vec![1, 0, 0],
            vec![1, 0, 1],
            vec![1, 0, 2],
        ]
    );
    assert!(all_choices(&vec![2, 0]).is_empty());
}

fn given() -> GivenOptions {
    GivenOptions {
        num_external_networks: Some(vec![4]),
        num_route_reflectors: None,
        num_external_events: Some(vec![1]),
        with_failure: None,
        with_monitor_speaker: None,
        with_reordering: Some(vec![true]),
        with_debouncing: Some(vec![false]),
        process_withdraws: Some(vec![ProcessWithdraws::Always, ProcessWithdraws::Adaptive]),
        seed: Some(vec![7]),
    }
}

#[test]
fn scenarios_leave_out_what_tells_nothing() {
    let options = with_defaults(given(), vec![line(7)]);
    assert_eq!(options.num_route_reflectors, vec![0, 1, 3, 5]);
    assert_eq!(options.num_external_networks, vec![4]);
    assert_eq!(options.with_failure.len(), 2);
    let scenarios = build_scenarios("abc", &options);
    // For each number of reflectors: 4 with a speaker, and without one only the adaptive monitor
    // with a failure.
    assert_eq!(scenarios.len(), 4 * 5);
    for s in scenarios {
        assert_eq!(s.commit_hash, "abc");
        assert_eq!((s.topology.as_str(), s.num_nodes, s.num_edges), ("line", 7, 6));
        assert_eq!((s.seed, s.num_externals, s.num_external_events), (7, 4, 1));
        assert!(s.with_reordering && !s.with_debouncing);
        let adaptive = matches!(s.process_withdraws, ProcessWithdraws::Adaptive);
        assert!(s.with_monitor_speaker || (s.with_failure && adaptive));
    }
}

#[test]
fn a_small_sweep() {
    let given = GivenOptions {
        num_external_networks: Some(vec![3]),
        num_route_reflectors: None,
        num_external_events: Some(vec![10]),
        with_failure: None,
        with_monitor_speaker: None,
        with_reordering: Some(vec![true]),
        with_debouncing: None,
        process_withdraws: None,
        seed: Some(vec![0, 1, 2]),
    };
    let scenarios = build_scenarios("abc", &with_defaults(given, vec![line(11)]));
    assert_eq!(scenarios.len(), 168);
}

// Comparing the states.

fn route(next_hop: RouterId) -> BgpRoute {
    BgpRoute {
        prefix: 0,
        as_path: vec![1],
        next_hop,
        local_pref: None,
        med: None,
        community: CommunitySet::new(),
        originator_id: None,
        cluster_list: vec![],
    }
}

fn learned(from_id: RouterId) -> LearnedRoute {
    LearnedRoute { from_id, route: route(from_id) }
}

fn tables(order: &[u32], selected: Option<RouterId>) -> BgpTables {
    BgpTables {
        rib_in: order.iter().map(|x| learned(*x)).collect(),
        rib_in_processed: vec![],
        selected: selected.map(route),
        rib_out: vec![],
    }
}

const NO_MISMATCH: Mismatch =
    Mismatch { rib_in: false, rib_in_processed: false, rib_selected: false, rib_out: false };

#[test]
fn the_order_of_routes_makes_no_mismatch() {
    let sorted = sort_by_neighbor(vec![learned(3), learned(1), learned(2)]);
    assert_eq!(sorted.iter().map(|x| x.from_id).collect::<Vec<_>>(), vec![1, 2, 3]);
    let mut m = NO_MISMATCH;
    compare_bgp_state(
        &mut m,
        keyed(vec![(1, tables(&[8, 9], Some(8)))]),
        keyed(vec![(1, tables(&[9, 8], Some(8)))]),
    );
    assert_eq!(m, NO_MISMATCH);
}

#[test]
fn mismatches_add_up() {
    let mut m = NO_MISMATCH;
    compare_bgp_state(
        &mut m,
        keyed(vec![(1, tables(&[8, 9], Some(8)))]),
        keyed(vec![(1, tables(&[8, 9], Some(9)))]),
    );
    assert_eq!(m, Mismatch { rib_selected: true, ..NO_MISMATCH });
    compare_bgp_state(
        &mut m,
        keyed(vec![(1, tables(&[8], None))]),
        keyed(vec![(1, tables(&[], None))]),
    );
    assert_eq!(m, Mismatch { rib_selected: true, rib_in: true, ..NO_MISMATCH });
}

#[test]
fn black_holes_and_loops_are_counted() {
    let state = ForwardingState {
        outcomes: vec![
            Forwarding::Reachable,
            Forwarding::BlackHole,
            Forwarding::ForwardingLoop,
            Forwarding::BlackHole,
            Forwarding::Other,
        ],
    };
    assert_eq!(state.blackholes(), 2);
    assert_eq!(state.forwarding_loops(), 1);
    let a = Selection { next_hops: vec![Some(1), None, Some(2)] };
    let b = Selection { next_hops: vec![Some(1), Some(3), None] };
    assert_eq!(a.distance(&b), 2);
    assert_eq!(a.distance(&a), 0);
}

// Performance.

fn message(peer: usize, path: Option<Vec<u32>>, t: Time) -> AbstractMessage {
    AbstractMessage::new(peer, path, t)
}

#[test]
fn peers_share_the_external_routers() {
    let m = message(5, None, 0);
    assert_eq!(m.sender(&vec![10, 11, 12]), 12);
    assert!(m.same(&message(5, None, 9)));
    assert!(!m.same(&message(4, None, 0)));
    assert!(!m.same(&message(5, Some(vec![1]), 0)));
    let mut ids = PeerIds::new();
    assert_eq!(ids.number((false, 100)), 0);
    assert_eq!(ids.number((true, 100)), 1);
    assert_eq!(ids.number((false, 100)), 0);
}

#[test]
fn tasks_end_with_a_pause() {
    let mut task = Task::new(message(0, Some(vec![1]), 100));
    assert!(task.update(message(1, Some(vec![2]), 120), 50).is_none());
    // A repetition of what the peer has said last
    assert!(task.update(message(0, Some(vec![1]), 130), 50).is_none());
    assert_eq!(task.event_duration(50), 80);
    let done = task.update(message(0, None, 200), 50).unwrap();
    assert_eq!((done.start_timestamp, done.end_timestamp), (100, 130));
    let kept: Vec<_> = done.messages.iter().map(|m| (m.peer, m.timestamp)).collect();
    assert_eq!(kept, vec![(0, 100), (1, 120)]);
    assert_eq!(task.messages.len(), 1);
    assert_eq!(task.start_timestamp, 200);
}

#[test]
fn short_tasks_are_not_verified() {
    let mut tasks = TaskCollector::new(50, 1);
    let (p, q) = ((false, 24, 100), (true, 24, 100));
    assert!(tasks.add_message(p, message(0, Some(vec![1]), 0)).is_none());
    assert!(tasks.add_message(q, message(0, Some(vec![1]), 0)).is_none());
    assert!(tasks.add_message(p, message(1, Some(vec![1]), 10)).is_none());
    // One message is too few.
    assert!(tasks.add_message(q, message(0, Some(vec![1]), 100)).is_none());
    let done = tasks.add_message(p, message(1, None, 100)).unwrap();
    assert_eq!(done.messages.len(), 2);
}

#[test]
fn simulations_follow_the_task() {
    let mut queue = ReorderingQueue::new(ReorderingSessionQueueInit::new(3));
    let mut task = Task::new(message(0, Some(vec![1]), 10));
    assert!(task.update(message(1, None, 20), 100).is_none());
    assert!(matches!(
        start_simulation(&mut queue, &task),
        Some(Step::Continue { first: 0, last: 1, event: None })
    ));
    assert_eq!(queue.get_time(), Some(10));
    // Nothing is in the queue, so that time goes on to the next message.
    assert!(matches!(
        next_step(&mut queue, &task, 1),
        Step::Continue { first: 1, last: 2, event: None }
    ));
    assert_eq!(queue.get_time(), Some(20));
    assert!(matches!(next_step(&mut queue, &task, 2), Step::Finished));
    assert!(matches!(next_step(&mut queue, &task, 0), Step::TimeWentBackward));
}

#[test]
fn messages_that_are_due_go_first_when_the_queue_runs_empty() {
    let mut queue = ReorderingQueue::new(ReorderingSessionQueueInit::new(3));
    queue.init_session(1, 2, false, false, 1_000);
    queue.add_failure(Failure {
        router: 1,
        neighbor: 2,
        location: FailureLocation::Egress,
        bug: Bug::DropUpdates { p: Probability { numerator: 1, denominator: 1 } },
    });
    let mut task = Task::new(message(0, Some(vec![1]), 10));
    for (peer, t) in [(1, 20), (2, 30), (3, 9_000)] {
        assert!(task.update(message(peer, Some(vec![1]), t), 100_000).is_none());
    }
    assert!(start_simulation(&mut queue, &task).is_some());
    queue.push(Event::Bgp { p: (), src: 1, dst: 2, e: BgpEvent::Update(route(1)) });
    // The work takes time, and loses the last message.
    assert!(matches!(
        next_step(&mut queue, &task, 1),
        Step::Continue { first: 1, last: 3, event: None }
    ));
    assert_eq!(queue.get_time(), Some(2_010));
    assert!(matches!(
        next_step(&mut queue, &task, 3),
        Step::Continue { first: 3, last: 4, event: None }
    ));
    assert_eq!(queue.get_time(), Some(9_000));
    assert!(matches!(next_step(&mut queue, &task, 4), Step::Finished));
}

#[test]
fn events_lose_their_time() {
    let e = Event::Bgp { p: 5, src: 1, dst: 2, e: BgpEvent::Withdraw(0) };
    assert!(matches!(
        prepare(e),
        Event::Bgp { p: (), src: 1, dst: 2, e: BgpEvent::Withdraw(0) }
    ));
}

#[test]
fn the_busiest_router_and_the_order_of_sessions() {
    assert_eq!(busiest_router(&vec![]), None);
    assert_eq!(busiest_router(&vec![(1, 4), (2, 9), (3, 9), (4, 1)]), Some(3));
    let order = session_order(&numbers(&[2, 1]), &keyed(vec![(2, numbers(&[5, 4])), (1, numbers(&[9]))]));
    assert_eq!(order, vec![(1, 9), (2, 4), (2, 5)]);
}

// Texts.

fn names() -> Names {
    Names { names: keyed(vec![(1, "A".to_string()), (2, "B".to_string())]) }
}

#[test]
fn texts_of_events() {
    let mut s = "x".to_string();
    append_padded(&mut s, "ab", 4);
    append_padded(&mut s, "abcde", 4);
    assert_eq!(s, "xab  abcde");
    let report = BugReport { timestamp: 0, router: 1, prefix: 0 };
    assert_eq!(
        report.fmt("12:00", "100.0.0.0/24", &names()),
        "12:00                    : Reported bug on A for prefix 100.0.0.0/24"
    );
    let event = |route| {
        SimulationEvent::External(ExternalEvent { external_neighbor: 2, prefix: 0, route })
    };
    assert_eq!(
        event(Some(vec![1, 2])).fmt("P0", "1, 2", &names()),
        "Advertising P0 from B with AS path 1, 2"
    );
    assert_eq!(event(None).fmt("P0", "", &names()), "Withdrawing P0 from B");
    assert_eq!(SimulationEvent::Reconfiguration.fmt("", "", &names()), "Reconfiguring");
}

#[test]
fn texts_of_sequences_and_recordings() {
    let lines = vec![vec![("1.5s".to_string(), "Reconfiguring".to_string())]];
    assert_eq!(
        fmt_sequence(&lines),
        "Sequence [\n  1.5s               : Reconfiguring,\n  --- Pausing between intervals ---,\n]"
    );
    let m = |time: &str, src, dst| MessageText {
        time: time.to_string(),
        src,
        dst,
        text: "W".to_string(),
    };
    let recording =
        vec![("P0".to_string(), vec![(1, vec![m("1", 1, 2), m("2", 2, 3)]), (2, vec![])])];
    assert_eq!(
        fmt_recording(&recording, &names()),
        "Recording { P0: { A: [1: (A)->(B) W, 2: (B)->(?) W], B: [], }, }"
    );
    let mut names = names();
    names.names.insert(3, "Router".to_string());
    let recording = vec![("P0".to_string(), vec![(1, vec![m("1.25", 1, 2), m("2", 2, 3)])])];
    assert_eq!(
        fmt_multiline_indent(&recording, &names, 1),
        "Recording {\n   P0: {\n     A: [\n       1.25 : (A)->(B)      W,\n       2    : (B)->(Router) W,\n     ],\n   },\n }"
    );
}

#[test]
fn texts_of_errors() {
    assert_eq!(
        ControllerError::NoPrefix(0).message("P0"),
        "Controller is not built to ingest messages with prefix: P0"
    );
    assert_eq!(
        ControllerError::NoRouter(3).message("3"),
        "Could not find a router with id 3 in one of the planes"
    );
    let withdraw = || BgpEvent::Withdraw(0);
    let unexpected = MonitoringError::UnexpectedEvent { router: 1, session: 2, event: withdraw() };
    assert_eq!(
        unexpected.fmt("W", "", &names()),
        "Router A has sent out an event W on its session to B that we cannot reconcile with any of the possible router states"
    );
    let unsent = MonitoringError::UnsentEvents { router: 1, session: 2, events: vec![] };
    assert_eq!(
        unsent.fmt("[W]", "", &names()),
        "Router A has not sent out all the messages it was supposed to on session B: [W]"
    );
    let missing = MonitoringError::MissingOutgoingEvent {
        router: 1,
        neighbor: 2,
        current_event: withdraw(),
        expected_event: withdraw(),
    };
    assert_eq!(
        missing.fmt("V", "W", &names()),
        "Router A has not sent a message to B:\n      last message: V\n  expected message: W"
    );
    assert_eq!(
        MonitoringError::Unserializable(2).fmt("", "", &names()),
        "Per-session monitors for router B rely on an order of incoming messages that contradict eachother."
    );
}
