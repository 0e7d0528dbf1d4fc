use ghostbuster::arena::MonitorArena;
use ghostbuster::bgp::{
    BgpEvent, BgpRibEntry, BgpRoute, BgpSessionType, CommunitySet, Event, RouterId, Time,
    TICKS_PER_SECOND,
};
use ghostbuster::config::{
    data_path, experiments_path, gns3_host, gns3_port, gns3_projects_path, limit_runs,
    results_path, runs_override, DEFAULT_GNS3_PORT,
};
use ghostbuster::controller::Controller;
use ghostbuster::generator::UniformEventGenerator;
use ghostbuster::ground_truth::{
    lp_ground_truth, parse_prefix, pl_ground_truth, prefix_at, BugReport, LogMessage, FIRST_NETWORK,
};
use ghostbuster::import::{ImportedRoute, Message, Router};
use ghostbuster::keyed::Keyed;
use ghostbuster::number_set::NumberSet;
use ghostbuster::reconfiguration::{
    configure_mrai_timers, deny_command, get_border_routers, is_border, permit_command,
    to_incremental, whitelist_prefix, Gns3Config, PostAction, PostConfig, PreAction, PreConfig,
    RouterSessions, Sessions,
};
use ghostbuster::recording::Recording;
use ghostbuster::route_map::{RouteMap, RouteMapMatch, RouteMapSet};
use ghostbuster::run;
use ghostbuster::run::{
    action_for, conclude_sequence, controller_mrai, observed_routers, record_sequence,
    unequal_prefixes, Action, Device, Run, RunConfig, Sequence, SequenceResult,
    SequenceResultSummary, TablesDiff,
};
use ghostbuster::simulation::{ExternalEvent, SimulationEvent};
use ghostbuster::strings::{
    contains_part, get_last_word, is_name_before, join, parse_number, strip_prefix, strip_suffix,
};
use ghostbuster::testbed;
use ghostbuster::testbed::{
    border_routers, check_sacrificial, generator_for_run, log_name, most_recent, num_sequences,
    parse_run_number, peer_types, plan_monitor_speaker, results_name, route_reflectors, select_runs,
    summarize_run, BaselineNetworkConfig, ExperimentConfig, PeerType,
};
use rand::rngs::StdRng;
use rand::SeedableRng;

fn numbers(list: &[u32]) -> NumberSet {
    let mut r = NumberSet::new();
    for x in list {
        r.insert(*x);
    }
    r
}

fn keyed<V>(list: Vec<(u32, V)>) -> Keyed<V> {
    let mut r = Keyed::new();
    for (k, v) in list {
        r.insert(k, v);
    }
    r
}

fn route(prefix: u32, local_pref: Option<u32>) -> BgpRoute {
    BgpRoute {
        prefix,
        as_path: vec![7],
        next_hop: 1,
        local_pref,
        med: None,
        community: CommunitySet::new(),
        originator_id: None,
        cluster_list: vec![],
    }
}

fn update(t: Time, src: RouterId, dst: RouterId, prefix: u32, local_pref: Option<u32>) -> Message {
    Message {
        event: Event::Bgp { p: t, src, dst, e: BgpEvent::Update(route(prefix, local_pref)) },
        import: ImportedRoute::rejected(),
    }
}

fn external(neighbor: RouterId, prefix: u32, path: Option<Vec<u32>>) -> SimulationEvent {
    SimulationEvent::External(ExternalEvent { external_neighbor: neighbor, prefix, route: path })
}

// Settings.

#[test]
fn settings_have_defaults() {
    assert_eq!(gns3_host(None), "localhost");
    assert_eq!(gns3_host(Some("lab".to_string())), "lab");
    assert_eq!(gns3_port(None), DEFAULT_GNS3_PORT);
    assert_eq!(gns3_port(Some("8080")), 8080);
    assert_eq!(gns3_port(Some("65535")), 65535);
    assert_eq!(gns3_port(Some("65536")), DEFAULT_GNS3_PORT);
    assert_eq!(gns3_port(Some("http")), DEFAULT_GNS3_PORT);
    assert_eq!(data_path(None), "./data");
    assert_eq!(results_path(None), "./results");
    assert_eq!(gns3_projects_path(None), "/opt/gns3/projects");
    assert_eq!(experiments_path("./data", "lp"), "./data/experiments/lp");
}

#[test]
fn runs_are_only_ever_reduced() {
    assert_eq!(runs_override(None), None);
    assert_eq!(runs_override(Some("12")), Some(12));
    assert_eq!(runs_override(Some("many")), None);
    assert_eq!(limit_runs(10, None), 10);
    assert_eq!(limit_runs(10, Some(3)), 3);
    assert_eq!(limit_runs(10, Some(30)), 10);
}

#[test]
fn numbers_are_parsed_up_to_a_bound() {
    assert_eq!(parse_number("0", 9), Some(0));
    assert_eq!(parse_number("007", 9), Some(7));
    assert_eq!(parse_number("10", 9), None);
    assert_eq!(parse_number("+4", 9), Some(4));
    assert_eq!(parse_number("", 9), None);
    assert_eq!(parse_number("-1", 9), None);
    assert_eq!(parse_number("18446744073709551615", u64::MAX), Some(u64::MAX));
    assert_eq!(parse_number("18446744073709551616", u64::MAX), None);
}

#[test]
fn strings_are_taken_apart() {
    assert_eq!(strip_prefix("run_3", "run_"), Some("3"));
    assert_eq!(strip_prefix("ruin", "run_"), None);
    assert_eq!(strip_suffix("3.json", ".json"), Some("3"));
    assert_eq!(strip_suffix("3.log", ".json"), None);
    assert_eq!(join("a", "b"), "a/b");
    assert_eq!(join("a/", "b"), "a/b");
    assert_eq!(join("a", "/b"), "/b");
    assert_eq!(get_last_word("one two three"), "three");
    assert_eq!(get_last_word("one"), "one");
    assert!(is_name_before("2024", "2025"));
    assert!(is_name_before("2024", "2024-1"));
    assert!(!is_name_before("2025", "2025"));
}

// What is known of the bugs.

#[test]
fn prefixes_are_numbered_from_the_first_network() {
    assert_eq!(prefix_at(FIRST_NETWORK), 0);
    assert_eq!(prefix_at(FIRST_NETWORK + 256), 1);
    assert_eq!(parse_prefix("100.0.0.0/24"), Some(0));
    assert_eq!(parse_prefix("100.0.1.0/24"), Some(1));
    assert_eq!(parse_prefix("100.1.0.0/24"), Some(256));
    assert_eq!(parse_prefix("99.255.255.0/24"), None);
    assert_eq!(parse_prefix("100.0.1.0"), None);
    assert_eq!(parse_prefix("100.0.1.0/33"), None);
}

fn log(timestamp: Time, content: &str) -> LogMessage {
    LogMessage { timestamp, content: content.to_string() }
}

#[test]
fn reports_are_read_from_the_log() {
    let report = BugReport::maybe_from(&log(5, "BUG: triggered for 100.0.1.0/24"), 3);
    assert_eq!(report, Some(BugReport { timestamp: 5, router: 3, prefix: 1 }));
    assert_eq!(BugReport::maybe_from(&log(5, "BUG: triggered"), 3), None);

    let lines = vec![
        log(1, "<<<:::BUG:::>>> 100.0.0.0/24"),
        log(2, "all is well with 100.0.7.0/24"),
        log(2, "router: <<<:::BUG:::>>> in 100.0.2.0/24"),
        log(3, "<<<:::BUG:::>>> 100.0.3.0/24"),
    ];
    let report = |timestamp, prefix| BugReport { timestamp, router: 4, prefix };
    assert_eq!(lp_ground_truth(&lines, 4, (1, 2)), Some(vec![report(1, 0), report(2, 2)]));
    assert_eq!(lp_ground_truth(&lines, 4, (3, 9)), Some(vec![report(3, 3)]));
    assert_eq!(lp_ground_truth(&lines, 4, (5, 9)), Some(vec![]));
    assert_eq!(lp_ground_truth(&vec![log(1, "hello")], 4, (0, 9)), None);
    assert_eq!(lp_ground_truth(&vec![], 4, (0, 9)), None);
    let unreadable = vec![log(1, "<<<:::BUG:::>>> somewhere")];
    assert_eq!(lp_ground_truth(&unreadable, 4, (0, 9)), None);
    assert_eq!(lp_ground_truth(&unreadable, 4, (2, 9)), Some(vec![]));
}

#[test]
fn parts_of_strings_are_found() {
    assert!(contains_part("abcabd", "abd"));
    assert!(contains_part("abc", "abc"));
    assert!(contains_part("abc", ""));
    assert!(contains_part("", ""));
    assert!(!contains_part("ab", "abc"));
    assert!(!contains_part("aab", "ba"));
}

#[test]
fn leaks_are_read_from_the_recording() {
    // Router 2 leaks prefix 1 to router 3. What it says to its external neighbor 9 is no leak.
    let messages = vec![update(4, 2, 3, 1, None), update(5, 2, 9, 1, None)];
    let recording = Recording::from_pcaps(vec![((2, 3), messages)]);
    assert_eq!(
        pl_ground_truth(&recording, 2, 9).map(|r| r[0]),
        Some(BugReport { timestamp: 4, router: 2, prefix: 1 })
    );
    assert_eq!(pl_ground_truth(&recording, 3, 9), None);
}

// Messages of the same time stay in their order.
#[test]
fn test_stable_order() {
    let (e, b) = (0, 1);
    let messages = vec![update(1, e, b, 0, Some(50)), update(1, e, b, 0, Some(100))];
    let recording =
        Recording::from_pcaps(vec![((e, b), messages)]).filter_routers(&numbers(&[b]));
    let sequence = recording.sequences.get(0).unwrap().get(b).unwrap();
    assert_eq!(sequence.len(), 2);
    let mut prev_lp = 0;
    for msg in sequence.iter() {
        match &msg.0.event {
            Event::Bgp { e, .. } => match e {
                BgpEvent::Withdraw(_) => panic!("Not a WITHDRAW message"),
                BgpEvent::Update(bgp_route) => {
                    assert!(prev_lp < bgp_route.local_pref.unwrap());
                    prev_lp = bgp_route.local_pref.unwrap();
                }
            },
            Event::Ospf { .. } => panic!("Not an OSPF message"),
        }
    }
}

#[test]
fn recordings_are_filtered_by_prefix() {
    let messages = || vec![update(1, 2, 3, 1, None), update(2, 2, 3, 4, None)];
    let kept = Recording::from_pcaps(vec![((2, 3), messages())]).filter_prefixes(&numbers(&[1]));
    assert!(kept.sequences.contains(1) && !kept.sequences.contains(4));
    let rest =
        Recording::from_pcaps(vec![((2, 3), messages())]).filter_out_prefixes(&numbers(&[1]));
    assert!(!rest.sequences.contains(1) && rest.sequences.contains(4));
}

// Changes of the configuration.

fn border_sessions() -> Sessions {
    vec![
        (9, BgpSessionType::EBgp),
        (1, BgpSessionType::IBgpPeer),
        (2, BgpSessionType::IBgpClient),
    ]
}

#[test]
fn border_routers_have_external_sessions() {
    let inner: Sessions = vec![(1, BgpSessionType::IBgpPeer)];
    assert!(is_border(&border_sessions()));
    assert!(!is_border(&inner));
    let routers = vec![
        RouterSessions { router_id: 3, sessions: border_sessions() },
        RouterSessions { router_id: 1, sessions: inner },
    ];
    assert_eq!(get_border_routers(&routers).items, vec![3]);
}

#[test]
fn whitelists_let_one_prefix_pass() {
    let items = whitelist_prefix(&border_sessions(), 4);
    assert_eq!(items.iter().map(|x| x.0).collect::<Vec<_>>(), vec![1, 1, 2, 2]);
    assert_eq!(items[0].1.order, 10);
    assert!(items[0].1.allow);
    assert_eq!(items[0].1.conds, vec![RouteMapMatch::Prefix(4)]);
    assert_eq!(items[1].1.order, 20);
    assert!(!items[1].1.allow);
    assert!(items[1].1.conds.is_empty());

    let config = PreConfig::Whitelist { prefix: 4, router: 3 };
    assert_eq!(config.router(), 3);
    match config.apply(&border_sessions(), vec![]) {
        PreAction::AddOutgoing { router, items } => {
            assert_eq!(router, 3);
            assert_eq!(items.len(), 4);
        }
        PreAction::ReplaceIncoming { .. } => unreachable!(),
    }
}

fn incoming(community: u32, local_pref: Option<u32>) -> RouteMap {
    RouteMap {
        order: 10,
        allow: true,
        conds: vec![],
        set: vec![RouteMapSet::SetCommunity(community), RouteMapSet::LocalPref(local_pref)],
        exit: true,
    }
}

#[test]
fn test_lp_routemaps() {
    // Three border routers, with a customer, a peer and a provider.
    let externals = [(0, 501, 200), (1, 502, 100), (2, 503, 50)];
    for (external, community, lp) in externals {
        let router = external + 3;
        let sessions = vec![(external, BgpSessionType::EBgp), (6, BgpSessionType::IBgpPeer)];
        let modification = PreConfig::ToIncremental { router, external };
        match modification.apply(&sessions, vec![incoming(community, Some(lp))]) {
            PreAction::ReplaceIncoming { router: r, external: e, items } => {
                assert_eq!((r, e), (router, external));
                assert_eq!(items.len(), 1);
                assert_eq!(
                    items[0].set,
                    vec![
                        RouteMapSet::SetCommunity(community),
                        RouteMapSet::LocalPrefDelta(lp as i32 - 100),
                    ]
                );
            }
            PreAction::AddOutgoing { .. } => unreachable!(),
        }
    }
}

#[test]
fn incremental_items_are_counted() {
    let other = RouteMap { order: 20, allow: false, conds: vec![], set: vec![], exit: true };
    let (items, n) = to_incremental(vec![incoming(1, Some(150)), other, incoming(1, None)]);
    assert_eq!(n, 2);
    assert_eq!(items[0].set[1], RouteMapSet::LocalPrefDelta(50));
    assert!(items[1].set.is_empty());
    assert_eq!(items[2].set[1], RouteMapSet::LocalPref(None));
}

#[test]
fn timers_are_set_on_internal_sessions() {
    let sessions = keyed(vec![
        (3, border_sessions()),
        (1, vec![(3, BgpSessionType::IBgpPeer), (8, BgpSessionType::EBgp)]),
    ]);
    assert_eq!(configure_mrai_timers(&numbers(&[3]), &sessions).iter().filter(|x| x.0 != 3).count(), 0);
    match (PostConfig::SetMrai { mrai: 5, routers: numbers(&[1]) }).apply(&sessions) {
        PostAction::SetTimers { mrai, sessions } => {
            assert_eq!(mrai, 5);
            assert_eq!(sessions, vec![(1, 3)]);
        }
        _ => unreachable!(),
    }
    assert!(matches!(
        PostConfig::PrefixList { router: 3 }.apply(&sessions),
        PostAction::FlipPrefixList { router: 3 }
    ));
    assert!(matches!(
        PostConfig::EnableLogging { router: 3 }.apply(&sessions),
        PostAction::EnableLogging { router: 3 }
    ));
}

#[test]
fn prefix_list_commands() {
    assert_eq!(deny_command("pl", 5), "ip prefix-list pl seq 5 deny any");
    assert_eq!(
        permit_command("pl", 10, "100.0.0.0/24"),
        "ip prefix-list pl seq 10 permit 100.0.0.0/24"
    );
}

// Runs.

fn run_config(early_return: bool) -> RunConfig {
    RunConfig {
        max_sequences: 3,
        intervals_per_sequence: 1,
        steps_per_interval: 2,
        convergence_wait: 10,
        simulation_step: 1,
        early_return,
    }
}

fn sequence() -> Sequence {
    Sequence {
        intervals: vec![
            vec![(1, external(9, 0, Some(vec![4, 5]))), (2, external(9, 1, None))],
            vec![(3, external(9, 1, Some(vec![4])))],
            vec![(4, SimulationEvent::Reconfiguration)],
        ],
    }
}

#[test]
fn sequences_are_filtered_by_prefix() {
    let kept = sequence().filter_prefixes(&numbers(&[0]));
    // The interval that has become empty is gone. The reconfiguration is kept.
    assert_eq!(kept.intervals.iter().map(|i| i.len()).collect::<Vec<_>>(), vec![1, 1]);
    assert_eq!(kept.intervals[0][0].0, 1);
    assert!(matches!(kept.intervals[1][0].1, SimulationEvent::Reconfiguration));
}

#[test]
fn filtering_sequences_twice_is_filtering_once() {
    let flat = |s: &Sequence| -> Vec<Vec<(i64, Option<u32>)>> {
        s.intervals
            .iter()
            .map(|i| {
                i.iter()
                    .map(|(t, e)| match e {
                        SimulationEvent::External(e) => (*t, Some(e.prefix)),
                        SimulationEvent::Reconfiguration => (*t, None),
                    })
                    .collect()
            })
            .collect()
    };
    let once = sequence().filter_prefixes(&numbers(&[1]));
    assert_eq!(flat(&once), vec![vec![(2, Some(1))], vec![(3, Some(1))], vec![(4, None)]]);
    let expected = flat(&once);
    assert_eq!(flat(&once.filter_prefixes(&numbers(&[1]))), expected);
}

fn diffs(list: &[(u32, u32, bool)]) -> TablesDiff {
    let mut r: TablesDiff = Keyed::new();
    for (router, prefix, equal) in list {
        let mut d = Keyed::new();
        d.insert(*prefix, *equal);
        r.insert(*router, d);
    }
    r
}

#[test]
fn runs_end_after_their_sequences() {
    let mut run = Run::new(&run_config(false), numbers(&[0, 1]));
    let diff = diffs(&[(1, 0, false)]);
    for i in 0..3 {
        assert!(run.is_running());
        assert_eq!(run.progress, i);
        run.complete_sequence(&diff);
    }
    assert!(!run.is_running());
    assert_eq!(run.monitoring_prefixes.items, vec![0, 1]);
}

#[test]
fn runs_return_early_once_all_prefixes_differ() {
    assert_eq!(unequal_prefixes(&diffs(&[(1, 0, false), (2, 1, true)])).items, vec![0]);
    let mut run = Run::new(&run_config(true), numbers(&[0, 1]));
    run.complete_sequence(&diffs(&[(1, 0, false), (2, 1, true)]));
    assert!(run.is_running());
    assert_eq!(run.monitoring_prefixes.items, vec![1]);
    run.complete_sequence(&diffs(&[(1, 1, false)]));
    assert!(!run.is_running());
    assert_eq!(run.progress, 3);
    assert_eq!(run.completed, 2);
}

#[test]
fn failed_runs_are_over() {
    let mut run = Run::new(&run_config(false), numbers(&[0]));
    run.fail();
    assert!(!run.is_running());
    assert_eq!(run.progress, 3);
}

#[test]
fn events_become_actions() {
    match action_for(&external(9, 2, Some(vec![4, 5])), &None) {
        Action::Advertise { router, prefix, path } => {
            assert_eq!((router, prefix, path), (9, 2, vec![4, 5]))
        }
        _ => unreachable!(),
    }
    assert!(matches!(
        action_for(&external(9, 2, None), &None),
        Action::Withdraw { router: 9, prefix: 2 }
    ));
    let whitelist = Some(PreConfig::Whitelist { prefix: 0, router: 3 });
    assert!(matches!(
        action_for(&SimulationEvent::Reconfiguration, &whitelist),
        Action::FlipPrefixList { router: 3 }
    ));
    assert!(matches!(action_for(&SimulationEvent::Reconfiguration, &None), Action::Ignore));
}

#[test]
fn monitors_allow_twice_the_timer() {
    assert_eq!(controller_mrai(None), None);
    assert_eq!(controller_mrai(Some(5)), Some(10 * TICKS_PER_SECOND));
}

fn devices() -> Vec<Device> {
    vec![
        Device { router_id: 1, name: "R1".to_string(), internal: true },
        Device { router_id: 2, name: "Monitor".to_string(), internal: true },
        Device { router_id: 9, name: "E".to_string(), internal: false },
    ]
}

#[test]
fn only_internal_routers_are_observed() {
    assert_eq!(observed_routers(&devices()).items, vec![1]);
    let pcaps = vec![
        ((9, 1), vec![update(2, 9, 1, 0, None), update(3, 9, 1, 5, None)]),
        ((1, 2), vec![update(4, 1, 2, 0, None)]),
    ];
    let recording = record_sequence(pcaps, &devices(), &numbers(&[0]));
    assert!(!recording.sequences.contains(5));
    let routers = recording.sequences.get(0).unwrap();
    assert!(!routers.contains(2));
    assert!(!routers.contains(9));
    assert_eq!(routers.get(1).unwrap().len(), 2);
}

fn entry(from: RouterId, to: Option<RouterId>, local_pref: Option<u32>) -> BgpRibEntry {
    BgpRibEntry {
        route: route(0, local_pref),
        from_type: BgpSessionType::EBgp,
        from_id: from,
        to_id: to,
        igp_cost: 0,
        weight: 100,
    }
}

// Router 1 gets a route from router 9. It must send the route on to router 2.
fn received() -> Message {
    let mut outgoing_routes = Keyed::new();
    outgoing_routes.insert(2, entry(9, Some(2), Some(100)));
    Message {
        event: Event::Bgp { p: 1, src: 9, dst: 1, e: BgpEvent::Update(route(0, None)) },
        import: ImportedRoute { rib_entry: Some(entry(9, None, Some(100))), outgoing_routes },
    }
}

fn conclude(sent: Option<u32>) -> SequenceResult {
    let arena = MonitorArena::new();
    let router = Router { router_id: 1, sessions: vec![2, 9], rib_in: vec![] };
    let mut controller = Controller::new_for_prefixes(&vec![router], &numbers(&[0]), &arena);
    let pcaps = vec![
        ((9, 1), vec![received()]),
        ((1, 2), vec![update(2, 1, 2, 0, sent)]),
    ];
    let recording = record_sequence(pcaps, &devices(), &numbers(&[0]));
    conclude_sequence(
        &mut controller,
        0,
        10,
        sequence(),
        numbers(&[0, 1]),
        recording,
        diffs(&[(1, 0, false), (2, 1, true)]),
        Some(vec![BugReport { timestamp: 1, router: 1, prefix: 0 }]),
    )
}

#[test]
fn correct_sequences_have_no_errors() {
    let r = conclude(Some(100));
    assert_eq!((r.start, r.finish), (0, 10));
    let summary = SequenceResultSummary::from((4, 7, 0, &r));
    assert_eq!(
        summary,
        SequenceResultSummary {
            run: 4,
            prefix: 0,
            sequence: 7,
            simulated_events: 2,
            monitoring_errors: 0,
            selected_diff: 1,
            tables_diff: 1,
            bug_reports: Some(1),
        }
    );
    let other = SequenceResultSummary::from((4, 7, 1, &r));
    assert_eq!(other.simulated_events, 3);
    assert_eq!((other.selected_diff, other.tables_diff), (0, 1));
    assert_eq!(other.bug_reports, Some(0));
    assert_eq!(
        run::completion_message(4, &vec![r]),
        "Completed run 4. Always equal BGP tables: false | Total monitoring errors: 0"
    );
}

#[test]
fn wrong_sequences_are_detected() {
    let r = conclude(Some(70));
    let summary = SequenceResultSummary::from((0, 0, 0, &r));
    assert_eq!(summary.monitoring_errors, 1);
}

// Experiments.

fn experiment(pre_config: Option<PreConfig>) -> ExperimentConfig {
    ExperimentConfig {
        seed: 40,
        runs: 2,
        run_config: run_config(false),
        network_config: BaselineNetworkConfig { n_external: 4, with_monitor_speaker: false },
        gns3_config: Gns3Config { router_templates: Keyed::new(), pre_config, post_config: None },
        external_prefixes: vec![0, 1],
        monitoring_prefixes: numbers(&[0]),
        monitoring_mrai: None,
    }
}

#[test]
fn experiments_have_runs_of_sequences() {
    assert_eq!(num_sequences(2, &run_config(false)), 6);
    let routers = || keyed(vec![(9, 65009)]);
    let gen = generator_for_run(&experiment(None), 2, routers());
    assert_eq!(gen.prefixes, vec![0, 1]);
    assert!(!gen.reconfig);
    let whitelist = Some(PreConfig::Whitelist { prefix: 0, router: 3 });
    let mut a = generator_for_run(&experiment(whitelist), 2, routers());
    assert!(a.reconfig);
    // The same run gives the same events.
    let mut b = generator_for_run(&experiment(whitelist), 2, routers());
    for _ in 0..50 {
        let (x, y) = (a.next().unwrap(), b.next().unwrap());
        assert_eq!(format!("{:?}", x), format!("{:?}", y));
    }
}

#[test]
fn each_run_has_its_own_seed() {
    let routers = || keyed(vec![(8, 65008), (9, 65009)]);
    let config = experiment(None);
    let steps = |mut gen: UniformEventGenerator| -> Vec<String> {
        (0..50).map(|_| format!("{:?}", gen.next().unwrap())).collect()
    };
    for number in 0..4 {
        let rng = StdRng::seed_from_u64(config.seed + number as u64);
        let expected = UniformEventGenerator::new(rng, routers(), vec![0, 1], false);
        let gen = generator_for_run(&config, number, routers());
        assert_eq!(steps(gen), steps(expected));
    }
    let (a, b) = (generator_for_run(&config, 0, routers()), generator_for_run(&config, 1, routers()));
    assert_ne!(steps(a), steps(b));
}

#[test]
fn results_are_found_under_their_names() {
    assert_eq!(log_name(3), "run_3.log");
    assert_eq!(results_name(3), "run_3.json");
    for n in [0, 7, 10, 12345] {
        assert_eq!(parse_run_number(&results_name(n)), Some(n));
    }
    assert_eq!(parse_run_number("run_3.log"), None);
    assert_eq!(parse_run_number("run_x.json"), None);
    assert_eq!(parse_run_number("3.json"), None);
    assert_eq!(testbed::completion_message(1, 2), "Completed 1 successful runs out of 2");
}

#[test]
fn runs_are_selected_by_number() {
    let names: Vec<String> =
        ["run_0.json", "run_0.log", "run_2.json", "run_02.json"].iter().map(|s| s.to_string()).collect();
    assert_eq!(select_runs(&names, &None), vec![(0, 0), (2, 3)]);
    assert_eq!(select_runs(&names, &Some(vec![2])), vec![(2, 3)]);
    assert_eq!(select_runs(&names, &Some(vec![5])), vec![]);
}

#[test]
fn the_last_name_is_the_most_recent() {
    let names: Vec<String> =
        ["2024-01-01", "2025-06-01", "2025-05-30"].iter().map(|s| s.to_string()).collect();
    assert_eq!(most_recent(&names), Some(1));
    assert_eq!(most_recent(&vec![]), None);
}

#[test]
fn runs_are_summarized_by_prefix() {
    let rows = summarize_run(5, &vec![conclude(Some(100)), conclude(Some(70))]);
    let keys: Vec<_> = rows.iter().map(|r| (r.prefix, r.sequence, r.monitoring_errors)).collect();
    assert_eq!(keys, vec![(0, 0, 0), (0, 1, 1), (1, 0, 0), (1, 1, 0)]);
    assert!(rows.iter().all(|r| r.run == 5));
}

#[test]
fn the_test_network() {
    assert_eq!(border_routers(), vec![0, 2, 3, 8]);
    assert_eq!(route_reflectors(), vec![1, 2]);
    assert_eq!(
        peer_types(&numbers(&[14, 11, 12, 13, 15])),
        vec![
            (11, PeerType::Customer),
            (12, PeerType::Peer),
            (13, PeerType::Peer),
            (14, PeerType::Provider),
        ]
    );
}

#[test]
fn speakers_are_silent_clients() {
    let plan = plan_monitor_speaker(7, &vec![1, 2]);
    assert_eq!(plan.link, (7, 1));
    assert_eq!(
        plan.sessions,
        vec![(1, 7, BgpSessionType::IBgpClient), (2, 7, BgpSessionType::IBgpClient)]
    );
    for (from, _, item) in plan.route_maps {
        assert_eq!(from, 7);
        assert!(!item.allow);
        assert!(item.conds.is_empty());
    }
}

#[test]
fn exactly_one_prefix_is_sacrificed() {
    assert!(check_sacrificial(&vec![0, 1], &numbers(&[1]), 0));
    assert!(!check_sacrificial(&vec![0, 1], &numbers(&[0, 1]), 0));
    assert!(!check_sacrificial(&vec![0, 1, 2], &numbers(&[1]), 0));
    assert!(!check_sacrificial(&vec![0, 1], &numbers(&[1]), 1));
}
