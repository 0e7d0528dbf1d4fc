use ghostbuster::bgp::{BgpEvent, BgpRoute, BgpSessionType, CommunitySet, Event, RouterId};
use ghostbuster::failure::{Failure, FailureSetBuilder, Locality, RouterInfo};
use ghostbuster::keyed::Keyed;
use ghostbuster::route_map::{RouteMap, RouteMapMatch, RouteMapSet};
use ghostbuster::text::Names;
use BgpSessionType::{EBgp, IBgpClient, IBgpPeer};

fn get_event(src: u32, dst: u32, e: BgpEvent) -> Event<()> {
    Event::Bgp { p: (), src, dst, e }
}

fn communities(items: &[u32]) -> CommunitySet {
    let mut set = CommunitySet::new();
    for x in items {
        set.insert(*x);
    }
    set
}

fn get_default_route() -> BgpRoute {
    BgpRoute {
        prefix: 0,
        as_path: vec![1, 2, 3],
        next_hop: 0,
        local_pref: Some(100),
        med: None,
        community: communities(&[1, 2, 3]),
        originator_id: None,
        cluster_list: vec![],
    }
}

fn ospf() -> Event<()> {
    Event::Ospf { p: (), src: 0, dst: 1 }
}

fn update() -> Event<()> {
    get_event(0, 1, BgpEvent::Update(get_default_route()))
}

fn withdraw() -> Event<()> {
    get_event(0, 1, BgpEvent::Withdraw(0))
}

fn same(a: &Option<Event<()>>, b: &Option<Event<()>>) -> bool {
    match (a, b) {
        (None, None) => true,
        (
            Some(Event::Bgp { src: s1, dst: d1, e: e1, .. }),
            Some(Event::Bgp { src: s2, dst: d2, e: e2, .. }),
        ) => s1 == s2 && d1 == d2 && e1.same(e2),
        (
            Some(Event::Ospf { src: s1, dst: d1, .. }),
            Some(Event::Ospf { src: s2, dst: d2, .. }),
        ) => s1 == s2 && d1 == d2,
        _ => false,
    }
}

fn check(failure: Failure, expected: Vec<Option<Event<()>>>, message: &str) {
    let events = vec![ospf(), update(), withdraw()];
    for (event, wanted) in events.into_iter().zip(expected) {
        assert!(same(&failure.apply(event), &wanted), "{}", message);
    }
}

#[test]
fn failure_filtering() {
    let route = || BgpEvent::Update(get_default_route());
    let test_events = |failure: Failure| -> Vec<bool> {
        let events = vec![
            get_event(0, 1, route()),
            get_event(0, 2, route()),
            get_event(1, 0, route()),
            get_event(1, 2, route()),
        ];
        events.iter().map(|e| failure.filter(e)).collect()
    };
    let loc_a_b: Locality = (Some(0), Some(1));
    let loc_a_x: Locality = (Some(0), None);
    let loc_x_a: Locality = (None, Some(0));
    assert_eq!(
        test_events(Failure::BGPDropUpdate(loc_a_b)),
        vec![true, false, false, false],
        "Session specific locality filtering failed"
    );
    assert_eq!(
        test_events(Failure::BGPDropUpdate(loc_a_x)),
        vec![true, true, false, false],
        "Router specific locality (outgoing) filtering failed"
    );
    assert_eq!(
        test_events(Failure::BGPDropUpdate(loc_x_a)),
        vec![false, false, true, false],
        "Router specific locality (incoming) filtering failed"
    );
}

#[test]
fn failure_application() {
    let loc: Locality = (Some(0), None);
    check(
        Failure::BGPDropUpdate(loc),
        vec![Some(ospf()), None, Some(withdraw())],
        "BGPDropUpdate failure application failed",
    );
    check(
        Failure::BGPDropWithdraw(loc),
        vec![Some(ospf()), Some(update()), None],
        "BGPDropWithdraw failure application failed",
    );
    check(
        Failure::BGPChangeLocalPref(loc, 200),
        vec![
            Some(ospf()),
            Some(get_event(
                0,
                1,
                BgpEvent::Update(BgpRoute { local_pref: Some(200), ..get_default_route() }),
            )),
            Some(withdraw()),
        ],
        "BGPChangeLocalPref failure application failed",
    );
    check(
        Failure::BGPChangeCommunity(loc, 3),
        vec![Some(ospf()), Some(update()), Some(withdraw())],
        "BGPChangeCommunity failure application (add) failed",
    );
    check(
        Failure::BGPChangeCommunity(loc, -3),
        vec![
            Some(ospf()),
            Some(get_event(
                0,
                1,
                BgpEvent::Update(BgpRoute { community: communities(&[1, 2]), ..get_default_route() }),
            )),
            Some(withdraw()),
        ],
        "BGPChangeCommunity failure application (remove) failed",
    );
}

#[test]
fn failures_leave_other_sessions_alone() {
    let failure = Failure::BGPDropUpdate((Some(7), None));
    assert!(same(&failure.apply(update()), &Some(update())));
    assert!(failure.matches_locality(7, 3));
    assert!(!failure.matches_locality(3, 7));
    assert_eq!(failure.get_locality(), (Some(7), None));
}

#[test]
fn failures_without_an_opposite_can_be_named_and_matched() {
    let failure = Failure::BGPChangeCommunity((Some(7), None), i32::MIN);
    assert!(failure.matches_locality(7, 3));
    assert!(!failure.filter(&update()));
    assert!(same(&failure.apply(update()), &Some(update())));
    // Only updates on its way are changed.
    let here = Failure::BGPChangeCommunity((Some(0), None), i32::MIN);
    assert!(here.filter(&withdraw()));
    assert!(same(&here.apply(withdraw()), &Some(withdraw())));
    assert!(same(&here.apply(ospf()), &Some(ospf())));
    assert_eq!(
        Failure::BGPChangeCommunity((Some(R), None), i32::MIN).fmt(&line_names()),
        "BGPChangeCommunity((Some(r), *), -2147483648)"
    );
}

// Routers e, b and r of a line.
const E: RouterId = 0;
const B: RouterId = 1;
const R: RouterId = 2;

fn line_names() -> Names {
    let mut names = Keyed::new();
    names.insert(E, "e".to_string());
    names.insert(B, "b".to_string());
    names.insert(R, "r".to_string());
    Names { names }
}

#[test]
fn failure_formatting() {
    let net = line_names();
    let (b, r) = (B, R);
    assert_eq!(
        Failure::BGPDropUpdate((None, Some(b))).fmt(&net),
        "BGPDropUpdate((*, Some(b)))"
    );
    assert_eq!(
        Failure::BGPDropWithdraw((Some(b), None)).fmt(&net),
        "BGPDropWithdraw((Some(b), *))"
    );
    assert_eq!(
        Failure::BGPChangeLocalPref((Some(b), Some(r)), 100).fmt(&net),
        "BGPChangeLocalPref((Some(b), Some(r)), 100)"
    );
    assert_eq!(
        Failure::BGPChangeCommunity((Some(r), Some(b)), 3).fmt(&net),
        "BGPChangeCommunity((Some(r), Some(b)), +3)"
    );
    assert_eq!(
        Failure::BGPChangeCommunity((Some(r), None), -3).fmt(&net),
        "BGPChangeCommunity((Some(r), *), -3)"
    );
}

#[test]
fn unknown_routers_are_question_marks() {
    assert_eq!(
        Failure::BGPDropUpdate((Some(9), None)).fmt(&line_names()),
        "BGPDropUpdate((Some(?), *))"
    );
}

#[test]
fn test_premature_intersperse() {
    let builder = FailureSetBuilder::new();
    assert_eq!(builder.get_all_relevant_local_preferences().len(), 0);
}

#[test]
fn test_local_pref_intersperse() {
    let mut builder = FailureSetBuilder::new();
    builder.local_preferences.insert(100);
    assert_eq!(builder.get_all_relevant_local_preferences(), vec![50, 100, 200]);
    builder.local_preferences.insert(200);
    builder.local_preferences.insert(300);
    assert_eq!(
        builder.get_all_relevant_local_preferences(),
        vec![50, 100, 150, 200, 250, 300, 600]
    );
}

fn info(router_id: RouterId, sessions: &[(RouterId, BgpSessionType)]) -> RouterInfo {
    RouterInfo {
        router_id,
        sessions: sessions.to_vec(),
        rib_entries: vec![],
        route_maps: vec![],
    }
}

fn all_distinct(localities: &[Locality]) -> bool {
    (0..localities.len()).all(|i| (0..i).all(|j| localities[i] != localities[j]))
}

fn none_centered_on(localities: &[Locality], externals: &[RouterId]) -> bool {
    localities.iter().all(|loc| match loc {
        (None, Some(r)) | (Some(r), None) => !externals.contains(r),
        _ => true,
    })
}

#[test]
fn check_locality_extraction() {
    // A long line: e - b - r.
    let mut builder = FailureSetBuilder::new();
    builder.ingest_network(vec![info(1, &[(0, EBgp), (2, IBgpPeer)]), info(2, &[(1, IBgpPeer)])]);
    let localities = builder.get_all_relevant_localities();
    assert_eq!(
        localities.len(),
        2 * 2 - 1 + (2 + 2),
        "The locality extraction did not work on the long line network"
    );
    assert!(all_distinct(&localities));
    assert!(none_centered_on(&localities, &[0]));

    // Two external routers 0 and 1 at border router 2, and router 3 behind it.
    let mut builder = FailureSetBuilder::new();
    builder.ingest_network(vec![
        info(2, &[(0, EBgp), (1, EBgp), (3, IBgpPeer)]),
        info(3, &[(2, IBgpPeer)]),
    ]);
    let localities = builder.get_all_relevant_localities();
    assert_eq!(
        localities.len(),
        (3 * 2) - 2 + (2 + 2),
        "The locality extraction did not work on the y network"
    );
    assert!(all_distinct(&localities));
    assert!(none_centered_on(&localities, &[0, 1]));
}

fn sets_local_pref(lp: u32) -> RouteMap {
    RouteMap {
        order: 10,
        allow: true,
        conds: vec![],
        set: vec![RouteMapSet::LocalPref(Some(lp))],
        exit: false,
    }
}

#[test]
fn test_e_network_failure_extraction() {
    // External routers 0, 1, 2 with border routers 3, 4, 5, and reflector 6.
    let mut routers = Vec::new();
    for (i, lp) in [200, 150, 100].into_iter().enumerate() {
        let mut router = info(3 + i as u32, &[(i as u32, EBgp), (6, IBgpPeer)]);
        router.route_maps = vec![sets_local_pref(lp)];
        routers.push(router);
    }
    routers.push(info(6, &[(3, IBgpClient), (4, IBgpClient), (5, IBgpClient)]));
    let mut builder = FailureSetBuilder::new();
    builder.ingest_network(routers);
    let failures = builder.build();
    let mut router_localities: Vec<Locality> = Vec::new();
    let mut session_localities: Vec<Locality> = Vec::new();
    for f in &failures {
        let loc = f.get_locality();
        let set = if loc.0.is_none() || loc.1.is_none() {
            &mut router_localities
        } else {
            &mut session_localities
        };
        if !set.contains(&loc) {
            set.push(loc);
        }
    }
    assert_eq!(router_localities.len(), 8);
    assert_eq!(session_localities.len(), 9);
    assert_eq!(failures.len(), (9 + 8) * (2 + 7));
}

#[test]
fn communities_of_route_maps_become_failures() {
    let mut router = info(1, &[(0, EBgp)]);
    router.route_maps = vec![RouteMap {
        order: 1,
        allow: true,
        conds: vec![RouteMapMatch::Community(7)],
        set: vec![RouteMapSet::SetCommunity(8), RouteMapSet::DelCommunity(9)],
        exit: false,
    }];
    let mut builder = FailureSetBuilder::new();
    builder.ingest_network(vec![router]);
    assert!(builder.communities.contains(7));
    let failures = builder.build();
    assert!(failures
        .iter()
        .any(|f| matches!(f, Failure::BGPChangeCommunity(_, 7))));
    assert!(failures
        .iter()
        .any(|f| matches!(f, Failure::BGPChangeCommunity(_, -7))));
}

#[test]
fn failures_of_a_message_come_once() {
    let mut builder = FailureSetBuilder::new();
    builder.ingest_network(vec![info(1, &[(2, IBgpPeer)]), info(2, &[(1, IBgpPeer)])]);
    let event = get_event(1, 2, BgpEvent::Withdraw(0));
    let failures = builder.build_from_event(&event).unwrap();
    assert!(failures.contains(&Failure::BGPDropUpdate((Some(1), Some(2)))));
    assert!(failures.iter().all(|f| {
        let loc = f.get_locality();
        loc == (Some(1), None) || loc == (None, Some(2)) || loc == (Some(1), Some(2))
    }));
    // The same session tells nothing new.
    assert!(builder.build_from_event(&event).unwrap().is_empty());
    assert!(builder.build_from_event(&Event::Ospf { p: (), src: 1, dst: 2 }).is_none());
}
