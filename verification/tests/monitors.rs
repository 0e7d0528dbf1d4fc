use ghostbuster::arena::MonitorArena;
use ghostbuster::bgp::{
    BgpEvent, BgpRibEntry, BgpRoute, BgpSessionType, CommunitySet, Event, RouterId, Time,
    TICKS_PER_SECOND,
};
use ghostbuster::forking_monitor::ProcessWithdraws;
use ghostbuster::import::{ImportedRoute, Message, Router};
use ghostbuster::keyed::Keyed;
use ghostbuster::monitoring::MonitoringError;
use ghostbuster::reordering_monitoring::ReorderingMonitor;
use ghostbuster::trace_test::test_trace;

// The router, and its external neighbors.
const R: RouterId = 0;
const A: RouterId = 1;
const B: RouterId = 2;
const C: RouterId = 3;

fn route(as_path: &[u32], next_hop: RouterId) -> BgpRoute {
    BgpRoute {
        prefix: 0,
        as_path: as_path.to_vec(),
        next_hop,
        local_pref: None,
        med: None,
        community: CommunitySet::new(),
        originator_id: None,
        cluster_list: vec![],
    }
}

fn path_of(from: RouterId) -> Vec<u32> {
    match from {
        A => vec![1, 1, 1],
        B => vec![2, 2],
        _ => vec![3],
    }
}

fn exported(from: RouterId) -> BgpRoute {
    let mut as_path = path_of(from);
    as_path.insert(0, 10);
    route(&as_path, R)
}

fn entry(route: BgpRoute, from: RouterId, to: Option<RouterId>) -> BgpRibEntry {
    BgpRibEntry {
        route,
        from_type: BgpSessionType::EBgp,
        from_id: from,
        to_id: to,
        igp_cost: 0,
        weight: 100,
    }
}

// What the router makes of a route: it is sent on to everyone, unless it goes through a denied AS.
fn import(from: RouterId, denied: Option<u32>) -> ImportedRoute {
    let mut incoming = route(&path_of(from), from);
    incoming.local_pref = Some(100);
    incoming.med = Some(0);
    let mut outgoing_routes = Keyed::new();
    if !denied.is_some_and(|x| path_of(from).contains(&x)) {
        for n in [A, B, C] {
            outgoing_routes.insert(n, entry(exported(from), from, Some(n)));
        }
    }
    ImportedRoute { rib_entry: Some(entry(incoming, from, None)), outgoing_routes }
}

fn seconds(t: f64) -> Time {
    (t * TICKS_PER_SECOND as f64).round() as Time
}

#[derive(Clone, Copy)]
enum Step {
    // The neighbor announces its route, or withdraws it.
    In(RouterId, bool),
    // The router sends a neighbor the route of another one, or a withdraw.
    Out(RouterId, Option<RouterId>),
}

use Step::{In, Out};

impl Step {
    fn message(self, time: f64, denied: Option<u32>) -> Message {
        let p = seconds(time);
        match self {
            In(n, true) => Message {
                event: Event::Bgp {
                    p,
                    src: n,
                    dst: R,
                    e: BgpEvent::Update(route(&path_of(n), n)),
                },
                import: import(n, denied),
            },
            In(n, false) => Message {
                event: Event::Bgp { p, src: n, dst: R, e: BgpEvent::Withdraw(0) },
                import: ImportedRoute::rejected(),
            },
            Out(n, Some(x)) => Message {
                event: Event::Bgp { p, src: R, dst: n, e: BgpEvent::Update(exported(x)) },
                import: ImportedRoute::rejected(),
            },
            Out(n, None) => Message {
                event: Event::Bgp { p, src: R, dst: n, e: BgpEvent::Withdraw(0) },
                import: ImportedRoute::rejected(),
            },
        }
    }
}

fn empty_router() -> Router {
    Router { router_id: R, sessions: vec![A, B, C], rib_in: vec![] }
}

fn num_forks(mon: &ReorderingMonitor, n: RouterId) -> usize {
    mon.per_session.get(n).unwrap().forks.len()
}

type Line = (Step, f64, Option<f64>, (usize, usize, usize));

fn sequence(
    seq: &[Line],
    denied: Option<u32>,
    last_msg_correct: bool,
    last_timeout_correct: bool,
    final_state_correct: bool,
    is_serializable: bool,
) {
    let arena = MonitorArena::new();
    let mut mon = ReorderingMonitor::new(empty_router(), &arena);
    for (i, (step, time, timeout, (a_forks, b_forks, c_forks))) in seq.iter().enumerate() {
        let last = i + 1 == seq.len();
        let result = mon.process_message(step.message(*time, denied));
        if last && !last_msg_correct {
            assert!(result.is_err());
            return;
        }
        assert!(result.is_ok(), "message {}", i);
        assert_eq!(num_forks(&mon, A), *a_forks, "message {}", i);
        assert_eq!(num_forks(&mon, B), *b_forks, "message {}", i);
        assert_eq!(num_forks(&mon, C), *c_forks, "message {}", i);
        if let Some(time) = timeout {
            let result = mon.assert_messages_processed_before(seconds(*time));
            if last && !last_timeout_correct {
                assert!(result.is_err());
                return;
            }
            assert!(result.is_ok());
        }
    }
    let result = mon.final_check();
    if !final_state_correct {
        assert!(result.is_err());
        return;
    }
    assert!(result.is_ok());
    assert_eq!(mon.check_incoming_serializability().is_ok(), is_serializable);
}

#[test]
fn single_reply_all() {
    sequence(
        &[
            (In(A, true), 0.0, None, (1, 1, 1)),
            (In(B, true), 1.0, None, (1, 1, 1)),
            (In(C, true), 2.0, None, (1, 1, 1)),
            (In(C, false), 3.0, None, (1, 1, 1)),
            (In(B, false), 4.0, None, (1, 1, 1)),
            (Out(A, Some(A)), 5.0, None, (1, 1, 1)),
            (Out(A, Some(B)), 6.0, None, (1, 1, 1)),
            (Out(A, Some(C)), 7.0, None, (1, 1, 1)),
            (Out(A, Some(B)), 8.0, None, (1, 1, 1)),
            (Out(A, Some(A)), 9.0, None, (1, 1, 1)),
            (Out(B, Some(A)), 10.0, None, (1, 1, 1)),
            (Out(C, Some(A)), 10.0, None, (1, 1, 1)),
        ],
        None,
        true,
        true,
        true,
        true,
    );
}

#[test]
fn single_reply_last() {
    sequence(
        &[
            (In(A, true), 0.0, None, (1, 1, 1)),
            (In(B, true), 1.0, None, (1, 1, 1)),
            (In(C, true), 2.0, None, (1, 1, 1)),
            (In(C, false), 3.0, None, (1, 1, 1)),
            (In(B, false), 4.0, None, (1, 1, 1)),
            (Out(A, Some(A)), 5.0, None, (1, 1, 1)),
            (Out(B, Some(A)), 10.0, None, (1, 1, 1)),
            (Out(C, Some(A)), 10.0, None, (1, 1, 1)),
        ],
        None,
        true,
        true,
        true,
        true,
    );
}

#[test]
fn two_reply_inconsistent_order() {
    sequence(
        &[
            (In(A, true), 0.0, None, (1, 1, 1)),
            (In(B, true), 1.0, None, (1, 1, 1)),
            (In(C, true), 2.0, None, (1, 1, 1)),
            (In(C, false), 3.0, None, (1, 1, 1)),
            (In(B, false), 4.0, None, (1, 1, 1)),
            (Out(A, Some(A)), 5.0, None, (1, 1, 1)),
            (Out(B, Some(B)), 5.0, None, (1, 1, 1)),
            (Out(A, Some(B)), 6.0, None, (1, 1, 1)),
            (Out(B, None), 6.0, None, (1, 1, 1)),
            (Out(A, Some(C)), 7.0, None, (1, 1, 1)),
            (Out(B, Some(C)), 7.0, None, (1, 1, 1)),
            (Out(A, Some(B)), 8.0, None, (1, 1, 1)),
            (Out(B, None), 8.0, None, (1, 1, 1)),
            (Out(A, Some(A)), 9.0, None, (1, 1, 1)),
            (Out(B, Some(A)), 9.0, None, (1, 1, 1)),
            (Out(C, Some(A)), 10.0, None, (1, 1, 1)),
        ],
        None,
        true,
        true,
        true,
        false,
    );
}

#[test]
fn invalid_message() {
    sequence(
        &[
            (In(A, true), 0.0, None, (1, 1, 1)),
            (In(B, true), 1.0, None, (1, 1, 1)),
            (In(C, true), 2.0, None, (1, 1, 1)),
            (In(C, false), 3.0, None, (1, 1, 1)),
            (In(B, false), 4.0, None, (1, 1, 1)),
            (Out(A, Some(C)), 5.0, None, (1, 1, 1)),
            (Out(A, Some(B)), 6.0, None, (1, 1, 1)),
            (Out(A, Some(C)), 7.0, None, (1, 1, 1)),
        ],
        None,
        false,
        true,
        true,
        true,
    );
}

#[test]
fn invalid_final_state() {
    sequence(
        &[
            (In(A, true), 0.0, None, (1, 1, 1)),
            (In(B, true), 1.0, None, (1, 1, 1)),
            (In(C, true), 2.0, None, (1, 1, 1)),
            (In(C, false), 3.0, None, (1, 1, 1)),
            (In(B, false), 4.0, None, (1, 1, 1)),
            (Out(A, Some(A)), 5.0, None, (1, 1, 1)),
            (Out(A, Some(B)), 6.0, None, (1, 1, 1)),
            (Out(A, Some(C)), 7.0, None, (1, 1, 1)),
            (Out(A, Some(B)), 8.0, None, (1, 1, 1)),
            (Out(B, Some(A)), 10.0, None, (1, 1, 1)),
            (Out(C, Some(A)), 10.0, None, (1, 1, 1)),
        ],
        None,
        true,
        true,
        false,
        true,
    );
}

fn without_final_state() -> Vec<(Step, f64)> {
    vec![
        (In(A, true), 0.0),
        (In(B, true), 1.0),
        (In(C, true), 2.0),
        (In(C, false), 3.0),
        (In(B, false), 4.0),
        (Out(A, Some(A)), 5.0),
        (Out(A, Some(B)), 6.0),
        (Out(A, Some(C)), 7.0),
        (Out(A, Some(B)), 8.0),
        (Out(B, Some(A)), 10.0),
        (Out(C, Some(A)), 10.0),
    ]
}

#[test]
fn reuse_after_failed_final_check() {
    let arena = MonitorArena::new();
    let mut mon = ReorderingMonitor::new(empty_router(), &arena);
    for (step, time) in without_final_state() {
        assert!(mon.process_message(step.message(time, None)).is_ok());
    }
    assert!(mon.final_check().is_err());
    for (neighbor, per_session) in mon.per_session.entries.iter() {
        assert!(
            !per_session.forks.is_empty(),
            "session to {} was left without forks after a failed final check",
            neighbor
        );
    }
    assert!(mon.assert_messages_processed_before(seconds(11.0)).is_ok());
    assert!(mon.final_check().is_ok());
}

#[test]
fn a_second_final_check_is_fine() {
    let arena = MonitorArena::new();
    let mut mon = ReorderingMonitor::new(empty_router(), &arena);
    for (step, time) in without_final_state() {
        assert!(mon.process_message(step.message(time, None)).is_ok());
    }
    assert!(mon.final_check().is_err());
    assert!(mon.final_check().is_ok());
    assert!(mon.final_check().is_ok());
}

#[test]
fn forking() {
    sequence(
        &[
            (In(A, true), 0.0, None, (1, 1, 1)),
            (In(A, false), 0.1, None, (1, 1, 1)),
            (In(A, true), 0.2, None, (1, 1, 1)),
            (In(B, true), 1.0, None, (1, 1, 1)),
            (In(B, false), 1.1, None, (1, 1, 1)),
            (In(C, true), 2.0, None, (1, 1, 1)),
            (In(C, false), 2.1, None, (1, 1, 1)),
            (Out(A, Some(A)), 3.0, None, (1, 1, 1)),
            (Out(A, None), 3.1, None, (2, 1, 1)),
            (Out(A, Some(B)), 3.2, None, (2, 1, 1)),
            (Out(A, Some(A)), 3.3, None, (2, 1, 1)),
            (Out(A, None), 3.4, None, (2, 1, 1)),
            (Out(A, Some(A)), 3.5, None, (1, 1, 1)),
            (Out(B, Some(A)), 4.0, None, (1, 1, 1)),
            (Out(B, None), 4.1, None, (1, 2, 1)),
            (Out(B, Some(A)), 4.2, None, (1, 2, 1)),
            (Out(B, Some(B)), 4.3, None, (1, 2, 1)),
            (Out(B, None), 4.4, None, (1, 2, 1)),
            (Out(B, Some(A)), 4.5, None, (1, 1, 1)),
            (Out(C, Some(A)), 10.0, None, (1, 1, 1)),
        ],
        Some(3),
        true,
        true,
        true,
        false,
    );
}

#[test]
fn time_dependent() {
    sequence(
        &[
            (In(A, true), 0.0, None, (1, 1, 1)),
            (In(B, true), 0.0, None, (1, 1, 1)),
            (In(C, true), 0.0, None, (1, 1, 1)),
            (In(C, false), 1.0, None, (1, 1, 1)),
            (In(B, false), 1.0, None, (1, 1, 1)),
            (Out(A, Some(C)), 2.0, None, (1, 1, 1)),
            (Out(A, None), 2.0, Some(0.5), (1, 1, 1)),
        ],
        None,
        true,
        false,
        true,
        true,
    );
}

#[test]
fn unexpected_message_is_named() {
    let arena = MonitorArena::new();
    let mut mon = ReorderingMonitor::new(empty_router(), &arena);
    let result = mon.process_message(Out(A, Some(B)).message(1.0, None));
    assert!(matches!(
        result,
        Err(MonitoringError::UnexpectedEvent { router: R, session: A, .. })
    ));
}

#[test]
fn missing_message_is_named() {
    let arena = MonitorArena::new();
    let mut mon = ReorderingMonitor::new(empty_router(), &arena);
    assert!(mon.process_message(In(A, true).message(0.0, None)).is_ok());
    assert!(matches!(
        mon.final_check(),
        Err(MonitoringError::MissingOutgoingEvent { router: R, .. })
    ));
}

#[test]
fn contradicting_orders_are_named() {
    let arena = MonitorArena::new();
    let mut mon = ReorderingMonitor::new(empty_router(), &arena);
    for (step, time) in [
        (In(A, true), 0.0),
        (In(B, true), 1.0),
        (Out(A, Some(A)), 2.0),
        (Out(A, Some(B)), 3.0),
        (Out(B, Some(B)), 4.0),
        (Out(C, Some(B)), 4.0),
    ] {
        assert!(mon.process_message(step.message(time, None)).is_ok());
    }
    assert!(mon.final_check().is_ok());
    assert!(mon.check_incoming_serializability().is_ok());
}

fn trace(steps: &[(Step, f64)]) -> Vec<Message> {
    steps.iter().map(|(s, t)| s.message(*t, None)).collect()
}

#[test]
fn ingesting_stops_at_the_first_error() {
    let arena = MonitorArena::new();
    let mut mon = ReorderingMonitor::new(empty_router(), &arena);
    let messages = trace(&[(In(A, true), 0.0), (Out(A, Some(B)), 1.0), (Out(A, Some(C)), 2.0)]);
    let result = mon.ingest_message_sequence(messages, None);
    match result {
        Err(MonitoringError::UnexpectedEvent { event: BgpEvent::Update(route), .. }) => {
            assert_eq!(route.as_path, vec![10, 2, 2]);
        }
        _ => panic!("the wrong result"),
    }
}

#[test]
fn correct_trace_is_accepted() {
    let arena = MonitorArena::new();
    let mut mon = ReorderingMonitor::new(empty_router(), &arena);
    let steps = [
        (In(A, true), 0.0),
        (In(B, true), 1.0),
        (Out(A, Some(B)), 2.0),
        (Out(B, Some(B)), 2.0),
        (Out(C, Some(B)), 2.0),
    ];
    let outcome = test_trace(&mut mon, trace(&steps), None);
    assert!(outcome.ok);
    assert!(!outcome.killed);
    assert_eq!(outcome.max_forks, 1);
}

#[test]
fn trace_without_final_state_is_rejected() {
    let arena = MonitorArena::new();
    let mut mon = ReorderingMonitor::new(empty_router(), &arena);
    let outcome = test_trace(&mut mon, trace(&without_final_state()), None);
    assert!(!outcome.ok);
    assert!(!outcome.killed);
}

#[test]
fn slow_trace_is_rejected_when_time_is_short() {
    let steps = [(In(A, true), 0.0), (Out(B, Some(A)), 5.0), (Out(A, Some(A)), 9.0), (Out(C, Some(A)), 9.0)];
    let arena = MonitorArena::new();
    let mut mon = ReorderingMonitor::new(empty_router(), &arena);
    assert!(test_trace(&mut mon, trace(&steps), None).ok);
    let arena = MonitorArena::new();
    let mut mon = ReorderingMonitor::new(empty_router(), &arena);
    assert!(!test_trace(&mut mon, trace(&steps), Some(seconds(1.0))).ok);
}

#[test]
fn forks_are_counted() {
    let steps = [
        (In(A, true), 0.0),
        (In(A, false), 0.1),
        (In(A, true), 0.2),
        (In(B, true), 1.0),
        (In(B, false), 1.1),
        (In(C, true), 2.0),
        (In(C, false), 2.1),
        (Out(A, Some(A)), 3.0),
        (Out(A, None), 3.1),
        (Out(A, Some(B)), 3.2),
        (Out(A, Some(A)), 3.3),
    ];
    let arena = MonitorArena::new();
    let mut mon = ReorderingMonitor::new(empty_router(), &arena);
    let messages = steps.iter().map(|(s, t)| s.message(*t, Some(3))).collect();
    assert_eq!(test_trace(&mut mon, messages, None).max_forks, 2);
}

#[test]
fn modes_depend_on_the_number_of_forks() {
    assert!(!ProcessWithdraws::Always.should_disable(1000));
    assert!(ProcessWithdraws::Never.should_disable(1));
    assert!(ProcessWithdraws::Adaptive.should_disable(129));
    assert!(!ProcessWithdraws::Adaptive.should_disable(128));
    assert!(ProcessWithdraws::Adaptive.should_enable(8));
    assert!(!ProcessWithdraws::Adaptive.should_enable(9));
    assert!(!ProcessWithdraws::Never.should_enable(1));
    let arena = MonitorArena::new();
    let mut mon = ReorderingMonitor::new(empty_router(), &arena);
    assert!(mon.set_process_withdraw_mode(ProcessWithdraws::Never).is_ok());
    assert_eq!(mon.router_id(), R);
    assert_eq!(mon.max_num_active_forks(), 1);
}

#[test]
fn monitors_start_from_the_routes_of_the_router() {
    let arena = MonitorArena::new();
    let router = Router { router_id: R, sessions: vec![A, B, C], rib_in: vec![import(A, None)] };
    let mut mon = ReorderingMonitor::new_for_prefix(router, 0, &arena);
    // The withdraw of the only route makes the router withdraw it everywhere.
    for (step, time) in
        [(In(A, false), 0.0), (Out(A, None), 1.0), (Out(B, None), 1.0), (Out(C, None), 1.0)]
    {
        assert!(mon.process_message(step.message(time, None)).is_ok());
    }
    assert!(mon.final_check().is_ok());
}
