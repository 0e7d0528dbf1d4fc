use ghostbuster::bgp::{
    BgpEvent, BgpRoute, CommunitySet, Event, RouterId, Time, TICKS_PER_SECOND,
};
use ghostbuster::dispatch_queue::{advance_time, Agenda, DispatchQueue, NextQueueKey, QueueInit};
use ghostbuster::failure::Failure;
use ghostbuster::failure_queue::{BgpQueue, BgpSessionQueueInit, DebounceQueue};
use ghostbuster::geo_distances::{GeoDistance, Routing};
use ghostbuster::pairs::Pairs;
use ghostbuster::queue::{sort_events, EventQueue, TriggerId, TriggerQueue};
use ghostbuster::reordering_measurement::ReorderingQueue;
use ghostbuster::reordering_session::{
    Bug, FailureLocation, Failures, Monitor, Probability, RandomDebouncer, RandomQueue,
    ReorderingSessionQueueInit,
};
use ghostbuster::session_filter::{Capture, FilteredSessionQueue, SessionFilter};
use ghostbuster::session_queue::{
    later_than, DeterministicSessionQueue, Message, Poll, RandomizedFifoSessionQueue, SessionQueue,
    SessionQueueSequence,
};
use ghostbuster::sorting::sort_by_time;
use rand::rngs::StdRng;
use rand::SeedableRng;

fn route(local_pref: u32) -> BgpRoute {
    BgpRoute {
        prefix: 0,
        as_path: vec![1],
        next_hop: 1,
        local_pref: Some(local_pref),
        med: None,
        community: CommunitySet::new(),
        originator_id: None,
        cluster_list: vec![],
    }
}

fn update(local_pref: u32, t: Time) -> Message {
    Message { e: BgpEvent::Update(route(local_pref)), t }
}

fn withdraw(t: Time) -> Message {
    Message { e: BgpEvent::Withdraw(0), t }
}

fn local_pref(e: &BgpEvent) -> Option<u32> {
    match e {
        BgpEvent::Update(r) => r.local_pref,
        BgpEvent::Withdraw(_) => None,
    }
}

fn expect(poll: Poll) -> (Option<u32>, Time) {
    match poll {
        Poll::Msg(m) => (local_pref(&m.e), m.t),
        _ => panic!("no message"),
    }
}

#[test]
fn times_do_not_wrap_around() {
    assert_eq!(later_than(3, 4), 7);
    assert_eq!(later_than(i64::MAX, 1), i64::MAX);
    assert_eq!(later_than(i64::MIN, -1), i64::MIN);
}

#[test]
fn messages_become_events_and_back() {
    let event = withdraw(5).into_event(1, 2);
    assert!(matches!(event, Event::Bgp { p: 5, src: 1, dst: 2, e: BgpEvent::Withdraw(0) }));
    let message = Message::from_event(event);
    assert_eq!(message.t, 5);
}

#[test]
fn deterministic_queue_delays() {
    let mut clock = 0;
    let mut q = DeterministicSessionQueue::new(10);
    q.push(update(1, 5), &mut clock);
    q.push(update(2, 6), &mut clock);
    assert_eq!(q.next_t(), Some(15));
    assert_eq!(q.len(), 2);
    assert_eq!(expect(q.poll(&mut clock)), (Some(1), 15));
    assert_eq!(expect(q.poll(&mut clock)), (Some(2), 16));
    assert!(matches!(q.poll(&mut clock), Poll::Empty));
    q.push(update(3, 7), &mut clock);
    q.clear();
    assert_eq!(q.len(), 0);
    assert_eq!(q.next_t(), None);
}

#[test]
fn fifo_queue_keeps_the_order() {
    let mut clock = 0;
    let mut q = RandomizedFifoSessionQueue::new(0, 100);
    q.push_delayed(update(1, 0), 50);
    q.push_delayed(update(2, 1), 3);
    assert_eq!(expect(q.poll(&mut clock)), (Some(1), 50));
    assert_eq!(expect(q.poll(&mut clock)), (Some(2), 50));
    for i in 0..20 {
        q.push(update(i, i as Time), &mut clock);
    }
    let mut last = 0;
    for i in 0..20 {
        let (lp, t) = expect(q.poll(&mut clock));
        assert_eq!(lp, Some(i));
        assert!(t >= last && t >= i as Time);
        last = t;
    }
}

#[test]
fn queues_in_sequence_add_up() {
    let mut clock = 0;
    let mut q = SessionQueueSequence {
        a: DeterministicSessionQueue::new(10),
        b: DeterministicSessionQueue::new(100),
    };
    q.push(update(1, 0), &mut clock);
    assert_eq!(q.len(), 1);
    assert_eq!(q.next_t(), Some(10));
    assert!(matches!(q.poll(&mut clock), Poll::NotReadyYet(10)));
    assert_eq!(expect(q.poll(&mut clock)), (Some(1), 110));
}

#[test]
fn filters_act_before_and_after() {
    let mut clock = 0;
    let mut q = FilteredSessionQueue {
        pre: Failure::BGPDropWithdraw((None, None)),
        queue: DeterministicSessionQueue::new(1),
        post: (Capture { stream: vec![] }, Failure::BGPChangeLocalPref((None, None), 7)),
    };
    q.push(withdraw(0), &mut clock);
    assert_eq!(q.len(), 0);
    q.push(update(5, 2), &mut clock);
    assert_eq!(expect(q.poll(&mut clock)), (Some(7), 3));
    // The capture stands before the failure that changes the message.
    assert_eq!(q.post.0.stream.len(), 1);
    assert_eq!(local_pref(&q.post.0.stream[0].e), Some(5));
    q.clear();
    assert_eq!(q.post.0.stream.len(), 0);
}

#[test]
fn lists_of_filters_act_in_turn() {
    let mut clock = 0;
    let mut filters = vec![
        Failure::BGPChangeLocalPref((None, None), 1),
        Failure::BGPChangeLocalPref((None, None), 2),
    ];
    let out = filters.apply(update(9, 0), &mut clock).unwrap();
    assert_eq!(local_pref(&out.e), Some(2));
    let mut dropping = vec![Failure::BGPDropUpdate((None, None))];
    assert!(dropping.apply(update(9, 0), &mut clock).is_none());
    assert!(().apply(update(9, 0), &mut clock).is_some());
}

#[test]
fn debouncing_keeps_only_the_last_message() {
    let mut clock = 0;
    let mut q = DebounceQueue::new(10);
    q.push(update(1, 0), &mut clock);
    q.push(update(2, 5), &mut clock);
    assert_eq!(q.len(), 1);
    assert_eq!(expect(q.poll(&mut clock)), (Some(2), 15));
    // A repetition of the last message is not sent again.
    q.push(update(2, 20), &mut clock);
    assert_eq!(q.len(), 0);
    q.push(update(3, 20), &mut clock);
    assert_eq!(expect(q.poll(&mut clock)), (Some(3), 30));
}

#[test]
fn agenda_gives_the_earliest_time() {
    let mut agenda = Agenda::new();
    agenda.insert(5, NextQueueKey::Ospf);
    agenda.insert(3, NextQueueKey::Bgp(1, 2));
    assert!(matches!(agenda.pop_first(), Some((3, NextQueueKey::Bgp(1, 2)))));
    agenda.remove(5, NextQueueKey::Ospf);
    assert!(agenda.pop_first().is_none());
}

#[test]
fn agenda_keeps_all_that_is_due_at_the_same_time() {
    let mut agenda = Agenda::new();
    agenda.insert(5, NextQueueKey::Ospf);
    agenda.insert(5, NextQueueKey::Bgp(2, 1));
    agenda.insert(5, NextQueueKey::Bgp(1, 2));
    agenda.insert(5, NextQueueKey::Bgp(1, 2));
    agenda.insert(7, NextQueueKey::Bgp(0, 1));
    agenda.remove(7, NextQueueKey::Bgp(1, 2));
    assert_eq!(agenda.pop_first(), Some((5, NextQueueKey::Bgp(1, 2))));
    assert_eq!(agenda.pop_first(), Some((5, NextQueueKey::Bgp(2, 1))));
    assert_eq!(agenda.pop_first(), Some((5, NextQueueKey::Ospf)));
    assert_eq!(agenda.pop_first(), Some((7, NextQueueKey::Bgp(0, 1))));
    assert_eq!(agenda.pop_first(), None);
}

#[test]
fn time_only_advances() {
    let mut time = 7;
    advance_time(&mut time, 9, 9);
    assert_eq!(time, 9);
}

fn bgp_init(failures: Vec<Failure>) -> BgpSessionQueueInit {
    BgpSessionQueueInit::new(Pairs::new(), 1000, 0, 0, failures)
}

fn event(src: RouterId, dst: RouterId, lp: u32) -> Event<Time> {
    Event::Bgp { p: 0, src, dst, e: BgpEvent::Update(route(lp)) }
}

#[test]
fn dispatch_queue_delivers_what_was_pushed() {
    let mut q: BgpQueue = DispatchQueue::new(bgp_init(vec![]), 5);
    assert!(q.pop().is_none());
    q.push(event(1, 2, 10));
    q.push(Event::Ospf { p: 0, src: 3, dst: 4 });
    assert_eq!(q.len(), 2);
    assert!(matches!(q.pop(), Some(Event::Ospf { src: 3, dst: 4, .. })));
    assert_eq!(q.get_time(), Some(5));
    match q.pop() {
        Some(Event::Bgp { p, src: 1, dst: 2, e }) => {
            assert_eq!(local_pref(&e), Some(10));
            assert!(p >= 1000);
        }
        _ => panic!("the wrong event"),
    }
    assert!(q.pop().is_none());
    q.push(event(1, 2, 11));
    q.clear();
    assert_eq!(q.len(), 0);
}

#[test]
fn dispatch_queue_delivers_messages_that_are_due_at_the_same_time() {
    let mut q: BgpQueue = DispatchQueue::new(bgp_init(vec![]), 1000);
    q.push(event(3, 4, 30));
    q.push(event(1, 2, 10));
    q.push(Event::Ospf { p: 0, src: 5, dst: 6 });
    let mut seen = Vec::new();
    while let Some(e) = q.pop() {
        seen.push(match e {
            Event::Bgp { src, .. } => src,
            Event::Ospf { src, .. } => src,
        });
    }
    seen.sort();
    assert_eq!(seen, vec![1, 3, 5]);
    assert_eq!(q.len(), 0);
}

#[test]
fn dispatch_queue_applies_failures() {
    let mut q: BgpQueue =
        DispatchQueue::new(bgp_init(vec![Failure::BGPDropUpdate((Some(1), None))]), 5);
    q.push(event(1, 2, 10));
    q.push(event(2, 1, 20));
    let mut seen = Vec::new();
    while let Some(Event::Bgp { src, .. }) = q.pop() {
        seen.push(src);
    }
    assert_eq!(seen, vec![2]);
}

// Routers 1 - 2 - 3 in a line, on which packets follow the only path.
fn line_routing() -> Routing {
    let mut next_hops = Pairs::new();
    next_hops.insert((1, 2), vec![2]);
    next_hops.insert((1, 3), vec![2]);
    next_hops.insert((2, 1), vec![1]);
    next_hops.insert((2, 3), vec![3]);
    next_hops.insert((3, 1), vec![2]);
    next_hops.insert((3, 2), vec![2]);
    Routing { routers: vec![1, 2, 3], next_hops }
}

#[test]
fn distances_add_up_along_the_path() {
    let routing = line_routing();
    assert_eq!(routing.find_path(1, 3), Some(vec![1, 2, 3]));
    assert_eq!(routing.find_path(1, 9), None);
    let mut distances = Pairs::new();
    distances.insert((1, 2), 10);
    let mut geo = GeoDistance::new(distances, 7);
    assert_eq!(geo.get_link_distance(1, 2), Some(10));
    assert_eq!(geo.get_link_distance(2, 3), None);
    geo.update_params(&routing);
    assert_eq!(geo.get_path_distance(1, 3), Some((17, 2)));
    geo.set_distance(2, 3, 100);
    assert_eq!(geo.get_link_distance(2, 3), Some(100));
    geo.update_params(&routing);
    assert_eq!(geo.get_path_distance(1, 3), Some((110, 2)));
}

#[test]
fn sorting_is_stable() {
    let events = vec![event(1, 2, 1), event(3, 4, 2), event(5, 6, 3)];
    let timed: Vec<Event<Time>> = events
        .into_iter()
        .zip([2, 1, 2])
        .map(|(e, t)| e.with_time(t))
        .collect();
    let sources: Vec<RouterId> = sort_by_time(timed).iter().map(|e| e.source()).collect();
    assert_eq!(sources, vec![3, 1, 5]);
}

#[test]
fn simultaneous_events_are_sorted_by_router() {
    let events = vec![event(1, 9, 1), event(1, 3, 2), event(1, 5, 3)];
    let routers: Vec<RouterId> = sort_events(events).iter().map(|e| e.router()).collect();
    assert_eq!(routers, vec![3, 5, 9]);
}

#[test]
fn trigger_ids_count_the_events() {
    let mut q = TriggerQueue::new();
    assert_eq!(TriggerId(None).fmt(), TriggerId(None).fmt());
    q.push(Event::Ospf { p: TriggerId(Some(77)), src: 1, dst: 2 });
    // Events are stamped with the event that triggered them: so far, there is none.
    assert!(matches!(q.peek(), Some(Event::Ospf { p: TriggerId(None), .. })));
    assert!(q.pop().is_some());
    let first = q.last_event_id;
    q.push(Event::Ospf { p: TriggerId(None), src: 1, dst: 2 });
    assert_eq!(q.peek().map(|e| e.priority()), Some(first));
    assert!(q.pop().is_some());
    assert_ne!(q.last_event_id, first);
    assert!(q.pop().is_none());
    assert!(q.is_empty());
    q.reset_trigger_id_counter();
    assert_eq!(q.last_event_id, TriggerId(None));
}

fn rng() -> StdRng {
    StdRng::seed_from_u64(5)
}

fn always() -> Probability {
    Probability { numerator: 1, denominator: 1 }
}

fn never() -> Probability {
    Probability { numerator: 0, denominator: 1 }
}

#[test]
fn monitors_log_what_passes() {
    let mut clock = 3;
    let mut m = Monitor::new();
    assert!(m.apply(update(1, 50), &mut clock).is_some());
    assert_eq!(m.log.len(), 1);
    m.clear();
    assert_eq!(m.log.len(), 0);
}

#[test]
fn random_queue_with_fixed_timing() {
    let mut clock = 0;
    let mut q = RandomQueue::new(&mut rng());
    q.use_fixed_timing(10);
    q.push(update(1, 5), &mut clock);
    q.push(update(2, 6), &mut clock);
    let first = q.next_t().unwrap();
    assert!(first >= 5);
    assert_eq!(expect(q.poll(&mut clock)).0, Some(1));
    assert_eq!(expect(q.poll(&mut clock)).0, Some(2));
    assert!(matches!(q.poll(&mut clock), Poll::Empty));
}

#[test]
fn debouncer_skips_to_the_nth_message() {
    let mut clock = 0;
    let mut q = RandomDebouncer::new(&mut rng());
    for i in 0..4 {
        q.push(update(i, i as Time), &mut clock);
    }
    assert_eq!(expect(q.take_nth(2)).0, Some(1));
    assert_eq!(q.len(), 2);
    assert_eq!(expect(q.take_nth(1)).0, Some(2));
    assert_eq!(q.len(), 1);
}

#[test]
fn debouncer_draws_a_number_whenever_it_works() {
    let mut clock = 0;
    let mut q = RandomDebouncer::new(&mut rng());
    let before = q.rng.clone();
    assert!(matches!(q.poll(&mut clock), Poll::Empty));
    assert_ne!(q.rng, before);
    q.disable();
    let before = q.rng.clone();
    assert!(matches!(q.poll(&mut clock), Poll::Empty));
    assert_eq!(q.rng, before);
}

#[test]
fn disabled_debouncer_lets_everything_pass() {
    let mut clock = 0;
    let mut q = RandomDebouncer::new(&mut rng());
    q.disable();
    for i in 0..5 {
        q.push(update(i, i as Time), &mut clock);
    }
    for i in 0..5 {
        assert_eq!(expect(q.poll(&mut clock)).0, Some(i));
    }
}

#[test]
fn bugs_show_as_the_coin_says() {
    let bug = Bug::DropUpdates { p: always() };
    let (out, shown) = bug.apply(BgpEvent::Update(route(1)), true);
    assert!(out.is_none() && shown);
    let (out, shown) = bug.apply(BgpEvent::Update(route(1)), false);
    assert!(out.is_some() && !shown);
    let (out, shown) = bug.apply(BgpEvent::Withdraw(0), true);
    assert!(out.is_some() && !shown);
    let bug = Bug::TransformLocalPref { p: always(), new_val: 42 };
    let (out, _) = bug.apply(BgpEvent::Update(route(1)), true);
    assert_eq!(local_pref(&out.unwrap()), Some(42));
    let bug = Bug::TransformCommunity { p: always(), swap: 9 };
    let (out, _) = bug.apply(BgpEvent::Update(route(1)), true);
    match out {
        Some(BgpEvent::Update(r)) => assert!(r.community.contains(9)),
        _ => panic!("no route"),
    }
}

#[test]
fn certain_bugs_always_show_and_impossible_ones_never() {
    let mut clock = 0;
    let mut failures = Failures::new(&mut rng());
    failures.bugs.push(Bug::DropWithdraws { p: always() });
    for _ in 0..50 {
        assert!(failures.apply(withdraw(0), &mut clock).is_none());
        assert!(failures.apply(update(1, 0), &mut clock).is_some());
    }
    assert_eq!(failures.num_triggered, 50);
    let mut failures = Failures::new(&mut rng());
    failures.bugs.push(Bug::DropWithdraws { p: never() });
    for _ in 0..50 {
        assert!(failures.apply(withdraw(0), &mut clock).is_some());
    }
    assert_eq!(failures.num_triggered, 0);
}

fn reordering_queue() -> ReorderingQueue {
    ReorderingQueue::new(ReorderingSessionQueueInit::new(1))
}

fn bgp(src: RouterId, dst: RouterId, lp: u32) -> Event<()> {
    Event::Bgp { p: (), src, dst, e: BgpEvent::Update(route(lp)) }
}

#[test]
fn reordering_queue_keeps_the_order_of_each_session() {
    let mut q = reordering_queue();
    q.init_session(1, 2, true, false, 1_000_000_000);
    q.init_session(3, 2, true, false, 1_000_000_000);
    for i in 0..10 {
        q.push(bgp(1, 2, i));
        q.push(bgp(3, 2, 100 + i));
    }
    assert_eq!(q.len(), 20);
    let (mut a, mut b) = (Vec::new(), Vec::new());
    while let Some(Event::Bgp { src, e, .. }) = q.pop() {
        if src == 1 {
            a.push(local_pref(&e).unwrap());
        } else {
            b.push(local_pref(&e).unwrap());
        }
    }
    assert_eq!(a, (0..10).collect::<Vec<u32>>());
    assert_eq!(b, (100..110).collect::<Vec<u32>>());
    assert!(q.is_empty());
}

#[test]
fn other_messages_go_first() {
    let mut q = reordering_queue();
    q.init_session(1, 2, false, false, 1_000_000_000);
    q.push(bgp(1, 2, 1));
    q.push(Event::Ospf { p: (), src: 5, dst: 6 });
    assert!(matches!(q.poll(), Some(Some(Event::Ospf { src: 5, dst: 6, .. }))));
    let mut polls = 0;
    while q.poll().is_some() {
        polls += 1;
    }
    assert!(polls > 0);
    q.push(bgp(1, 2, 1));
    q.clear();
    assert!(q.pop().is_none());
}

#[test]
fn traces_hold_the_messages_of_a_router() {
    let mut q = reordering_queue();
    for (a, b) in [(1, 2), (2, 1), (1, 3)] {
        q.init_session(a, b, false, false, 1_000_000_000);
    }
    q.push(bgp(1, 2, 1));
    q.push(bgp(2, 1, 2));
    q.push(bgp(1, 3, 3));
    while q.pop().is_some() {}
    let trace = q.measurement_trace(2);
    assert_eq!(trace.len(), 2);
    assert!(trace.windows(2).all(|w| w[0].priority() <= w[1].priority()));
    let all = q.all_measurement_traces();
    assert!(all.get(3).is_some());
}

#[test]
fn monitoring_can_be_restricted() {
    let mut q = reordering_queue();
    q.init_session(1, 2, false, false, 1_000_000_000);
    q.init_session(3, 4, false, false, 1_000_000_000);
    q.restrict_monitoring_to(1);
    q.push(bgp(1, 2, 1));
    q.push(bgp(3, 4, 2));
    while q.pop().is_some() {}
    let all = q.all_measurement_traces();
    assert_eq!(all.get(1).map(|t| t.len()), Some(1));
    assert!(all.get(3).map(|t| t.len()).unwrap_or(0) == 0);
}

#[test]
fn triggered_failures_are_counted() {
    let mut q = reordering_queue();
    q.init_session(1, 2, false, false, 1_000_000_000);
    q.add_failure(ghostbuster::reordering_measurement::Failure {
        router: 1,
        neighbor: 2,
        location: FailureLocation::Egress,
        bug: Bug::DropUpdates { p: always() },
    });
    for i in 0..4 {
        q.push(bgp(1, 2, i));
    }
    assert!(q.pop().is_none());
    assert_eq!(q.num_failures_triggered(), 4);
    assert_eq!(q.num_failures_for_router(1), 4);
    assert_eq!(q.num_failures_for_router(7), 0);
}

#[test]
fn sessions_are_initialized_by_their_init() {
    let mut init = bgp_init(vec![]);
    let mut q = init.init(1, 2);
    let mut clock = 0;
    q.push(update(1, 0), &mut clock);
    assert_eq!(q.len(), 1);
}

#[test]
fn logged_messages_advance_the_shared_time() {
    let mut q = reordering_queue();
    q.init_session(1, 2, true, false, 1_000_000_000);
    assert_eq!(q.get_global_time(), 0);
    q.push(bgp(1, 2, 1));
    while q.pop().is_some() {}
    // The message is logged when it is sent, and when it arrives.
    assert_eq!(q.get_global_time(), 2 * TICKS_PER_SECOND);
}

#[test]
fn monitors_count_seconds() {
    let mut clock = 0;
    let mut m = Monitor::new();
    for i in 0..3 {
        assert!(m.apply(update(i, 50), &mut clock).is_some());
    }
    let times: Vec<Time> = m.log.iter().map(|x| x.t).collect();
    assert_eq!(times, vec![0, TICKS_PER_SECOND, 2 * TICKS_PER_SECOND]);
}

// A session from router 1 to router 2 on which all updates are lost at once.
fn lossy_queue() -> ReorderingQueue {
    let mut q = reordering_queue();
    q.init_session(1, 2, false, false, TICKS_PER_SECOND);
    q.add_failure(ghostbuster::reordering_measurement::Failure {
        router: 1,
        neighbor: 2,
        location: FailureLocation::Egress,
        bug: Bug::DropUpdates { p: always() },
    });
    q
}

#[test]
fn polling_ends_when_the_last_message_is_lost() {
    let mut q = lossy_queue();
    assert!(q.is_empty());
    assert!(q.poll().is_none());
    q.push(bgp(1, 2, 1));
    q.push(bgp(1, 2, 2));
    assert!(!q.is_empty());
    // One message is lost, another one is left.
    assert!(matches!(q.poll(), Some(None)));
    assert_eq!(q.len(), 1);
    assert!(q.poll().is_none());
    assert!(q.is_empty());
    assert!(q.poll().is_none());
}

#[test]
fn polling_goes_on_while_a_message_travels() {
    let mut q = reordering_queue();
    q.init_session(1, 2, false, false, TICKS_PER_SECOND);
    q.push(bgp(1, 2, 7));
    let mut polls = 0;
    let event = loop {
        match q.poll() {
            Some(Some(e)) => break e,
            Some(None) => assert!(!q.is_empty()),
            None => panic!("the message is lost"),
        }
        polls += 1;
    };
    assert_eq!(polls, 2);
    assert_eq!((event.source(), event.router()), (1, 2));
    assert!(q.is_empty());
    assert!(q.poll().is_none());
}

#[test]
fn simultaneous_events_for_the_same_target_keep_their_order() {
    let events = vec![event(7, 3, 1), event(8, 3, 2), event(9, 1, 3), event(6, 3, 4)];
    let sources: Vec<RouterId> = sort_events(events).iter().map(|e| e.source()).collect();
    assert_eq!(sources, vec![9, 7, 8, 6]);
}

#[test]
fn trigger_ids_depend_on_the_pops_since_the_reset() {
    let ospf = || Event::Ospf { p: TriggerId(Some(77)), src: 1, dst: 2 };
    let mut q = TriggerQueue::new();
    for _ in 0..3 {
        q.push(ospf());
    }
    assert!(q.pop().is_some());
    q.push(ospf());
    assert!(q.pop().is_some());
    q.push(ospf());
    let marks: Vec<TriggerId> = q.events.iter().map(|e| e.priority()).collect();
    assert_eq!(marks, vec![TriggerId(None), TriggerId(Some(0)), TriggerId(Some(1))]);
    q.reset_trigger_id_counter();
    q.push(ospf());
    let marks: Vec<TriggerId> = q.events.iter().map(|e| e.priority()).collect();
    assert_eq!(
        marks,
        vec![TriggerId(None), TriggerId(Some(0)), TriggerId(Some(1)), TriggerId(None)]
    );
    while q.pop().is_some() {}
    // A pop of the empty queue does not count.
    assert!(q.pop().is_none());
    q.push(ospf());
    assert_eq!(q.peek().map(|e| e.priority()), Some(TriggerId(Some(3))));
}

#[test]
fn debouncing_delivers_the_latest_and_nothing_twice() {
    let mut clock = 99;
    let mut q = DebounceQueue::new(10);
    assert!(matches!(q.poll(&mut clock), Poll::Empty));
    q.push(update(1, 0), &mut clock);
    q.push(update(2, 5), &mut clock);
    assert_eq!(expect(q.poll(&mut clock)), (Some(2), 15));
    assert!(matches!(q.poll(&mut clock), Poll::Empty));
    q.push(update(3, 20), &mut clock);
    q.push(update(2, 21), &mut clock);
    assert!(q.is_empty());
    assert!(matches!(q.poll(&mut clock), Poll::Empty));
    q.push(update(2, 30), &mut clock);
    q.push(update(1, 31), &mut clock);
    assert_eq!(expect(q.poll(&mut clock)), (Some(1), 41));
    assert_eq!(clock, 99);
}

#[test]
fn restricted_monitoring_changes_nothing_else() {
    let run = |restrict: bool| {
        let mut q = reordering_queue();
        for (src, dst) in [(1, 2), (2, 1), (2, 3), (3, 2)] {
            q.init_session(src, dst, false, false, TICKS_PER_SECOND);
        }
        if restrict {
            q.restrict_monitoring_to(1);
        }
        for i in 0..4 {
            q.push(bgp(1, 2, i));
            q.push(bgp(2, 3, 10 + i));
            q.push(bgp(2, 1, 20 + i));
            q.push(bgp(3, 2, 30 + i));
        }
        let mut delivered = Vec::new();
        while let Some(e) = q.pop() {
            delivered.push((e.source(), e.router()));
        }
        (delivered, q.all_measurement_traces())
    };
    let (delivered, restricted) = run(true);
    let (same, all) = run(false);
    assert_eq!(delivered, same);
    assert_eq!(delivered.len(), 16);
    for x in [2, 3] {
        assert_eq!(restricted.get(x).map(|t| t.len()).unwrap_or(0), 0);
        assert!(all.get(x).is_some_and(|t| !t.is_empty()));
    }
    let flat = |t: &Vec<Event<Time>>| -> Vec<(RouterId, RouterId, Option<u32>, Time)> {
        t.iter()
            .map(|x| match x {
                Event::Bgp { p, src, dst, e } => (*src, *dst, local_pref(e), *p),
                Event::Ospf { .. } => panic!("not of BGP"),
            })
            .collect()
    };
    let mine = flat(restricted.get(1).unwrap());
    assert_eq!(mine.len(), 8);
    assert!(mine.iter().all(|(src, dst, _, _)| *src == 1 || *dst == 1));
    assert_eq!(mine, flat(all.get(1).unwrap()));
}

#[test]
fn counts_of_failures_add_up() {
    let mut q = reordering_queue();
    for (src, dst) in [(1, 2), (2, 3), (3, 1)] {
        q.init_session(src, dst, false, false, TICKS_PER_SECOND);
    }
    let bug = Bug::TransformLocalPref { p: always(), new_val: 999 };
    for (router, neighbor, location) in [
        (1, 2, FailureLocation::Egress),
        (3, 2, FailureLocation::Ingress),
        (3, 1, FailureLocation::Egress),
    ] {
        q.add_failure(ghostbuster::reordering_measurement::Failure {
            router,
            neighbor,
            location,
            bug,
        });
    }
    for i in 0..3 {
        q.push(bgp(1, 2, i));
        q.push(bgp(2, 3, i));
    }
    q.push(bgp(3, 1, 5));
    while q.pop().is_some() {}
    assert_eq!(q.num_failures_for_router(1), 3);
    assert_eq!(q.num_failures_for_router(2), 0);
    assert_eq!(q.num_failures_for_router(3), 4);
    assert_eq!(q.num_failures_for_router(9), 0);
    assert_eq!(q.num_failures_triggered(), 7);
}

#[test]
fn equal_seeds_give_equal_queues() {
    let run = |seed: u64| {
        let mut q = ReorderingQueue::new(ReorderingSessionQueueInit::new(seed));
        for src in 1..6 {
            q.init_session(src, 9, true, true, TICKS_PER_SECOND);
            for i in 0..20 {
                q.push(bgp(src, 9, i));
            }
        }
        let mut delivered = Vec::new();
        while let Some(Event::Bgp { src, e, .. }) = q.pop() {
            delivered.push((src, local_pref(&e)));
        }
        delivered
    };
    assert_eq!(run(7), run(7));
    assert_ne!(run(7), run(8));
}
