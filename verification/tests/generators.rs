use ghostbuster::generator::UniformEventGenerator;
use ghostbuster::keyed::Keyed;
use ghostbuster::simulation::{SimulationEvent, SimulationTimeStep};
use rand::rngs::StdRng;
use rand::SeedableRng;

fn routers(list: &[(u32, u32)]) -> Keyed<u32> {
    let mut r = Keyed::new();
    for (id, as_id) in list {
        r.insert(*id, *as_id);
    }
    r
}

fn normalize_step(step: SimulationTimeStep) -> Vec<(u32, u32, bool)> {
    let mut v: Vec<(u32, u32, bool)> = step
        .into_iter()
        .filter_map(|ev| match ev {
            SimulationEvent::External(e) => Some((e.external_neighbor, e.prefix, e.route.is_some())),
            _ => None,
        })
        .collect();
    v.sort_unstable();
    v
}

fn is_reconfiguration(step: &SimulationTimeStep) -> bool {
    step.iter().any(|ev| matches!(ev, SimulationEvent::Reconfiguration))
}

#[test]
fn deterministic_same_seed_same_inputs() {
    let a = routers(&[(0, 100), (1, 200), (2, 300)]);
    // Different insertion order
    let b = routers(&[(2, 300), (0, 100), (1, 200)]);
    let prefixes = vec![0, 1, 2];
    let mut gen1 =
        UniformEventGenerator::new(StdRng::seed_from_u64(42), a, prefixes.clone(), true);
    let mut gen2 =
        UniformEventGenerator::new(StdRng::seed_from_u64(42), b, prefixes.clone(), true);
    for _ in 0..100 {
        let s1 = normalize_step(gen1.next().unwrap());
        let s2 = normalize_step(gen2.next().unwrap());
        assert_eq!(s1, s2);
    }
}

#[test]
fn no_reconfiguration_event_when_disabled() {
    let r = routers(&[(0, 100), (1, 200)]);
    let mut gen = UniformEventGenerator::new(StdRng::seed_from_u64(42), r, vec![0, 1], false);
    for _ in 0..10_000 {
        assert!(
            !is_reconfiguration(&gen.next().unwrap()),
            "generator emitted a reconfiguration event despite being disabled"
        );
    }
}

#[test]
fn exactly_one_reconfiguration_event_when_enabled() {
    let r = routers(&[(0, 100), (1, 200)]);
    let mut gen = UniformEventGenerator::new(StdRng::seed_from_u64(42), r, vec![0, 1], true);
    let reconfigs = (0..10_000).filter(|_| is_reconfiguration(&gen.next().unwrap())).count();
    assert_eq!(reconfigs, 1, "expected exactly one reconfiguration event");
}

#[test]
fn deterministic_for_repeated_runs() {
    let r = || routers(&[(10, 65010), (11, 65011), (12, 65012)]);
    let prefixes = vec![10, 11];
    let mut gen1 =
        UniformEventGenerator::new(StdRng::seed_from_u64(7), r(), prefixes.clone(), true);
    let mut gen2 =
        UniformEventGenerator::new(StdRng::seed_from_u64(7), r(), prefixes.clone(), true);
    for _ in 0..200 {
        let s1 = normalize_step(gen1.next().unwrap());
        let s2 = normalize_step(gen2.next().unwrap());
        assert_eq!(s1, s2);
    }
}

#[test]
fn announcements_and_withdrawals_alternate() {
    let r = routers(&[(4, 65004)]);
    let mut gen = UniformEventGenerator::new(StdRng::seed_from_u64(1), r, vec![9], false);
    let first = gen.get_external_event(4, 9);
    assert_eq!(first.external_neighbor, 4);
    assert_eq!(first.prefix, 9);
    assert!(first.route.as_ref().is_some_and(|path| path.iter().all(|x| *x == 65004)));
    assert!(gen.get_external_event(4, 9).route.is_none());
    assert!(gen.get_external_event(4, 9).route.is_some());
    let step = gen.step(&vec![Some(9)]);
    assert_eq!(normalize_step(step), vec![(4, 9, false)]);
    let step = gen.step(&vec![None]);
    assert_eq!(normalize_step(step), vec![]);
}

#[test]
fn steps_are_in_the_order_of_the_routers_and_routes_alternate() {
    let r = routers(&[(5, 65005), (2, 65002), (9, 65009)]);
    let mut gen = UniformEventGenerator::new(StdRng::seed_from_u64(3), r, vec![1, 4], true);
    let mut advertised: Vec<(u32, u32)> = Vec::new();
    for _ in 0..500 {
        let step = gen.next().unwrap();
        if is_reconfiguration(&step) {
            assert_eq!(step.len(), 1);
            continue;
        }
        let mut last: Option<u32> = None;
        for event in step {
            match event {
                SimulationEvent::External(e) => {
                    assert!(last.map_or(true, |x| x < e.external_neighbor));
                    last = Some(e.external_neighbor);
                    assert!(e.prefix == 1 || e.prefix == 4);
                    let key = (e.external_neighbor, e.prefix);
                    if advertised.contains(&key) {
                        assert!(e.route.is_none());
                        advertised.retain(|x| *x != key);
                    } else {
                        assert_eq!(e.route, Some(vec![65000 + e.external_neighbor]));
                        advertised.push(key);
                    }
                }
                SimulationEvent::Reconfiguration => unreachable!("in its own step"),
            }
        }
    }
    assert!(!advertised.is_empty());
}

#[test]
fn the_coin_decides_when_the_reconfiguration_comes() {
    let r = routers(&[(4, 65004), (7, 65007)]);
    let mut gen = UniformEventGenerator::new(StdRng::seed_from_u64(1), r, vec![9], true);
    let picks = vec![Some(9), None];
    let step = gen.step_with(false, &picks);
    assert_eq!(normalize_step(step), vec![(4, 9, true)]);
    let step = gen.step_with(true, &picks);
    assert!(step.len() == 1 && is_reconfiguration(&step));
    // There is only one.
    let step = gen.step_with(true, &picks);
    assert_eq!(normalize_step(step), vec![(4, 9, false)]);
    let r = routers(&[(4, 65004)]);
    let mut never = UniformEventGenerator::new(StdRng::seed_from_u64(1), r, vec![9], false);
    assert!(!is_reconfiguration(&never.step_with(true, &vec![None])));
}
