//! The scenarios of the evaluation: all combinations of some options.
use vstd::prelude::*;
use vstd::string::*;

use crate::evaluation::MeasurementInput;
use crate::forking_monitor::ProcessWithdraws;

verus! {

/// A topology, as far as the scenarios depend on it.
#[derive(Debug)]
pub struct Topology {
    pub name: String,
    pub num_internals: usize,
    pub num_internal_edges: usize,
    /// The links between internal routers, which have the numbers from 0 on
    pub links: Vec<(u32, u32)>,
}

/// The options to combine.
#[derive(Debug)]
pub struct ScenarioOptions {
    pub topologies: Vec<Topology>,
    pub num_external_networks: Vec<usize>,
    pub num_route_reflectors: Vec<usize>,
    pub num_external_events: Vec<usize>,
    pub with_failure: Vec<bool>,
    pub with_monitor_speaker: Vec<bool>,
    pub with_reordering: Vec<bool>,
    pub with_debouncing: Vec<bool>,
    pub process_withdraws: Vec<ProcessWithdraws>,
    pub seeds: Vec<u64>,
}

// ---------------------------------------------------------------------------------------------
// Defaults
// ---------------------------------------------------------------------------------------------
fn or_numbers(given: Option<Vec<usize>>, default: Vec<usize>) -> (r: Vec<usize>)
    ensures
        r@ == match given {
            Some(v) => v@,
            None => default@,
        },
{
    match given {
        Some(v) => v,
        None => default,
    }
}

fn or_both(given: Option<Vec<bool>>) -> (r: Vec<bool>)
    ensures
        r@ == both(given),
{
    match given {
        Some(v) => v,
        None => {
            let r: Vec<bool> = vec![false, true];
            assert(r@ =~= seq![false, true]);
            r
        },
    }
}

/// The values that are given, or both of them.
pub open spec fn both(given: Option<Vec<bool>>) -> Seq<bool> {
    match given {
        Some(v) => v@,
        None => seq![false, true],
    }
}

/// The numbers that are given, or the default.
pub open spec fn numbers_or(given: Option<Vec<usize>>, default: Seq<usize>) -> Seq<usize> {
    match given {
        Some(v) => v@,
        None => default,
    }
}

/// The options that may be given.
#[derive(Debug)]
pub struct GivenOptions {
    pub num_external_networks: Option<Vec<usize>>,
    pub num_route_reflectors: Option<Vec<usize>>,
    pub num_external_events: Option<Vec<usize>>,
    pub with_failure: Option<Vec<bool>>,
    pub with_monitor_speaker: Option<Vec<bool>>,
    pub with_reordering: Option<Vec<bool>>,
    pub with_debouncing: Option<Vec<bool>>,
    pub process_withdraws: Option<Vec<ProcessWithdraws>>,
    pub seed: Option<Vec<u64>>,
}

/// Fill in the defaults for the options that are not given.
pub fn with_defaults(given: GivenOptions, topologies: Vec<Topology>) -> (r: ScenarioOptions)
    ensures
        r.topologies == topologies,
        r.num_external_networks@ == numbers_or(given.num_external_networks, seq![10usize, 50]),
        r.num_route_reflectors@ == numbers_or(given.num_route_reflectors, seq![0usize, 1, 3, 5]),
        r.num_external_events@ == numbers_or(
            given.num_external_events,
            seq![1usize, 3, 5, 10, 30, 50, 100],
        ),
        r.with_failure@ == both(given.with_failure),
        r.with_monitor_speaker@ == both(given.with_monitor_speaker),
        r.with_reordering@ == both(given.with_reordering),
        r.with_debouncing@ == both(given.with_debouncing),
        r.process_withdraws@ == (match given.process_withdraws {
            Some(v) => v@,
            None => seq![
                ProcessWithdraws::Always,
                ProcessWithdraws::Never,
                ProcessWithdraws::Adaptive,
            ],
        }),
        r.seeds@ == (match given.seed {
            Some(v) => v@,
            None => seq![1u64, 2, 3, 4, 5, 6, 7, 8, 9, 10],
        }),
{
    let externals: Vec<usize> = vec![10, 50];
    let reflectors: Vec<usize> = vec![0, 1, 3, 5];
    let events: Vec<usize> = vec![1, 3, 5, 10, 30, 50, 100];
    let modes: Vec<ProcessWithdraws> = vec![
        ProcessWithdraws::Always,
        ProcessWithdraws::Never,
        ProcessWithdraws::Adaptive,
    ];
    let seeds: Vec<u64> = vec![1, 2, 3, 4, 5, 6, 7, 8, 9, 10];
    proof {
        assert(externals@ =~= seq![10usize, 50]);
        assert(reflectors@ =~= seq![0usize, 1, 3, 5]);
        assert(events@ =~= seq![1usize, 3, 5, 10, 30, 50, 100]);
        assert(modes@ =~= seq![
            ProcessWithdraws::Always,
            ProcessWithdraws::Never,
            ProcessWithdraws::Adaptive,
        ]);
        assert(seeds@ =~= seq![1u64, 2, 3, 4, 5, 6, 7, 8, 9, 10]);
    }
    ScenarioOptions {
        topologies,
        num_external_networks: or_numbers(given.num_external_networks, externals),
        num_route_reflectors: or_numbers(given.num_route_reflectors, reflectors),
        num_external_events: or_numbers(given.num_external_events, events),
        with_failure: or_both(given.with_failure),
        with_monitor_speaker: or_both(given.with_monitor_speaker),
        with_reordering: or_both(given.with_reordering),
        with_debouncing: or_both(given.with_debouncing),
        process_withdraws: match given.process_withdraws {
            Some(v) => v,
            None => modes,
        },
        seeds: match given.seed {
            Some(v) => v,
            None => seeds,
        },
    }
}

// ---------------------------------------------------------------------------------------------
// Topologies
// ---------------------------------------------------------------------------------------------
/// Consecutive nodes of the path are linked.
pub open spec fn is_path(links: Seq<(u32, u32)>, path: Seq<u32>) -> bool {
    forall|i: int|
        0 <= i < path.len() - 1 ==> #[trigger] links.contains((path[i], path[i + 1]))
            || links.contains((path[i + 1], path[i]))
}

/// There is a path between two nodes.
pub open spec fn are_linked(links: Seq<(u32, u32)>, a: u32, b: u32) -> bool {
    exists|path: Seq<u32>| #[trigger]
        is_path(links, path) && path.len() > 0 && path[0] == a && path.last() == b
}

/// There is a path between any two of the first `n` nodes, and there is a node.
pub open spec fn is_connected(links: Seq<(u32, u32)>, n: u32) -> bool {
    n > 0 && forall|a: u32, b: u32| a < n && b < n ==> #[trigger] are_linked(links, a, b)
}

/// `petgraph::algo::connected_components`, on the undirected graph that
/// `petgraph::graph::Graph::from_edges` makes of the links: the graph has the nodes from 0 up to the
/// largest one in a link, and it has one component exactly if it has a node and there is a path between
/// any two of them. How many components there are otherwise is left unsaid. The graph cannot have as
/// many nodes or links as there are numbers.
#[verifier::external_body]
fn count_components(links: &Vec<(u32, u32)>, n: u32) -> (r: usize)
    requires
        n < u32::MAX,
        links@.len() < u32::MAX,
        forall|i: int| 0 <= i < links@.len() ==> (#[trigger] links@[i]).0 < n && links@[i].1 < n,
        n > 0 ==> links@.contains(((n - 1) as u32, (n - 1) as u32)),
    ensures
        r == 1 <==> is_connected(links@, n),
{
    petgraph::algo::connected_components(&petgraph::graph::UnGraph::<(), ()>::from_edges(links))
}

/// The internal routers of the topology have the numbers from 0 on, and the links are between them.
pub open spec fn is_numbered(t: Topology) -> bool {
    &&& t.num_internals < u32::MAX
    &&& t.links@.len() + 1 < u32::MAX
    &&& forall|i: int|
        0 <= i < t.links@.len() ==> (#[trigger] t.links@[i]).0 < t.num_internals && t.links@[i].1
            < t.num_internals
}

/// The topology is used if nothing else is asked for: it has more than 6 and less than 300 internal
/// routers, and they are connected.
pub open spec fn is_default(t: Topology) -> bool {
    6 < t.num_internals < 300 && is_connected(t.links@, t.num_internals as u32)
}

/// A link from a node to itself connects nothing.
proof fn lemma_loop(links: Seq<(u32, u32)>, n: u32, x: u32)
    requires
        x < n,
    ensures
        is_connected(links.push((x, x)), n) == is_connected(links, n),
{
    let more = links.push((x, x));
    assert forall|a: u32, b: u32| #[trigger] are_linked(links, a, b) implies are_linked(
        more,
        a,
        b,
    ) by {
        let path = choose|path: Seq<u32>| #[trigger]
            is_path(links, path) && path.len() > 0 && path[0] == a && path.last() == b;
        assert forall|i: int| 0 <= i < path.len() - 1 implies #[trigger] more.contains(
            (path[i], path[i + 1]),
        ) || more.contains((path[i + 1], path[i])) by {
            if links.contains((path[i], path[i + 1])) {
                let j = links.index_of((path[i], path[i + 1]));
                assert(more[j] == (path[i], path[i + 1]));
            } else {
                assert(links.contains((path[i + 1], path[i])));
                let j = links.index_of((path[i + 1], path[i]));
                assert(more[j] == (path[i + 1], path[i]));
            }
        }
        assert(is_path(more, path));
    }
    assert forall|a: u32, b: u32| #[trigger] are_linked(more, a, b) implies are_linked(
        links,
        a,
        b,
    ) by {
        let path = choose|path: Seq<u32>| #[trigger]
            is_path(more, path) && path.len() > 0 && path[0] == a && path.last() == b;
        lemma_without_loop(links, x, path);
    }
    if is_connected(links, n) {
        assert forall|a: u32, b: u32| a < n && b < n implies #[trigger] are_linked(more, a, b) by {
            assert(are_linked(links, a, b));
        }
    }
    if is_connected(more, n) {
        assert forall|a: u32, b: u32| a < n && b < n implies #[trigger] are_linked(links, a, b) by {
            assert(are_linked(more, a, b));
        }
    }
}

/// A path can do without a link from a node to itself.
proof fn lemma_without_loop(links: Seq<(u32, u32)>, x: u32, path: Seq<u32>)
    requires
        path.len() > 0,
        is_path(links.push((x, x)), path),
    ensures
        are_linked(links, path[0], path.last()),
    decreases path.len(),
{
    let more = links.push((x, x));
    if path.len() == 1 {
        assert(is_path(links, path));
    } else {
        let init = path.drop_last();
        let (y, z) = (init.last(), path.last());
        assert forall|i: int| 0 <= i < init.len() - 1 implies #[trigger] more.contains(
            (init[i], init[i + 1]),
        ) || more.contains((init[i + 1], init[i])) by {
            assert(more.contains((path[i], path[i + 1])) || more.contains((path[i + 1], path[i])));
        }
        lemma_without_loop(links, x, init);
        let p = choose|p: Seq<u32>| #[trigger]
            is_path(links, p) && p.len() > 0 && p[0] == path[0] && p.last() == y;
        if y == z {
            assert(are_linked(links, path[0], z));
        } else {
            let k = path.len() - 2;
            assert(more.contains((path[k], path[k + 1])) || more.contains((path[k + 1], path[k])));
            assert(links.contains((y, z)) || links.contains((z, y))) by {
                if more.contains((y, z)) {
                    let j = more.index_of((y, z));
                    assert(links[j] == (y, z));
                } else {
                    let j = more.index_of((z, y));
                    assert(links[j] == (z, y));
                }
            }
            let q = p.push(z);
            assert forall|i: int| 0 <= i < q.len() - 1 implies #[trigger] links.contains(
                (q[i], q[i + 1]),
            ) || links.contains((q[i + 1], q[i])) by {
                if i < p.len() - 1 {
                    assert(links.contains((p[i], p[i + 1])) || links.contains((p[i + 1], p[i])));
                }
            }
            assert(is_path(links, q));
        }
    }
}

/// Whether a topology is used if nothing else is asked for.
pub fn is_default_topology(t: &Topology) -> (r: bool)
    requires
        is_numbered(*t),
    ensures
        r == is_default(*t),
{
    if t.num_internals <= 6 || t.num_internals >= 300 {
        return false;
    }
    let n: u32 = t.num_internals as u32;
    let mut links: Vec<(u32, u32)> = Vec::new();
    for i in 0..t.links.len()
        invariant
            links@ == t.links@.take(i as int),
    {
        links.push(t.links[i]);
        assert(t.links@.take(i + 1) =~= t.links@.take(i as int).push(t.links@[i as int]));
    }
    assert(t.links@.take(t.links@.len() as int) =~= t.links@);
    links.push((n - 1, n - 1));
    proof {
        lemma_loop(t.links@, n, (n - 1) as u32);
        assert(links@[t.links@.len() as int] == ((n - 1) as u32, (n - 1) as u32));
    }
    count_components(&links, n) == 1
}

// ---------------------------------------------------------------------------------------------
// Combinations
// ---------------------------------------------------------------------------------------------
/// A choice of one element of each of several lists, by their positions. The lists have these lengths.
pub open spec fn is_choice(sizes: Seq<usize>, v: Seq<usize>) -> bool {
    v.len() == sizes.len() && forall|i: int| 0 <= i < v.len() ==> #[trigger] v[i] < sizes[i]
}

/// The positions of each choice.
pub open spec fn choice_views(s: Seq<Vec<usize>>) -> Seq<Seq<usize>> {
    Seq::new(s.len(), |i: int| s[i]@)
}

/// Exactly the choices from lists of these lengths, each of them once.
pub open spec fn are_all_choices(sizes: Seq<usize>, choices: Seq<Seq<usize>>) -> bool {
    &&& choices.no_duplicates()
    &&& forall|v: Seq<usize>| #[trigger] choices.contains(v) <==> is_choice(sizes, v)
}

/// Append the choices that go on from one, with each of the first `n` elements of a further list.
fn append_choices(choices: &mut Vec<Vec<usize>>, start: &Vec<usize>, n: usize)
    ensures
        choice_views(final(choices)@) == choice_views(old(choices)@) + Seq::new(
            n as nat,
            |d: int| start@.push(d as usize),
        ),
{
    let ghost before = choice_views(choices@);
    assert(before + Seq::new(0nat, |d: int| start@.push(d as usize)) =~= before);
    for d in 0..n
        invariant
            choice_views(choices@) == before + Seq::new(d as nat, |d: int| start@.push(d as usize)),
    {
        let ghost current = choices@;
        let mut v: Vec<usize> = Vec::new();
        for i in 0..start.len()
            invariant
                v@ == start@.take(i as int),
        {
            v.push(start[i]);
            assert(start@.take(i + 1) =~= start@.take(i as int).push(start@[i as int]));
        }
        assert(start@.take(start@.len() as int) =~= start@);
        v.push(d);
        choices.push(v);
        proof {
            assert(choice_views(choices@) =~= choice_views(current).push(start@.push(d)));
            assert(choice_views(choices@) =~= before + Seq::new(
                (d + 1) as nat,
                |d: int| start@.push(d as usize),
            ));
        }
    }
}

/// The choices that go on from the first `k` of some choices.
pub open spec fn extended(choices: Seq<Seq<usize>>, n: usize, k: int) -> Seq<Seq<usize>>
    decreases k,
{
    if k <= 0 {
        Seq::empty()
    } else {
        extended(choices, n, k - 1) + Seq::new(
            n as nat,
            |d: int| choices[k - 1].push(d as usize),
        )
    }
}

proof fn lemma_extended(choices: Seq<Seq<usize>>, n: usize, k: int)
    requires
        choices.no_duplicates(),
        0 <= k <= choices.len(),
    ensures
        extended(choices, n, k).no_duplicates(),
        forall|v: Seq<usize>| #[trigger]
            extended(choices, n, k).contains(v) <==> v.len() > 0 && v.last() < n && choices.take(
                k,
            ).contains(v.drop_last()),
    decreases k,
{
    if k > 0 {
        lemma_extended(choices, n, k - 1);
        let first = extended(choices, n, k - 1);
        let c = choices[k - 1];
        let second = Seq::new(n as nat, |d: int| c.push(d as usize));
        let all = first + second;
        assert forall|v: Seq<usize>| #[trigger] all.contains(v) <==> v.len() > 0 && v.last() < n
            && choices.take(k).contains(v.drop_last()) by {
            if all.contains(v) {
                let i = all.index_of(v);
                if i < first.len() {
                    assert(first[i] == v);
                    assert(first.contains(v));
                    let j = choices.take(k - 1).index_of(v.drop_last());
                    assert(choices.take(k)[j] == v.drop_last());
                } else {
                    let d = i - first.len();
                    assert(v == c.push(d as usize));
                    assert(v.drop_last() =~= c);
                    assert(choices.take(k)[k - 1] == c);
                }
            }
            if v.len() > 0 && v.last() < n && choices.take(k).contains(v.drop_last()) {
                let j = choices.take(k).index_of(v.drop_last());
                if j < k - 1 {
                    assert(choices.take(k - 1)[j] == v.drop_last());
                    assert(first.contains(v));
                    let i = first.index_of(v);
                    assert(all[i] == v);
                } else {
                    let d = v.last() as int;
                    assert(c.push(d as usize) =~= v);
                    assert(all[first.len() + d] == second[d]);
                }
            }
        }
        assert forall|i: int, j: int| 0 <= i < all.len() && 0 <= j < all.len() && i != j implies all[i]
            != all[j] by {
            if i < first.len() && j < first.len() {
                assert(first[i] != first[j]);
            } else if i >= first.len() && j >= first.len() {
                let (a, b) = (i - first.len(), j - first.len());
                assert(all[i] == c.push(a as usize) && all[j] == c.push(b as usize));
                assert(all[i].last() != all[j].last());
            } else if i < first.len() {
                lemma_apart(choices, first, c, k, n, i, j - first.len());
            } else {
                lemma_apart(choices, first, c, k, n, j, i - first.len());
            }
        }
    } else {
        assert(choices.take(0) =~= Seq::<Seq<usize>>::empty());
        assert forall|v: Seq<usize>| #[trigger] extended(choices, n, 0).contains(v) <==> v.len() > 0
            && v.last() < n && choices.take(0).contains(v.drop_last()) by {}
    }
}

/// What goes on from different choices is different.
proof fn lemma_apart(
    choices: Seq<Seq<usize>>,
    first: Seq<Seq<usize>>,
    c: Seq<usize>,
    k: int,
    n: usize,
    i: int,
    d: int,
)
    requires
        choices.no_duplicates(),
        0 < k <= choices.len(),
        c == choices[k - 1],
        0 <= i < first.len(),
        0 <= d < n,
        forall|v: Seq<usize>| #[trigger]
            first.contains(v) <==> v.len() > 0 && v.last() < n && choices.take(k - 1).contains(
                v.drop_last(),
            ),
    ensures
        first[i] != c.push(d as usize),
{
    assert(first.contains(first[i]));
    if first[i] == c.push(d as usize) {
        assert(first[i].drop_last() =~= c);
        let j = choices.take(k - 1).index_of(c);
        assert(choices[j] == choices[k - 1]);
    }
}

/// All choices of one element of each of several lists.
pub fn all_choices(sizes: &Vec<usize>) -> (r: Vec<Vec<usize>>)
    ensures
        are_all_choices(sizes@, choice_views(r@)),
{
    let mut r: Vec<Vec<usize>> = Vec::new();
    r.push(Vec::new());
    proof {
        let views = choice_views(r@);
        assert(sizes@.take(0) =~= Seq::<usize>::empty());
        assert forall|v: Seq<usize>| #[trigger] views.contains(v) <==> is_choice(
            sizes@.take(0),
            v,
        ) by {
            if v.len() == 0 {
                assert(v =~= views[0]);
            }
        }
    }
    for s in 0..sizes.len()
        invariant
            are_all_choices(sizes@.take(s as int), choice_views(r@)),
    {
        let n: usize = sizes[s];
        let ghost before = choice_views(r@);
        let mut next: Vec<Vec<usize>> = Vec::new();
        assert(choice_views(next@) =~= extended(before, n, 0));
        for k in 0..r.len()
            invariant
                before == choice_views(r@),
                choice_views(next@) == extended(before, n, k as int),
        {
            append_choices(&mut next, &r[k], n);
            assert(before[k as int] == r@[k as int]@);
        }
        proof {
            lemma_extended(before, n, before.len() as int);
            assert(before.take(before.len() as int) =~= before);
            let (a, b) = (sizes@.take(s as int), sizes@.take(s + 1));
            let views = choice_views(next@);
            assert forall|v: Seq<usize>| #[trigger] views.contains(v) <==> is_choice(b, v) by {
                if is_choice(b, v) {
                    assert(is_choice(a, v.drop_last()));
                    assert(before.contains(v.drop_last()));
                    assert(v[s as int] < b[s as int]);
                }
                if views.contains(v) {
                    assert(before.contains(v.drop_last()));
                    assert(is_choice(a, v.drop_last()));
                    assert forall|i: int| 0 <= i < v.len() implies #[trigger] v[i] < b[i] by {
                        if i < s {
                            assert(v.drop_last()[i] < a[i]);
                        }
                    }
                }
            }
        }
        r = next;
    }
    assert(sizes@.take(sizes@.len() as int) =~= sizes@);
    r
}

/// The lengths of the lists of options.
pub open spec fn option_sizes(o: ScenarioOptions) -> Seq<usize> {
    seq![
        o.topologies@.len() as usize,
        o.num_external_networks@.len() as usize,
        o.num_route_reflectors@.len() as usize,
        o.num_external_events@.len() as usize,
        o.with_failure@.len() as usize,
        o.with_monitor_speaker@.len() as usize,
        o.with_reordering@.len() as usize,
        o.with_debouncing@.len() as usize,
        o.process_withdraws@.len() as usize,
        o.seeds@.len() as usize,
    ]
}

/// The choice is useful: with a monitor speaker, or else with a failure and in the adaptive mode.
pub open spec fn is_useful(o: ScenarioOptions, v: Seq<usize>) -> bool {
    o.with_monitor_speaker@[v[5] as int] || (o.with_failure@[v[4] as int]
        && o.process_withdraws@[v[8] as int] == ProcessWithdraws::Adaptive)
}

/// The input is the one for a choice of options.
pub open spec fn is_input_for(
    i: MeasurementInput,
    commit_hash: Seq<char>,
    o: ScenarioOptions,
    v: Seq<usize>,
) -> bool {
    &&& i.commit_hash@ == commit_hash
    &&& i.topology@ == o.topologies@[v[0] as int].name@
    &&& i.num_nodes == o.topologies@[v[0] as int].num_internals
    &&& i.num_edges == o.topologies@[v[0] as int].num_internal_edges
    &&& i.num_externals == o.num_external_networks@[v[1] as int]
    &&& i.num_route_reflectors == o.num_route_reflectors@[v[2] as int]
    &&& i.num_external_events == o.num_external_events@[v[3] as int]
    &&& i.with_failure == o.with_failure@[v[4] as int]
    &&& i.with_monitor_speaker == o.with_monitor_speaker@[v[5] as int]
    &&& i.with_reordering == o.with_reordering@[v[6] as int]
    &&& i.with_debouncing == o.with_debouncing@[v[7] as int]
    &&& i.process_withdraws == o.process_withdraws@[v[8] as int]
    &&& i.seed == o.seeds@[v[9] as int]
}

/// Exactly the inputs for the useful choices, each of them once.
pub open spec fn are_scenarios(
    inputs: Seq<MeasurementInput>,
    choices: Seq<Seq<usize>>,
    commit_hash: Seq<char>,
    o: ScenarioOptions,
) -> bool {
    &&& choices.no_duplicates()
    &&& forall|v: Seq<usize>| #[trigger]
        choices.contains(v) <==> is_choice(option_sizes(o), v) && is_useful(o, v)
    &&& inputs.len() == choices.len()
    &&& forall|i: int|
        0 <= i < inputs.len() ==> is_input_for(#[trigger] inputs[i], commit_hash, o, choices[i])
}

fn input_for(commit_hash: &str, o: &ScenarioOptions, v: &Vec<usize>) -> (r: MeasurementInput)
    requires
        is_choice(option_sizes(*o), v@),
    ensures
        is_input_for(r, commit_hash@, *o, v@),
{
    proof {
        let sizes = option_sizes(*o);
        assert(v@.len() == 10);
        assert forall|i: int| 0 <= i < 10 implies #[trigger] v@[i] < sizes[i] by {}
        assert(v@[0] < sizes[0] && v@[1] < sizes[1] && v@[2] < sizes[2] && v@[3] < sizes[3]);
        assert(v@[4] < sizes[4] && v@[5] < sizes[5] && v@[6] < sizes[6] && v@[7] < sizes[7]);
        assert(v@[8] < sizes[8] && v@[9] < sizes[9]);
        assert(o.topologies.len() == o.topologies@.len());
        assert(o.num_external_networks.len() == o.num_external_networks@.len());
        assert(o.num_route_reflectors.len() == o.num_route_reflectors@.len());
        assert(o.num_external_events.len() == o.num_external_events@.len());
        assert(o.with_failure.len() == o.with_failure@.len());
        assert(o.with_monitor_speaker.len() == o.with_monitor_speaker@.len());
        assert(o.with_reordering.len() == o.with_reordering@.len());
        assert(o.with_debouncing.len() == o.with_debouncing@.len());
        assert(o.process_withdraws.len() == o.process_withdraws@.len());
        assert(o.seeds.len() == o.seeds@.len());
    }
    let topology: &Topology = &o.topologies[v[0]];
    MeasurementInput {
        commit_hash: String::from_str(commit_hash),
        seed: o.seeds[v[9]],
        topology: String::from_str(topology.name.as_str()),
        num_nodes: topology.num_internals,
        num_edges: topology.num_internal_edges,
        num_externals: o.num_external_networks[v[1]],
        num_route_reflectors: o.num_route_reflectors[v[2]],
        num_external_events: o.num_external_events[v[3]],
        with_failure: o.with_failure[v[4]],
        with_monitor_speaker: o.with_monitor_speaker[v[5]],
        with_reordering: o.with_reordering[v[6]],
        with_debouncing: o.with_debouncing[v[7]],
        process_withdraws: o.process_withdraws[v[8]],
    }
}

/// The inputs of all useful scenarios.
pub fn build_scenarios(commit_hash: &str, o: &ScenarioOptions) -> (r: Vec<MeasurementInput>)
    ensures
        exists|choices: Seq<Seq<usize>>| #[trigger]
            are_scenarios(r@, choices, commit_hash@, *o),
{
    let sizes: Vec<usize> = vec![
        o.topologies.len(),
        o.num_external_networks.len(),
        o.num_route_reflectors.len(),
        o.num_external_events.len(),
        o.with_failure.len(),
        o.with_monitor_speaker.len(),
        o.with_reordering.len(),
        o.with_debouncing.len(),
        o.process_withdraws.len(),
        o.seeds.len(),
    ];
    assert(sizes@ =~= option_sizes(*o));
    let choices = all_choices(&sizes);
    let ghost all = choice_views(choices@);
    let mut r: Vec<MeasurementInput> = Vec::new();
    let ghost mut kept: Seq<Seq<usize>> = Seq::empty();
    for k in 0..choices.len()
        invariant
            all == choice_views(choices@),
            are_all_choices(option_sizes(*o), all),
            kept.no_duplicates(),
            forall|v: Seq<usize>| #[trigger]
                kept.contains(v) <==> all.take(k as int).contains(v) && is_useful(*o, v),
            r@.len() == kept.len(),
            forall|i: int|
                0 <= i < r@.len() ==> is_input_for(#[trigger] r@[i], commit_hash@, *o, kept[i]),
    {
        let v: &Vec<usize> = &choices[k];
        let ghost before = kept;
        proof {
            assert(all[k as int] == v@);
            assert(all.contains(v@));
            let sizes = option_sizes(*o);
            assert(v@[4] < sizes[4] && v@[5] < sizes[5] && v@[8] < sizes[8]);
            assert(o.with_failure.len() == o.with_failure@.len());
            assert(o.with_monitor_speaker.len() == o.with_monitor_speaker@.len());
            assert(o.process_withdraws.len() == o.process_withdraws@.len());
        }
        let adaptive: bool = match o.process_withdraws[v[8]] {
            ProcessWithdraws::Adaptive => true,
            _ => false,
        };
        let useful: bool = o.with_monitor_speaker[v[5]] || (o.with_failure[v[4]] && adaptive);
        assert(useful == is_useful(*o, v@));
        if useful {
            r.push(input_for(commit_hash, o, v));
            proof {
                kept = before.push(v@);
            }
        }
        proof {
            let (a, b) = (all.take(k as int), all.take(k + 1));
            assert(b =~= a.push(v@));
            assert(!a.contains(v@)) by {
                if a.contains(v@) {
                    let j = a.index_of(v@);
                    assert(all[j] == all[k as int]);
                }
            }
            assert(!before.contains(v@));
            assert forall|w: Seq<usize>| #[trigger] kept.contains(w) <==> b.contains(w) && is_useful(
                *o,
                w,
            ) by {
                assert(before.contains(w) <==> a.contains(w) && is_useful(*o, w));
                lemma_push_contains(a, v@, w);
                lemma_push_contains(before, v@, w);
            }
        }
    }
    assert(all.take(all.len() as int) =~= all);
    assert(are_scenarios(r@, kept, commit_hash@, *o));
    r
}

proof fn lemma_push_contains(s: Seq<Seq<usize>>, v: Seq<usize>, w: Seq<usize>)
    ensures
        s.push(v).contains(w) <==> s.contains(w) || w == v,
{
    let t = s.push(v);
    if s.contains(w) {
        let i = s.index_of(w);
        assert(t[i] == w);
    }
    if w == v {
        assert(t[s.len() as int] == w);
    }
    if t.contains(w) {
        let i = t.index_of(w);
        if i < s.len() {
            assert(s[i] == w);
        }
    }
}

/// Options that are given stand. Where nothing is given, a feature is tried without and with it.
pub proof fn law_given_options_stand(given: Vec<bool>, numbers: Vec<usize>, default: Seq<usize>, b: bool)
    ensures
        both(Some(given)) == given@,
        both(None).contains(b),
        both(None).no_duplicates(),
        numbers_or(Some(numbers), default) == numbers@,
        numbers_or(None, default) == default,
{
    assert(both(None)[0] == false && both(None)[1] == true);
}

/// A topology without routers is not connected, one with a router alone is, and one with a router that
/// nothing links to another one is not. A default topology has at least 7 and at most 299 internal
/// routers.
pub proof fn law_connected_topologies(t: Topology, links: Seq<(u32, u32)>, n: u32, x: u32)
    ensures
        !is_connected(links, 0),
        is_connected(links, 1),
        n > 1 && x < n && (forall|i: int|
            0 <= i < links.len() ==> ((#[trigger] links[i]).0 == x <==> links[i].1 == x))
            ==> !is_connected(links, n),
        is_default(t) ==> 7 <= t.num_internals <= 299 && is_connected(
            t.links@,
            t.num_internals as u32,
        ),
        t.num_internals == 7 || t.num_internals == 299 ==> is_default(t) == is_connected(
            t.links@,
            t.num_internals as u32,
        ),
{
    assert forall|a: u32, b: u32| a < 1 && b < 1 implies #[trigger] are_linked(links, a, b) by {
        let path = seq![a];
        assert(is_path(links, path) && path[0] == a && path.last() == b);
    }
    if n > 1 && x < n && (forall|i: int|
        0 <= i < links.len() ==> ((#[trigger] links[i]).0 == x <==> links[i].1 == x))
        && is_connected(links, n) {
        let y: u32 = if x == 0 {
            1
        } else {
            0
        };
        assert(are_linked(links, x, y));
        let path = choose|path: Seq<u32>| #[trigger]
            is_path(links, path) && path.len() > 0 && path[0] == x && path.last() == y;
        lemma_path_stays(links, path, x, path.len() - 1);
    }
}

proof fn lemma_path_stays(links: Seq<(u32, u32)>, path: Seq<u32>, x: u32, k: int)
    requires
        is_path(links, path),
        0 <= k < path.len(),
        path[0] == x,
        forall|i: int|
            0 <= i < links.len() ==> ((#[trigger] links[i]).0 == x <==> links[i].1 == x),
    ensures
        path[k] == x,
    decreases k,
{
    if k > 0 {
        lemma_path_stays(links, path, x, k - 1);
        let (a, b) = (path[k - 1], path[k - 1 + 1]);
        assert(links.contains((a, b)) || links.contains((b, a)));
        if links.contains((a, b)) {
            assert(links[links.index_of((a, b))] == (a, b));
        } else {
            assert(links[links.index_of((b, a))] == (b, a));
        }
    }
}

/// Each scenario has a monitor that speaks, or else a failure and the adaptive mode. Its settings are all
/// among the options.
pub proof fn law_scenarios_are_useful(
    inputs: Seq<MeasurementInput>,
    choices: Seq<Seq<usize>>,
    commit_hash: Seq<char>,
    o: ScenarioOptions,
    k: int,
)
    requires
        are_scenarios(inputs, choices, commit_hash, o),
        0 <= k < inputs.len(),
    ensures
        inputs[k].with_monitor_speaker || (inputs[k].with_failure && inputs[k].process_withdraws
            is Adaptive),
        inputs[k].commit_hash@ == commit_hash,
        o.num_external_networks@.contains(inputs[k].num_externals),
        o.num_route_reflectors@.contains(inputs[k].num_route_reflectors),
        o.num_external_events@.contains(inputs[k].num_external_events),
        o.with_failure@.contains(inputs[k].with_failure),
        o.with_monitor_speaker@.contains(inputs[k].with_monitor_speaker),
        o.with_reordering@.contains(inputs[k].with_reordering),
        o.with_debouncing@.contains(inputs[k].with_debouncing),
        o.process_withdraws@.contains(inputs[k].process_withdraws),
        o.seeds@.contains(inputs[k].seed),
        exists|i: int|
            0 <= i < o.topologies@.len() && (#[trigger] o.topologies@[i]).name@
                == inputs[k].topology@ && o.topologies@[i].num_internals == inputs[k].num_nodes
                && o.topologies@[i].num_internal_edges == inputs[k].num_edges,
{
    let v = choices[k];
    assert(choices.contains(v));
    assert(is_input_for(inputs[k], commit_hash, o, v));
    lemma_choice_in_range(o, v);
}

proof fn lemma_choice_in_range(o: ScenarioOptions, v: Seq<usize>)
    requires
        is_choice(option_sizes(o), v),
    ensures
        v[0] < o.topologies@.len(),
        v[1] < o.num_external_networks@.len(),
        v[2] < o.num_route_reflectors@.len(),
        v[3] < o.num_external_events@.len(),
        v[4] < o.with_failure@.len(),
        v[5] < o.with_monitor_speaker@.len(),
        v[6] < o.with_reordering@.len(),
        v[7] < o.with_debouncing@.len(),
        v[8] < o.process_withdraws@.len(),
        v[9] < o.seeds@.len(),
{
    let sizes = option_sizes(o);
    assert(v[0] < sizes[0] && v[1] < sizes[1] && v[2] < sizes[2] && v[3] < sizes[3]);
    assert(v[4] < sizes[4] && v[5] < sizes[5] && v[6] < sizes[6] && v[7] < sizes[7]);
    assert(v[8] < sizes[8] && v[9] < sizes[9]);
    assert(o.topologies.len() == o.topologies@.len());
    assert(o.num_external_networks.len() == o.num_external_networks@.len());
    assert(o.num_route_reflectors.len() == o.num_route_reflectors@.len());
    assert(o.num_external_events.len() == o.num_external_events@.len());
    assert(o.with_failure.len() == o.with_failure@.len());
    assert(o.with_monitor_speaker.len() == o.with_monitor_speaker@.len());
    assert(o.with_reordering.len() == o.with_reordering@.len());
    assert(o.with_debouncing.len() == o.with_debouncing@.len());
    assert(o.process_withdraws.len() == o.process_withdraws@.len());
    assert(o.seeds.len() == o.seeds@.len());
}

/// There is a scenario for every combination of options in which the monitor speaks.
pub proof fn law_every_speaking_scenario_is_there(
    inputs: Seq<MeasurementInput>,
    choices: Seq<Seq<usize>>,
    commit_hash: Seq<char>,
    o: ScenarioOptions,
    v: Seq<usize>,
) -> (k: int)
    requires
        are_scenarios(inputs, choices, commit_hash, o),
        is_choice(option_sizes(o), v),
        o.with_monitor_speaker@[v[5] as int] || (o.with_failure@[v[4] as int]
            && o.process_withdraws@[v[8] as int] is Adaptive),
    ensures
        0 <= k < inputs.len(),
        inputs[k].seed == o.seeds@[v[9] as int],
        inputs[k].with_failure == o.with_failure@[v[4] as int],
        inputs[k].with_monitor_speaker == o.with_monitor_speaker@[v[5] as int],
        inputs[k].with_reordering == o.with_reordering@[v[6] as int],
        inputs[k].with_debouncing == o.with_debouncing@[v[7] as int],
        inputs[k].process_withdraws == o.process_withdraws@[v[8] as int],
        inputs[k].num_externals == o.num_external_networks@[v[1] as int],
        inputs[k].num_route_reflectors == o.num_route_reflectors@[v[2] as int],
        inputs[k].num_external_events == o.num_external_events@[v[3] as int],
        inputs[k].topology@ == o.topologies@[v[0] as int].name@,
{
    assert(is_useful(o, v));
    assert(choices.contains(v));
    let k = choices.index_of(v);
    assert(is_input_for(inputs[k], commit_hash, o, choices[k]));
    k
}

} // verus!
