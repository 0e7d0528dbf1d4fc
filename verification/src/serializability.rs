//! Whether the orders in which several sessions commit messages contradict each other.
use vstd::prelude::*;

use crate::forking_monitor::ForkingMonitorPerSession;
use crate::numbering::{all_below, history_below, ids_below};

verus! {

#[verifier::external_type_specification]
#[verifier::external_body]
pub struct ExDirected(petgraph::Directed);

#[verifier::external_type_specification]
#[verifier::external_body]
#[verifier::reject_recursive_types(N)]
#[verifier::reject_recursive_types(E)]
#[verifier::reject_recursive_types(Ty)]
#[verifier::reject_recursive_types(Ix)]
pub struct ExGraph<N, E, Ty, Ix>(petgraph::Graph<N, E, Ty, Ix>);

/// A directed graph on numbered nodes.
pub type Precedence = petgraph::Graph<(), (), petgraph::Directed, usize>;

/// The edges of a graph, by the numbers of their ends.
pub uninterp spec fn graph_edges(
    g: petgraph::Graph<(), (), petgraph::Directed, usize>,
) -> Set<(usize, usize)>;

/// The number of nodes of a graph. They have the numbers from 0 on.
pub uninterp spec fn graph_nodes(
    g: petgraph::Graph<(), (), petgraph::Directed, usize>,
) -> nat;

/// A walk along the edges.
pub open spec fn is_walk(edges: Set<(usize, usize)>, walk: Seq<usize>) -> bool {
    forall|i: int| 0 <= i < walk.len() - 1 ==> edges.contains((#[trigger] walk[i], walk[i + 1]))
}

/// Some walk of at least one edge leads back to its start.
pub open spec fn has_cycle(edges: Set<(usize, usize)>) -> bool {
    exists|walk: Seq<usize>| #[trigger]
        is_walk(edges, walk) && walk.len() >= 2 && walk[0] == walk.last()
}

/// `petgraph::Graph::default`: a graph without nodes and edges.
#[verifier::external_body]
fn new_graph() -> (g: Precedence)
    ensures
        graph_nodes(g) == 0,
        graph_edges(g) == Set::<(usize, usize)>::empty(),
{
    petgraph::Graph::default()
}

/// `petgraph::Graph::add_node`: the new node gets the next number, and no edge.
#[verifier::external_body]
fn add_node(g: &mut Precedence)
    ensures
        graph_nodes(*final(g)) == graph_nodes(*old(g)) + 1,
        graph_edges(*final(g)) == graph_edges(*old(g)),
{
    g.add_node(());
}

/// `petgraph::Graph::add_edge`, which panics if one of the nodes does not exist: the graph gets an
/// edge from `a` to `b`. Whether there were such edges before makes no difference here.
#[verifier::external_body]
fn add_edge(g: &mut Precedence, a: usize, b: usize)
    requires
        a < graph_nodes(*old(g)),
        b < graph_nodes(*old(g)),
    ensures
        graph_nodes(*final(g)) == graph_nodes(*old(g)),
        graph_edges(*final(g)) == graph_edges(*old(g)).insert((a, b)),
{
    g.add_edge(a.into(), b.into(), ());
}

/// `petgraph::algo::is_cyclic_directed`: whether a directed graph contains a cycle; an edge from a
/// node to itself is one. The search is recursive, as deep as the longest path that it follows.
#[verifier::external_body]
fn is_cyclic(g: &Precedence) -> (r: bool)
    ensures
        r == has_cycle(graph_edges(*g)),
{
    petgraph::algo::is_cyclic_directed(g)
}

/// In a history, `a` is in the batch right before that of `b`.
pub open spec fn precedes(history: Seq<Vec<usize>>, a: usize, b: usize) -> bool {
    exists|k: int|
        0 <= k < history.len() - 1 && (#[trigger] history[k])@.contains(a) && history[k
            + 1]@.contains(b)
}

/// A choice of one fork per session.
pub open spec fn is_choice(sessions: Seq<(u32, ForkingMonitorPerSession)>, choice: Seq<int>) -> bool {
    &&& choice.len() == sessions.len()
    &&& forall|s: int|
        0 <= s < choice.len() ==> 0 <= #[trigger] choice[s] < sessions[s].1.forks@.len()
}

/// One of the first `n` chosen forks has `a` in the batch right before that of `b`.
pub open spec fn chosen_precedes(
    sessions: Seq<(u32, ForkingMonitorPerSession)>,
    choice: Seq<int>,
    n: int,
    a: usize,
    b: usize,
) -> bool {
    exists|s: int|
        0 <= s < n && precedes(
            sessions[s].1.forks@[#[trigger] choice[s]].commit_history@,
            a,
            b,
        )
}

/// The order that the chosen forks impose on the messages.
pub open spec fn chosen_order(
    sessions: Seq<(u32, ForkingMonitorPerSession)>,
    choice: Seq<int>,
) -> Set<(usize, usize)> {
    Set::new(
        |e: (usize, usize)|
            chosen_precedes(sessions, choice, choice.len() as int, e.0, e.1),
    )
}

/// Some choice of forks, beginning with `start`, imposes an order without contradiction.
pub open spec fn serializable_from(
    sessions: Seq<(u32, ForkingMonitorPerSession)>,
    start: Seq<int>,
) -> bool {
    exists|choice: Seq<int>| #[trigger]
        is_choice(sessions, choice) && start.is_prefix_of(choice) && !has_cycle(
            chosen_order(sessions, choice),
        )
}

/// Some choice of forks imposes an order without contradiction.
pub open spec fn serializable(sessions: Seq<(u32, ForkingMonitorPerSession)>) -> bool {
    serializable_from(sessions, Seq::empty())
}

/// Add an edge from every message of one batch to every message of the next.
fn add_batches(g: &mut Precedence, before: &Vec<usize>, after: &Vec<usize>)
    requires
        forall|a: usize| before@.contains(a) ==> a < graph_nodes(*old(g)),
        forall|b: usize| after@.contains(b) ==> b < graph_nodes(*old(g)),
    ensures
        graph_nodes(*final(g)) == graph_nodes(*old(g)),
        forall|a: usize, b: usize| #[trigger]
            graph_edges(*final(g)).contains((a, b)) <==> graph_edges(*old(g)).contains((a, b)) || (
            before@.contains(a) && after@.contains(b)),
{
    let ghost base = graph_edges(*g);
    let ghost nodes = graph_nodes(*g);
    for i in 0..before.len()
        invariant
            nodes == graph_nodes(*g),
            forall|a: usize| before@.contains(a) ==> a < nodes,
            forall|b: usize| after@.contains(b) ==> b < nodes,
            forall|a: usize, b: usize| #[trigger]
                graph_edges(*g).contains((a, b)) <==> base.contains((a, b)) || (before@.take(
                    i as int,
                ).contains(a) && after@.contains(b)),
    {
        let ghost edges = graph_edges(*g);
        let x: usize = before[i];
        assert(before@.contains(x));
        for j in 0..after.len()
            invariant
                i < before@.len(),
                x < nodes,
                nodes == graph_nodes(*g),
                forall|b: usize| after@.contains(b) ==> b < nodes,
                forall|a: usize, b: usize| #[trigger]
                    graph_edges(*g).contains((a, b)) <==> edges.contains((a, b)) || (a == x
                        && after@.take(j as int).contains(b)),
        {
            let y: usize = after[j];
            assert(after@.contains(y));
            let ghost cur = graph_edges(*g);
            add_edge(g, x, y);
            proof {
                let (u, v) = (after@.take(j as int), after@.take(j + 1));
                assert(v =~= u.push(y));
                assert forall|a: usize, b: usize| #[trigger]
                    graph_edges(*g).contains((a, b)) <==> edges.contains((a, b)) || (a == x
                        && v.contains(b)) by {
                    assert(cur.contains((a, b)) <==> edges.contains((a, b)) || (a == x
                        && u.contains(b)));
                    assert(v.contains(b) <==> u.contains(b) || b == y) by {
                        broadcast use vstd::seq_lib::group_seq_properties;

                    }
                }
            }
        }
        proof {
            assert(after@.take(after@.len() as int) =~= after@);
            let (u, v) = (before@.take(i as int), before@.take(i + 1));
            assert(v =~= u.push(x));
            assert forall|a: usize, b: usize| #[trigger]
                graph_edges(*g).contains((a, b)) <==> base.contains((a, b)) || (v.contains(a)
                    && after@.contains(b)) by {
                assert(edges.contains((a, b)) <==> base.contains((a, b)) || (u.contains(a)
                    && after@.contains(b)));
                assert(v.contains(a) <==> u.contains(a) || a == x) by {
                    broadcast use vstd::seq_lib::group_seq_properties;

                }
            }
        }
    }
    assert(before@.take(before@.len() as int) =~= before@);
}

/// Add the order of a history.
fn add_history(g: &mut Precedence, history: &Vec<Vec<usize>>)
    requires
        history_below(history@, graph_nodes(*old(g))),
    ensures
        graph_nodes(*final(g)) == graph_nodes(*old(g)),
        forall|a: usize, b: usize| #[trigger]
            graph_edges(*final(g)).contains((a, b)) <==> graph_edges(*old(g)).contains((a, b))
                || precedes(history@, a, b),
{
    let ghost base = graph_edges(*g);
    let ghost nodes = graph_nodes(*g);
    if history.len() == 0 {
        return;
    }
    for k in 0..history.len() - 1
        invariant
            history@.len() > 0,
            nodes == graph_nodes(*g),
            history_below(history@, nodes),
            forall|a: usize, b: usize| #[trigger]
                graph_edges(*g).contains((a, b)) <==> base.contains((a, b)) || precedes(
                    history@.take(k + 1),
                    a,
                    b,
                ),
    {
        let ghost edges = graph_edges(*g);
        add_batches(g, &history[k], &history[k + 1]);
        proof {
            let (u, v) = (history@.take(k + 1), history@.take(k + 2));
            assert forall|a: usize, b: usize| #[trigger]
                graph_edges(*g).contains((a, b)) <==> base.contains((a, b)) || precedes(
                    v,
                    a,
                    b,
                ) by {
                assert(edges.contains((a, b)) <==> base.contains((a, b)) || precedes(u, a, b));
                if precedes(u, a, b) {
                    let i = choose|i: int|
                        0 <= i < u.len() - 1 && (#[trigger] u[i])@.contains(a) && u[i
                            + 1]@.contains(b);
                    assert(v[i] == u[i] && v[i + 1] == u[i + 1]);
                }
                if history@[k as int]@.contains(a) && history@[k + 1]@.contains(b) {
                    assert(v[k as int]@.contains(a) && v[k + 1]@.contains(b));
                }
                if precedes(v, a, b) {
                    let i = choose|i: int|
                        0 <= i < v.len() - 1 && (#[trigger] v[i])@.contains(a) && v[i
                            + 1]@.contains(b);
                    if i < k {
                        assert(v[i] == u[i] && v[i + 1] == u[i + 1]);
                    } else {
                        assert(v[i] == history@[k as int] && v[i + 1] == history@[k + 1]);
                    }
                }
            }
        }
    }
    assert(history@.take(history@.len() as int) =~= history@);
}

/// Whether the order that the chosen forks impose has a contradiction.
fn is_contradictory(
    sessions: &Vec<(u32, ForkingMonitorPerSession)>,
    choice: &Vec<usize>,
    num_messages: usize,
) -> (r: bool)
    requires
        is_choice(sessions@, as_ints(choice@)),
        forall|s: int|
            0 <= s < sessions@.len() ==> all_below(
                (#[trigger] sessions@[s]).1.forks@,
                num_messages as nat,
            ),
    ensures
        r == has_cycle(chosen_order(sessions@, as_ints(choice@))),
{
    let ghost picks = as_ints(choice@);
    let mut g: Precedence = new_graph();
    for i in 0..num_messages
        invariant
            graph_nodes(g) == i,
            graph_edges(g) == Set::<(usize, usize)>::empty(),
    {
        add_node(&mut g);
    }
    for s in 0..choice.len()
        invariant
            picks == as_ints(choice@),
            is_choice(sessions@, picks),
            graph_nodes(g) == num_messages,
            forall|t: int|
                0 <= t < sessions@.len() ==> all_below(
                    (#[trigger] sessions@[t]).1.forks@,
                    num_messages as nat,
                ),
            forall|a: usize, b: usize| #[trigger]
                graph_edges(g).contains((a, b)) <==> chosen_precedes(
                    sessions@,
                    picks,
                    s as int,
                    a,
                    b,
                ),
    {
        let ghost edges = graph_edges(g);
        let c: usize = choice[s];
        assert(picks[s as int] == c);
        let ghost fork = sessions@[s as int].1.forks@[c as int];
        assert(history_below(fork.commit_history@, num_messages as nat)) by {
            assert(all_below(sessions@[s as int].1.forks@, num_messages as nat));
            assert(ids_below(fork, num_messages as nat));
            reveal(ids_below);
        }
        add_history(&mut g, &sessions[s].1.forks[c].commit_history);
        proof {
            assert forall|a: usize, b: usize| #[trigger]
                graph_edges(g).contains((a, b)) <==> chosen_precedes(
                    sessions@,
                    picks,
                    s + 1,
                    a,
                    b,
                ) by {
                assert(edges.contains((a, b)) <==> chosen_precedes(
                    sessions@,
                    picks,
                    s as int,
                    a,
                    b,
                ));
                if chosen_precedes(sessions@, picks, s as int, a, b) {
                    let t = choose|t: int|
                        0 <= t < s && precedes(
                            sessions@[t].1.forks@[#[trigger] picks[t]].commit_history@,
                            a,
                            b,
                        );
                    assert(precedes(sessions@[t].1.forks@[picks[t]].commit_history@, a, b));
                }
                if precedes(fork.commit_history@, a, b) {
                    assert(precedes(
                        sessions@[s as int].1.forks@[picks[s as int]].commit_history@,
                        a,
                        b,
                    ));
                }
                if chosen_precedes(sessions@, picks, s + 1, a, b) {
                    let t = choose|t: int|
                        0 <= t < s + 1 && precedes(
                            sessions@[t].1.forks@[#[trigger] picks[t]].commit_history@,
                            a,
                            b,
                        );
                    if t < s {
                        assert(precedes(sessions@[t].1.forks@[picks[t]].commit_history@, a, b));
                    }
                }
            }
        }
    }
    proof {
        let want = chosen_order(sessions@, picks);
        assert(graph_edges(g) =~= want) by {
            assert forall|e: (usize, usize)| graph_edges(g).contains(e) == #[trigger] want.contains(
                e,
            ) by {
                assert(graph_edges(g).contains((e.0, e.1)) <==> chosen_precedes(
                    sessions@,
                    picks,
                    picks.len() as int,
                    e.0,
                    e.1,
                ));
            }
        }
    }
    is_cyclic(&g)
}

/// A list of positions.
pub open spec fn as_ints(v: Seq<usize>) -> Seq<int> {
    v.map_values(|x: usize| x as int)
}

/// Whether some choice of forks, beginning with `choice`, imposes an order without contradiction.
fn search(
    sessions: &Vec<(u32, ForkingMonitorPerSession)>,
    choice: &mut Vec<usize>,
    num_messages: usize,
) -> (r: bool)
    requires
        old(choice)@.len() <= sessions@.len(),
        forall|s: int|
            0 <= s < old(choice)@.len() ==> #[trigger] old(choice)@[s]
                < sessions@[s].1.forks@.len(),
        forall|s: int|
            0 <= s < sessions@.len() ==> all_below(
                (#[trigger] sessions@[s]).1.forks@,
                num_messages as nat,
            ),
    ensures
        final(choice)@ == old(choice)@,
        r == serializable_from(sessions@, as_ints(old(choice)@)),
    decreases sessions@.len() - old(choice)@.len(),
{
    let ghost start = choice@;
    let depth: usize = choice.len();
    if depth == sessions.len() {
        proof {
            assert(is_choice(sessions@, as_ints(start)));
            assert forall|c: Seq<int>| #[trigger]
                is_choice(sessions@, c) && as_ints(start).is_prefix_of(c) implies c == as_ints(
                start,
            ) by {
                assert(c =~= as_ints(start));
            }
            assert(as_ints(start).is_prefix_of(as_ints(start)));
        }
        return !is_contradictory(sessions, choice, num_messages);
    }
    let n: usize = sessions[depth].1.forks.len();
    for i in 0..n
        invariant
            start == old(choice)@,
            choice@ == start,
            depth == start.len(),
            depth < sessions@.len(),
            n == sessions@[depth as int].1.forks@.len(),
            forall|s: int|
                0 <= s < start.len() ==> #[trigger] start[s] < sessions@[s].1.forks@.len(),
            forall|s: int|
                0 <= s < sessions@.len() ==> all_below(
                    (#[trigger] sessions@[s]).1.forks@,
                    num_messages as nat,
                ),
            forall|k: int|
                0 <= k < i ==> !serializable_from(
                    sessions@,
                    #[trigger] as_ints(start).push(k),
                ),
        decreases n - i,
    {
        choice.push(i);
        proof {
            assert(as_ints(choice@) =~= as_ints(start).push(i as int));
        }
        let found: bool = search(sessions, choice, num_messages);
        let _ = choice.pop();
        assert(choice@ =~= start);
        if found {
            proof {
                let next = as_ints(start).push(i as int);
                let c = choose|c: Seq<int>| #[trigger]
                    is_choice(sessions@, c) && next.is_prefix_of(c) && !has_cycle(
                        chosen_order(sessions@, c),
                    );
                assert(as_ints(start).is_prefix_of(c)) by {
                    assert forall|j: int| 0 <= j < as_ints(start).len() implies as_ints(start)[j]
                        == c[j] by {
                        assert(next[j] == as_ints(start)[j]);
                        assert(c.take(next.len() as int)[j] == c[j]);
                    }
                    assert(as_ints(start) =~= c.take(as_ints(start).len() as int));
                }
            }
            return true;
        }
    }
    proof {
        if serializable_from(sessions@, as_ints(start)) {
            let c = choose|c: Seq<int>| #[trigger]
                is_choice(sessions@, c) && as_ints(start).is_prefix_of(c) && !has_cycle(
                    chosen_order(sessions@, c),
                );
            let k = c[depth as int];
            let next = as_ints(start).push(k);
            assert(next =~= c.take(next.len() as int)) by {
                assert forall|j: int| 0 <= j < next.len() implies next[j] == c[j] by {
                    if j < depth {
                        assert(as_ints(start)[j] == c.take(as_ints(start).len() as int)[j]);
                    }
                }
            }
            assert(next.is_prefix_of(c));
            assert(serializable_from(sessions@, next));
            assert(false);
        }
    }
    false
}

/// Whether some choice of one fork per session imposes an order without contradiction.
pub fn is_serializable(
    sessions: &Vec<(u32, ForkingMonitorPerSession)>,
    num_messages: usize,
) -> (r: bool)
    requires
        forall|s: int|
            0 <= s < sessions@.len() ==> all_below(
                (#[trigger] sessions@[s]).1.forks@,
                num_messages as nat,
            ),
    ensures
        r == serializable(sessions@),
{
    let mut choice: Vec<usize> = Vec::new();
    assert(as_ints(choice@) =~= Seq::<int>::empty());
    search(sessions, &mut choice, num_messages)
}

/// An order has no cycle if there is a rank that grows along it. An edge from a message to itself is a
/// cycle, and so are edges in both directions.
pub proof fn law_cycles(edges: Set<(usize, usize)>, rank: spec_fn(usize) -> int, a: usize, b: usize)
    ensures
        (forall|e: (usize, usize)| #[trigger] edges.contains(e) ==> rank(e.0) < rank(e.1))
            ==> !has_cycle(edges),
        edges.contains((a, a)) ==> has_cycle(edges),
        edges.contains((a, b)) && edges.contains((b, a)) ==> has_cycle(edges),
        !has_cycle(Set::empty()),
{
    if edges.contains((a, a)) {
        let walk = seq![a, a];
        assert(is_walk(edges, walk) && walk[0] == walk.last());
    }
    if edges.contains((a, b)) && edges.contains((b, a)) {
        let walk = seq![a, b, a];
        assert(is_walk(edges, walk) && walk[0] == walk.last());
    }
    if forall|e: (usize, usize)| #[trigger] edges.contains(e) ==> rank(e.0) < rank(e.1) {
        assert forall|walk: Seq<usize>| #[trigger] is_walk(edges, walk) && walk.len() >= 2 implies walk[0]
            != walk.last() by {
            lemma_rank_grows(edges, rank, walk, walk.len() - 1);
        }
    }
    assert forall|walk: Seq<usize>| walk.len() >= 2 implies !#[trigger] is_walk(
        Set::<(usize, usize)>::empty(),
        walk,
    ) by {
        if is_walk(Set::<(usize, usize)>::empty(), walk) {
            assert(Set::<(usize, usize)>::empty().contains((walk[0], walk[0int + 1])));
        }
    }
}

proof fn lemma_rank_grows(
    edges: Set<(usize, usize)>,
    rank: spec_fn(usize) -> int,
    walk: Seq<usize>,
    k: int,
)
    requires
        is_walk(edges, walk),
        0 < k < walk.len(),
        forall|e: (usize, usize)| #[trigger] edges.contains(e) ==> rank(e.0) < rank(e.1),
    ensures
        rank(walk[0]) < rank(walk[k]),
    decreases k,
{
    assert(edges.contains((walk[k - 1], walk[k - 1 + 1])));
    if k > 1 {
        lemma_rank_grows(edges, rank, walk, k - 1);
    }
}

/// Sessions whose forks leave no choice but contradict each other on two messages cannot be put in an
/// order: one of them has a message in the batch right before that of the other, and the other session has
/// them the other way round.
pub proof fn law_contradicting_sessions(
    sessions: Seq<(u32, ForkingMonitorPerSession)>,
    s: int,
    t: int,
    a: usize,
    b: usize,
    j: int,
    k: int,
)
    requires
        0 <= s < sessions.len(),
        0 <= t < sessions.len(),
        sessions[s].1.forks@.len() == 1,
        sessions[t].1.forks@.len() == 1,
        0 <= j < sessions[s].1.forks@[0].commit_history@.len() - 1,
        sessions[s].1.forks@[0].commit_history@[j]@.contains(a),
        sessions[s].1.forks@[0].commit_history@[j + 1]@.contains(b),
        0 <= k < sessions[t].1.forks@[0].commit_history@.len() - 1,
        sessions[t].1.forks@[0].commit_history@[k]@.contains(b),
        sessions[t].1.forks@[0].commit_history@[k + 1]@.contains(a),
    ensures
        !serializable(sessions),
{
    assert forall|choice: Seq<int>| #[trigger] is_choice(sessions, choice) implies has_cycle(
        chosen_order(sessions, choice),
    ) by {
        assert(choice[s] == 0 && choice[t] == 0);
        assert(precedes(sessions[s].1.forks@[choice[s]].commit_history@, a, b));
        assert(precedes(sessions[t].1.forks@[choice[t]].commit_history@, b, a));
        let order = chosen_order(sessions, choice);
        assert(order.contains((a, b)) && order.contains((b, a)));
        law_cycles(order, |x: usize| 0, a, b);
    }
}

/// If each session has a fork that agrees with one order of the messages, then the sessions agree.
pub proof fn law_agreeing_sessions(
    sessions: Seq<(u32, ForkingMonitorPerSession)>,
    choice: Seq<int>,
    rank: spec_fn(usize) -> int,
)
    requires
        choice.len() == sessions.len(),
        forall|s: int|
            0 <= s < choice.len() ==> 0 <= #[trigger] choice[s] < sessions[s].1.forks@.len(),
        forall|s: int, k: int, a: usize, b: usize|
            #![trigger sessions[s].1.forks@[choice[s]].commit_history@[k]@.contains(a), sessions[s].1.forks@[choice[s]].commit_history@[k + 1]@.contains(b)]
            0 <= s < choice.len() && 0 <= k < sessions[s].1.forks@[choice[s]].commit_history@.len() - 1
                && sessions[s].1.forks@[choice[s]].commit_history@[k]@.contains(a)
                && sessions[s].1.forks@[choice[s]].commit_history@[k + 1]@.contains(b) ==> rank(a)
                < rank(b),
    ensures
        serializable(sessions),
{
    let order = chosen_order(sessions, choice);
    assert forall|e: (usize, usize)| #[trigger] order.contains(e) implies rank(e.0) < rank(e.1) by {
        let s = choose|s: int|
            0 <= s < choice.len() && precedes(
                sessions[s].1.forks@[#[trigger] choice[s]].commit_history@,
                e.0,
                e.1,
            );
        let h = sessions[s].1.forks@[choice[s]].commit_history@;
        let k = choose|k: int|
            0 <= k < h.len() - 1 && (#[trigger] h[k])@.contains(e.0) && h[k + 1]@.contains(e.1);
        assert(h[k]@.contains(e.0) && h[k + 1]@.contains(e.1));
    }
    law_cycles(order, rank, 0, 0);
    assert(is_choice(sessions, choice));
    assert(Seq::<int>::empty().is_prefix_of(choice));
}

} // verus!
