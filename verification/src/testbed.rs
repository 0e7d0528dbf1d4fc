//! Experiments: their settings, the plan of their runs, and the results that are kept of them.
use vstd::prelude::*;
use vstd::string::*;

use crate::bgp::{AsId, BgpSessionType, Prefix, RouterId};
use crate::generator::UniformEventGenerator;
use crate::keyed::Keyed;
use crate::number_set::NumberSet;
use crate::random::{seeded, seeded_state};
use crate::reconfiguration::{Gns3Config, PreConfig};
use crate::route_map::{RouteMap, RouteMapView};
use crate::run::{is_summary, RunConfig, SequenceResult, SequenceResultSummary};
use crate::strings::{
    ends_with, is_name_before, lemma_name_order, name_before, number_up_to, parse_number,
    starts_with, strip_prefix, strip_suffix,
};
use crate::text::{append_number, decimal};

verus! {

/// The settings of a network.
#[derive(Debug, Clone, Copy)]
pub struct BaselineNetworkConfig {
    /// The number of external routers
    pub n_external: usize,
    /// Whether to use a monitor speaker
    pub with_monitor_speaker: bool,
}

/// The settings of an experiment.
#[derive(Debug)]
pub struct ExperimentConfig {
    pub seed: u64,
    /// The number of runs
    pub runs: usize,
    /// The settings of a run
    pub run_config: RunConfig,
    /// The settings of the simulated network
    pub network_config: BaselineNetworkConfig,
    /// The settings of the emulated network
    pub gns3_config: Gns3Config,
    /// The prefixes for which events are generated
    pub external_prefixes: Vec<Prefix>,
    /// The prefixes on which the networks are compared, and which are monitored
    pub monitoring_prefixes: NumberSet,
    /// The MRAI value, if the monitor may know of it
    pub monitoring_mrai: Option<u16>,
}

/// The number of sequences of an experiment.
pub fn num_sequences(runs: usize, config: &RunConfig) -> (r: u64)
    requires
        runs * config.max_sequences <= usize::MAX,
    ensures
        r == runs * config.max_sequences,
{
    (runs * config.max_sequences) as u64
}

/// Only an experiment with a prefix list is reconfigured while it runs.
pub open spec fn reconfigures(config: ExperimentConfig) -> bool {
    config.gns3_config.pre_config matches Some(PreConfig::Whitelist { .. })
}

fn copy_prefixes(prefixes: &Vec<Prefix>) -> (r: Vec<Prefix>)
    ensures
        r@ == prefixes@,
{
    let mut r: Vec<Prefix> = Vec::new();
    for i in 0..prefixes.len()
        invariant
            r@ == prefixes@.take(i as int),
    {
        r.push(prefixes[i]);
        assert(prefixes@.take(i + 1) =~= prefixes@.take(i as int).push(prefixes@[i as int]));
    }
    assert(prefixes@.take(prefixes@.len() as int) =~= prefixes@);
    r
}

/// The generator of events for a run. Its seed is that of the experiment plus the number of the run.
pub fn generator_for_run(
    config: &ExperimentConfig,
    number: usize,
    external_routers: Keyed<AsId>,
) -> (r: UniformEventGenerator)
    requires
        config.seed + number <= u64::MAX,
        external_routers.wf(),
        external_routers.entries@.len() > 0 ==> config.external_prefixes@.len() > 0,
    ensures
        r.wf(),
        r.prefixes@ == config.external_prefixes@,
        r.routers == external_routers,
        r.reconfig == reconfigures(*config),
        r.advertised() == Set::<(RouterId, Prefix)>::empty(),
        r.rng == seeded_state((config.seed + number) as u64),
{
    let with_reconfiguration: bool = match &config.gns3_config.pre_config {
        Some(PreConfig::Whitelist { .. }) => true,
        _ => false,
    };
    UniformEventGenerator::new(
        seeded(config.seed + number as u64),
        external_routers,
        copy_prefixes(&config.external_prefixes),
        with_reconfiguration,
    )
}

/// The name of a file of a run.
pub open spec fn file_name(number: usize, extension: Seq<char>) -> Seq<char> {
    "run_"@ + decimal(number as nat) + extension
}

/// The name of the log of a run.
pub fn log_name(number: usize) -> (r: String)
    ensures
        r@ == file_name(number, ".log"@),
{
    let mut r = String::from_str("run_");
    append_number(&mut r, number as u64);
    r.append(".log");
    r
}

/// The name of the file with the results of a run.
pub fn results_name(number: usize) -> (r: String)
    ensures
        r@ == file_name(number, ".json"@),
{
    let mut r = String::from_str("run_");
    append_number(&mut r, number as u64);
    r.append(".json");
    r
}

/// What is said of an experiment that was completed.
pub fn completion_message(successful: usize, runs: usize) -> (r: String)
    ensures
        r@ == "Completed "@ + decimal(successful as nat) + " successful runs out of "@ + decimal(
            runs as nat,
        ),
{
    let mut r = String::from_str("Completed ");
    append_number(&mut r, successful as u64);
    r.append(" successful runs out of ");
    append_number(&mut r, runs as u64);
    r
}

/// The prefix is monitored in one of the sequences.
pub open spec fn is_monitored(results: Seq<SequenceResult>, p: Prefix) -> bool {
    exists|i: int| 0 <= i < results.len() && (#[trigger] results[i]).monitored_prefixes@.contains(p)
}

/// The prefixes that are monitored in some sequence.
fn monitored_prefixes(results: &Vec<SequenceResult>) -> (r: NumberSet)
    requires
        forall|i: int| 0 <= i < results@.len() ==> (#[trigger] results@[i]).wf(),
    ensures
        r.wf(),
        forall|p: Prefix| #[trigger] r@.contains(p) <==> is_monitored(results@, p),
{
    let ghost all = results@;
    let n: usize = results.len();
    let mut r = NumberSet::new();
    let mut i: usize = 0;
    while i < n
        invariant
            i <= n,
            n == all.len(),
            all == results@,
            r.wf(),
            forall|p: Prefix| #[trigger]
                r@.contains(p) <==> exists|j: int|
                    0 <= j < i && (#[trigger] all[j]).monitored_prefixes@.contains(p),
        decreases n - i,
    {
        let ghost outer = r@;
        let ghost items = all[i as int].monitored_prefixes.items@;
        let count: usize = results[i].monitored_prefixes.items.len();
        let mut j: usize = 0;
        while j < count
            invariant
                i < n,
                n == all.len(),
                all == results@,
                j <= count,
                count == items.len(),
                items == all[i as int].monitored_prefixes.items@,
                r.wf(),
                forall|p: Prefix| #[trigger]
                    r@.contains(p) <==> outer.contains(p) || items.take(j as int).contains(p),
            decreases count - j,
        {
            let ghost before = r@;
            r.insert(results[i].monitored_prefixes.items[j]);
            proof {
                broadcast use vstd::seq_lib::group_seq_properties;

                assert(items.take(j + 1) =~= items.take(j as int).push(items[j as int]));
                assert forall|p: Prefix| #[trigger] r@.contains(p) <==> outer.contains(p)
                    || items.take(j + 1).contains(p) by {
                    assert(before.contains(p) || !before.contains(p));
                }
            }
            j += 1;
        }
        proof {
            assert(items.take(count as int) =~= items);
            assert forall|p: Prefix| #[trigger] r@.contains(p) <==> exists|j: int|
                0 <= j < i + 1 && (#[trigger] all[j]).monitored_prefixes@.contains(p) by {
                assert(outer.contains(p) || !outer.contains(p));
                assert(all[i as int].monitored_prefixes@.contains(p) == items.contains(p));
            }
        }
        i += 1;
    }
    r
}

/// The row is the overview of one of the results, for a prefix that was monitored.
pub open spec fn is_row(
    row: SequenceResultSummary,
    run_number: usize,
    results: Seq<SequenceResult>,
) -> bool {
    &&& row.sequence < results.len()
    &&& results[row.sequence as int].monitored_prefixes@.contains(row.prefix)
    &&& is_summary(
        row,
        run_number,
        row.sequence,
        row.prefix,
        results[row.sequence as int],
    )
}

/// Row `a` stands before row `b`: by prefix, and then by sequence.
pub open spec fn row_before(a: SequenceResultSummary, b: SequenceResultSummary) -> bool {
    a.prefix < b.prefix || (a.prefix == b.prefix && a.sequence < b.sequence)
}

/// The rows have one for a sequence and a prefix.
pub open spec fn has_row(
    rows: Seq<SequenceResultSummary>,
    sequence: usize,
    prefix: Prefix,
) -> bool {
    exists|k: int|
        0 <= k < rows.len() && (#[trigger] rows[k]).sequence == sequence && rows[k].prefix == prefix
}

/// The rows that are kept of a run: one for each sequence and each prefix that was monitored in it,
/// sorted by prefix and then by sequence.
pub fn summarize_run(run_number: usize, results: &Vec<SequenceResult>) -> (rows: Vec<
    SequenceResultSummary,
>)
    requires
        forall|i: int| 0 <= i < results@.len() ==> (#[trigger] results@[i]).wf(),
    ensures
        forall|k: int| 0 <= k < rows@.len() ==> is_row(#[trigger] rows@[k], run_number, results@),
        forall|k: int, l: int|
            0 <= k < l < rows@.len() ==> row_before(#[trigger] rows@[k], #[trigger] rows@[l]),
        forall|i: usize, p: Prefix|
            i < results@.len() && results@[i as int].monitored_prefixes@.contains(p)
                ==> #[trigger] has_row(rows@, i, p),
{
    let ghost all = results@;
    let prefixes = monitored_prefixes(results);
    let ghost items = prefixes.items@;
    let m: usize = prefixes.items.len();
    let n: usize = results.len();
    let mut rows: Vec<SequenceResultSummary> = Vec::new();
    let mut a: usize = 0;
    while a < m
        invariant
            a <= m,
            m == items.len(),
            n == all.len(),
            all == results@,
            items == prefixes.items@,
            prefixes.wf(),
            forall|i: int| 0 <= i < all.len() ==> (#[trigger] all[i]).wf(),
            forall|k: int| 0 <= k < rows@.len() ==> is_row(#[trigger] rows@[k], run_number, all),
            forall|k: int, l: int|
                0 <= k < l < rows@.len() ==> row_before(#[trigger] rows@[k], #[trigger] rows@[l]),
            forall|k: int|
                0 <= k < rows@.len() ==> a > 0 && (#[trigger] rows@[k]).prefix <= items[a - 1],
            forall|i: usize, b: int|
                #![trigger has_row(rows@, i, items[b])]
                i < all.len() && 0 <= b < a && all[i as int].monitored_prefixes@.contains(items[b])
                    ==> has_row(rows@, i, items[b]),
        decreases m - a,
    {
        let prefix: Prefix = prefixes.items[a];
        let mut i: usize = 0;
        while i < n
            invariant
                a < m,
                m == items.len(),
                i <= n,
                n == all.len(),
                all == results@,
                items == prefixes.items@,
                prefixes.wf(),
                prefix == items[a as int],
                forall|i: int| 0 <= i < all.len() ==> (#[trigger] all[i]).wf(),
                forall|k: int| 0 <= k < rows@.len() ==> is_row(#[trigger] rows@[k], run_number, all),
                forall|k: int, l: int|
                    0 <= k < l < rows@.len() ==> row_before(
                        #[trigger] rows@[k],
                        #[trigger] rows@[l],
                    ),
                forall|k: int|
                    0 <= k < rows@.len() ==> (#[trigger] rows@[k]).prefix < prefix || (
                    rows@[k].prefix == prefix && rows@[k].sequence < i),
                forall|j: usize, b: int|
                    #![trigger has_row(rows@, j, items[b])]
                    j < all.len() && 0 <= b < a && all[j as int].monitored_prefixes@.contains(
                        items[b],
                    ) ==> has_row(rows@, j, items[b]),
                forall|j: usize|
                    j < i && all[j as int].monitored_prefixes@.contains(prefix)
                        ==> #[trigger] has_row(rows@, j, prefix),
            decreases n - i,
        {
            let ghost before = rows@;
            assert(all[i as int].wf());
            if results[i].monitored_prefixes.contains(prefix) {
                rows.push(SequenceResultSummary::from((run_number, i, prefix, &results[i])));
                assert(rows@.last().sequence == i && rows@.last().prefix == prefix);
            }
            proof {
                assert forall|j: usize, p: Prefix| #[trigger] has_row(before, j, p) implies has_row(
                    rows@,
                    j,
                    p,
                ) by {
                    let k = choose|k: int|
                        0 <= k < before.len() && (#[trigger] before[k]).sequence == j
                            && before[k].prefix == p;
                    assert(rows@[k] == before[k]);
                }
                assert forall|j: usize, b: int|
                    #![trigger has_row(rows@, j, items[b])]
                    j < all.len() && 0 <= b < a && all[j as int].monitored_prefixes@.contains(
                        items[b],
                    ) implies has_row(rows@, j, items[b]) by {
                    assert(has_row(before, j, items[b]));
                }
                assert forall|j: usize|
                    j < i + 1 && all[j as int].monitored_prefixes@.contains(
                        prefix,
                    ) implies #[trigger] has_row(rows@, j, prefix) by {
                    if j < i {
                        assert(has_row(before, j, prefix));
                    } else {
                        assert(rows@[rows@.len() - 1].sequence == j);
                    }
                }
            }
            i += 1;
        }
        a += 1;
    }
    proof {
        assert forall|i: usize, p: Prefix|
            i < results@.len() && results@[i as int].monitored_prefixes@.contains(
                p,
            ) implies #[trigger] has_row(rows@, i, p) by {
            assert(is_monitored(all, p));
            assert(prefixes@.contains(p));
            assert(items.contains(p));
            let b = items.index_of(p);
            assert(has_row(rows@, i, items[b]));
        }
    }
    rows
}

/// The number of the run that a file with results belongs to, if it is one.
pub open spec fn run_number(name: Seq<char>) -> Option<nat> {
    let rest = name.skip("run_"@.len() as int);
    if starts_with(name, "run_"@) && ends_with(rest, ".json"@) {
        number_up_to(rest.take(rest.len() - ".json"@.len()), usize::MAX as nat)
    } else {
        None
    }
}

/// The number of the run that a file with results belongs to, if it is one.
pub fn parse_run_number(name: &str) -> (r: Option<usize>)
    ensures
        match r {
            Some(n) => run_number(name@) == Some(n as nat),
            None => run_number(name@) is None,
        },
{
    match strip_prefix(name, "run_") {
        Some(rest) => match strip_suffix(rest, ".json") {
            Some(digits) => match parse_number(digits, usize::MAX as u64) {
                Some(n) => Some(n as usize),
                None => None,
            },
            None => None,
        },
        None => None,
    }
}

/// The run is one of those that are asked for.
pub open spec fn is_wanted(run_numbers: Option<Vec<usize>>, n: usize) -> bool {
    match run_numbers {
        Some(numbers) => numbers@.contains(n),
        None => true,
    }
}

/// Whether the list holds the number.
fn holds_number(numbers: &Vec<usize>, n: usize) -> (r: bool)
    ensures
        r == numbers@.contains(n),
{
    for i in 0..numbers.len()
        invariant
            forall|j: int| 0 <= j < i ==> numbers@[j] != n,
    {
        if numbers[i] == n {
            return true;
        }
    }
    false
}

/// Whether the run is one of those that are asked for.
fn wants(run_numbers: &Option<Vec<usize>>, n: usize) -> (r: bool)
    ensures
        r == is_wanted(*run_numbers, n),
{
    match run_numbers {
        Some(numbers) => holds_number(numbers, n),
        None => true,
    }
}

/// File `i` is the last one with results of run `n`.
pub open spec fn is_file_of(names: Seq<String>, i: int, n: usize) -> bool {
    &&& 0 <= i < names.len()
    &&& run_number(names[i]@) == Some(n as nat)
    &&& forall|j: int| i < j < names.len() ==> run_number((#[trigger] names[j])@) != Some(n as nat)
}

/// The files with the results of the runs that are asked for: the number of the run, and the position
/// of the file. If several files belong to a run, the last of them counts.
pub fn select_runs(names: &Vec<String>, run_numbers: &Option<Vec<usize>>) -> (r: Vec<
    (usize, usize),
>)
    ensures
        forall|n: usize, i: usize| #[trigger]
            r@.contains((n, i)) <==> is_file_of(names@, i as int, n) && is_wanted(*run_numbers, n),
        r@.no_duplicates(),
{
    let total: usize = names.len();
    let mut r: Vec<(usize, usize)> = Vec::new();
    let mut i: usize = 0;
    while i < total
        invariant
            i <= total,
            total == names@.len(),
            forall|n: usize, k: usize| #[trigger]
                r@.contains((n, k)) <==> k < i && is_file_of(names@, k as int, n) && is_wanted(
                    *run_numbers,
                    n,
                ),
            r@.no_duplicates(),
        decreases total - i,
    {
        let ghost before = r@;
        let mut found: Option<usize> = None;
        match parse_run_number(names[i].as_str()) {
            Some(n) => {
                if wants(run_numbers, n) && is_last_file(names, i, n) {
                    r.push((n, i));
                    found = Some(n);
                }
            },
            None => {},
        }
        proof {
            assert forall|n: usize, k: usize| #[trigger] r@.contains((n, k)) <==> k < i + 1
                && is_file_of(names@, k as int, n) && is_wanted(*run_numbers, n) by {
                assert(before.contains((n, k)) <==> k < i && is_file_of(names@, k as int, n)
                    && is_wanted(*run_numbers, n));
                if found is Some {
                    let last = (found->0, i);
                    assert(r@ == before.push(last));
                    if before.contains((n, k)) {
                        let j = before.index_of((n, k));
                        assert(r@[j] == (n, k));
                    }
                    if (n, k) == last {
                        assert(r@[before.len() as int] == last);
                    }
                    if r@.contains((n, k)) {
                        let j = r@.index_of((n, k));
                        if j < before.len() {
                            assert(before[j] == (n, k));
                        }
                    }
                }
            }
            if found is Some {
                assert(!before.contains((found->0, i)));
            }
        }
        i += 1;
    }
    r
}

/// Whether no later file belongs to the run.
fn is_last_file(names: &Vec<String>, i: usize, n: usize) -> (r: bool)
    requires
        i < names@.len(),
        run_number(names@[i as int]@) == Some(n as nat),
    ensures
        r == is_file_of(names@, i as int, n),
{
    let total: usize = names.len();
    let mut j: usize = i + 1;
    while j < total
        invariant
            i < j <= total,
            total == names@.len(),
            forall|k: int|
                i < k < j ==> run_number((#[trigger] names@[k])@) != Some(n as nat),
        decreases total - j,
    {
        match parse_run_number(names[j].as_str()) {
            Some(m) => {
                if m == n {
                    assert(run_number(names@[j as int]@) == Some(n as nat));
                    return false;
                }
            },
            None => {},
        }
        j += 1;
    }
    true
}

/// The results of a run are found again under the name that they are saved under.
pub proof fn law_saved_results_are_found(number: usize)
    ensures
        run_number(file_name(number, ".json"@)) == Some(number as nat),
{
    reveal_strlit("run_");
    reveal_strlit(".json");
    let name = file_name(number, ".json"@);
    let d = decimal(number as nat);
    assert(name.take("run_"@.len() as int) =~= "run_"@);
    let rest = name.skip("run_"@.len() as int);
    assert(rest =~= d + ".json"@);
    assert(rest.skip(rest.len() - ".json"@.len()) =~= ".json"@);
    assert(rest.take(rest.len() - ".json"@.len()) =~= d);
    crate::strings::lemma_number_of_decimal(number as nat);
}

/// The position of the most recent experiment, which has the last name.
pub fn most_recent(names: &Vec<String>) -> (r: Option<usize>)
    ensures
        match r {
            Some(i) => i < names@.len() && forall|j: int|
                0 <= j < names@.len() ==> !name_before(
                    names@[i as int]@,
                    (#[trigger] names@[j])@,
                ),
            None => names@.len() == 0,
        },
{
    if names.len() == 0 {
        return None;
    }
    let mut best: usize = 0;
    proof {
        lemma_name_order(names@[0]@, names@[0]@, names@[0]@);
    }
    for i in 1..names.len()
        invariant
            best < i,
            i <= names@.len(),
            forall|j: int|
                0 <= j < i ==> !name_before(names@[best as int]@, (#[trigger] names@[j])@),
    {
        let ghost old_best = best;
        if is_name_before(names[best].as_str(), names[i].as_str()) {
            best = i;
            proof {
                assert forall|j: int| 0 <= j < i + 1 implies !name_before(
                    names@[best as int]@,
                    (#[trigger] names@[j])@,
                ) by {
                    lemma_name_order(names@[old_best as int]@, names@[best as int]@, names@[j]@);
                    lemma_name_order(names@[best as int]@, names@[j]@, names@[j]@);
                }
            }
        }
    }
    Some(best)
}

/// The role of an external network.
#[derive(Debug, Clone, Copy, PartialEq, Eq, Structural)]
pub enum PeerType {
    Customer,
    Peer,
    Provider,
}

/// The border routers of the test network, each of which gets an external router.
pub fn border_routers() -> (r: Vec<RouterId>)
    ensures
        r@ == seq![0u32, 2u32, 3u32, 8u32],
{
    let r: Vec<RouterId> = vec![0, 2, 3, 8];
    assert(r@ =~= seq![0u32, 2u32, 3u32, 8u32]);
    r
}

/// The route reflectors of the test network.
pub fn route_reflectors() -> (r: Vec<RouterId>)
    ensures
        r@ == seq![1u32, 2u32],
{
    let r: Vec<RouterId> = vec![1, 2];
    assert(r@ =~= seq![1u32, 2u32]);
    r
}

/// The roles, in the order of the external routers.
pub open spec fn roles() -> Seq<PeerType> {
    seq![PeerType::Customer, PeerType::Peer, PeerType::Peer, PeerType::Provider]
}

/// The roles of the external routers of the test network: the first is a customer, the next two are
/// peers, and the fourth is a provider. Further ones have no role.
pub fn peer_types(externals: &NumberSet) -> (r: Vec<(RouterId, PeerType)>)
    requires
        externals.wf(),
    ensures
        r@.len() == if externals.items@.len() < 4 {
            externals.items@.len()
        } else {
            4
        },
        forall|i: int| 0 <= i < r@.len() ==> #[trigger] r@[i] == (externals.items@[i], roles()[i]),
        forall|i: int|
            0 <= i < r@.len() ==> ((#[trigger] r@[i]).1 is Customer <==> i == 0) && (r@[i].1
                is Provider <==> i == 3),
{
    let types: Vec<PeerType> = vec![
        PeerType::Customer,
        PeerType::Peer,
        PeerType::Peer,
        PeerType::Provider,
    ];
    assert(types@ =~= roles());
    let mut r: Vec<(RouterId, PeerType)> = Vec::new();
    let mut i: usize = 0;
    while i < externals.items.len() && i < types.len()
        invariant
            i <= externals.items@.len(),
            i <= types@.len(),
            types@ == roles(),
            r@.len() == i,
            forall|j: int| 0 <= j < i ==> #[trigger] r@[j] == (externals.items@[j], roles()[j]),
        decreases types@.len() - i,
    {
        r.push((externals.items[i], types[i]));
        i += 1;
    }
    r
}

/// How to connect a monitor speaker: a router that hears of every route, and announces none.
#[derive(Debug)]
pub struct SpeakerPlan {
    /// The link between the speaker and the network
    pub link: (RouterId, RouterId),
    /// The sessions: from, to, and their type
    pub sessions: Vec<(RouterId, RouterId, BgpSessionType)>,
    /// The outgoing route maps of the speaker, for each neighbor
    pub route_maps: Vec<(RouterId, RouterId, RouteMap)>,
}

/// The item of a route map that denies everything.
pub open spec fn deny_everything() -> RouteMapView {
    RouteMapView { order: 10, allow: false, conds: Seq::empty(), set: Seq::empty(), exit: false }
}

/// The speaker is linked to the first internal router. Each internal router has it as a client, and it
/// announces nothing to any of them.
pub open spec fn is_speaker_plan(
    plan: SpeakerPlan,
    speaker: RouterId,
    internals: Seq<RouterId>,
) -> bool {
    &&& plan.link == (speaker, internals[0])
    &&& plan.sessions@ == Seq::new(
        internals.len(),
        |i: int| (internals[i], speaker, BgpSessionType::IBgpClient),
    )
    &&& plan.route_maps@.len() == internals.len()
    &&& forall|i: int|
        0 <= i < internals.len() ==> (#[trigger] plan.route_maps@[i]).0 == speaker
            && plan.route_maps@[i].1 == internals[i] && plan.route_maps@[i].2@ == deny_everything()
}

/// How to connect a monitor speaker to a network.
pub fn plan_monitor_speaker(speaker: RouterId, internals: &Vec<RouterId>) -> (r: SpeakerPlan)
    requires
        internals@.len() > 0,
    ensures
        is_speaker_plan(r, speaker, internals@),
{
    let ghost all = internals@;
    let mut sessions: Vec<(RouterId, RouterId, BgpSessionType)> = Vec::new();
    let mut route_maps: Vec<(RouterId, RouterId, RouteMap)> = Vec::new();
    for i in 0..internals.len()
        invariant
            all == internals@,
            sessions@.len() == i,
            route_maps@.len() == i,
            forall|j: int|
                0 <= j < i ==> #[trigger] sessions@[j] == (
                    all[j],
                    speaker,
                    BgpSessionType::IBgpClient,
                ),
            forall|j: int|
                0 <= j < i ==> (#[trigger] route_maps@[j]).0 == speaker && route_maps@[j].1 == all[j]
                    && route_maps@[j].2@ == deny_everything(),
    {
        sessions.push((internals[i], speaker, BgpSessionType::IBgpClient));
        let deny = RouteMap {
            order: 10,
            allow: false,
            conds: Vec::new(),
            set: Vec::new(),
            exit: false,
        };
        assert(deny@ =~= deny_everything());
        route_maps.push((speaker, internals[i], deny));
    }
    assert(sessions@ =~= Seq::new(
        all.len(),
        |i: int| (all[i], speaker, BgpSessionType::IBgpClient),
    ));
    SpeakerPlan { link: (speaker, internals[0]), sessions, route_maps }
}

/// A monitor speaker announces no route.
pub proof fn law_speaker_is_silent(route: crate::bgp::RouteView)
    ensures
        !crate::reconfiguration::passes(seq![deny_everything()], route, 0),
{
    let items = seq![deny_everything()];
    assert(items[0].conds.len() == 0);
}

/// Prefix `p` is the only one that is announced but not monitored.
pub open spec fn is_only_sacrificial(
    external_prefixes: Seq<Prefix>,
    monitoring_prefixes: Set<u32>,
    p: Prefix,
) -> bool {
    forall|q: Prefix| #[trigger]
        external_prefixes.contains(q) && !monitoring_prefixes.contains(q) <==> q == p
}

/// Whether prefix `p` is the only one that is announced but not monitored.
pub fn check_sacrificial(
    external_prefixes: &Vec<Prefix>,
    monitoring_prefixes: &NumberSet,
    p: Prefix,
) -> (r: bool)
    requires
        monitoring_prefixes.wf(),
    ensures
        r == is_only_sacrificial(external_prefixes@, monitoring_prefixes@, p),
{
    let ghost all = external_prefixes@;
    let mut found: bool = false;
    for i in 0..external_prefixes.len()
        invariant
            all == external_prefixes@,
            monitoring_prefixes.wf(),
            forall|j: int|
                0 <= j < i ==> #[trigger] all[j] == p || monitoring_prefixes@.contains(all[j]),
            found == (exists|j: int| 0 <= j < i && #[trigger] all[j] == p
                && !monitoring_prefixes@.contains(p)),
    {
        let q: Prefix = external_prefixes[i];
        if !monitoring_prefixes.contains(q) {
            if q == p {
                assert(all[i as int] == p);
                found = true;
            } else {
                assert(all.contains(q) && !monitoring_prefixes@.contains(q));
                return false;
            }
        }
    }
    proof {
        assert(is_only_sacrificial(all, monitoring_prefixes@, p) ==> all.contains(p)
            && !monitoring_prefixes@.contains(p));
        if found {
            assert(all.contains(p));
        }
    }
    found
}

/// Rows stand in a strict order, in which a smaller prefix comes first, and otherwise an earlier sequence.
pub proof fn law_order_of_rows(
    a: SequenceResultSummary,
    b: SequenceResultSummary,
    c: SequenceResultSummary,
)
    ensures
        a.prefix < b.prefix ==> row_before(a, b),
        a.prefix == b.prefix && a.sequence < b.sequence ==> row_before(a, b),
        row_before(a, b) ==> !row_before(b, a),
        row_before(a, b) && row_before(b, c) ==> row_before(a, c),
        row_before(a, b) || row_before(b, a) || (a.prefix == b.prefix && a.sequence == b.sequence),
{
}

/// A row belongs to a sequence in which its prefix was monitored, and counts what that sequence has left.
pub proof fn law_rows_are_overviews(
    row: SequenceResultSummary,
    number: usize,
    results: Seq<SequenceResult>,
)
    requires
        is_row(row, number, results),
    ensures
        row.run == number,
        row.sequence < results.len(),
        is_monitored(results, row.prefix),
        row.tables_diff <= results[row.sequence as int].tables_diff.entries@.len(),
        row.selected_diff <= row.tables_diff,
{
    let result = results[row.sequence as int];
    result.tables_diff.entries@.lemma_filter_len(crate::run::differs(row.prefix));
    crate::run::law_selected_diffs_are_table_diffs(row, number, row.sequence, row.prefix, result);
}

/// Only a name that starts with `run_` and ends with `.json` belongs to a run. Logs do not.
pub proof fn law_names_of_results(name: Seq<char>, n: nat)
    ensures
        run_number(name) is Some ==> starts_with(name, "run_"@) && ends_with(name, ".json"@),
        run_number(name) == Some(n) ==> n <= usize::MAX,
        run_number(name + ".log"@) is None,
{
    reveal_strlit("run_");
    reveal_strlit(".json");
    reveal_strlit(".log");
    if run_number(name) is Some {
        let rest = name.skip("run_"@.len() as int);
        assert(name.skip(name.len() - ".json"@.len()) =~= rest.skip(rest.len() - ".json"@.len()));
    }
    let log = name + ".log"@;
    if run_number(log) is Some {
        let rest = log.skip("run_"@.len() as int);
        let end = rest.skip(rest.len() - ".json"@.len());
        assert(end == ".json"@);
        assert(end[4] == rest[rest.len() - 1]);
        assert(rest[rest.len() - 1] == log[log.len() - 1]);
        assert(log[log.len() - 1] == ".log"@[3]);
    }
}

/// All runs are wanted if nothing is asked for, and otherwise those that are asked for. Of several files of
/// a run only one counts.
pub proof fn law_wanted_runs(numbers: Vec<usize>, n: usize, names: Seq<String>, i: int, j: int)
    ensures
        is_wanted(None, n),
        is_wanted(Some(numbers), n) <==> exists|k: int|
            0 <= k < numbers@.len() && #[trigger] numbers@[k] == n,
        is_file_of(names, i, n) && is_file_of(names, j, n) ==> i == j,
        is_file_of(names, i, n) && i < j < names.len() ==> run_number(names[j]@) != Some(n as nat),
{
}

/// The speaker has a session with each internal router, as its client, and a route map on it through which
/// nothing passes.
pub proof fn law_speaker_on_every_router(
    plan: SpeakerPlan,
    speaker: RouterId,
    internals: Seq<RouterId>,
    i: int,
    route: crate::bgp::RouteView,
)
    requires
        is_speaker_plan(plan, speaker, internals),
        0 <= i < internals.len(),
    ensures
        plan.sessions@.len() == internals.len(),
        plan.sessions@[i].0 == internals[i],
        plan.sessions@[i].1 == speaker,
        plan.sessions@[i].2 is IBgpClient,
        plan.route_maps@[i].0 == speaker,
        plan.route_maps@[i].1 == internals[i],
        !crate::reconfiguration::passes(seq![plan.route_maps@[i].2@], route, 0),
        plan.link.0 == speaker,
        internals.contains(plan.link.1),
{
    law_speaker_is_silent(route);
}

/// At most one prefix is the only sacrificial one. It is announced, and it is not monitored. No other
/// prefix that is announced is left out.
pub proof fn law_one_sacrificial_prefix(
    external: Seq<Prefix>,
    monitoring: Set<u32>,
    p: Prefix,
    q: Prefix,
)
    requires
        is_only_sacrificial(external, monitoring, p),
    ensures
        external.contains(p),
        !monitoring.contains(p),
        external.contains(q) && q != p ==> monitoring.contains(q),
        is_only_sacrificial(external, monitoring, q) ==> q == p,
{
    assert(external.contains(p) && !monitoring.contains(p) <==> p == p);
    assert(external.contains(q) && !monitoring.contains(q) <==> q == p);
}

/// An experiment is reconfigured while it runs exactly if it has a whitelist.
pub proof fn law_whitelists_are_reconfigured(config: ExperimentConfig)
    ensures
        config.gns3_config.pre_config is None ==> !reconfigures(config),
        config.gns3_config.pre_config matches Some(c) ==> (reconfigures(config) <==> c is Whitelist),
        config.gns3_config.pre_config matches Some(c) ==> (!reconfigures(config) <==> c
            is ToIncremental),
{
}

} // verus!
