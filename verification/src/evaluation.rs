//! The evaluation of the monitors on simulated networks: the bugs that are put into a network, and how
//! well they are found.
use vstd::prelude::*;
use vstd::string::*;

use crate::bgp::{AsId, BgpEventView, RouteView, RouterId, Time};
use crate::forking_monitor::ProcessWithdraws;
use crate::import::Message;
use crate::keyed::{has_key, lemma_entry, lemma_has_key_take, Keyed};
use crate::monitoring::MonitoringResult;
use crate::number_set::NumberSet;
use crate::reordering_measurement::Failure;
use crate::reordering_monitoring::ReorderingMonitor;
use crate::reordering_session::{Bug, FailureLocation, Probability};
use crate::route_map::{
    RouteMap, RouteMapDirection, RouteMapMatch, RouteMapSet, RouteMapView,
};
use crate::state_comparison::Mismatch;
use crate::text::{append_number, decimal};
use crate::trace_test::{law_correct_traces_are_accepted, settled, tests, TraceOutcome};
use crate::traces::{correct, Run};
use crate::workload::{
    are_valid_events, can_fail, candidates, events_drawn, failure_drawn, gen_event_sequence,
    gen_failure, is_candidate, plans, ExternalEvent,
};

verus! {

/// The order of the route map item that stands for a bug.
pub const BUG_ORDER: i16 = 0;

/// The inputs of a measurement.
#[derive(Debug)]
pub struct MeasurementInput {
    pub commit_hash: String,
    pub seed: u64,
    pub topology: String,
    pub num_nodes: usize,
    pub num_edges: usize,
    pub num_externals: usize,
    pub num_route_reflectors: usize,
    pub num_external_events: usize,
    pub with_failure: bool,
    pub with_monitor_speaker: bool,
    pub with_reordering: bool,
    pub with_debouncing: bool,
    pub process_withdraws: ProcessWithdraws,
}

// ---------------------------------------------------------------------------------------------
// Roles
// ---------------------------------------------------------------------------------------------
/// The routers of a network, by what they are for.
#[derive(Debug)]
pub struct ConfigureNetworkResult {
    pub internals: Vec<RouterId>,
    pub reflectors: Vec<RouterId>,
    /// The border router of each external router
    pub borders: Vec<RouterId>,
    pub externals: Vec<RouterId>,
    pub monitor: Option<RouterId>,
    pub roles: Keyed<String>,
}

/// What a router is for.
pub open spec fn role(
    externals: Seq<RouterId>,
    reflectors: Seq<RouterId>,
    borders: Seq<RouterId>,
    r: RouterId,
) -> Seq<char> {
    if externals.contains(r) {
        "external"@
    } else if reflectors.contains(r) {
        if borders.contains(r) {
            "reflector+egress"@
        } else {
            "reflector"@
        }
    } else if borders.contains(r) {
        "egress"@
    } else {
        "internal"@
    }
}

/// Whether a list holds a router.
pub fn lists(routers: &Vec<RouterId>, r: RouterId) -> (b: bool)
    ensures
        b == routers@.contains(r),
{
    for i in 0..routers.len()
        invariant
            forall|j: int| 0 <= j < i ==> routers@[j] != r,
    {
        if routers[i] == r {
            return true;
        }
    }
    false
}

/// What a router is for.
pub fn role_of(
    externals: &Vec<RouterId>,
    reflectors: &Vec<RouterId>,
    borders: &Vec<RouterId>,
    r: RouterId,
) -> (s: String)
    ensures
        s@ == role(externals@, reflectors@, borders@, r),
{
    if lists(externals, r) {
        String::from_str("external")
    } else if lists(reflectors, r) {
        if lists(borders, r) {
            String::from_str("reflector+egress")
        } else {
            String::from_str("reflector")
        }
    } else if lists(borders, r) {
        String::from_str("egress")
    } else {
        String::from_str("internal")
    }
}

/// Numbers in increasing order. A number may occur several times.
pub open spec fn is_sorted(s: Seq<u32>) -> bool {
    forall|i: int, j: int| 0 <= i <= j < s.len() ==> #[trigger] s[i] <= #[trigger] s[j]
}

/// Sort numbers.
pub fn sort_numbers(list: &Vec<u32>) -> (r: Vec<u32>)
    ensures
        is_sorted(r@),
        r@.to_multiset() == list@.to_multiset(),
{
    broadcast use vstd::seq_lib::group_to_multiset_ensures;

    let ghost all = list@;
    let mut r: Vec<u32> = Vec::new();
    assert(all.take(0) =~= Seq::<u32>::empty());
    for k in 0..list.len()
        invariant
            all == list@,
            is_sorted(r@),
            r@.to_multiset() == all.take(k as int).to_multiset(),
    {
        let x: u32 = list[k];
        let ghost before = r@;
        let mut i: usize = r.len();
        while i > 0 && r[i - 1] > x
            invariant
                i <= r@.len(),
                r@ == before,
                forall|j: int| i <= j < before.len() ==> #[trigger] before[j] > x,
            decreases i,
        {
            i -= 1;
        }
        r.insert(i, x);
        proof {
            broadcast use vstd::seq_lib::group_to_multiset_ensures;

            assert(all.take(k + 1) =~= all.take(k as int).push(x));
            vstd::seq_lib::to_multiset_build(all.take(k as int), x);
            vstd::seq_lib::to_multiset_insert(before, i as int, x);
            let after = r@;
            assert forall|a: int, b: int| 0 <= a <= b < after.len() implies #[trigger] after[a]
                <= #[trigger] after[b] by {
                let a0 = if a < i {
                    a
                } else {
                    a - 1
                };
                let b0 = if b < i {
                    b
                } else {
                    b - 1
                };
                if a != i && b != i {
                    assert(before[a0] <= before[b0]);
                } else if a == i && b > i {
                    assert(before[b0] > x);
                } else if b == i && a < i {
                    assert(before[a0] <= before[i - 1]);
                }
            }
        }
    }
    assert(all.take(all.len() as int) =~= all);
    r
}

/// What each router is for.
fn compute_roles(
    externals: &Vec<RouterId>,
    reflectors: &Vec<RouterId>,
    borders: &Vec<RouterId>,
    devices: &NumberSet,
) -> (r: Keyed<String>)
    ensures
        r.wf(),
        forall|x: RouterId| #[trigger] r@.contains_key(x) <==> devices@.contains(x),
        forall|x: RouterId| #[trigger]
            r@.contains_key(x) ==> r@[x]@ == role(externals@, reflectors@, borders@, x),
{
    let ghost items = devices.items@;
    let mut r: Keyed<String> = Keyed::new();
    let n: usize = devices.items.len();
    let mut i: usize = 0;
    while i < n
        invariant
            i <= n,
            n == items.len(),
            items == devices.items@,
            r.wf(),
            forall|x: RouterId| #[trigger]
                r@.contains_key(x) <==> items.take(i as int).contains(x),
            forall|x: RouterId| #[trigger]
                r@.contains_key(x) ==> r@[x]@ == role(externals@, reflectors@, borders@, x),
        decreases n - i,
    {
        let ghost before = r@;
        let x: RouterId = devices.items[i];
        r.insert(x, role_of(externals, reflectors, borders, x));
        proof {
            broadcast use vstd::seq_lib::group_seq_properties;

            assert(items.take(i + 1) =~= items.take(i as int).push(x));
            assert forall|y: RouterId| #[trigger] r@.contains_key(y) <==> items.take(
                i + 1,
            ).contains(y) by {
                assert(before.contains_key(y) || !before.contains_key(y));
            }
        }
        i += 1;
    }
    proof {
        assert(items.take(n as int) =~= items);
        assert forall|x: RouterId| #[trigger] r@.contains_key(x) <==> devices@.contains(x) by {
            assert(devices@.contains(x) == items.contains(x));
        }
    }
    r
}

/// The border router of each external router.
pub open spec fn borders_of(
    externals: Seq<RouterId>,
    ebgp_sessions: Map<RouterId, RouterId>,
) -> Seq<RouterId> {
    Seq::new(externals.len(), |i: int| ebgp_sessions[externals[i]])
}

/// Put together a network that was built: its routers, in the order of their numbers, the border router
/// of each external router, and what each router is for.
pub fn configure_network(
    internals: NumberSet,
    externals: NumberSet,
    reflectors: NumberSet,
    ebgp_sessions: &Keyed<RouterId>,
    monitor: Option<RouterId>,
    devices: &NumberSet,
) -> (r: ConfigureNetworkResult)
    requires
        ebgp_sessions.wf(),
        forall|i: int|
            0 <= i < externals.items@.len() ==> ebgp_sessions@.contains_key(
                #[trigger] externals.items@[i],
            ),
    ensures
        r.internals@ == internals.items@,
        r.externals@ == externals.items@,
        r.reflectors@ == reflectors.items@,
        is_sorted(r.borders@),
        r.borders@.to_multiset() == borders_of(externals.items@, ebgp_sessions@).to_multiset(),
        r.monitor == monitor,
        r.roles.wf(),
        forall|x: RouterId| #[trigger] r.roles@.contains_key(x) <==> devices@.contains(x),
        forall|x: RouterId| #[trigger]
            r.roles@.contains_key(x) ==> r.roles@[x]@ == role(
                r.externals@,
                r.reflectors@,
                r.borders@,
                x,
            ),
{
    let mut unsorted: Vec<RouterId> = Vec::new();
    for i in 0..externals.items.len()
        invariant
            ebgp_sessions.wf(),
            forall|i: int|
                0 <= i < externals.items@.len() ==> ebgp_sessions@.contains_key(
                    #[trigger] externals.items@[i],
                ),
            unsorted@ == borders_of(externals.items@, ebgp_sessions@).take(i as int),
    {
        let e: RouterId = externals.items[i];
        assert(ebgp_sessions@.contains_key(externals.items@[i as int]));
        let border: RouterId = match ebgp_sessions.get(e) {
            Some(b) => *b,
            None => 0,
        };
        unsorted.push(border);
        assert(unsorted@ =~= borders_of(externals.items@, ebgp_sessions@).take(i + 1));
    }
    assert(unsorted@ =~= borders_of(externals.items@, ebgp_sessions@));
    let borders = sort_numbers(&unsorted);
    let roles = compute_roles(&externals.items, &reflectors.items, &borders, devices);
    ConfigureNetworkResult {
        internals: internals.items,
        reflectors: reflectors.items,
        borders,
        externals: externals.items,
        monitor,
        roles,
    }
}

/// The item by which a reflector tags all routes that it sends.
pub open spec fn tag(reflector: RouterId) -> RouteMapView {
    RouteMapView {
        order: 1,
        allow: true,
        conds: Seq::empty(),
        set: seq![RouteMapSet::SetCommunity((reflector + 1000) as u32)],
        exit: false,
    }
}

/// The outgoing route map items by which a reflector tags all routes that it sends, one for each of
/// its neighbors.
pub fn reflector_tags(reflector: RouterId, neighbors: &Vec<RouterId>) -> (r: Vec<
    (RouterId, RouteMap),
>)
    requires
        reflector + 1000 <= u32::MAX,
    ensures
        r@.len() == neighbors@.len(),
        forall|i: int|
            0 <= i < r@.len() ==> (#[trigger] r@[i]).0 == neighbors@[i] && r@[i].1@ == tag(reflector),
{
    let mut r: Vec<(RouterId, RouteMap)> = Vec::new();
    for i in 0..neighbors.len()
        invariant
            reflector + 1000 <= u32::MAX,
            r@.len() == i,
            forall|j: int|
                0 <= j < i ==> (#[trigger] r@[j]).0 == neighbors@[j] && r@[j].1@ == tag(reflector),
    {
        let mut set: Vec<RouteMapSet> = Vec::new();
        set.push(RouteMapSet::SetCommunity(reflector + 1000));
        let item = RouteMap { order: 1, allow: true, conds: Vec::new(), set, exit: false };
        assert(item@ =~= tag(reflector));
        r.push((neighbors[i], item));
    }
    r
}

// ---------------------------------------------------------------------------------------------
// Bugs that sit in a route map
// ---------------------------------------------------------------------------------------------
/// The bug sits in a route map.
pub open spec fn in_route_map(bug: Bug) -> bool {
    bug is WithdrawToUpdate || bug is UpdateToWithdraw
}

fn is_in_route_map(bug: &Bug) -> (r: bool)
    ensures
        r == in_route_map(*bug),
{
    match bug {
        Bug::WithdrawToUpdate { .. } => true,
        Bug::UpdateToWithdraw { .. } => true,
        _ => false,
    }
}

/// The direction of the route map in which a bug sits.
pub fn direction_of(location: &FailureLocation) -> (r: RouteMapDirection)
    ensures
        r == match location {
            FailureLocation::Ingress => RouteMapDirection::Incoming,
            FailureLocation::Egress => RouteMapDirection::Outgoing,
        },
{
    match location {
        FailureLocation::Ingress => RouteMapDirection::Incoming,
        FailureLocation::Egress => RouteMapDirection::Outgoing,
    }
}

/// The item that denies routes with some probability.
pub open spec fn denies(p: Probability) -> RouteMapView {
    RouteMapView {
        order: BUG_ORDER,
        allow: false,
        conds: seq![RouteMapMatch::Probabilistic { p, num_matched: 0, num_not_matched: 0 }],
        set: Seq::empty(),
        exit: false,
    }
}

/// With which probability a healthy router denies a route: always where the bug is to let it pass, and
/// never where the bug is to deny it.
pub open spec fn healthy_probability(bug: Bug) -> Probability {
    Probability {
        numerator: if bug is WithdrawToUpdate {
            1
        } else {
            0
        },
        denominator: 1,
    }
}

/// The route map item that is put into the healthy network in preparation of a bug, if the bug needs
/// one.
pub fn failure_setup_route_map_in_healthy(failure: &Failure) -> (r: Option<RouteMap>)
    ensures
        match r {
            Some(item) => in_route_map(failure.bug) && item@ == denies(
                healthy_probability(failure.bug),
            ),
            None => !in_route_map(failure.bug),
        },
{
    if !is_in_route_map(&failure.bug) {
        return None;
    }
    let numerator: u32 = match &failure.bug {
        Bug::WithdrawToUpdate { .. } => 1,
        _ => 0,
    };
    let p = Probability { numerator, denominator: 1 };
    let mut conds: Vec<RouteMapMatch> = Vec::new();
    conds.push(RouteMapMatch::Probabilistic { p, num_matched: 0, num_not_matched: 0 });
    let item = RouteMap { order: BUG_ORDER, allow: false, conds, set: Vec::new(), exit: false };
    assert(item@ =~= denies(healthy_probability(failure.bug)));
    Some(item)
}

/// Why a bug cannot be put into a route map.
#[derive(Debug, Clone, Copy, PartialEq, Eq)]
pub enum RouteMapError {
    /// Failure was not already prepared!
    NotPrepared,
    /// The failure route map was established incorrectly
    Incorrect,
}

impl RouteMapError {
    /// What is said of the error.
    pub fn message(&self) -> (r: String)
        ensures
            r@ == match self {
                RouteMapError::NotPrepared => "Failure was not already prepared!"@,
                RouteMapError::Incorrect => "The failure route map was established incorrectly"@,
            },
    {
        match self {
            RouteMapError::NotPrepared => String::from_str("Failure was not already prepared!"),
            RouteMapError::Incorrect => String::from_str(
                "The failure route map was established incorrectly",
            ),
        }
    }
}

/// With which probability a router with the bug denies a route.
pub open spec fn buggy_probability(bug: Bug) -> Probability {
    let p = bug.probability();
    if bug is WithdrawToUpdate {
        Probability { numerator: (p.denominator - p.numerator) as u32, denominator: p.denominator }
    } else {
        p
    }
}

/// The first condition of the item is one of probability.
pub open spec fn is_prepared(item: RouteMapView) -> bool {
    item.conds.len() > 0 && item.conds[0] is Probabilistic
}

/// Turn on a bug that sits in a route map, by changing the item that was prepared for it. The item is
/// the one with the order of bugs, if the route map has one.
pub fn failure_enable_bug_in_route_map(
    failure: &Failure,
    item: Option<RouteMap>,
) -> (r: Result<Option<RouteMap>, RouteMapError>)
    requires
        failure.bug.probability().is_valid(),
    ensures
        if !in_route_map(failure.bug) {
            r == Ok::<Option<RouteMap>, RouteMapError>(item)
        } else {
            match item {
                None => r == Err::<Option<RouteMap>, RouteMapError>(RouteMapError::NotPrepared),
                Some(old_item) => if is_prepared(old_item@) {
                    r matches Ok(Some(new_item)) && new_item@ == (RouteMapView {
                        conds: old_item@.conds.update(
                            0,
                            RouteMapMatch::Probabilistic {
                                p: buggy_probability(failure.bug),
                                num_matched: 0,
                                num_not_matched: 0,
                            },
                        ),
                        ..old_item@
                    })
                } else {
                    r == Err::<Option<RouteMap>, RouteMapError>(RouteMapError::Incorrect)
                },
            }
        },
{
    if !is_in_route_map(&failure.bug) {
        return Ok(item);
    }
    let p = match failure.bug {
        Bug::WithdrawToUpdate { p } => Probability {
            numerator: p.denominator - p.numerator,
            denominator: p.denominator,
        },
        Bug::UpdateToWithdraw { p } => p,
        Bug::DropUpdates { p } => p,
        Bug::DropWithdraws { p } => p,
        Bug::TransformCommunity { p, .. } => p,
        Bug::TransformLocalPref { p, .. } => p,
    };
    match item {
        None => Err(RouteMapError::NotPrepared),
        Some(old_item) => {
            if old_item.conds.len() == 0 {
                return Err(RouteMapError::Incorrect);
            }
            match old_item.conds[0] {
                RouteMapMatch::Probabilistic { .. } => {
                    let RouteMap { order, allow, conds, set, exit } = old_item;
                    let mut conds: Vec<RouteMapMatch> = conds;
                    conds.set(
                        0,
                        RouteMapMatch::Probabilistic { p, num_matched: 0, num_not_matched: 0 },
                    );
                    Ok(Some(RouteMap { order, allow, conds, set, exit }))
                },
                _ => Err(RouteMapError::Incorrect),
            }
        },
    }
}

/// How often a bug that sits in a route map has shown, by the counts of its item.
pub open spec fn times_shown(bug: Bug, num_matched: usize, num_not_matched: usize) -> usize {
    if bug is WithdrawToUpdate {
        num_not_matched
    } else {
        num_matched
    }
}

/// How often a bug was triggered: as the queue has counted, or, for a bug that sits in a route map, how
/// often its item did not match where it should have, or matched where it should not have.
pub fn failure_count_num_triggered(
    failure: &Failure,
    num_failures_for_router: usize,
    item: Option<&RouteMap>,
) -> (r: Result<usize, RouteMapError>)
    ensures
        if !in_route_map(failure.bug) {
            r == Ok::<usize, RouteMapError>(num_failures_for_router)
        } else {
            match item {
                None => r == Err::<usize, RouteMapError>(RouteMapError::NotPrepared),
                Some(item) => if item@.conds.len() > 0 {
                    match item@.conds[0] {
                        RouteMapMatch::Probabilistic {
                            num_matched,
                            num_not_matched,
                            ..
                        } => r == Ok::<usize, RouteMapError>(
                            times_shown(failure.bug, num_matched, num_not_matched),
                        ),
                        _ => r == Err::<usize, RouteMapError>(RouteMapError::Incorrect),
                    }
                } else {
                    r == Err::<usize, RouteMapError>(RouteMapError::Incorrect)
                },
            }
        },
{
    if !is_in_route_map(&failure.bug) {
        return Ok(num_failures_for_router);
    }
    match item {
        None => Err(RouteMapError::NotPrepared),
        Some(item) => {
            if item.conds.len() == 0 {
                return Err(RouteMapError::Incorrect);
            }
            match item.conds[0] {
                RouteMapMatch::Probabilistic { num_matched, num_not_matched, .. } => {
                    match failure.bug {
                        Bug::WithdrawToUpdate { .. } => Ok(num_not_matched),
                        _ => Ok(num_matched),
                    }
                },
                _ => Err(RouteMapError::Incorrect),
            }
        },
    }
}

/// With which probability a bug shows, as a fraction, if routes are denied with probability `p`.
pub open spec fn shows_with(bug: Bug, p: Probability) -> Probability {
    if bug is WithdrawToUpdate {
        Probability { numerator: (p.denominator - p.numerator) as u32, denominator: p.denominator }
    } else {
        p
    }
}

/// A bug that sits in a route map never shows in the healthy network. Once it is turned on, it shows
/// with its own probability. The item that was prepared can always be changed.
pub proof fn law_bugs_show_with_their_probability(bug: Bug)
    requires
        in_route_map(bug),
        bug.probability().is_valid(),
    ensures
        shows_with(bug, healthy_probability(bug)).numerator == 0,
        shows_with(bug, buggy_probability(bug)) == bug.probability(),
        buggy_probability(bug).is_valid(),
        is_prepared(denies(healthy_probability(bug))),
{
}

// ---------------------------------------------------------------------------------------------
// Descriptions
// ---------------------------------------------------------------------------------------------
/// The class of a bug.
pub open spec fn class_of(bug: Bug) -> Seq<char> {
    match bug {
        Bug::DropUpdates { .. } => "destructive"@,
        Bug::DropWithdraws { .. } => "destructive"@,
        Bug::TransformCommunity { .. } => "transformative"@,
        Bug::TransformLocalPref { .. } => "transformative"@,
        Bug::WithdrawToUpdate { .. } => "swap_type"@,
        Bug::UpdateToWithdraw { .. } => "swap_type"@,
    }
}

/// The class of a bug.
pub fn bug_class(bug: &Bug) -> (r: String)
    ensures
        r@ == class_of(*bug),
{
    match bug {
        Bug::DropUpdates { .. } => String::from_str("destructive"),
        Bug::DropWithdraws { .. } => String::from_str("destructive"),
        Bug::TransformCommunity { .. } => String::from_str("transformative"),
        Bug::TransformLocalPref { .. } => String::from_str("transformative"),
        Bug::WithdrawToUpdate { .. } => String::from_str("swap_type"),
        Bug::UpdateToWithdraw { .. } => String::from_str("swap_type"),
    }
}

/// The messages that a bug affects.
pub open spec fn affected_by(bug: Bug) -> Seq<char> {
    if bug is DropWithdraws || bug is WithdrawToUpdate {
        "withdraw"@
    } else {
        "update"@
    }
}

/// The messages that a bug affects.
pub fn bug_affected_msg(bug: &Bug) -> (r: String)
    ensures
        r@ == affected_by(*bug),
{
    match bug {
        Bug::DropWithdraws { .. } => String::from_str("withdraw"),
        Bug::WithdrawToUpdate { .. } => String::from_str("withdraw"),
        _ => String::from_str("update"),
    }
}

/// The arguments of a bug.
pub open spec fn args_of(bug: Bug) -> Seq<char> {
    match bug {
        Bug::TransformCommunity { swap, .. } => "swap "@ + decimal(swap as nat),
        Bug::TransformLocalPref { new_val, .. } => "set "@ + decimal(new_val as nat),
        _ => Seq::empty(),
    }
}

/// The arguments of a bug.
pub fn bug_args(bug: &Bug) -> (r: String)
    ensures
        r@ == args_of(*bug),
{
    match bug {
        Bug::TransformCommunity { swap, .. } => {
            let mut r = String::from_str("swap ");
            append_number(&mut r, *swap as u64);
            r
        },
        Bug::TransformLocalPref { new_val, .. } => {
            let mut r = String::from_str("set ");
            append_number(&mut r, *new_val as u64);
            r
        },
        _ => {
            let r = String::from_str("");
            proof {
                reveal_strlit("");
                assert(r@ =~= Seq::<char>::empty());
            }
            r
        },
    }
}

/// The probability of a bug.
pub fn bug_probability(bug: &Bug) -> (r: Probability)
    ensures
        r == bug.probability(),
{
    match bug {
        Bug::DropUpdates { p } => *p,
        Bug::DropWithdraws { p } => *p,
        Bug::TransformCommunity { p, .. } => *p,
        Bug::TransformLocalPref { p, .. } => *p,
        Bug::WithdrawToUpdate { p } => *p,
        Bug::UpdateToWithdraw { p } => *p,
    }
}

/// Where in the pipeline of a router a bug sits.
pub fn location_pipeline(l: &FailureLocation) -> (r: String)
    ensures
        r@ == match l {
            FailureLocation::Ingress => "ingress"@,
            FailureLocation::Egress => "egress"@,
        },
{
    match l {
        FailureLocation::Ingress => String::from_str("ingress"),
        FailureLocation::Egress => String::from_str("egress"),
    }
}

/// The name of the file with the raw data of an experiment.
pub fn raw_name(file_prefix: &str, idx: usize) -> (r: String)
    ensures
        r@ == file_prefix@ + "_raw_"@ + decimal(idx as nat) + ".json.gz"@,
{
    let mut r = String::from_str(file_prefix);
    r.append("_raw_");
    append_number(&mut r, idx as u64);
    r.append(".json.gz");
    r
}

/// How the results refer to a file with raw data.
pub fn raw_reference(name: &str) -> (r: String)
    ensures
        r@ == "./raw/"@ + name@,
{
    let mut r = String::from_str("./raw/");
    r.append(name);
    r
}

// ---------------------------------------------------------------------------------------------
// Measurements
// ---------------------------------------------------------------------------------------------
/// A bug, described for the results.
#[derive(Debug)]
pub struct BugDetails {
    pub class: String,
    pub affected_msg: String,
    pub args: String,
    pub pipeline: String,
    pub router: RouterId,
    pub neighbor: RouterId,
    pub router_roles: String,
    pub neighbor_roles: String,
    pub probability: Probability,
}

/// The description of a bug.
pub open spec fn describes(d: BugDetails, f: Failure, roles: Map<RouterId, String>) -> bool {
    &&& d.class@ == class_of(f.bug)
    &&& d.affected_msg@ == affected_by(f.bug)
    &&& d.args@ == args_of(f.bug)
    &&& d.pipeline@ == (match f.location {
        FailureLocation::Ingress => "ingress"@,
        FailureLocation::Egress => "egress"@,
    })
    &&& d.router == f.router
    &&& d.neighbor == f.neighbor
    &&& d.router_roles@ == roles[f.router]@
    &&& d.neighbor_roles@ == roles[f.neighbor]@
    &&& d.probability == f.bug.probability()
}

fn copy_role(roles: &Keyed<String>, r: RouterId) -> (s: String)
    requires
        roles.wf(),
        roles@.contains_key(r),
    ensures
        s@ == roles@[r]@,
{
    match roles.get(r) {
        Some(role) => String::from_str(role.as_str()),
        None => String::from_str(""),
    }
}

/// Describe a bug.
pub fn describe(f: &Failure, roles: &Keyed<String>) -> (r: BugDetails)
    requires
        roles.wf(),
        roles@.contains_key(f.router),
        roles@.contains_key(f.neighbor),
    ensures
        describes(r, *f, roles@),
{
    BugDetails {
        class: bug_class(&f.bug),
        affected_msg: bug_affected_msg(&f.bug),
        args: bug_args(&f.bug),
        pipeline: location_pipeline(&f.location),
        router: f.router,
        neighbor: f.neighbor,
        router_roles: copy_role(roles, f.router),
        neighbor_roles: copy_role(roles, f.neighbor),
        probability: bug_probability(&f.bug),
    }
}

/// How many routers were judged, and how.
#[derive(Debug, Clone, Copy, PartialEq, Eq)]
pub struct Verdicts {
    /// Routers that were correctly found to have a bug
    pub num_true_positives: usize,
    /// Routers that were correctly found to work as expected
    pub num_true_negatives: usize,
    /// Routers that were falsely accused of a bug
    pub num_false_positives: usize,
    /// Routers with a bug that was not found
    pub num_false_negatives: usize,
    /// Monitors that gave up
    pub num_monitors_killed: usize,
}

impl Verdicts {
    /// The number of routers.
    pub open spec fn total(self) -> int {
        self.num_true_positives + self.num_true_negatives + self.num_false_positives
            + self.num_false_negatives + self.num_monitors_killed
    }

    /// The verdicts, with one more.
    pub open spec fn with(self, bug_triggered: bool, outcome: TraceOutcome) -> Verdicts {
        if outcome.killed {
            Verdicts { num_monitors_killed: (self.num_monitors_killed + 1) as usize, ..self }
        } else if bug_triggered {
            if outcome.ok {
                Verdicts { num_false_negatives: (self.num_false_negatives + 1) as usize, ..self }
            } else {
                Verdicts { num_true_positives: (self.num_true_positives + 1) as usize, ..self }
            }
        } else if outcome.ok {
            Verdicts { num_true_negatives: (self.num_true_negatives + 1) as usize, ..self }
        } else {
            Verdicts { num_false_positives: (self.num_false_positives + 1) as usize, ..self }
        }
    }
}

/// What came of a measurement.
#[derive(Debug)]
pub struct Measurement {
    pub raw_json: String,
    pub bug: Option<BugDetails>,
    /// Whether the network has converged. If not, all that follows has its default value.
    pub has_converged: bool,
    pub mismatch: Mismatch,
    /// How many routers have selected other routes than in the healthy network
    pub blast_radius: u32,
    pub verdicts: Verdicts,
    /// How often a bug was triggered
    pub num_failures_triggered: usize,
    /// The number of events of all routers together
    pub total_num_events: usize,
    /// The time to verify all events
    pub total_verif_time: Time,
    /// The largest number of forks
    pub total_max_num_forks: usize,
}

/// An experiment.
#[derive(Debug)]
pub struct Experiment {
    pub inputs: MeasurementInput,
    /// The events that set up the network
    pub setup: Vec<ExternalEvent>,
    pub external_events: Vec<ExternalEvent>,
    pub failure: Option<Failure>,
    pub roles: Keyed<String>,
    pub monitor: Option<RouterId>,
}

/// The experiment that was drawn for some inputs.
pub open spec fn is_experiment_for(
    e: Experiment,
    inputs: MeasurementInput,
    network: ConfigureNetworkResult,
    neighbors: Map<RouterId, NumberSet>,
    as_ids: Map<RouterId, AsId>,
) -> bool {
    &&& e.inputs == inputs
    &&& e.roles == network.roles
    &&& e.monitor == network.monitor
    &&& e.failure is Some <==> inputs.with_failure
    &&& e.failure matches Some(f) ==> is_candidate(f, network, neighbors)
    &&& e.setup@.len() == inputs.num_externals
    &&& e.external_events@.len() == inputs.num_external_events
    &&& are_valid_events(e.setup@ + e.external_events@, network.externals@, as_ids)
}

impl MeasurementInput {
    /// Draw an experiment on a network. The error names a router of which something is not known.
    pub fn setup_experiment(
        self,
        rng: &mut rand::rngs::StdRng,
        network: ConfigureNetworkResult,
        neighbors: &Keyed<NumberSet>,
        as_ids: &Keyed<AsId>,
    ) -> (r: Result<Experiment, RouterId>)
        requires
            neighbors.wf(),
            as_ids.wf(),
            self.with_failure ==> can_fail(network, true, neighbors@) && can_fail(
                network,
                false,
                neighbors@,
            ),
            self.num_externals + self.num_external_events > 0 ==> network.externals@.len() > 0,
        ensures
            match r {
                Ok(e) => is_experiment_for(e, self, network, neighbors@, as_ids@),
                Err(x) => !neighbors@.contains_key(x) || !as_ids@.contains_key(x),
            },
            (forall|x: RouterId| network.externals@.contains(x) ==> as_ids@.contains_key(x)) && (
            self.with_failure ==> forall|x: RouterId|
                candidates(network, true).contains(x) || candidates(network, false).contains(x)
                    ==> neighbors@.contains_key(x)) ==> r is Ok,
            ({
                // the failure is drawn first, and then the events
                let (f, s) = failure_drawn(*old(rng), network, neighbors@);
                let start = if self.with_failure {
                    s
                } else {
                    *old(rng)
                };
                let d = events_drawn(
                    start,
                    (self.num_externals + self.num_external_events) as nat,
                    network.externals@,
                    as_ids@,
                );
                if self.with_failure && f is Err {
                    r is Err && r->Err_0 == f->Err_0 && *final(rng) == start
                } else {
                    &&& *final(rng) == d.rng
                    &&& match r {
                        Ok(e) => d.error is None && plans(e.setup@ + e.external_events@) == d.events
                            && e.failure == if self.with_failure {
                            Some(f->Ok_0)
                        } else {
                            None
                        },
                        Err(x) => d.error == Some(x),
                    }
                }
            }),
    {
        let failure = match gen_failure(rng, self.with_failure, &network, neighbors) {
            Ok(f) => f,
            Err(x) => {
                return Err(x);
            },
        };
        let (setup, external_events) = match gen_event_sequence(
            rng,
            self.num_externals,
            self.num_external_events,
            &network.externals,
            as_ids,
        ) {
            Ok(events) => events,
            Err(x) => {
                return Err(x);
            },
        };
        let ConfigureNetworkResult { monitor, roles, .. } = network;
        Ok(Experiment { inputs: self, setup, external_events, failure, roles, monitor })
    }
}

impl Experiment {
    /// The roles of the router and the neighbor of the bug are known.
    pub open spec fn wf(&self) -> bool {
        &&& self.roles.wf()
        &&& self.failure matches Some(f) ==> self.roles@.contains_key(f.router)
            && self.roles@.contains_key(f.neighbor)
    }

    /// A measurement in which nothing has been measured yet.
    pub fn empty_measurement(&self) -> (r: Measurement)
        requires
            self.wf(),
        ensures
            r.raw_json@.len() == 0,
            match (r.bug, self.failure) {
                (Some(d), Some(f)) => describes(d, f, self.roles@),
                (None, None) => true,
                _ => false,
            },
            !r.has_converged,
            r.mismatch == (Mismatch {
                rib_in: false,
                rib_in_processed: false,
                rib_selected: false,
                rib_out: false,
            }),
            r.blast_radius == 0,
            r.verdicts.total() == 0,
            r.num_failures_triggered == 0,
            r.total_num_events == 0,
            r.total_verif_time == 0,
            r.total_max_num_forks == 1,
    {
        proof {
            reveal_strlit("");
        }
        Measurement {
            raw_json: String::from_str(""),
            bug: match &self.failure {
                Some(f) => Some(describe(f, &self.roles)),
                None => None,
            },
            has_converged: false,
            mismatch: Mismatch {
                rib_in: false,
                rib_in_processed: false,
                rib_selected: false,
                rib_out: false,
            },
            blast_radius: 0,
            verdicts: Verdicts {
                num_true_positives: 0,
                num_true_negatives: 0,
                num_false_positives: 0,
                num_false_negatives: 0,
                num_monitors_killed: 0,
            },
            num_failures_triggered: 0,
            total_num_events: 0,
            total_verif_time: 0,
            total_max_num_forks: 1,
        }
    }

    /// Record what came of the verification of a trace, and give a summary of it. The trace of the
    /// monitor speaker does not count.
    pub fn verify_trace(
        &self,
        result: &mut Measurement,
        router: RouterId,
        router_name: String,
        trace_len: usize,
        outcome: TraceOutcome,
        elapsed: Time,
    ) -> (r: Option<PerformanceMeasurement>)
        requires
            self.roles.wf(),
            old(result).verdicts.total() < usize::MAX,
            old(result).total_num_events + trace_len <= usize::MAX,
            0 <= elapsed,
            old(result).total_verif_time + elapsed <= i64::MAX,
        ensures
            if self.monitor == Some(router) {
                r is None && *final(result) == *old(result)
            } else {
                &&& Measurement::recorded(
                    *old(result),
                    is_triggered(self.failure, router, old(result).num_failures_triggered),
                    trace_len,
                    outcome,
                    elapsed,
                    *final(result),
                )
                &&& r matches Some(p) && is_performance(
                    p,
                    router,
                    router_name,
                    self.roles@,
                    trace_len,
                    elapsed,
                    outcome,
                    is_triggered(self.failure, router, old(result).num_failures_triggered),
                )
            },
    {
        if !is_verified(self.monitor, router) {
            return None;
        }
        let bug_triggered: bool = is_bug_triggered(
            &self.failure,
            router,
            result.num_failures_triggered,
        );
        result.record_trace(bug_triggered, trace_len, outcome, elapsed);
        Some(
            performance_measurement(
                router,
                router_name,
                &self.roles,
                trace_len,
                elapsed,
                outcome,
                bug_triggered,
            ),
        )
    }
}

impl Measurement {
    /// What came of a trace is recorded.
    pub open spec fn recorded(
        before: Self,
        bug_triggered: bool,
        trace_len: usize,
        outcome: TraceOutcome,
        elapsed: Time,
        after: Self,
    ) -> bool {
        after == Measurement {
            verdicts: before.verdicts.with(bug_triggered, outcome),
            total_num_events: (before.total_num_events + trace_len) as usize,
            total_verif_time: (before.total_verif_time + elapsed) as Time,
            total_max_num_forks: if outcome.max_forks > before.total_max_num_forks {
                outcome.max_forks
            } else {
                before.total_max_num_forks
            },
            ..before
        }
    }

    /// Record what came of the trace of a router.
    pub fn record_trace(
        &mut self,
        bug_triggered: bool,
        trace_len: usize,
        outcome: TraceOutcome,
        elapsed: Time,
    )
        requires
            old(self).verdicts.total() < usize::MAX,
            old(self).total_num_events + trace_len <= usize::MAX,
            0 <= elapsed,
            old(self).total_verif_time + elapsed <= i64::MAX,
        ensures
            Self::recorded(
                *old(self),
                bug_triggered,
                trace_len,
                outcome,
                elapsed,
                *final(self),
            ),
    {
        if outcome.killed {
            self.verdicts.num_monitors_killed += 1;
        } else if bug_triggered {
            if outcome.ok {
                self.verdicts.num_false_negatives += 1;
            } else {
                self.verdicts.num_true_positives += 1;
            }
        } else if outcome.ok {
            self.verdicts.num_true_negatives += 1;
        } else {
            self.verdicts.num_false_positives += 1;
        }
        self.total_num_events += trace_len;
        self.total_verif_time += elapsed;
        if outcome.max_forks > self.total_max_num_forks {
            self.total_max_num_forks = outcome.max_forks;
        }
    }
}

/// Every trace leads to exactly one verdict.
pub proof fn law_one_verdict_per_trace(v: Verdicts, bug_triggered: bool, outcome: TraceOutcome)
    requires
        v.total() < usize::MAX,
    ensures
        v.with(bug_triggered, outcome).total() == v.total() + 1,
{
}

/// A router that works correctly is never falsely accused, and if its bug was not triggered then it is
/// counted among those that work as expected, unless the monitor gives up.
pub proof fn law_correct_routers_are_not_accused<'a>(
    v: Verdicts,
    states: Seq<ReorderingMonitor<'a>>,
    outcomes: Seq<(MonitoringResult, Time)>,
    last: MonitoringResult,
    post: ReorderingMonitor<'a>,
    msgs: Seq<Message>,
    outcome: TraceOutcome,
    run: Run,
)
    requires
        v.total() < usize::MAX,
        tests(states, outcomes, last, post, msgs, None, outcome),
        correct(states[0], msgs, None, run),
        settled(states[0], msgs, run),
        !(last matches Err(e) && e is Killed),
    ensures
        v.with(false, outcome).num_false_positives == v.num_false_positives,
        v.with(false, outcome) == (if outcome.killed {
            Verdicts { num_monitors_killed: (v.num_monitors_killed + 1) as usize, ..v }
        } else {
            Verdicts { num_true_negatives: (v.num_true_negatives + 1) as usize, ..v }
        }),
{
    law_correct_traces_are_accepted(states, outcomes, last, post, msgs, None, outcome, run);
}

/// The trace of a router shows its bug.
pub open spec fn is_triggered(
    failure: Option<Failure>,
    router: RouterId,
    num_failures_triggered: usize,
) -> bool {
    failure matches Some(f) && f.router == router && num_failures_triggered > 0
}

/// Whether the trace of a router shows its bug.
pub fn is_bug_triggered(
    failure: &Option<Failure>,
    router: RouterId,
    num_failures_triggered: usize,
) -> (r: bool)
    ensures
        r == is_triggered(*failure, router, num_failures_triggered),
{
    match failure {
        Some(f) => f.router == router && num_failures_triggered > 0,
        None => false,
    }
}

/// Whether the trace of a router is verified: that of the monitor speaker is not.
pub fn is_verified(monitor: Option<RouterId>, router: RouterId) -> (r: bool)
    ensures
        r == (monitor != Some(router)),
{
    match monitor {
        Some(m) => m != router,
        None => true,
    }
}

/// What came of the verification of one trace.
#[derive(Debug)]
pub struct PerformanceMeasurement {
    pub router: RouterId,
    pub router_name: String,
    pub router_role: String,
    pub num_events: usize,
    pub verif_time: Time,
    pub max_num_forks: usize,
    pub was_killed: bool,
    pub bug_triggered: bool,
    pub found_bug: bool,
}

/// What came of the verification of one trace. A router without a role gets a question mark.
pub open spec fn is_performance(
    p: PerformanceMeasurement,
    router: RouterId,
    router_name: String,
    roles: Map<RouterId, String>,
    num_events: usize,
    verif_time: Time,
    outcome: TraceOutcome,
    bug_triggered: bool,
) -> bool {
    &&& p.router == router
    &&& p.router_name == router_name
    &&& p.router_role@ == if roles.contains_key(router) {
        roles[router]@
    } else {
        "?"@
    }
    &&& p.num_events == num_events
    &&& p.verif_time == verif_time
    &&& p.max_num_forks == outcome.max_forks
    &&& p.was_killed == outcome.killed
    &&& p.bug_triggered == bug_triggered
    &&& p.found_bug == !outcome.ok
}

/// Put together what came of the verification of one trace. A router without a role gets a question
/// mark.
pub fn performance_measurement(
    router: RouterId,
    router_name: String,
    roles: &Keyed<String>,
    num_events: usize,
    verif_time: Time,
    outcome: TraceOutcome,
    bug_triggered: bool,
) -> (r: PerformanceMeasurement)
    requires
        roles.wf(),
    ensures
        is_performance(
            r,
            router,
            router_name,
            roles@,
            num_events,
            verif_time,
            outcome,
            bug_triggered,
        ),
{
    let router_role = match roles.get(router) {
        Some(role) => String::from_str(role.as_str()),
        None => String::from_str("?"),
    };
    PerformanceMeasurement {
        router,
        router_name,
        router_role,
        num_events,
        verif_time,
        max_num_forks: outcome.max_forks,
        was_killed: outcome.killed,
        bug_triggered,
        found_bug: !outcome.ok,
    }
}

/// Keep the traces of some routers.
pub fn retain_traces<V>(traces: Keyed<V>, internal: &NumberSet) -> (r: Keyed<V>)
    requires
        traces.wf(),
        internal.wf(),
    ensures
        r.wf(),
        r@ == traces@.restrict(internal@),
{
    let ghost all = traces.entries@;
    let mut kept: Keyed<V> = Keyed::new();
    for e in it: traces.entries
        invariant
            it.seq() == all,
            all == traces.entries@,
            traces.wf(),
            internal.wf(),
            kept.wf(),
            forall|x: RouterId| #[trigger]
                kept@.contains_key(x) <==> has_key(all.take(it.index() as int), x)
                    && internal@.contains(x),
            forall|x: RouterId| #[trigger]
                kept@.contains_key(x) ==> traces@.contains_key(x) && kept@[x] == traces@[x],
    {
        let ghost i = it.index() as int;
        let ghost before = kept@;
        let (router, trace) = e;
        proof {
            lemma_entry(all, i);
        }
        if internal.contains(router) {
            kept.insert(router, trace);
        }
        proof {
            assert forall|x: RouterId| #[trigger] kept@.contains_key(x) <==> has_key(
                all.take(i + 1),
                x,
            ) && internal@.contains(x) by {
                assert(before.contains_key(x) || !before.contains_key(x));
                lemma_has_key_take(all, i, x);
            }
        }
    }
    proof {
        assert(all.take(all.len() as int) =~= all);
        assert forall|x: RouterId| #[trigger] kept@.contains_key(x) <==> traces@.restrict(
            internal@,
        ).contains_key(x) by {
            assert(traces@.contains_key(x) == has_key(all, x));
        }
        assert(kept@ =~= traces@.restrict(internal@));
    }
    kept
}

/// The verdict on a trace. If the monitor has given up, only that is counted. Otherwise a triggered bug
/// is found exactly if the trace is rejected, and without one the router is falsely accused exactly if
/// the trace is rejected. Exactly one of the counts grows, by one. The events and the times add up, the
/// number of forks is the largest so far, and nothing else changes.
pub proof fn law_verdict_on_a_trace(
    before: Measurement,
    bug_triggered: bool,
    trace_len: usize,
    outcome: TraceOutcome,
    elapsed: Time,
    after: Measurement,
)
    requires
        before.verdicts.total() < usize::MAX,
        before.total_num_events + trace_len <= usize::MAX,
        0 <= elapsed,
        before.total_verif_time + elapsed <= i64::MAX,
        Measurement::recorded(before, bug_triggered, trace_len, outcome, elapsed, after),
    ensures
        ({
            let (v, w) = (before.verdicts, after.verdicts);
            let rejected = !outcome.ok;
            &&& w.num_monitors_killed - v.num_monitors_killed == if outcome.killed {
                1int
            } else {
                0
            }
            &&& w.num_true_positives - v.num_true_positives == if !outcome.killed && bug_triggered
                && rejected {
                1int
            } else {
                0
            }
            &&& w.num_false_negatives - v.num_false_negatives == if !outcome.killed
                && bug_triggered && !rejected {
                1int
            } else {
                0
            }
            &&& w.num_false_positives - v.num_false_positives == if !outcome.killed
                && !bug_triggered && rejected {
                1int
            } else {
                0
            }
            &&& w.num_true_negatives - v.num_true_negatives == if !outcome.killed && !bug_triggered
                && !rejected {
                1int
            } else {
                0
            }
        }),
        after.total_num_events == before.total_num_events + trace_len,
        after.total_verif_time == before.total_verif_time + elapsed,
        after.total_max_num_forks >= before.total_max_num_forks,
        after.total_max_num_forks >= outcome.max_forks,
        after.total_max_num_forks == before.total_max_num_forks || after.total_max_num_forks
            == outcome.max_forks,
        after.raw_json == before.raw_json,
        after.bug == before.bug,
        after.has_converged == before.has_converged,
        after.mismatch == before.mismatch,
        after.blast_radius == before.blast_radius,
        after.num_failures_triggered == before.num_failures_triggered,
{
}

/// What is written down of a trace agrees with the verdict on it: the router is a true positive exactly
/// if its bug was triggered and found, by a monitor that has not given up.
pub proof fn law_summary_agrees_with_the_verdict(
    p: PerformanceMeasurement,
    router: RouterId,
    router_name: String,
    roles: Map<RouterId, String>,
    trace_len: usize,
    elapsed: Time,
    outcome: TraceOutcome,
    bug_triggered: bool,
    before: Measurement,
    after: Measurement,
)
    requires
        before.verdicts.total() < usize::MAX,
        before.total_num_events + trace_len <= usize::MAX,
        0 <= elapsed,
        before.total_verif_time + elapsed <= i64::MAX,
        is_performance(
            p,
            router,
            router_name,
            roles,
            trace_len,
            elapsed,
            outcome,
            bug_triggered,
        ),
        Measurement::recorded(before, bug_triggered, trace_len, outcome, elapsed, after),
    ensures
        after.verdicts.num_true_positives > before.verdicts.num_true_positives <==> p.found_bug
            && p.bug_triggered && !p.was_killed,
        after.verdicts.num_false_positives > before.verdicts.num_false_positives <==> p.found_bug
            && !p.bug_triggered && !p.was_killed,
        after.verdicts.num_monitors_killed > before.verdicts.num_monitors_killed <==> p.was_killed,
        after.total_num_events - before.total_num_events == p.num_events,
        after.total_verif_time - before.total_verif_time == p.verif_time,
        after.total_max_num_forks >= p.max_num_forks,
        p.max_num_forks == outcome.max_forks,
        p.router == router,
        p.router_name == router_name,
        roles.contains_key(router) ==> p.router_role@ == roles[router]@,
        !roles.contains_key(router) ==> p.router_role@ =~= seq!['?'],
{
    reveal_strlit("?");
}

/// The bug of an experiment shows in the trace of a router only if it sits on that router, and only if it
/// was triggered at all, and in that case it does.
pub proof fn law_bug_shows_on_its_router(
    failure: Option<Failure>,
    router: RouterId,
    num_failures_triggered: usize,
)
    ensures
        failure is None ==> !is_triggered(failure, router, num_failures_triggered),
        num_failures_triggered == 0 ==> !is_triggered(failure, router, num_failures_triggered),
        failure is Some && failure->0.router != router ==> !is_triggered(
            failure,
            router,
            num_failures_triggered,
        ),
        failure is Some && failure->0.router == router && num_failures_triggered > 0
            ==> is_triggered(failure, router, num_failures_triggered),
{
}

/// The name of what a router is for tells its parts: an external router is nothing else. Among the others
/// the name starts with `reflector` exactly for the route reflectors, and ends with `egress` exactly for
/// the routers with a session to an external one. The rest are called internal.
pub proof fn law_names_of_roles(
    externals: Seq<RouterId>,
    reflectors: Seq<RouterId>,
    borders: Seq<RouterId>,
    r: RouterId,
)
    ensures
        ({
            let name = role(externals, reflectors, borders, r);
            let external = "external"@;
            let (reflector, egress) = ("reflector"@, "egress"@);
            &&& name == external <==> externals.contains(r)
            &&& !externals.contains(r) ==> (name.len() >= 9 && name.take(9) == reflector
                <==> reflectors.contains(r))
            &&& !externals.contains(r) ==> (name.len() >= 6 && name.skip(name.len() - 6) == egress
                <==> borders.contains(r))
            &&& name == "internal"@ <==> !externals.contains(r) && !reflectors.contains(r)
                && !borders.contains(r)
        }),
{
    reveal_strlit("external");
    reveal_strlit("internal");
    reveal_strlit("reflector");
    reveal_strlit("egress");
    reveal_strlit("reflector+egress");
    let both = "reflector+egress"@;
    assert(both.take(9) =~= "reflector"@);
    assert(both.skip(10) =~= "egress"@);
    assert("reflector"@.take(9) =~= "reflector"@);
    assert("egress"@.skip(0) =~= "egress"@);
    assert("external"@.len() == 8 && "internal"@.len() == 8);
    assert("internal"@[0] == 'i' && "external"@[0] == 'e' && "egress"@[0] == 'e' && "reflector"@[0]
        == 'r');
    assert("internal"@.skip(2)[0] == 't');
    assert("reflector"@.skip(3)[0] == 'l');
    assert(both.len() == 16);
    assert("external"@ != "egress"@ && "external"@ != "internal"@ && "external"@ != "reflector"@);
}

/// A router is a border router exactly if some external router has its session with it.
pub proof fn law_border_routers(
    externals: Seq<RouterId>,
    ebgp_sessions: Map<RouterId, RouterId>,
    borders: Seq<RouterId>,
    r: RouterId,
)
    requires
        borders.to_multiset() == borders_of(externals, ebgp_sessions).to_multiset(),
    ensures
        borders.contains(r) <==> exists|i: int|
            0 <= i < externals.len() && ebgp_sessions[#[trigger] externals[i]] == r,
        borders.len() == externals.len(),
{
    broadcast use vstd::seq_lib::group_to_multiset_ensures;

    let all = borders_of(externals, ebgp_sessions);
    assert(borders.contains(r) <==> borders.to_multiset().count(r) > 0);
    assert(all.contains(r) <==> all.to_multiset().count(r) > 0);
    vstd::seq_lib::to_multiset_len(borders);
    vstd::seq_lib::to_multiset_len(all);
    if all.contains(r) {
        let i = choose|i: int| 0 <= i < all.len() && all[i] == r;
        assert(ebgp_sessions[externals[i]] == r);
    }
    if exists|i: int| 0 <= i < externals.len() && ebgp_sessions[#[trigger] externals[i]] == r {
        let i = choose|i: int|
            0 <= i < externals.len() && ebgp_sessions[#[trigger] externals[i]] == r;
        assert(all[i] == r);
    }
}

/// A reflector lets every route pass that it tags, and the tags of different reflectors differ.
pub proof fn law_reflectors_only_tag(a: RouterId, b: RouterId, route: RouteView)
    requires
        a + 1000 <= u32::MAX,
        b + 1000 <= u32::MAX,
    ensures
        crate::reconfiguration::passes(seq![tag(a)], route, 0),
        tag(a).conds.len() == 0,
        tag(a).set.len() == 1,
        tag(a).set[0] is SetCommunity,
        tag(a).set[0]->SetCommunity_0 >= 1000,
        a != b ==> tag(a).set[0] != tag(b).set[0],
{
    reveal_with_fuel(crate::reconfiguration::passes, 2);
}

/// In the healthy network the prepared item denies every route where the bug is to let routes pass, and
/// none where the bug is to deny them. With the bug, it denies as many of a hundred fewer, or more, as the
/// bug shows.
pub proof fn law_denying_with_and_without_the_bug(p: Probability, q: Probability, v: u32)
    requires
        p.is_valid(),
    ensures
        ({
            let (pass, deny) = (Bug::WithdrawToUpdate { p }, Bug::UpdateToWithdraw { p });
            &&& in_route_map(pass) && in_route_map(deny)
            &&& healthy_probability(pass).numerator == healthy_probability(pass).denominator
            &&& healthy_probability(deny).numerator == 0
            &&& healthy_probability(deny).denominator > 0
            &&& healthy_probability(pass).denominator > 0
            &&& buggy_probability(pass).denominator == p.denominator
            &&& buggy_probability(pass).numerator + p.numerator == p.denominator
            &&& buggy_probability(deny) == p
        }),
        !denies(q).allow,
        denies(q).conds.len() == 1,
        denies(q).conds[0] matches RouteMapMatch::Probabilistic { p: used, .. } && used == q,
        !in_route_map(Bug::DropUpdates { p }),
        !in_route_map(Bug::DropWithdraws { p }),
        !in_route_map(Bug::TransformCommunity { p, swap: v }),
        !in_route_map(Bug::TransformLocalPref { p, new_val: v }),
{
}

/// The counts of the prepared item in a healthy network show no bug. Where the item does the opposite of
/// that on every route, every route shows the bug.
pub proof fn law_counting_at_the_prepared_item(
    bug: Bug,
    num_matched: usize,
    num_not_matched: usize,
)
    requires
        in_route_map(bug),
    ensures
        ({
            let always = healthy_probability(bug).numerator == healthy_probability(bug).denominator;
            let healthy = if always {
                num_not_matched == 0
            } else {
                num_matched == 0
            };
            let opposite = if always {
                num_matched == 0
            } else {
                num_not_matched == 0
            };
            &&& healthy ==> times_shown(bug, num_matched, num_not_matched) == 0
            &&& opposite ==> times_shown(bug, num_matched, num_not_matched) == num_matched
                + num_not_matched
        }),
{
}

/// The description of a bug fits what it does: a destructive bug loses the messages that it is about, a
/// transformative one turns an update into another update, and the others sit in a route map. A bug is
/// about withdraws exactly if it says so.
pub proof fn law_descriptions_fit(bug: Bug, e: BgpEventView)
    ensures
        class_of(bug) == "destructive"@ && bug.concerns(e) ==> bug.outcome(e, true).0 is None,
        class_of(bug) == "transformative"@ && bug.concerns(e) ==> (bug.outcome(e, true).0 matches
            Some(out) && out is Update && e is Update),
        class_of(bug) == "swap_type"@ <==> in_route_map(bug),
        bug.concerns(e) ==> affected_by(bug) == if e is Update {
            "update"@
        } else {
            "withdraw"@
        },
        bug is WithdrawToUpdate ==> affected_by(bug) == "withdraw"@,
        bug is UpdateToWithdraw ==> affected_by(bug) == "update"@,
{
    reveal_strlit("destructive");
    reveal_strlit("transformative");
    reveal_strlit("swap_type");
    assert("destructive"@.len() == 11 && "transformative"@.len() == 14 && "swap_type"@.len() == 9);
}

/// The description of a failure names its router, its neighbor and their roles, and the side of the session.
/// The argument of a bug that changes an attribute ends with the value, which can be read back, and the
/// others have no argument.
pub proof fn law_description_of_a_failure(d: BugDetails, f: Failure, roles: Map<RouterId, String>)
    requires
        describes(d, f, roles),
    ensures
        d.router == f.router,
        d.neighbor == f.neighbor,
        d.router_roles@ == roles[f.router]@,
        d.neighbor_roles@ == roles[f.neighbor]@,
        d.pipeline@ == "ingress"@ <==> f.location is Ingress,
        d.pipeline@ == "egress"@ <==> f.location is Egress,
        f.bug matches Bug::TransformLocalPref { new_val, p } ==> d.probability == p
            && crate::strings::starts_with(d.args@, "set "@) && crate::strings::number(
            d.args@.skip(4),
        ) == Some(new_val as nat),
        f.bug matches Bug::TransformCommunity { swap, p } ==> d.probability == p
            && crate::strings::starts_with(d.args@, "swap "@) && crate::strings::number(
            d.args@.skip(5),
        ) == Some(swap as nat),
        !(f.bug is TransformLocalPref) && !(f.bug is TransformCommunity) ==> d.args@.len() == 0,
{
    reveal_strlit("ingress");
    reveal_strlit("egress");
    reveal_strlit("set ");
    reveal_strlit("swap ");
    assert("ingress"@.len() != "egress"@.len());
    if let Bug::TransformLocalPref { new_val, .. } = f.bug {
        let n = decimal(new_val as nat);
        assert(d.args@ == "set "@ + n);
        assert(d.args@.skip(4) =~= n);
        assert(d.args@.take(4) =~= "set "@);
        crate::strings::lemma_number_of_decimal(new_val as nat);
    }
    if let Bug::TransformCommunity { swap, .. } = f.bug {
        let n = decimal(swap as nat);
        assert(d.args@ == "swap "@ + n);
        assert(d.args@.skip(5) =~= n);
        assert(d.args@.take(5) =~= "swap "@);
        crate::strings::lemma_number_of_decimal(swap as nat);
    }
}

/// An experiment has as many events as asked for, of external routers only, and a bug exactly if asked for.
/// A bug on the egress sits at the border or at a reflector.
pub proof fn law_experiments_are_as_asked_for(
    e: Experiment,
    inputs: MeasurementInput,
    network: ConfigureNetworkResult,
    neighbors: Map<RouterId, NumberSet>,
    as_ids: Map<RouterId, AsId>,
    i: int,
)
    requires
        is_experiment_for(e, inputs, network, neighbors, as_ids),
    ensures
        e.setup@.len() == inputs.num_externals,
        e.external_events@.len() == inputs.num_external_events,
        e.failure is None <==> !inputs.with_failure,
        e.failure matches Some(f) ==> neighbors.contains_key(f.router)
            && neighbors[f.router]@.contains(f.neighbor) && (f.location is Egress
            ==> network.borders@.contains(f.router) || network.reflectors@.contains(f.router)) && (
        f.location is Ingress ==> network.internals@.contains(f.router)),
        0 <= i < e.setup@.len() ==> network.externals@.contains(e.setup@[i].source),
        0 <= i < e.external_events@.len() ==> network.externals@.contains(
            e.external_events@[i].source,
        ),
        e.roles == network.roles && e.monitor == network.monitor,
{
    if let Some(f) = e.failure {
        crate::workload::law_where_bugs_sit(network, f.router);
    }
    let all = e.setup@ + e.external_events@;
    if 0 <= i < e.setup@.len() {
        crate::workload::law_withdrawals_follow_announcements(all, network.externals@, as_ids, i);
        assert(all[i] == e.setup@[i]);
    }
    if 0 <= i < e.external_events@.len() {
        let k = e.setup@.len() + i;
        crate::workload::law_withdrawals_follow_announcements(all, network.externals@, as_ids, k);
        assert(all[k] == e.external_events@[i]);
    }
}

} // verus!
