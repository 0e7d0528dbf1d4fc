//! Failures of a network: messages that are lost or garbled.
use vstd::prelude::*;
use vstd::string::*;

use crate::bgp::{BgpEvent, BgpEventView, BgpRibEntry, BgpRoute, BgpSessionType};
use crate::bgp::{Event, EventView, RouteView, RouterId, DEFAULT_LOCAL_PREF};
use crate::number_set::{increasing, NumberSet};
use crate::route_map::{RouteMap, RouteMapMatch, RouteMapSet};
use crate::text::{append_number, append_signed, decimal, signed_decimal, Names};

verus! {

/// Where in the network a failure occurs.
///
/// `(Some(src), Some(dst))` is a session: only the messages that travel on it are affected.
/// `(Some(r), None)` and `(None, Some(r))` are the egress and the ingress of a router: all messages
/// from it, or to it, are affected.
pub type Locality = (Option<RouterId>, Option<RouterId>);

/// A failure.
#[derive(Clone, Copy, PartialEq, Eq, Hash, Debug)]
pub enum Failure {
    /// Updates are lost.
    BGPDropUpdate(Locality),
    /// Withdraws are lost.
    BGPDropWithdraw(Locality),
    /// LOCAL-PREF is overwritten.
    BGPChangeLocalPref(Locality, u32),
    /// A community is added, or removed if the value is negative.
    BGPChangeCommunity(Locality, i32),
}

impl Failure {
    pub open spec fn locality(self) -> Locality {
        match self {
            Failure::BGPDropUpdate(loc) => loc,
            Failure::BGPDropWithdraw(loc) => loc,
            Failure::BGPChangeLocalPref(loc, _) => loc,
            Failure::BGPChangeCommunity(loc, _) => loc,
        }
    }

    /// The failure occurs somewhere.
    pub open spec fn has_place(self) -> bool {
        self.locality() != (None::<RouterId>, None::<RouterId>)
    }

    /// The value of the failure can be negated.
    pub open spec fn has_opposite(self) -> bool {
        self matches Failure::BGPChangeCommunity(_, c) ==> c > i32::MIN
    }

    /// The failure occurs somewhere, and its value can be negated.
    pub open spec fn is_valid(self) -> bool {
        self.has_place() && self.has_opposite()
    }

    /// The failure can be applied to a message: it occurs somewhere, and if it changes the message, then
    /// its value can be negated.
    pub open spec fn is_applicable<T>(self, event: EventView<T>) -> bool {
        event matches EventView::Bgp { src, dst, e, .. } ==> self.has_place() && (self.affects(
            src,
            dst,
        ) && e is Update ==> self.has_opposite())
    }

    /// Messages from `src` to `dst` are affected.
    pub open spec fn affects(self, src: RouterId, dst: RouterId) -> bool {
        &&& self.locality().0 matches Some(a) ==> src == a
        &&& self.locality().1 matches Some(b) ==> dst == b
    }

    /// What becomes of a BGP message that is affected.
    pub open spec fn garbled(self, e: BgpEventView) -> Option<BgpEventView> {
        match (self, e) {
            (Failure::BGPDropUpdate(_), BgpEventView::Update(_)) => None,
            (Failure::BGPDropWithdraw(_), BgpEventView::Withdraw(_)) => None,
            (Failure::BGPChangeLocalPref(_, lp), BgpEventView::Update(route)) => Some(
                BgpEventView::Update(RouteView { local_pref: Some(lp), ..route }),
            ),
            (Failure::BGPChangeCommunity(_, c), BgpEventView::Update(route)) => Some(
                BgpEventView::Update(
                    RouteView {
                        community: if c < 0 {
                            route.community.remove((-c) as u32)
                        } else {
                            route.community.insert(c as u32)
                        },
                        ..route
                    },
                ),
            ),
            (_, e) => Some(e),
        }
    }

    /// What becomes of a message.
    pub open spec fn applied<T>(self, event: EventView<T>) -> Option<EventView<T>> {
        match event {
            EventView::Bgp { p, src, dst, e } => if self.affects(src, dst) {
                match self.garbled(e) {
                    Some(e) => Some(EventView::Bgp { p, src, dst, e }),
                    None => None,
                }
            } else {
                Some(event)
            },
            EventView::Ospf { .. } => Some(event),
        }
    }

    /// Apply the failure to a message. `None` if it is lost.
    pub fn apply<T>(&self, event: Event<T>) -> (r: Option<Event<T>>)
        requires
            self.is_applicable(event@),
        ensures
            match r {
                Some(e) => self.applied(event@) == Some(e@),
                None => self.applied(event@) is None,
            },
    {
        if !self.filter(&event) {
            return Some(event);
        }
        match event {
            Event::Bgp { p, src, dst, e } => match self.garble(e) {
                Some(e) => Some(Event::Bgp { p, src, dst, e }),
                None => None,
            },
            Event::Ospf { p, src, dst } => Some(Event::Ospf { p, src, dst }),
        }
    }

    /// Apply the failure to a BGP message that it affects. `None` if the message is lost.
    pub fn garble(&self, e: BgpEvent) -> (r: Option<BgpEvent>)
        requires
            e@ is Update ==> self.has_opposite(),
        ensures
            match r {
                Some(x) => self.garbled(e@) == Some(x@),
                None => self.garbled(e@) is None,
            },
    {
        match (*self, e) {
            (Failure::BGPDropUpdate(_), BgpEvent::Update(_)) => None,
            (Failure::BGPDropWithdraw(_), BgpEvent::Withdraw(_)) => None,
            (Failure::BGPChangeLocalPref(_, lp), BgpEvent::Update(route)) => {
                let mut new_route: BgpRoute = route;
                new_route.local_pref = Some(lp);
                Some(BgpEvent::Update(new_route))
            },
            (Failure::BGPChangeCommunity(_, c), BgpEvent::Update(route)) => {
                let mut new_route: BgpRoute = route;
                if c < 0 {
                    new_route.community.remove((-c) as u32);
                } else {
                    new_route.community.insert(c as u32);
                }
                Some(BgpEvent::Update(new_route))
            },
            (_, e) => Some(e),
        }
    }

    /// Whether the failure affects a message.
    pub fn filter<T>(&self, event: &Event<T>) -> (r: bool)
        requires
            event@ is Bgp ==> self.has_place(),
        ensures
            r == match event@ {
                EventView::Bgp { src, dst, .. } => self.affects(src, dst),
                EventView::Ospf { .. } => false,
            },
    {
        match event {
            Event::Bgp { src, dst, .. } => self.matches_locality(*src, *dst),
            Event::Ospf { .. } => false,
        }
    }

    /// Whether the failure affects messages from `src` to `dst`.
    pub fn matches_locality(&self, src: RouterId, dst: RouterId) -> (r: bool)
        requires
            self.has_place(),
        ensures
            r == self.affects(src, dst),
    {
        match self.get_locality() {
            (Some(a), Some(b)) => src == a && dst == b,
            (Some(a), None) => src == a,
            (None, Some(b)) => dst == b,
            (None, None) => true,
        }
    }

    /// Where the failure occurs.
    pub fn get_locality(&self) -> (r: Locality)
        ensures
            r == self.locality(),
    {
        match self {
            Failure::BGPDropUpdate(loc) => *loc,
            Failure::BGPDropWithdraw(loc) => *loc,
            Failure::BGPChangeLocalPref(loc, _) => *loc,
            Failure::BGPChangeCommunity(loc, _) => *loc,
        }
    }
}

/// A failure leaves the messages alone that travel elsewhere.
pub proof fn law_failure_is_local<T>(f: Failure, event: EventView<T>)
    requires
        event matches EventView::Bgp { src, dst, .. } ==> !f.affects(src, dst),
    ensures
        f.applied(event) == Some(event),
{
}

/// A failure never changes where a message goes, nor which prefix it is about.
pub proof fn law_failure_keeps_the_session<T>(f: Failure, event: EventView<T>)
    ensures
        f.applied(event) matches Some(e) ==> e.source() == event.source() && e.router()
            == event.router() && e.prefix() == event.prefix() && e.priority() == event.priority(),
{
}

/// To be struck twice by the same failure is like being struck once.
pub proof fn law_failure_is_idempotent<T>(f: Failure, event: EventView<T>)
    ensures
        f.applied(event) matches Some(e) ==> f.applied(e) == Some(e),
{
    if let Some(e) = f.applied(event) {
        if let EventView::Bgp { e: BgpEventView::Update(route), .. } = event {
            if let EventView::Bgp { e: BgpEventView::Update(once), .. } = e {
                match f {
                    Failure::BGPChangeCommunity(_, c) => {
                        assert(once.community.remove((-c) as u32) =~= once.community || c >= 0
                            || !f.affects(event.source(), event.router()));
                        assert(once.community.insert(c as u32) =~= once.community || c < 0
                            || !f.affects(event.source(), event.router()));
                    },
                    _ => {},
                }
            }
        }
    }
}

/// A locality in writing.
pub open spec fn locality_text(loc: Locality, names: &Names) -> Seq<char> {
    match loc {
        (None, Some(r)) => "(*, Some("@ + names.name(r) + "))"@,
        (Some(r), None) => "(Some("@ + names.name(r) + "), *)"@,
        (Some(a), Some(b)) => "(Some("@ + names.name(a) + "), Some("@ + names.name(b) + "))"@,
        (None, None) => Seq::empty(),
    }
}

/// A failure in writing.
pub open spec fn failure_text(f: Failure, names: &Names) -> Seq<char> {
    match f {
        Failure::BGPDropUpdate(loc) => "BGPDropUpdate("@ + locality_text(loc, names) + ")"@,
        Failure::BGPDropWithdraw(loc) => "BGPDropWithdraw("@ + locality_text(loc, names) + ")"@,
        Failure::BGPChangeLocalPref(loc, lp) => "BGPChangeLocalPref("@ + locality_text(loc, names)
            + ", "@ + decimal(lp as nat) + ")"@,
        Failure::BGPChangeCommunity(loc, c) => "BGPChangeCommunity("@ + locality_text(loc, names)
            + (if c < 0 {
            ", "@
        } else {
            ", +"@
        }) + signed_decimal(c as int) + ")"@,
    }
}

fn append_locality(s: &mut String, loc: Locality, names: &Names)
    requires
        names.names.wf(),
    ensures
        final(s)@ == old(s)@ + locality_text(loc, names),
{
    let ghost before = s@;
    match loc {
        (None, Some(r)) => {
            s.append("(*, Some(");
            names.append_name(s, r);
            s.append("))");
        },
        (Some(r), None) => {
            s.append("(Some(");
            names.append_name(s, r);
            s.append("), *)");
        },
        (Some(a), Some(b)) => {
            s.append("(Some(");
            names.append_name(s, a);
            s.append("), Some(");
            names.append_name(s, b);
            s.append("))");
        },
        (None, None) => {},
    }
    assert(s@ =~= before + locality_text(loc, names));
}

impl Failure {
    /// The failure in writing.
    pub fn fmt(&self, names: &Names) -> (r: String)
        requires
            names.names.wf(),
            self.has_place(),
        ensures
            r@ == failure_text(*self, names),
    {
        let mut s: String = String::new();
        match *self {
            Failure::BGPDropUpdate(loc) => {
                s.append("BGPDropUpdate(");
                append_locality(&mut s, loc, names);
            },
            Failure::BGPDropWithdraw(loc) => {
                s.append("BGPDropWithdraw(");
                append_locality(&mut s, loc, names);
            },
            Failure::BGPChangeLocalPref(loc, lp) => {
                s.append("BGPChangeLocalPref(");
                append_locality(&mut s, loc, names);
                s.append(", ");
                append_number(&mut s, lp as u64);
            },
            Failure::BGPChangeCommunity(loc, c) => {
                s.append("BGPChangeCommunity(");
                append_locality(&mut s, loc, names);
                if c < 0 {
                    s.append(", ");
                } else {
                    s.append(", +");
                }
                append_signed(&mut s, c as i64);
            },
        }
        s.append(")");
        assert(s@ =~= failure_text(*self, names));
        s
    }
}

// ---------------------------------------------------------------------------------------------
// Sets of failures
// ---------------------------------------------------------------------------------------------
fn same_locality(a: Locality, b: Locality) -> (r: bool)
    ensures
        r == (a == b),
{
    a.0 == b.0 && a.1 == b.1
}

fn same_failure(a: Failure, b: Failure) -> (r: bool)
    ensures
        r == (a == b),
{
    match (a, b) {
        (Failure::BGPDropUpdate(x), Failure::BGPDropUpdate(y)) => same_locality(x, y),
        (Failure::BGPDropWithdraw(x), Failure::BGPDropWithdraw(y)) => same_locality(x, y),
        (Failure::BGPChangeLocalPref(x, v), Failure::BGPChangeLocalPref(y, w)) => same_locality(x, y)
            && v == w,
        (Failure::BGPChangeCommunity(x, v), Failure::BGPChangeCommunity(y, w)) => same_locality(x, y)
            && v == w,
        _ => false,
    }
}

/// Add a locality to a set.
fn insert_locality(list: &mut Vec<Locality>, loc: Locality)
    requires
        old(list)@.no_duplicates(),
    ensures
        final(list)@.no_duplicates(),
        forall|x: Locality| #[trigger]
            final(list)@.contains(x) <==> old(list)@.contains(x) || x == loc,
{
    let ghost before = list@;
    if !has_locality(list, loc) {
        list.push(loc);
        proof {
            assert(list@[before.len() as int] == loc);
            assert forall|x: Locality| #[trigger] list@.contains(x) <==> before.contains(x) || x
                == loc by {
                broadcast use vstd::seq_lib::group_seq_properties;

            }
        }
    }
}

/// Whether a set holds a locality.
fn has_locality(list: &Vec<Locality>, loc: Locality) -> (r: bool)
    ensures
        r == list@.contains(loc),
{
    for i in 0..list.len()
        invariant
            forall|j: int| 0 <= j < i ==> list@[j] != loc,
    {
        if same_locality(list[i], loc) {
            return true;
        }
    }
    false
}

/// Add a failure to a set.
fn insert_failure(list: &mut Vec<Failure>, f: Failure)
    requires
        old(list)@.no_duplicates(),
    ensures
        final(list)@.no_duplicates(),
        forall|x: Failure| #[trigger]
            final(list)@.contains(x) <==> old(list)@.contains(x) || x == f,
{
    let ghost before = list@;
    for i in 0..list.len()
        invariant
            list@ == before,
            before == old(list)@,
            before.no_duplicates(),
            forall|j: int| 0 <= j < i ==> list@[j] != f,
    {
        if same_failure(list[i], f) {
            assert(before[i as int] == f);
            return;
        }
    }
    list.push(f);
    proof {
        assert(list@[before.len() as int] == f);
        assert forall|x: Failure| #[trigger] list@.contains(x) <==> before.contains(x) || x == f by {
            broadcast use vstd::seq_lib::group_seq_properties;

        }
    }
}

/// What is known of an internal router.
#[derive(Debug)]
pub struct RouterInfo {
    pub router_id: RouterId,
    pub sessions: Vec<(RouterId, BgpSessionType)>,
    /// All entries of its tables, incoming, selected and outgoing
    pub rib_entries: Vec<BgpRibEntry>,
    /// All items of its route maps, for all neighbors and both directions
    pub route_maps: Vec<RouteMap>,
}

/// Collects what can go wrong in a network.
#[derive(Debug)]
pub struct FailureSetBuilder {
    /// The localities of the events so far. Their failures need not be explored again.
    pub localities: Vec<Locality>,
    /// The localities on which failures are considered. There is none where an external router
    /// sends, since those routers are not ours.
    pub all_relevant_localities: Vec<Locality>,
    pub local_preferences: NumberSet,
    pub communities: NumberSet,
    /// The internal routers, and the routers to which they have sessions
    pub internal_sessions: Vec<(RouterId, Vec<(RouterId, BgpSessionType)>)>,
}

/// A LOCAL-PREF in the middle of two others.
pub open spec fn middle(a: u32, b: u32) -> u32 {
    (a + (b - a) / 2) as u32
}

/// The LOCAL-PREF in the middle of the elements before and at position `i`.
pub open spec fn middle_at(prefs: Seq<u32>, i: int) -> u32 {
    middle(prefs[i - 1], prefs[i])
}

/// `x` is in the middle of two neighboring elements.
pub open spec fn is_middle(prefs: Seq<u32>, x: u32) -> bool {
    exists|i: int| 0 < i < prefs.len() && x == #[trigger] middle_at(prefs, i)
}

/// The values in the middle, with one more element.
proof fn lemma_middle_next(prefs: Seq<u32>, k: int, x: u32)
    requires
        0 <= k < prefs.len(),
    ensures
        is_middle(prefs.take(k + 1), x) <==> is_middle(prefs.take(k), x) || (k > 0 && x
            == middle_at(prefs, k)),
{
    let (a, b) = (prefs.take(k), prefs.take(k + 1));
    if is_middle(a, x) {
        let j = choose|j: int| 0 < j < a.len() && x == #[trigger] middle_at(a, j);
        assert(middle_at(b, j) == x);
    }
    if k > 0 && x == middle_at(prefs, k) {
        assert(middle_at(b, k) == x);
    }
    if is_middle(b, x) {
        let j = choose|j: int| 0 < j < b.len() && x == #[trigger] middle_at(b, j);
        if j < k {
            assert(middle_at(a, j) == x);
        } else {
            assert(middle_at(prefs, k) == x);
        }
    }
}

/// The values of LOCAL-PREF that are worth trying: those that are known, those in the middle of two
/// neighboring ones, half of the smallest, and twice the largest.
pub open spec fn is_relevant_pref(prefs: Seq<u32>, x: u32) -> bool {
    &&& prefs.len() > 0
    &&& {
        ||| prefs.contains(x)
        ||| is_middle(prefs, x)
        ||| x == prefs[0] / 2
        ||| x == prefs.last() * 2
    }
}

/// A community as a signed number.
pub open spec fn as_signed(c: u32) -> i32 {
    if c <= i32::MAX {
        c as i32
    } else {
        (c - 0x1_0000_0000) as i32
    }
}

/// The failures at a locality: messages are lost, a known community is added or removed, or
/// LOCAL-PREF is overwritten with a relevant value.
pub open spec fn is_failure_at(
    loc: Locality,
    communities: Set<u32>,
    prefs: Seq<u32>,
    f: Failure,
) -> bool {
    match f {
        Failure::BGPDropUpdate(l) => l == loc,
        Failure::BGPDropWithdraw(l) => l == loc,
        Failure::BGPChangeLocalPref(l, lp) => l == loc && is_relevant_pref(prefs, lp),
        Failure::BGPChangeCommunity(l, c) => l == loc && exists|x: u32| #[trigger]
            communities.contains(x) && (c == as_signed(x) || c == -as_signed(x)),
    }
}

impl FailureSetBuilder {
    pub open spec fn wf(&self) -> bool {
        &&& self.localities@.no_duplicates()
        &&& self.all_relevant_localities@.no_duplicates()
        &&& self.local_preferences.wf()
        &&& self.communities.wf()
    }

    /// The numbers are small enough for the failures to be written down.
    pub open spec fn in_range(&self) -> bool {
        &&& self.prefs_in_range()
        &&& !self.communities@.contains(0x8000_0000)
    }

    /// Twice the largest LOCAL-PREF is still a LOCAL-PREF.
    pub open spec fn prefs_in_range(&self) -> bool {
        self.local_preferences.items@.len() > 0 ==> self.local_preferences.items@.last() * 2
            <= u32::MAX
    }

    pub fn new() -> (r: Self)
        ensures
            r.wf(),
            r.in_range(),
            r.localities@.len() == 0,
            r.all_relevant_localities@.len() == 0,
            r.local_preferences.items@.len() == 0,
            r.communities@ == Set::<u32>::empty(),
            r.internal_sessions@.len() == 0,
    {
        FailureSetBuilder {
            localities: Vec::new(),
            all_relevant_localities: Vec::new(),
            local_preferences: NumberSet::new(),
            communities: NumberSet::new(),
            internal_sessions: Vec::new(),
        }
    }

    /// The values of LOCAL-PREF that are worth trying, in increasing order. There are none as long as
    /// none is known.
    pub fn get_all_relevant_local_preferences(&self) -> (r: Vec<u32>)
        requires
            self.wf(),
            self.prefs_in_range(),
        ensures
            increasing(r@),
            r@.len() <= 2 * self.local_preferences.items@.len() + 1,
            forall|x: u32| #[trigger]
                r@.contains(x) <==> is_relevant_pref(self.local_preferences.items@, x),
    {
        let ghost prefs = self.local_preferences.items@;
        let n: usize = self.local_preferences.items.len();
        if n == 0 {
            return Vec::new();
        }
        let mut extended: NumberSet = NumberSet::new();
        for i in 0..n
            invariant
                self.wf(),
                prefs == self.local_preferences.items@,
                n == prefs.len(),
                extended.wf(),
                extended.items@.len() <= if i == 0 {
                    0
                } else {
                    2 * i - 1
                },
                forall|x: u32| #[trigger]
                    extended@.contains(x) <==> prefs.take(i as int).contains(x) || is_middle(
                        prefs.take(i as int),
                        x,
                    ),
        {
            let value: u32 = self.local_preferences.items[i];
            let ghost before = extended@;
            let ghost (a, b) = (prefs.take(i as int), prefs.take(i + 1));
            if i > 0 {
                let prev: u32 = self.local_preferences.items[i - 1];
                assert(prefs[i - 1] < prefs[i as int]);
                extended.insert(prev + (value - prev) / 2);
            }
            extended.insert(value);
            proof {
                assert(b =~= a.push(value));
                assert forall|x: u32| #[trigger] extended@.contains(x) <==> b.contains(x)
                    || is_middle(b, x) by {
                    assert(before.contains(x) <==> a.contains(x) || is_middle(a, x));
                    assert(b.contains(x) <==> a.contains(x) || x == value) by {
                        broadcast use vstd::seq_lib::group_seq_properties;

                    }
                    lemma_middle_next(prefs, i as int, x);
                }
            }
        }
        assert(prefs.take(n as int) =~= prefs);
        let min: u32 = self.local_preferences.items[0];
        let max: u32 = self.local_preferences.items[n - 1];
        extended.insert(min / 2);
        extended.insert(max * 2);
        proof {
            assert forall|x: u32| #[trigger] extended.items@.contains(x) <==> is_relevant_pref(
                prefs,
                x,
            ) by {
                assert(extended@.contains(x) == extended.items@.contains(x));
            }
        }
        extended.items
    }

    /// All failures at a locality.
    fn failures_from_locality(&self, loc: Locality, failures: &mut Vec<Failure>)
        requires
            self.wf(),
            self.in_range(),
            old(failures)@.no_duplicates(),
        ensures
            final(failures)@.no_duplicates(),
            forall|f: Failure| #[trigger]
                final(failures)@.contains(f) <==> old(failures)@.contains(f) || is_failure_at(
                    loc,
                    self.communities@,
                    self.local_preferences.items@,
                    f,
                ),
    {
        let ghost base = failures@;
        let ghost prefs = self.local_preferences.items@;
        insert_failure(failures, Failure::BGPDropUpdate(loc));
        insert_failure(failures, Failure::BGPDropWithdraw(loc));
        let ghost drops = failures@;
        let ghost items = self.communities.items@;
        for i in 0..self.communities.items.len()
            invariant
                self.wf(),
                self.in_range(),
                items == self.communities.items@,
                failures@.no_duplicates(),
                forall|f: Failure| #[trigger]
                    failures@.contains(f) <==> drops.contains(f) || is_change_among(
                        loc,
                        items,
                        i as int,
                        f,
                    ),
        {
            let c: u32 = self.communities.items[i];
            assert(self.communities@.contains(items[i as int]));
            let signed: i32 = if c <= 0x7fff_ffff {
                c as i32
            } else {
                -((u32::MAX - c) as i32) - 1
            };
            assert(signed == as_signed(c));
            let ghost before = failures@;
            insert_failure(failures, Failure::BGPChangeCommunity(loc, signed));
            insert_failure(failures, Failure::BGPChangeCommunity(loc, -signed));
            proof {
                assert forall|f: Failure| #[trigger] failures@.contains(f) <==> drops.contains(f)
                    || is_change_among(loc, items, i + 1, f) by {
                    assert(before.contains(f) <==> drops.contains(f) || is_change_among(
                        loc,
                        items,
                        i as int,
                        f,
                    ));
                    if is_change_among(loc, items, i as int, f) {
                        let j = choose|j: int|
                            0 <= j < i && is_change(loc, #[trigger] items[j], f);
                        assert(is_change(loc, items[j], f));
                    }
                    if is_change(loc, c, f) {
                        assert(is_change(loc, items[i as int], f));
                    }
                    if is_change_among(loc, items, i + 1, f) {
                        let j = choose|j: int|
                            0 <= j < i + 1 && is_change(loc, #[trigger] items[j], f);
                        if j < i {
                            assert(is_change_among(loc, items, i as int, f));
                        }
                    }
                }
            }
        }
        let ghost changes = failures@;
        let lps: Vec<u32> = self.get_all_relevant_local_preferences();
        for i in 0..lps.len()
            invariant
                failures@.no_duplicates(),
                forall|f: Failure| #[trigger]
                    failures@.contains(f) <==> changes.contains(f) || (
                    f matches Failure::BGPChangeLocalPref(l, lp) && l == loc && lps@.take(
                        i as int,
                    ).contains(lp)),
        {
            let lp: u32 = lps[i];
            let ghost before = failures@;
            insert_failure(failures, Failure::BGPChangeLocalPref(loc, lp));
            proof {
                let (a, b) = (lps@.take(i as int), lps@.take(i + 1));
                assert(b =~= a.push(lp));
                assert forall|f: Failure| #[trigger] failures@.contains(f) <==> changes.contains(f)
                    || (f matches Failure::BGPChangeLocalPref(l, x) && l == loc && b.contains(
                    x,
                )) by {
                    assert(before.contains(f) <==> changes.contains(f) || (
                    f matches Failure::BGPChangeLocalPref(l, x) && l == loc && a.contains(x)));
                    if let Failure::BGPChangeLocalPref(l, x) = f {
                        assert(b.contains(x) <==> a.contains(x) || x == lp) by {
                            broadcast use vstd::seq_lib::group_seq_properties;

                        }
                    }
                }
            }
        }
        proof {
            assert(lps@.take(lps@.len() as int) =~= lps@);
            assert forall|f: Failure| #[trigger] failures@.contains(f) <==> base.contains(f)
                || is_failure_at(loc, self.communities@, prefs, f) by {
                assert(changes.contains(f) <==> drops.contains(f) || is_change_among(
                    loc,
                    items,
                    items.len() as int,
                    f,
                ));
                if let Failure::BGPChangeCommunity(l, c) = f {
                    if is_change_among(loc, items, items.len() as int, f) {
                        let j = choose|j: int|
                            0 <= j < items.len() && is_change(loc, #[trigger] items[j], f);
                        assert(self.communities@.contains(items[j]));
                    }
                    if is_failure_at(loc, self.communities@, prefs, f) {
                        let x = choose|x: u32| #[trigger]
                            self.communities@.contains(x) && (c == as_signed(x) || c == -as_signed(
                                x,
                            ));
                        let j = choose|j: int| 0 <= j < items.len() && items[j] == x;
                        assert(is_change(loc, items[j], f));
                    }
                }
            }
        }
    }

    /// All failures at the relevant localities.
    pub fn build(&self) -> (r: Vec<Failure>)
        requires
            self.wf(),
            self.all_relevant_localities@.len() > 0 ==> self.in_range(),
        ensures
            r@.no_duplicates(),
            forall|f: Failure| #[trigger]
                r@.contains(f) <==> self.all_relevant_localities@.contains(f.locality())
                    && is_failure_at(
                    f.locality(),
                    self.communities@,
                    self.local_preferences.items@,
                    f,
                ),
    {
        self.failures_at(&self.all_relevant_localities)
    }

    /// All failures at some localities.
    fn failures_at(&self, localities: &Vec<Locality>) -> (r: Vec<Failure>)
        requires
            self.wf(),
            localities@.len() > 0 ==> self.in_range(),
        ensures
            r@.no_duplicates(),
            forall|f: Failure| #[trigger]
                r@.contains(f) <==> localities@.contains(f.locality()) && is_failure_at(
                    f.locality(),
                    self.communities@,
                    self.local_preferences.items@,
                    f,
                ),
    {
        let mut failures: Vec<Failure> = Vec::new();
        for i in 0..localities.len()
            invariant
                self.wf(),
                localities@.len() > 0 ==> self.in_range(),
                failures@.no_duplicates(),
                forall|f: Failure| #[trigger]
                    failures@.contains(f) <==> localities@.take(i as int).contains(f.locality())
                        && is_failure_at(
                        f.locality(),
                        self.communities@,
                        self.local_preferences.items@,
                        f,
                    ),
        {
            let loc: Locality = localities[i];
            let ghost before = failures@;
            self.failures_from_locality(loc, &mut failures);
            proof {
                let (a, b) = (localities@.take(i as int), localities@.take(i + 1));
                assert(b =~= a.push(loc));
                assert forall|f: Failure| #[trigger] failures@.contains(f) <==> b.contains(
                    f.locality(),
                ) && is_failure_at(
                    f.locality(),
                    self.communities@,
                    self.local_preferences.items@,
                    f,
                ) by {
                    assert(before.contains(f) <==> a.contains(f.locality()) && is_failure_at(
                        f.locality(),
                        self.communities@,
                        self.local_preferences.items@,
                        f,
                    ));
                    assert(b.contains(f.locality()) <==> a.contains(f.locality()) || f.locality()
                        == loc) by {
                        broadcast use vstd::seq_lib::group_seq_properties;

                    }
                }
            }
        }
        assert(localities@.take(localities@.len() as int) =~= localities@);
        failures
    }
}

/// A failure adds or removes a community.
spec fn is_change(loc: Locality, x: u32, f: Failure) -> bool {
    f matches Failure::BGPChangeCommunity(l, c) && l == loc && (c == as_signed(x) || c
        == -as_signed(x))
}

/// A failure adds or removes one of the first `k` communities.
spec fn is_change_among(loc: Locality, items: Seq<u32>, k: int, f: Failure) -> bool {
    exists|j: int| 0 <= j < k && is_change(loc, #[trigger] items[j], f)
}

/// Failures at this locality are considered: it is a session of an internal router, or the egress or
/// ingress of one.
pub open spec fn is_relevant_locality(
    sessions: Seq<(RouterId, Vec<(RouterId, BgpSessionType)>)>,
    loc: Locality,
) -> bool {
    exists|i: int| 0 <= i < sessions.len() && is_locality_of(#[trigger] sessions[i], loc)
}

/// The locality is a session, or the egress or ingress, of an internal router.
pub open spec fn is_locality_of(
    router: (RouterId, Vec<(RouterId, BgpSessionType)>),
    loc: Locality,
) -> bool {
    match loc {
        (Some(a), Some(b)) => a == router.0 && has_session(router.1@, b),
        (Some(a), None) => a == router.0,
        (None, Some(b)) => b == router.0,
        (None, None) => false,
    }
}

/// There is a session to `b`.
pub open spec fn has_session(sessions: Seq<(RouterId, BgpSessionType)>, b: RouterId) -> bool {
    exists|j: int| 0 <= j < sessions.len() && (#[trigger] sessions[j]).0 == b
}

/// The three localities of a message.
pub open spec fn is_event_locality(src: RouterId, dst: RouterId, loc: Locality) -> bool {
    ||| loc == (Some(src), None::<RouterId>)
    ||| loc == (None::<RouterId>, Some(dst))
    ||| loc == (Some(src), Some(dst))
}

/// A table has a route with this LOCAL-PREF.
pub open spec fn rib_has_pref(rib: Seq<BgpRibEntry>, lp: u32) -> bool {
    exists|i: int|
        0 <= i < rib.len() && (#[trigger] rib[i]).route@.local_pref_or_default() == lp
}

/// A table has a route with this community.
pub open spec fn rib_has_community(rib: Seq<BgpRibEntry>, c: u32) -> bool {
    exists|i: int| 0 <= i < rib.len() && (#[trigger] rib[i]).route@.community.contains(c)
}

/// A route map sets this LOCAL-PREF.
pub open spec fn map_sets_pref(rm: RouteMap, lp: u32) -> bool {
    exists|i: int| 0 <= i < rm.set@.len() && action_sets_pref(#[trigger] rm.set@[i], lp)
}

pub open spec fn action_sets_pref(a: RouteMapSet, lp: u32) -> bool {
    a matches RouteMapSet::LocalPref(x) && lp == match x {
        Some(x) => x,
        None => DEFAULT_LOCAL_PREF,
    }
}

/// A route map looks at this community, or changes it.
pub open spec fn map_has_community(rm: RouteMap, c: u32) -> bool {
    ||| exists|i: int| 0 <= i < rm.conds@.len() && cond_has_community(#[trigger] rm.conds@[i], c)
    ||| exists|i: int| 0 <= i < rm.set@.len() && action_has_community(#[trigger] rm.set@[i], c)
}

pub open spec fn cond_has_community(m: RouteMapMatch, c: u32) -> bool {
    m == RouteMapMatch::DenyCommunity(c) || m == RouteMapMatch::Community(c)
}

pub open spec fn action_has_community(a: RouteMapSet, c: u32) -> bool {
    a == RouteMapSet::DelCommunity(c) || a == RouteMapSet::SetCommunity(c)
}

/// A router uses this LOCAL-PREF.
pub open spec fn router_has_pref(r: RouterInfo, lp: u32) -> bool {
    rib_has_pref(r.rib_entries@, lp) || exists|i: int|
        0 <= i < r.route_maps@.len() && map_sets_pref(#[trigger] r.route_maps@[i], lp)
}

/// A router uses this community.
pub open spec fn router_has_community(r: RouterInfo, c: u32) -> bool {
    rib_has_community(r.rib_entries@, c) || exists|i: int|
        0 <= i < r.route_maps@.len() && map_has_community(#[trigger] r.route_maps@[i], c)
}

impl FailureSetBuilder {
    /// The locality of a message is relevant, and no message had it before.
    pub open spec fn is_fresh(&self, src: RouterId, dst: RouterId, loc: Locality) -> bool {
        &&& is_event_locality(src, dst, loc)
        &&& !self.localities@.contains(loc)
        &&& self.all_relevant_localities@.contains(loc)
    }

    /// The failures at those localities of a message that are relevant, and that no message had
    /// before. `None` for a message that is not of BGP.
    pub fn build_from_event<T>(&mut self, event: &Event<T>) -> (r: Option<Vec<Failure>>)
        requires
            old(self).wf(),
            event@ matches EventView::Bgp { src, dst, .. } ==> ((exists|loc: Locality| #[trigger]
                old(self).is_fresh(src, dst, loc)) ==> old(self).in_range()),
        ensures
            final(self).wf(),
            final(self).all_relevant_localities == old(self).all_relevant_localities,
            final(self).local_preferences == old(self).local_preferences,
            final(self).communities == old(self).communities,
            final(self).internal_sessions == old(self).internal_sessions,
            match event@ {
                EventView::Ospf { .. } => r is None && final(self).localities
                    == old(self).localities,
                EventView::Bgp { src, dst, .. } => {
                    &&& r is Some
                    &&& r->0@.no_duplicates()
                    &&& forall|f: Failure| #[trigger]
                        r->0@.contains(f) <==> old(self).is_fresh(src, dst, f.locality())
                            && is_failure_at(
                            f.locality(),
                            old(self).communities@,
                            old(self).local_preferences.items@,
                            f,
                        )
                    &&& forall|loc: Locality| #[trigger]
                        final(self).localities@.contains(loc) <==> old(self).localities@.contains(
                            loc,
                        ) || is_event_locality(src, dst, loc)
                },
            },
    {
        match event {
            Event::Ospf { .. } => None,
            Event::Bgp { src, dst, .. } => {
                let all: [Locality; 3] = [
                    (Some(*src), None),
                    (None, Some(*dst)),
                    (Some(*src), Some(*dst)),
                ];
                let mut fresh: Vec<Locality> = Vec::new();
                for i in 0..3
                    invariant
                        *self == *old(self),
                        all@ == seq![
                            (Some(*src), None::<RouterId>),
                            (None::<RouterId>, Some(*dst)),
                            (Some(*src), Some(*dst)),
                        ],
                        forall|loc: Locality| #[trigger]
                            fresh@.contains(loc) <==> all@.take(i as int).contains(loc)
                                && !self.localities@.contains(loc)
                                && self.all_relevant_localities@.contains(loc),
                {
                    let loc: Locality = all[i];
                    let ghost before = fresh@;
                    if !has_locality(&self.localities, loc) && has_locality(
                        &self.all_relevant_localities,
                        loc,
                    ) {
                        fresh.push(loc);
                    }
                    proof {
                        let (a, b) = (all@.take(i as int), all@.take(i + 1));
                        assert(b =~= a.push(loc));
                        assert forall|x: Locality| #[trigger] fresh@.contains(x) <==> b.contains(x)
                            && !self.localities@.contains(x)
                            && self.all_relevant_localities@.contains(x) by {
                            assert(before.contains(x) <==> a.contains(x)
                                && !self.localities@.contains(x)
                                && self.all_relevant_localities@.contains(x));
                            broadcast use vstd::seq_lib::group_seq_properties;

                        }
                    }
                }
                proof {
                    assert(all@.take(3) =~= all@);
                    assert forall|loc: Locality| all@.contains(loc) == is_event_locality(
                        *src,
                        *dst,
                        loc,
                    ) by {
                        if is_event_locality(*src, *dst, loc) {
                            assert(all@[0] == loc || all@[1] == loc || all@[2] == loc);
                        }
                    }
                    if fresh@.len() > 0 {
                        assert(fresh@.contains(fresh@[0]));
                        assert(old(self).is_fresh(*src, *dst, fresh@[0]));
                        assert(event@->Bgp_src == *src && event@->Bgp_dst == *dst);
                    }
                }
                let failures: Vec<Failure> = self.failures_at(&fresh);
                insert_locality(&mut self.localities, all[0]);
                insert_locality(&mut self.localities, all[1]);
                insert_locality(&mut self.localities, all[2]);
                Some(failures)
            },
        }
    }

    /// Note the attributes of the routes in a table.
    fn ingest_rib(&mut self, rib: &Vec<BgpRibEntry>)
        requires
            old(self).wf(),
        ensures
            final(self).wf(),
            final(self).localities == old(self).localities,
            final(self).all_relevant_localities == old(self).all_relevant_localities,
            final(self).internal_sessions == old(self).internal_sessions,
            forall|lp: u32| #[trigger]
                final(self).local_preferences@.contains(lp) <==> old(
                    self,
                ).local_preferences@.contains(lp) || rib_has_pref(rib@, lp),
            forall|c: u32| #[trigger]
                final(self).communities@.contains(c) <==> old(self).communities@.contains(c)
                    || rib_has_community(rib@, c),
    {
        for i in 0..rib.len()
            invariant
                self.wf(),
                self.localities == old(self).localities,
                self.all_relevant_localities == old(self).all_relevant_localities,
                self.internal_sessions == old(self).internal_sessions,
                forall|lp: u32| #[trigger]
                    self.local_preferences@.contains(lp) <==> old(
                        self,
                    ).local_preferences@.contains(lp) || rib_has_pref(rib@.take(i as int), lp),
                forall|c: u32| #[trigger]
                    self.communities@.contains(c) <==> old(self).communities@.contains(c)
                        || rib_has_community(rib@.take(i as int), c),
        {
            let ghost mid = *self;
            let lp: u32 = rib[i].route.local_pref_or_default();
            self.local_preferences.insert(lp);
            let n: usize = rib[i].route.community.items.len();
            let ghost items = rib@[i as int].route.community.items@;
            for j in 0..n
                invariant
                    i < rib@.len(),
                    items == rib@[i as int].route.community.items@,
                    n == items.len(),
                    self.wf(),
                    self.localities == old(self).localities,
                    self.all_relevant_localities == old(self).all_relevant_localities,
                    self.internal_sessions == old(self).internal_sessions,
                    self.local_preferences@ == mid.local_preferences@.insert(lp),
                    forall|c: u32| #[trigger]
                        self.communities@.contains(c) <==> mid.communities@.contains(c)
                            || items.take(j as int).contains(c),
            {
                let c: u32 = rib[i].route.community.items[j];
                let ghost before = self.communities@;
                self.communities.insert(c);
                proof {
                    let (a, b) = (items.take(j as int), items.take(j + 1));
                    assert(b =~= a.push(c));
                    assert forall|x: u32| #[trigger] self.communities@.contains(x)
                        <==> mid.communities@.contains(x) || b.contains(x) by {
                        assert(before.contains(x) <==> mid.communities@.contains(x) || a.contains(
                            x,
                        ));
                        broadcast use vstd::seq_lib::group_seq_properties;

                    }
                }
            }
            proof {
                assert(items.take(n as int) =~= items);
                let (a, b) = (rib@.take(i as int), rib@.take(i + 1));
                let e = rib@[i as int];
                assert(b[i as int] == e);
                assert(forall|k: int| 0 <= k < a.len() ==> #[trigger] a[k] == b[k]);
                assert forall|x: u32| rib_has_pref(b, x) <==> rib_has_pref(a, x)
                    || e.route@.local_pref_or_default() == x by {
                    if rib_has_pref(a, x) {
                        let k = choose|k: int|
                            0 <= k < a.len() && (#[trigger] a[k]).route@.local_pref_or_default()
                                == x;
                        assert(b[k].route@.local_pref_or_default() == x);
                    }
                    if rib_has_pref(b, x) {
                        let k = choose|k: int|
                            0 <= k < b.len() && (#[trigger] b[k]).route@.local_pref_or_default()
                                == x;
                        if k < i {
                            assert(a[k] == b[k]);
                        }
                    }
                }
                assert forall|x: u32| rib_has_community(b, x) <==> rib_has_community(a, x)
                    || e.route@.community.contains(x) by {
                    if rib_has_community(a, x) {
                        let k = choose|k: int|
                            0 <= k < a.len() && (#[trigger] a[k]).route@.community.contains(x);
                        assert(b[k].route@.community.contains(x));
                    }
                    if rib_has_community(b, x) {
                        let k = choose|k: int|
                            0 <= k < b.len() && (#[trigger] b[k]).route@.community.contains(x);
                        if k < i {
                            assert(a[k] == b[k]);
                        }
                    }
                }
                assert forall|x: u32| e.route@.community.contains(x) == items.contains(x) by {}
            }
        }
        assert(rib@.take(rib@.len() as int) =~= rib@);
    }

    /// Note the attributes that an item of a route map looks at or sets.
    fn ingest_route_map(&mut self, rm: &RouteMap)
        requires
            old(self).wf(),
        ensures
            final(self).wf(),
            final(self).localities == old(self).localities,
            final(self).all_relevant_localities == old(self).all_relevant_localities,
            final(self).internal_sessions == old(self).internal_sessions,
            forall|lp: u32| #[trigger]
                final(self).local_preferences@.contains(lp) <==> old(
                    self,
                ).local_preferences@.contains(lp) || map_sets_pref(*rm, lp),
            forall|c: u32| #[trigger]
                final(self).communities@.contains(c) <==> old(self).communities@.contains(c)
                    || map_has_community(*rm, c),
    {
        let ghost conds = rm.conds@;
        for i in 0..rm.conds.len()
            invariant
                conds == rm.conds@,
                self.wf(),
                self.localities == old(self).localities,
                self.all_relevant_localities == old(self).all_relevant_localities,
                self.internal_sessions == old(self).internal_sessions,
                self.local_preferences == old(self).local_preferences,
                forall|c: u32| #[trigger]
                    self.communities@.contains(c) <==> old(self).communities@.contains(c)
                        || exists|k: int| 0 <= k < i && cond_has_community(#[trigger] conds[k], c),
        {
            let ghost before = self.communities@;
            match rm.conds[i] {
                RouteMapMatch::DenyCommunity(c) => {
                    self.communities.insert(c);
                },
                RouteMapMatch::Community(c) => {
                    self.communities.insert(c);
                },
                _ => {},
            }
            proof {
                assert forall|c: u32| #[trigger] self.communities@.contains(c) <==> old(
                    self,
                ).communities@.contains(c) || exists|k: int|
                    0 <= k < i + 1 && cond_has_community(#[trigger] conds[k], c) by {
                    assert(before.contains(c) <==> old(self).communities@.contains(c) || exists|
                        k: int,
                    |
                        0 <= k < i && cond_has_community(#[trigger] conds[k], c));
                    assert(cond_has_community(conds[i as int], c) ==> self.communities@.contains(
                        c,
                    ));
                    if self.communities@.contains(c) && !before.contains(c) {
                        assert(cond_has_community(conds[i as int], c));
                    }
                }
            }
        }
        let ghost mid = *self;
        let ghost set = rm.set@;
        for i in 0..rm.set.len()
            invariant
                set == rm.set@,
                self.wf(),
                self.localities == old(self).localities,
                self.all_relevant_localities == old(self).all_relevant_localities,
                self.internal_sessions == old(self).internal_sessions,
                forall|lp: u32| #[trigger]
                    self.local_preferences@.contains(lp) <==> mid.local_preferences@.contains(lp)
                        || exists|k: int| 0 <= k < i && action_sets_pref(#[trigger] set[k], lp),
                forall|c: u32| #[trigger]
                    self.communities@.contains(c) <==> mid.communities@.contains(c) || exists|
                        k: int,
                    |
                        0 <= k < i && action_has_community(#[trigger] set[k], c),
        {
            let ghost before = *self;
            match rm.set[i] {
                RouteMapSet::DelCommunity(c) => {
                    self.communities.insert(c);
                },
                RouteMapSet::SetCommunity(c) => {
                    self.communities.insert(c);
                },
                RouteMapSet::LocalPref(lp) => {
                    let lp: u32 = match lp {
                        Some(x) => x,
                        None => DEFAULT_LOCAL_PREF,
                    };
                    self.local_preferences.insert(lp);
                },
                _ => {},
            }
            proof {
                assert forall|c: u32| #[trigger] self.communities@.contains(c)
                    <==> mid.communities@.contains(c) || exists|k: int|
                    0 <= k < i + 1 && action_has_community(#[trigger] set[k], c) by {
                    assert(before.communities@.contains(c) <==> mid.communities@.contains(c)
                        || exists|k: int| 0 <= k < i && action_has_community(#[trigger] set[k], c));
                    assert(action_has_community(set[i as int], c) ==> self.communities@.contains(
                        c,
                    ));
                    if self.communities@.contains(c) && !before.communities@.contains(c) {
                        assert(action_has_community(set[i as int], c));
                    }
                }
                assert forall|lp: u32| #[trigger] self.local_preferences@.contains(lp)
                    <==> mid.local_preferences@.contains(lp) || exists|k: int|
                    0 <= k < i + 1 && action_sets_pref(#[trigger] set[k], lp) by {
                    assert(before.local_preferences@.contains(lp)
                        <==> mid.local_preferences@.contains(lp) || exists|k: int|
                        0 <= k < i && action_sets_pref(#[trigger] set[k], lp));
                    assert(action_sets_pref(set[i as int], lp)
                        ==> self.local_preferences@.contains(lp));
                    if self.local_preferences@.contains(lp) && !before.local_preferences@.contains(
                        lp,
                    ) {
                        assert(action_sets_pref(set[i as int], lp));
                    }
                }
            }
        }
    }

    /// Note what the internal routers of a network have, and which localities they make relevant.
    pub fn ingest_network(&mut self, routers: Vec<RouterInfo>)
        requires
            old(self).wf(),
        ensures
            final(self).wf(),
            final(self).localities == old(self).localities,
            final(self).internal_sessions@.len() == routers@.len(),
            forall|i: int|
                0 <= i < routers@.len() ==> (#[trigger] final(self).internal_sessions@[i]).0
                    == routers@[i].router_id && final(self).internal_sessions@[i].1
                    == routers@[i].sessions,
            forall|lp: u32| #[trigger]
                final(self).local_preferences@.contains(lp) <==> old(
                    self,
                ).local_preferences@.contains(lp) || exists|i: int|
                    0 <= i < routers@.len() && router_has_pref(#[trigger] routers@[i], lp),
            forall|c: u32| #[trigger]
                final(self).communities@.contains(c) <==> old(self).communities@.contains(c)
                    || exists|i: int|
                    0 <= i < routers@.len() && router_has_community(#[trigger] routers@[i], c),
            forall|loc: Locality| #[trigger]
                final(self).all_relevant_localities@.contains(loc) <==> is_relevant_locality(
                    final(self).internal_sessions@,
                    loc,
                ),
    {
        self.internal_sessions = Vec::new();
        let ghost all = routers@;
        for router in it: routers
            invariant
                it.seq() == all,
                self.wf(),
                self.localities == old(self).localities,
                self.all_relevant_localities == old(self).all_relevant_localities,
                self.internal_sessions@.len() == it.index(),
                forall|i: int|
                    0 <= i < it.index() ==> (#[trigger] self.internal_sessions@[i]).0
                        == all[i].router_id && self.internal_sessions@[i].1 == all[i].sessions,
                forall|lp: u32| #[trigger]
                    self.local_preferences@.contains(lp) <==> old(
                        self,
                    ).local_preferences@.contains(lp) || exists|i: int|
                        0 <= i < it.index() && router_has_pref(#[trigger] all[i], lp),
                forall|c: u32| #[trigger]
                    self.communities@.contains(c) <==> old(self).communities@.contains(c)
                        || exists|i: int|
                        0 <= i < it.index() && router_has_community(#[trigger] all[i], c),
        {
            let ghost k = it.index() as int;
            assert(router == all[k]);
            let ghost before = *self;
            self.ingest_rib(&router.rib_entries);
            let ghost mid = *self;
            let ghost maps = router.route_maps@;
            for j in 0..router.route_maps.len()
                invariant
                    maps == router.route_maps@,
                    self.wf(),
                    self.localities == mid.localities,
                    self.all_relevant_localities == mid.all_relevant_localities,
                    self.internal_sessions == mid.internal_sessions,
                    forall|lp: u32| #[trigger]
                        self.local_preferences@.contains(lp) <==> mid.local_preferences@.contains(
                            lp,
                        ) || exists|i: int| 0 <= i < j && map_sets_pref(#[trigger] maps[i], lp),
                    forall|c: u32| #[trigger]
                        self.communities@.contains(c) <==> mid.communities@.contains(c)
                            || exists|i: int|
                            0 <= i < j && map_has_community(#[trigger] maps[i], c),
            {
                let ghost inner = *self;
                self.ingest_route_map(&router.route_maps[j]);
                proof {
                    assert forall|lp: u32| #[trigger] self.local_preferences@.contains(lp)
                        <==> mid.local_preferences@.contains(lp) || exists|i: int|
                        0 <= i < j + 1 && map_sets_pref(#[trigger] maps[i], lp) by {
                        assert(inner.local_preferences@.contains(lp)
                            <==> mid.local_preferences@.contains(lp) || exists|i: int|
                            0 <= i < j && map_sets_pref(#[trigger] maps[i], lp));
                        assert(map_sets_pref(maps[j as int], lp)
                            ==> self.local_preferences@.contains(lp));
                    }
                    assert forall|c: u32| #[trigger] self.communities@.contains(c)
                        <==> mid.communities@.contains(c) || exists|i: int|
                        0 <= i < j + 1 && map_has_community(#[trigger] maps[i], c) by {
                        assert(inner.communities@.contains(c) <==> mid.communities@.contains(c)
                            || exists|i: int|
                            0 <= i < j && map_has_community(#[trigger] maps[i], c));
                        assert(map_has_community(maps[j as int], c)
                            ==> self.communities@.contains(c));
                    }
                }
            }
            proof {
                assert forall|lp: u32| #[trigger] self.local_preferences@.contains(lp) <==> old(
                    self,
                ).local_preferences@.contains(lp) || exists|i: int|
                    0 <= i < k + 1 && router_has_pref(#[trigger] all[i], lp) by {
                    assert(before.local_preferences@.contains(lp) <==> old(
                        self,
                    ).local_preferences@.contains(lp) || exists|i: int|
                        0 <= i < k && router_has_pref(#[trigger] all[i], lp));
                    assert(mid.local_preferences@.contains(lp)
                        <==> before.local_preferences@.contains(lp) || rib_has_pref(
                        router.rib_entries@,
                        lp,
                    ));
                    assert(router_has_pref(all[k], lp) ==> self.local_preferences@.contains(lp));
                }
                assert forall|c: u32| #[trigger] self.communities@.contains(c) <==> old(
                    self,
                ).communities@.contains(c) || exists|i: int|
                    0 <= i < k + 1 && router_has_community(#[trigger] all[i], c) by {
                    assert(before.communities@.contains(c) <==> old(self).communities@.contains(c)
                        || exists|i: int|
                        0 <= i < k && router_has_community(#[trigger] all[i], c));
                    assert(mid.communities@.contains(c) <==> before.communities@.contains(c)
                        || rib_has_community(router.rib_entries@, c));
                    assert(router_has_community(all[k], c) ==> self.communities@.contains(c));
                }
            }
            self.internal_sessions.push((router.router_id, router.sessions));
        }
        self.all_relevant_localities = self.get_all_relevant_localities();
    }

    /// The localities on which failures are considered.
    pub fn get_all_relevant_localities(&self) -> (r: Vec<Locality>)
        ensures
            r@.no_duplicates(),
            forall|loc: Locality| #[trigger]
                r@.contains(loc) <==> is_relevant_locality(self.internal_sessions@, loc),
    {
        let ghost all = self.internal_sessions@;
        let mut localities: Vec<Locality> = Vec::new();
        for i in 0..self.internal_sessions.len()
            invariant
                all == self.internal_sessions@,
                localities@.no_duplicates(),
                forall|loc: Locality| #[trigger]
                    localities@.contains(loc) <==> exists|k: int|
                        0 <= k < i && is_locality_of(#[trigger] all[k], loc),
        {
            let ghost before = localities@;
            let src: RouterId = self.internal_sessions[i].0;
            let n: usize = self.internal_sessions[i].1.len();
            let ghost sessions = all[i as int].1@;
            for j in 0..n
                invariant
                    all == self.internal_sessions@,
                    i < all.len(),
                    sessions == all[i as int].1@,
                    n == sessions.len(),
                    localities@.no_duplicates(),
                    forall|loc: Locality| #[trigger]
                        localities@.contains(loc) <==> before.contains(loc) || is_session_among(
                            src,
                            sessions,
                            j as int,
                            loc,
                        ),
            {
                let dst: RouterId = self.internal_sessions[i].1[j].0;
                let ghost inner = localities@;
                insert_locality(&mut localities, (Some(src), Some(dst)));
                proof {
                    assert forall|loc: Locality| #[trigger] localities@.contains(loc)
                        <==> before.contains(loc) || is_session_among(
                        src,
                        sessions,
                        j + 1,
                        loc,
                    ) by {
                        assert(inner.contains(loc) <==> before.contains(loc) || is_session_among(
                            src,
                            sessions,
                            j as int,
                            loc,
                        ));
                        if loc == (Some(src), Some(dst)) {
                            assert(sessions[j as int].0 == dst);
                        }
                        if is_session_among(src, sessions, j as int, loc) {
                            let k = choose|k: int|
                                0 <= k < j && loc == (Some(src), Some((#[trigger] sessions[k]).0));
                            assert(sessions[k].0 == loc.1->0);
                        }
                        if is_session_among(src, sessions, j + 1, loc) {
                            let k = choose|k: int|
                                0 <= k < j + 1 && loc == (
                                    Some(src),
                                    Some((#[trigger] sessions[k]).0),
                                );
                            if k < j {
                                assert(is_session_among(src, sessions, j as int, loc));
                            }
                        }
                    }
                }
            }
            insert_locality(&mut localities, (None, Some(src)));
            insert_locality(&mut localities, (Some(src), None));
            proof {
                assert forall|loc: Locality| #[trigger] localities@.contains(loc) <==> exists|
                    k: int,
                |
                    0 <= k < i + 1 && is_locality_of(#[trigger] all[k], loc) by {
                    assert(before.contains(loc) <==> exists|k: int|
                        0 <= k < i && is_locality_of(#[trigger] all[k], loc));
                    assert(is_locality_of(all[i as int], loc) <==> is_session_among(
                        src,
                        sessions,
                        n as int,
                        loc,
                    ) || loc == (None::<RouterId>, Some(src)) || loc == (
                        Some(src),
                        None::<RouterId>,
                    )) by {
                        if is_session_among(src, sessions, n as int, loc) {
                            let k = choose|k: int|
                                0 <= k < n && loc == (Some(src), Some((#[trigger] sessions[k]).0));
                            assert(has_session(sessions, sessions[k].0));
                        }
                        if is_locality_of(all[i as int], loc) {
                            match loc {
                                (Some(a), Some(b)) => {
                                    let k = choose|k: int|
                                        0 <= k < sessions.len() && (#[trigger] sessions[k]).0 == b;
                                    assert(loc == (Some(src), Some(sessions[k].0)));
                                },
                                _ => {},
                            }
                        }
                    }
                }
            }
        }
        localities
    }
}

/// The locality is one of the first `k` sessions.
spec fn is_session_among(
    src: RouterId,
    sessions: Seq<(RouterId, BgpSessionType)>,
    k: int,
    loc: Locality,
) -> bool {
    exists|j: int| 0 <= j < k && loc == (Some(src), Some((#[trigger] sessions[j]).0))
}

/// No failure is considered where an external router sends, nor at its egress or ingress.
pub proof fn law_external_routers_do_not_fail(
    sessions: Seq<(RouterId, Vec<(RouterId, BgpSessionType)>)>,
    loc: Locality,
    external: RouterId,
)
    requires
        forall|i: int| 0 <= i < sessions.len() ==> (#[trigger] sessions[i]).0 != external,
        is_relevant_locality(sessions, loc),
    ensures
        loc.0 != Some(external),
        loc.0 is None ==> loc.1 != Some(external),
{
}

/// A failure takes hold of a message exactly if the message comes from the place of the failure and goes
/// to it, where a place that is left open is any router. Then a lossy failure drops the messages that it
/// is about, and no others are ever dropped.
pub proof fn law_lost_messages<T>(
    loc: Locality,
    lp: u32,
    c: i32,
    p: T,
    src: RouterId,
    dst: RouterId,
    e: BgpEventView,
)
    ensures
        ({
            let struck = (loc.0 is None || loc.0 == Some(src)) && (loc.1 is None || loc.1 == Some(
                dst,
            ));
            let event = EventView::Bgp { p, src, dst, e };
            &&& Failure::BGPDropUpdate(loc).applied(event) is None <==> struck && e is Update
            &&& Failure::BGPDropWithdraw(loc).applied(event) is None <==> struck && e is Withdraw
            &&& Failure::BGPDropUpdate(loc).applied(event) matches Some(out) ==> out == event
            &&& Failure::BGPDropWithdraw(loc).applied(event) matches Some(out) ==> out == event
            &&& Failure::BGPChangeLocalPref(loc, lp).applied(event) is Some
            &&& Failure::BGPChangeCommunity(loc, c).applied(event) is Some
            &&& !struck || e is Withdraw ==> Failure::BGPChangeLocalPref(loc, lp).applied(event)
                == Some(event) && Failure::BGPChangeCommunity(loc, c).applied(event) == Some(event)
        }),
{
}

/// An update that is struck by a failure on LOCAL-PREF has the new LOCAL-PREF, whatever it had before,
/// and is the same otherwise.
pub proof fn law_changed_local_pref<T>(
    loc: Locality,
    lp: u32,
    p: T,
    src: RouterId,
    dst: RouterId,
    route: RouteView,
)
    requires
        loc.0 is None || loc.0 == Some(src),
        loc.1 is None || loc.1 == Some(dst),
    ensures
        Failure::BGPChangeLocalPref(loc, lp).applied(
            EventView::Bgp { p, src, dst, e: BgpEventView::Update(route) },
        ) matches Some(EventView::Bgp { p: p2, src: src2, dst: dst2, e: BgpEventView::Update(out) })
            && p2 == p && src2 == src && dst2 == dst && out.local_pref == Some(lp) && out.prefix
            == route.prefix && out.as_path == route.as_path && out.next_hop == route.next_hop
            && out.med == route.med && out.community == route.community && out.originator_id
            == route.originator_id && out.cluster_list == route.cluster_list,
{
}

/// An update that is struck by a failure on communities carries the community of the failure, besides
/// those that it had and no other. If the value is negative, it carries all that it had but that one. It
/// is the same otherwise.
pub proof fn law_changed_community<T>(
    loc: Locality,
    c: i32,
    p: T,
    src: RouterId,
    dst: RouterId,
    route: RouteView,
)
    requires
        loc.0 is None || loc.0 == Some(src),
        loc.1 is None || loc.1 == Some(dst),
        c > i32::MIN,
    ensures
        Failure::BGPChangeCommunity(loc, c).applied(
            EventView::Bgp { p, src, dst, e: BgpEventView::Update(route) },
        ) matches Some(EventView::Bgp { p: p2, src: src2, dst: dst2, e: BgpEventView::Update(out) })
            && p2 == p && src2 == src && dst2 == dst && out.local_pref == route.local_pref
            && out.prefix == route.prefix && out.as_path == route.as_path && out.next_hop
            == route.next_hop && out.med == route.med && out.originator_id == route.originator_id
            && out.cluster_list == route.cluster_list && forall|x: u32| #[trigger]
            out.community.contains(x) <==> if c >= 0 {
                x == c || route.community.contains(x)
            } else {
                x != -c && route.community.contains(x)
            },
{
}

/// The localities of a message are the places at which a failure would take hold of it.
pub proof fn law_localities_of_a_message(src: RouterId, dst: RouterId, loc: Locality)
    ensures
        is_event_locality(src, dst, loc) <==> !(loc.0 is None && loc.1 is None) && (loc.0 is None
            || loc.0 == Some(src)) && (loc.1 is None || loc.1 == Some(dst)),
        is_event_locality(src, dst, loc) <==> Failure::BGPDropUpdate(loc).has_place()
            && Failure::BGPDropUpdate(loc).affects(src, dst),
{
}

/// The relevant values of LOCAL-PREF, in numbers: the known ones, the middle between neighboring ones,
/// which is as far from both of them up to one, half of the smallest, rounded down, and twice the
/// largest. They lie between these two.
pub proof fn law_relevant_local_prefs(prefs: Seq<u32>, x: u32)
    requires
        increasing(prefs),
        prefs.len() > 0,
        prefs.last() * 2 <= u32::MAX,
    ensures
        is_relevant_pref(prefs, x) <==> {
            ||| prefs.contains(x)
            ||| exists|i: int|
                #![trigger prefs[i]]
                0 < i < prefs.len() && prefs[i - 1] <= x <= prefs[i] && 0 <= (prefs[i] - x) - (x
                    - prefs[i - 1]) <= 1
            ||| x + x == prefs[0] || x + x + 1 == prefs[0]
            ||| x == prefs.last() + prefs.last()
        },
        is_relevant_pref(prefs, x) ==> x + x + 1 >= prefs[0] && x <= prefs.last() + prefs.last(),
{
    assert forall|i: int| 0 < i < prefs.len() implies prefs[i - 1] < #[trigger] prefs[i]
        && prefs[0] <= prefs[i] <= prefs.last() by {}
    if is_middle(prefs, x) {
        let i = choose|i: int| 0 < i < prefs.len() && x == #[trigger] middle_at(prefs, i);
        assert(prefs[i - 1] < prefs[i]);
        assert(prefs[i - 1] >= prefs[0]);
        assert(prefs[i] <= prefs.last());
    }
    if exists|i: int|
        #![trigger prefs[i]]
        0 < i < prefs.len() && prefs[i - 1] <= x <= prefs[i] && 0 <= (prefs[i] - x) - (x - prefs[i
            - 1]) <= 1 {
        let i = choose|i: int|
            #![trigger prefs[i]]
            0 < i < prefs.len() && prefs[i - 1] <= x <= prefs[i] && 0 <= (prefs[i] - x) - (x
                - prefs[i - 1]) <= 1;
        assert(middle_at(prefs, i) == x);
    }
    if prefs.contains(x) {
        let i = choose|i: int| 0 <= i < prefs.len() && prefs[i] == x;
        assert(prefs[0] <= prefs[i] <= prefs.last());
    }
}

/// The failures that are considered at a locality happen there. Both kinds of messages can be lost. Each
/// known community can be added and removed, and no other one, where a community that is too large for a
/// signed number is written as a negative one.
pub proof fn law_failures_at_a_locality(
    loc: Locality,
    communities: Set<u32>,
    prefs: Seq<u32>,
    f: Failure,
    c: u32,
)
    ensures
        is_failure_at(loc, communities, prefs, f) ==> f.locality() == loc,
        is_failure_at(loc, communities, prefs, Failure::BGPDropUpdate(loc)),
        is_failure_at(loc, communities, prefs, Failure::BGPDropWithdraw(loc)),
        communities.contains(c) && c <= i32::MAX ==> is_failure_at(
            loc,
            communities,
            prefs,
            Failure::BGPChangeCommunity(loc, c as i32),
        ) && is_failure_at(loc, communities, prefs, Failure::BGPChangeCommunity(loc, (-c) as i32)),
        f matches Failure::BGPChangeCommunity(_, x) ==> is_failure_at(loc, communities, prefs, f)
            ==> exists|y: u32| #[trigger]
            communities.contains(y) && (y == x || y == -x || y == x + 0x1_0000_0000 || y == -x
                + 0x1_0000_0000),
        f matches Failure::BGPChangeLocalPref(_, x) ==> (is_failure_at(loc, communities, prefs, f)
            <==> f.locality() == loc && is_relevant_pref(prefs, x)),
{
    if communities.contains(c) && c <= i32::MAX {
        assert(as_signed(c) == c);
    }
    if let Failure::BGPChangeCommunity(_, x) = f {
        if is_failure_at(loc, communities, prefs, f) {
            let y = choose|y: u32| #[trigger]
                communities.contains(y) && (x == as_signed(y) || x == -as_signed(y));
            assert(communities.contains(y));
        }
    }
}

/// Failures are considered on every session on which an internal router sends, at its egress and at its
/// ingress, and nowhere else.
pub proof fn law_relevant_localities(
    sessions: Seq<(RouterId, Vec<(RouterId, BgpSessionType)>)>,
    i: int,
    j: int,
    loc: Locality,
)
    requires
        0 <= i < sessions.len(),
        0 <= j < sessions[i].1@.len(),
    ensures
        is_relevant_locality(sessions, (Some(sessions[i].0), Some(sessions[i].1@[j].0))),
        is_relevant_locality(sessions, (Some(sessions[i].0), None)),
        is_relevant_locality(sessions, (None, Some(sessions[i].0))),
        is_relevant_locality(sessions, loc) ==> exists|k: int|
            0 <= k < sessions.len() && {
                let r = (#[trigger] sessions[k]).0;
                ||| loc == (Some(r), None::<RouterId>)
                ||| loc == (None::<RouterId>, Some(r))
                ||| loc.0 == Some(r) && exists|m: int|
                    0 <= m < sessions[k].1@.len() && loc.1 == Some((#[trigger] sessions[k].1@[m]).0)
            },
{
    let r = sessions[i];
    assert(is_locality_of(r, (Some(r.0), Some(r.1@[j].0))));
    assert(is_locality_of(r, (Some(r.0), None)));
    assert(is_locality_of(r, (None, Some(r.0))));
}

/// What a network tells of LOCAL-PREF: that of each route in a table, where a route without one counts
/// with 100, and that which a route map writes, where clearing it counts as writing 100. What it tells of
/// communities: those of the routes, and those that a route map asks for, denies, sets or deletes.
pub proof fn law_what_a_router_tells(r: RouterInfo, lp: u32, c: u32, i: int, j: int)
    ensures
        0 <= i < r.rib_entries@.len() ==> ({
            let route = r.rib_entries@[i].route;
            &&& route.local_pref == Some(lp) || (route.local_pref is None && lp == 100)
                ==> router_has_pref(r, lp)
            &&& route.community@.contains(c) ==> router_has_community(r, c)
        }),
        0 <= i < r.route_maps@.len() && 0 <= j < r.route_maps@[i].set@.len() ==> ({
            let action = r.route_maps@[i].set@[j];
            &&& action == RouteMapSet::LocalPref(Some(lp)) || (action == RouteMapSet::LocalPref(None)
                && lp == 100) ==> router_has_pref(r, lp)
            &&& action == RouteMapSet::SetCommunity(c) || action == RouteMapSet::DelCommunity(c)
                ==> router_has_community(r, c)
        }),
        0 <= i < r.route_maps@.len() && 0 <= j < r.route_maps@[i].conds@.len() ==> ({
            let cond = r.route_maps@[i].conds@[j];
            cond == RouteMapMatch::Community(c) || cond == RouteMapMatch::DenyCommunity(c)
                ==> router_has_community(r, c)
        }),
        r.route_maps@.len() == 0 && (forall|k: int|
            0 <= k < r.rib_entries@.len() ==> (#[trigger] r.rib_entries@[k]).route.local_pref
                != Some(lp)) && lp != 100 ==> !router_has_pref(r, lp),
        r.route_maps@.len() == 0 && (forall|k: int|
            0 <= k < r.rib_entries@.len() ==> !(#[trigger] r.rib_entries@[k]).route.community@.contains(
                c,
            )) ==> !router_has_community(r, c),
{
    if 0 <= i < r.rib_entries@.len() {
        let e = r.rib_entries@[i];
        assert(e.route@.local_pref_or_default() == lp ==> rib_has_pref(r.rib_entries@, lp));
        assert(e.route@.community.contains(c) ==> rib_has_community(r.rib_entries@, c));
    }
    if 0 <= i < r.route_maps@.len() {
        let rm = r.route_maps@[i];
        if 0 <= j < rm.set@.len() {
            assert(action_sets_pref(rm.set@[j], lp) ==> map_sets_pref(rm, lp));
            assert(action_has_community(rm.set@[j], c) ==> map_has_community(rm, c));
        }
        if 0 <= j < rm.conds@.len() {
            assert(cond_has_community(rm.conds@[j], c) ==> map_has_community(rm, c));
        }
    }
}

} // verus!
