//! BGP routes, RIB entries and messages.
use vstd::prelude::*;

verus! {

pub type RouterId = u32;

pub type AsId = u32;

/// A prefix, by its number.
pub type Prefix = u32;

/// A point in time, in ticks. [`INFINITY`] comes after every other.
pub type Time = i64;

/// The number of ticks in a second.
pub const TICKS_PER_SECOND: Time = 1_000_000_000;

/// The time that comes after every finite one.
pub const INFINITY: Time = i64::MAX;

/// The prefix of a single-prefix plane.
pub const SINGLE_PREFIX: Prefix = 0;

/// LOCAL-PREF of a route that carries none.
pub const DEFAULT_LOCAL_PREF: u32 = 100;

/// MED of a route that carries none.
pub const DEFAULT_MED: u32 = 0;

/// Type of a BGP session.
#[derive(Debug, Clone, Copy, PartialEq, Eq, Structural)]
pub enum BgpSessionType {
    /// iBGP session with a peer (or from a client with a route reflector)
    IBgpPeer,
    /// iBGP session from a route reflector with a client
    IBgpClient,
    /// eBGP session
    EBgp,
}

/// A set of communities.
#[derive(Debug)]
pub struct CommunitySet {
    pub items: Vec<u32>,
}

impl View for CommunitySet {
    type V = Set<u32>;

    open spec fn view(&self) -> Set<u32> {
        self.items@.to_set()
    }
}

/// A BGP route.
#[derive(Debug)]
pub struct BgpRoute {
    /// IP prefix
    pub prefix: Prefix,
    /// AS path, where the origin of the route is last
    pub as_path: Vec<AsId>,
    /// Next hop for reaching the source of the route
    pub next_hop: RouterId,
    pub local_pref: Option<u32>,
    pub med: Option<u32>,
    pub community: CommunitySet,
    pub originator_id: Option<RouterId>,
    pub cluster_list: Vec<RouterId>,
}

/// What a route says.
#[verifier::ext_equal]
pub struct RouteView {
    pub prefix: Prefix,
    pub as_path: Seq<AsId>,
    pub next_hop: RouterId,
    pub local_pref: Option<u32>,
    pub med: Option<u32>,
    pub community: Set<u32>,
    pub originator_id: Option<RouterId>,
    pub cluster_list: Seq<RouterId>,
}

impl RouteView {
    /// The route with the defaults in the place of what it does not carry.
    pub open spec fn with_defaults(self) -> RouteView {
        RouteView {
            local_pref: Some(self.local_pref_or_default()),
            med: Some(self.med_or_default()),
            ..self
        }
    }

    pub open spec fn local_pref_or_default(self) -> u32 {
        match self.local_pref {
            Some(x) => x,
            None => DEFAULT_LOCAL_PREF,
        }
    }

    pub open spec fn med_or_default(self) -> u32 {
        match self.med {
            Some(x) => x,
            None => DEFAULT_MED,
        }
    }

    /// The neighboring AS that the route came from.
    pub open spec fn first_as(self) -> Option<AsId> {
        if self.as_path.len() == 0 {
            None
        } else {
            Some(self.as_path[0])
        }
    }

    /// The same announcement, on another prefix.
    pub open spec fn with_prefix(self, prefix: Prefix) -> RouteView {
        RouteView { prefix, ..self }
    }
}

impl View for BgpRoute {
    type V = RouteView;

    open spec fn view(&self) -> RouteView {
        RouteView {
            prefix: self.prefix,
            as_path: self.as_path@,
            next_hop: self.next_hop,
            local_pref: self.local_pref,
            med: self.med,
            community: self.community@,
            originator_id: self.originator_id,
            cluster_list: self.cluster_list@,
        }
    }
}

/// Two routes are the same announcement: they agree once the defaults are filled in.
pub open spec fn same_route(a: RouteView, b: RouteView) -> bool {
    a.with_defaults() == b.with_defaults()
}

/// Two optional routes are the same: both absent, or the same announcement.
pub open spec fn same_optional(a: Option<RouteView>, b: Option<RouteView>) -> bool {
    match (a, b) {
        (Some(x), Some(y)) => same_route(x, y),
        (None, None) => true,
        _ => false,
    }
}

/// The view of an optional route.
pub open spec fn optional_view(r: Option<&BgpRoute>) -> Option<RouteView> {
    match r {
        Some(x) => Some(x@),
        None => None,
    }
}

/// Copy a list of numbers.
pub fn copy_list(v: &Vec<u32>) -> (r: Vec<u32>)
    ensures
        r@ == v@,
{
    let mut r: Vec<u32> = Vec::new();
    for i in 0..v.len()
        invariant
            r@ == v@.take(i as int),
    {
        r.push(v[i]);
        assert(v@.take(i + 1) =~= v@.take(i as int).push(v@[i as int]));
    }
    assert(v@.take(v@.len() as int) =~= v@);
    r
}

/// Compare two lists of numbers.
pub fn same_list(a: &Vec<u32>, b: &Vec<u32>) -> (r: bool)
    ensures
        r == (a@ == b@),
{
    if a.len() != b.len() {
        return false;
    }
    for i in 0..a.len()
        invariant
            a@.len() == b@.len(),
            forall|j: int| 0 <= j < i ==> a@[j] == b@[j],
    {
        if a[i] != b[i] {
            return false;
        }
    }
    assert(a@ =~= b@);
    true
}

/// Whether a list holds a number.
pub fn list_contains(v: &Vec<u32>, x: u32) -> (r: bool)
    ensures
        r == v@.contains(x),
{
    for i in 0..v.len()
        invariant
            forall|j: int| 0 <= j < i ==> v@[j] != x,
    {
        if v[i] == x {
            return true;
        }
    }
    false
}

impl CommunitySet {
    pub fn new() -> (r: Self)
        ensures
            r@ == Set::<u32>::empty(),
    {
        let r = CommunitySet { items: Vec::new() };
        assert(r@ =~= Set::<u32>::empty());
        r
    }

    pub fn contains(&self, x: u32) -> (r: bool)
        ensures
            r == self@.contains(x),
    {
        list_contains(&self.items, x)
    }

    pub fn insert(&mut self, x: u32)
        ensures
            final(self)@ == old(self)@.insert(x),
    {
        let ghost before = self.items@;
        if !self.contains(x) {
            self.items.push(x);
        }
        proof {
            assert forall|y: u32| #[trigger] self@.contains(y) == old(self)@.insert(x).contains(y) by {
                if before.contains(y) {
                    let i = before.index_of(y);
                    assert(self.items@[i] == y);
                }
                if self.items@.contains(y) && y != x {
                    let i = self.items@.index_of(y);
                    assert(before[i] == y);
                }
                if y == x && !before.contains(x) {
                    assert(self.items@[before.len() as int] == x);
                }
            }
            assert(self@ =~= old(self)@.insert(x));
        }
    }

    pub fn remove(&mut self, x: u32)
        ensures
            final(self)@ == old(self)@.remove(x),
    {
        let ghost before = self.items@;
        let mut kept: Vec<u32> = Vec::new();
        for i in 0..self.items.len()
            invariant
                self.items@ == before,
                forall|y: u32|
                    #[trigger] kept@.contains(y) <==> y != x && before.take(i as int).contains(y),
        {
            let y: u32 = self.items[i];
            let ghost prev = kept@;
            proof {
                assert(before.take(i + 1) =~= before.take(i as int).push(y));
                broadcast use vstd::seq_lib::group_seq_properties;
            }
            if y != x {
                kept.push(y);
            }
            proof {
                assert forall|z: u32| #[trigger] kept@.contains(z) <==> z != x && before.take(
                    i + 1,
                ).contains(z) by {
                    broadcast use vstd::seq_lib::group_seq_properties;

                }
            }
        }
        assert(before.take(before.len() as int) =~= before);
        self.items = kept;
        assert(self@ =~= old(self)@.remove(x));
    }

    pub fn same(&self, other: &Self) -> (r: bool)
        ensures
            r == (self@ == other@),
    {
        if Self::included(&self.items, &other.items) && Self::included(&other.items, &self.items) {
            assert(self@ =~= other@) by {
                assert forall|x: u32| #[trigger] self@.contains(x) == other@.contains(x) by {
                    assert(self.items@.contains(x) == other.items@.contains(x));
                }
            }
            true
        } else {
            false
        }
    }

    fn included(a: &Vec<u32>, b: &Vec<u32>) -> (r: bool)
        ensures
            r == (forall|x: u32| #[trigger] a@.contains(x) ==> b@.contains(x)),
            !r ==> a@.to_set() != b@.to_set(),
    {
        for i in 0..a.len()
            invariant
                forall|j: int| 0 <= j < i ==> b@.contains(a@[j]),
        {
            if !list_contains(b, a[i]) {
                proof {
                    assert(a@.contains(a@[i as int]));
                    assert(a@.to_set().contains(a@[i as int]));
                    assert(!b@.to_set().contains(a@[i as int]));
                }
                return false;
            }
        }
        true
    }
}

impl Clone for CommunitySet {
    fn clone(&self) -> (r: Self)
        ensures
            r@ == self@,
    {
        CommunitySet { items: copy_list(&self.items) }
    }
}

impl Clone for BgpRoute {
    fn clone(&self) -> (r: Self)
        ensures
            r@ == self@,
    {
        BgpRoute {
            prefix: self.prefix,
            as_path: copy_list(&self.as_path),
            next_hop: self.next_hop,
            local_pref: self.local_pref,
            med: self.med,
            community: self.community.clone(),
            originator_id: self.originator_id,
            cluster_list: copy_list(&self.cluster_list),
        }
    }
}

impl BgpRoute {
    /// LOCAL-PREF, or its default.
    pub fn local_pref_or_default(&self) -> (r: u32)
        ensures
            r == self@.local_pref_or_default(),
    {
        match self.local_pref {
            Some(x) => x,
            None => DEFAULT_LOCAL_PREF,
        }
    }

    /// MED, or its default.
    pub fn med_or_default(&self) -> (r: u32)
        ensures
            r == self@.med_or_default(),
    {
        match self.med {
            Some(x) => x,
            None => DEFAULT_MED,
        }
    }

    /// Whether two routes are the same announcement.
    pub fn same(&self, other: &Self) -> (r: bool)
        ensures
            r == same_route(self@, other@),
    {
        let r: bool = self.prefix == other.prefix && same_list(&self.as_path, &other.as_path)
            && self.next_hop == other.next_hop && self.local_pref_or_default()
            == other.local_pref_or_default() && self.med_or_default() == other.med_or_default()
            && self.community.same(&other.community) && self.originator_id == other.originator_id
            && same_list(&self.cluster_list, &other.cluster_list);
        proof {
            let a = self@.with_defaults();
            let b = other@.with_defaults();
            if r {
                assert(a =~= b);
            }
        }
        r
    }

    /// The same announcement on another prefix.
    pub fn with_prefix(self, prefix: Prefix) -> (r: Self)
        ensures
            r@ == self@.with_prefix(prefix),
    {
        BgpRoute {
            prefix,
            as_path: self.as_path,
            next_hop: self.next_hop,
            local_pref: self.local_pref,
            med: self.med,
            community: self.community,
            originator_id: self.originator_id,
            cluster_list: self.cluster_list,
        }
    }
}

impl PartialEq for BgpRoute {
    fn eq(&self, other: &Self) -> (r: bool) {
        self.same(other)
    }
}

impl vstd::std_specs::cmp::PartialEqSpecImpl for BgpRoute {
    open spec fn obeys_eq_spec() -> bool {
        true
    }

    open spec fn eq_spec(&self, other: &Self) -> bool {
        same_route(self@, other@)
    }
}

/// Whether two optional routes are the same.
pub fn same_optional_route(a: Option<&BgpRoute>, b: Option<&BgpRoute>) -> (r: bool)
    ensures
        r == same_optional(optional_view(a), optional_view(b)),
{
    match (a, b) {
        (Some(x), Some(y)) => x.same(y),
        (None, None) => true,
        _ => false,
    }
}

/// An entry of a RIB.
#[derive(Debug)]
pub struct BgpRibEntry {
    /// The route itself
    pub route: BgpRoute,
    /// The type of the session on which the route was learned
    pub from_type: BgpSessionType,
    /// The neighbor from which the route was learned
    pub from_id: RouterId,
    /// The neighbor to which the route is distributed (only in a RIB-out)
    pub to_id: Option<RouterId>,
    /// The IGP cost to the next hop. Only the order of two costs matters.
    pub igp_cost: u64,
    /// Local weight of the route, the most preferred metric
    pub weight: u32,
}

impl BgpRibEntry {
    /// The router that injected the route: its ORIGINATOR-ID, or else the neighbor.
    pub open spec fn origin(&self) -> RouterId {
        match self.route.originator_id {
            Some(x) => x,
            None => self.from_id,
        }
    }
}

/// The decision process prefers `a` to `b`. MED counts only between routes of one neighboring AS,
/// so among three entries the preference can be cyclic.
pub open spec fn better(a: BgpRibEntry, b: BgpRibEntry) -> bool {
    let (x, y) = (a.route@, b.route@);
    if a.weight != b.weight {
        a.weight > b.weight
    } else if x.local_pref_or_default() != y.local_pref_or_default() {
        x.local_pref_or_default() > y.local_pref_or_default()
    } else if x.as_path.len() != y.as_path.len() {
        x.as_path.len() < y.as_path.len()
    } else if x.first_as() == y.first_as() && x.med_or_default() != y.med_or_default() {
        x.med_or_default() < y.med_or_default()
    } else if (a.from_type is EBgp) != (b.from_type is EBgp) {
        a.from_type is EBgp
    } else if a.igp_cost != b.igp_cost {
        a.igp_cost < b.igp_cost
    } else if x.next_hop != y.next_hop {
        x.next_hop < y.next_hop
    } else if a.origin() != b.origin() {
        a.origin() < b.origin()
    } else if x.cluster_list.len() != y.cluster_list.len() {
        x.cluster_list.len() < y.cluster_list.len()
    } else {
        a.from_id < b.from_id
    }
}

/// Of two entries from different neighbors, exactly one is preferred.
pub proof fn lemma_better_decides(a: BgpRibEntry, b: BgpRibEntry)
    requires
        a.from_id != b.from_id,
    ensures
        better(a, b) != better(b, a),
{
}

/// No entry is preferred to itself, nor are two entries each preferred to the other.
pub proof fn lemma_better_asymmetric(a: BgpRibEntry, b: BgpRibEntry)
    ensures
        !better(a, a),
        better(a, b) ==> !better(b, a),
{
}

impl BgpRibEntry {
    fn origin_id(&self) -> (r: RouterId)
        ensures
            r == self.origin(),
    {
        match self.route.originator_id {
            Some(x) => x,
            None => self.from_id,
        }
    }

    fn first_as_is_same(&self, other: &Self) -> (r: bool)
        ensures
            r == (self.route@.first_as() == other.route@.first_as()),
    {
        if self.route.as_path.len() == 0 || other.route.as_path.len() == 0 {
            self.route.as_path.len() == 0 && other.route.as_path.len() == 0
        } else {
            self.route.as_path[0] == other.route.as_path[0]
        }
    }

    /// Whether the decision process prefers this entry to another one.
    pub fn is_better_than(&self, other: &Self) -> (r: bool)
        ensures
            r == better(*self, *other),
    {
        let lp_a: u32 = self.route.local_pref_or_default();
        let lp_b: u32 = other.route.local_pref_or_default();
        let len_a: usize = self.route.as_path.len();
        let len_b: usize = other.route.as_path.len();
        let med_a: u32 = self.route.med_or_default();
        let med_b: u32 = other.route.med_or_default();
        let ebgp_a: bool = matches!(self.from_type, BgpSessionType::EBgp);
        let ebgp_b: bool = matches!(other.from_type, BgpSessionType::EBgp);
        if self.weight != other.weight {
            self.weight > other.weight
        } else if lp_a != lp_b {
            lp_a > lp_b
        } else if len_a != len_b {
            len_a < len_b
        } else if self.first_as_is_same(other) && med_a != med_b {
            med_a < med_b
        } else if ebgp_a != ebgp_b {
            ebgp_a
        } else if self.igp_cost != other.igp_cost {
            self.igp_cost < other.igp_cost
        } else if self.route.next_hop != other.route.next_hop {
            self.route.next_hop < other.route.next_hop
        } else if self.origin_id() != other.origin_id() {
            self.origin_id() < other.origin_id()
        } else if self.route.cluster_list.len() != other.route.cluster_list.len() {
            self.route.cluster_list.len() < other.route.cluster_list.len()
        } else {
            self.from_id < other.from_id
        }
    }
}

/// A BGP message.
#[derive(Debug)]
pub enum BgpEvent {
    /// Withdraw a route that was advertised before.
    Withdraw(Prefix),
    /// Update a route, or add a new one.
    Update(BgpRoute),
}

/// What a BGP message says.
pub enum BgpEventView {
    Withdraw(Prefix),
    Update(RouteView),
}

impl View for BgpEvent {
    type V = BgpEventView;

    open spec fn view(&self) -> BgpEventView {
        match self {
            BgpEvent::Withdraw(p) => BgpEventView::Withdraw(*p),
            BgpEvent::Update(r) => BgpEventView::Update(r@),
        }
    }
}

impl BgpEventView {
    /// The prefix that the message is about.
    pub open spec fn prefix(self) -> Prefix {
        match self {
            BgpEventView::Withdraw(p) => p,
            BgpEventView::Update(r) => r.prefix,
        }
    }

    /// The same message on another prefix.
    pub open spec fn with_prefix(self, prefix: Prefix) -> BgpEventView {
        match self {
            BgpEventView::Withdraw(_) => BgpEventView::Withdraw(prefix),
            BgpEventView::Update(r) => BgpEventView::Update(r.with_prefix(prefix)),
        }
    }

    /// The route that the message leaves behind.
    pub open spec fn route(self) -> Option<RouteView> {
        match self {
            BgpEventView::Withdraw(_) => None,
            BgpEventView::Update(r) => Some(r),
        }
    }
}

impl Clone for BgpEvent {
    fn clone(&self) -> (r: Self)
        ensures
            r@ == self@,
    {
        match self {
            BgpEvent::Withdraw(p) => BgpEvent::Withdraw(*p),
            BgpEvent::Update(r) => BgpEvent::Update(r.clone()),
        }
    }
}

/// Two messages say the same.
pub open spec fn same_event(a: BgpEventView, b: BgpEventView) -> bool {
    match (a, b) {
        (BgpEventView::Withdraw(p), BgpEventView::Withdraw(q)) => p == q,
        (BgpEventView::Update(p), BgpEventView::Update(q)) => same_route(p, q),
        _ => false,
    }
}

impl BgpEvent {
    /// The same message on another prefix.
    pub fn with_prefix(self, prefix: Prefix) -> (r: Self)
        ensures
            r@ == self@.with_prefix(prefix),
    {
        match self {
            BgpEvent::Withdraw(_) => BgpEvent::Withdraw(prefix),
            BgpEvent::Update(r) => BgpEvent::Update(r.with_prefix(prefix)),
        }
    }

    /// Whether two messages say the same.
    pub fn same(&self, other: &Self) -> (r: bool)
        ensures
            r == same_event(self@, other@),
    {
        match (self, other) {
            (BgpEvent::Withdraw(p), BgpEvent::Withdraw(q)) => *p == *q,
            (BgpEvent::Update(p), BgpEvent::Update(q)) => p.same(q),
            _ => false,
        }
    }

    /// The prefix that the message is about.
    pub fn prefix(&self) -> (r: Prefix)
        ensures
            r == self@.prefix(),
    {
        match self {
            BgpEvent::Withdraw(p) => *p,
            BgpEvent::Update(r) => r.prefix,
        }
    }
}

/// A message between two routers. Its priority is most often the time.
#[derive(Debug)]
pub enum Event<T> {
    /// A BGP message from `src` to `dst`.
    Bgp { p: T, src: RouterId, dst: RouterId, e: BgpEvent },
    /// An OSPF message from `src` to `dst`. What it says is of no interest here.
    Ospf { p: T, src: RouterId, dst: RouterId },
}

/// What a message says.
pub enum EventView<T> {
    Bgp { p: T, src: RouterId, dst: RouterId, e: BgpEventView },
    Ospf { p: T, src: RouterId, dst: RouterId },
}

impl<T> View for Event<T> {
    type V = EventView<T>;

    open spec fn view(&self) -> EventView<T> {
        match self {
            Event::Bgp { p, src, dst, e } => EventView::Bgp { p: *p, src: *src, dst: *dst, e: e@ },
            Event::Ospf { p, src, dst } => EventView::Ospf { p: *p, src: *src, dst: *dst },
        }
    }
}

impl<T> EventView<T> {
    pub open spec fn priority(self) -> T {
        match self {
            EventView::Bgp { p, .. } => p,
            EventView::Ospf { p, .. } => p,
        }
    }

    pub open spec fn source(self) -> RouterId {
        match self {
            EventView::Bgp { src, .. } => src,
            EventView::Ospf { src, .. } => src,
        }
    }

    pub open spec fn router(self) -> RouterId {
        match self {
            EventView::Bgp { dst, .. } => dst,
            EventView::Ospf { dst, .. } => dst,
        }
    }

    pub open spec fn prefix(self) -> Option<Prefix> {
        match self {
            EventView::Bgp { e, .. } => Some(e.prefix()),
            EventView::Ospf { .. } => None,
        }
    }

    /// The same message on another prefix.
    pub open spec fn with_prefix(self, prefix: Prefix) -> EventView<T> {
        match self {
            EventView::Bgp { p, src, dst, e } => EventView::Bgp {
                p,
                src,
                dst,
                e: e.with_prefix(prefix),
            },
            EventView::Ospf { .. } => self,
        }
    }

    /// The same message at another time.
    pub open spec fn at(self, time: T) -> EventView<T> {
        match self {
            EventView::Bgp { src, dst, e, .. } => EventView::Bgp { p: time, src, dst, e },
            EventView::Ospf { src, dst, .. } => EventView::Ospf { p: time, src, dst },
        }
    }
}

impl<T: Copy> Clone for Event<T> {
    fn clone(&self) -> (r: Self)
        ensures
            r@ == self@,
    {
        match self {
            Event::Bgp { p, src, dst, e } => Event::Bgp {
                p: *p,
                src: *src,
                dst: *dst,
                e: e.clone(),
            },
            Event::Ospf { p, src, dst } => Event::Ospf { p: *p, src: *src, dst: *dst },
        }
    }
}

impl<T> Event<T> {
    /// The time of the message.
    pub fn priority(&self) -> (r: T) where T: Copy
        ensures
            r == self@.priority(),
    {
        match self {
            Event::Bgp { p, .. } => *p,
            Event::Ospf { p, .. } => *p,
        }
    }

    /// The router that has sent the message.
    pub fn source(&self) -> (r: RouterId)
        ensures
            r == self@.source(),
    {
        match self {
            Event::Bgp { src, .. } => *src,
            Event::Ospf { src, .. } => *src,
        }
    }

    /// The router to which the message goes.
    pub fn router(&self) -> (r: RouterId)
        ensures
            r == self@.router(),
    {
        match self {
            Event::Bgp { dst, .. } => *dst,
            Event::Ospf { dst, .. } => *dst,
        }
    }

    /// The prefix that the message is about.
    pub fn prefix(&self) -> (r: Option<Prefix>)
        ensures
            r == self@.prefix(),
    {
        match self {
            Event::Bgp { e, .. } => Some(e.prefix()),
            Event::Ospf { .. } => None,
        }
    }

    /// The same message on another prefix.
    pub fn with_prefix(self, prefix: Prefix) -> (r: Self)
        ensures
            r@ == self@.with_prefix(prefix),
    {
        match self {
            Event::Bgp { p, src, dst, e } => Event::Bgp { p, src, dst, e: e.with_prefix(prefix) },
            Event::Ospf { p, src, dst } => Event::Ospf { p, src, dst },
        }
    }

    /// The same message at another time.
    pub fn with_time(self, time: T) -> (r: Self)
        ensures
            r@ == self@.at(time),
    {
        match self {
            Event::Bgp { src, dst, e, .. } => Event::Bgp { p: time, src, dst, e },
            Event::Ospf { src, dst, .. } => Event::Ospf { p: time, src, dst },
        }
    }
}

/// What a RIB entry says.
pub struct EntryView {
    pub route: RouteView,
    pub from_type: BgpSessionType,
    pub from_id: RouterId,
    pub to_id: Option<RouterId>,
    pub igp_cost: u64,
    pub weight: u32,
}

impl View for BgpRibEntry {
    type V = EntryView;

    open spec fn view(&self) -> EntryView {
        EntryView {
            route: self.route@,
            from_type: self.from_type,
            from_id: self.from_id,
            to_id: self.to_id,
            igp_cost: self.igp_cost,
            weight: self.weight,
        }
    }
}

impl EntryView {
    /// The same entry, on another prefix.
    pub open spec fn with_prefix(self, prefix: Prefix) -> EntryView {
        EntryView { route: self.route.with_prefix(prefix), ..self }
    }
}

impl Clone for BgpRibEntry {
    fn clone(&self) -> (r: Self)
        ensures
            r@ == self@,
    {
        BgpRibEntry {
            route: self.route.clone(),
            from_type: self.from_type,
            from_id: self.from_id,
            to_id: self.to_id,
            igp_cost: self.igp_cost,
            weight: self.weight,
        }
    }
}

impl BgpRibEntry {
    /// The same entry, on another prefix.
    pub fn with_prefix(self, prefix: Prefix) -> (r: Self)
        ensures
            r@ == self@.with_prefix(prefix),
    {
        BgpRibEntry {
            route: self.route.with_prefix(prefix),
            from_type: self.from_type,
            from_id: self.from_id,
            to_id: self.to_id,
            igp_cost: self.igp_cost,
            weight: self.weight,
        }
    }
}

/// The event without its time.
pub open spec fn timeless(e: EventView<Time>) -> EventView<()> {
    match e {
        EventView::Bgp { src, dst, e, .. } => EventView::Bgp { p: (), src, dst, e },
        EventView::Ospf { src, dst, .. } => EventView::Ospf { p: (), src, dst },
    }
}

/// The decision process, criterion by criterion: a larger weight wins, then a larger LOCAL-PREF, then a
/// shorter AS path, then a smaller MED among routes of one neighboring AS, then eBGP over iBGP, then the
/// nearest exit, then the smallest next hop, the smallest originator, the shortest cluster list, and the
/// smallest neighbor. Each of them counts if all before it tie. A route without LOCAL-PREF counts with
/// 100, and one without MED with 0.
pub proof fn law_decision_process(a: BgpRibEntry, b: BgpRibEntry)
    ensures
        ({
            let lp = |e: BgpRibEntry| match e.route.local_pref {
                Some(x) => x as int,
                None => 100,
            };
            let med = |e: BgpRibEntry| match e.route.med {
                Some(x) => x as int,
                None => 0,
            };
            let ebgp = |e: BgpRibEntry| e.from_type == BgpSessionType::EBgp;
            let origin = |e: BgpRibEntry| match e.route.originator_id {
                Some(x) => x,
                None => e.from_id,
            };
            let (p, q) = (a.route.as_path@, b.route.as_path@);
            let one_as = p.len() == q.len() && (p.len() == 0 || p[0] == q[0]);
            let upto_weight = a.weight == b.weight;
            let upto_pref = upto_weight && lp(a) == lp(b);
            let upto_path = upto_pref && p.len() == q.len();
            let upto_med = upto_path && (one_as ==> med(a) == med(b));
            let upto_type = upto_med && ebgp(a) == ebgp(b);
            let upto_cost = upto_type && a.igp_cost == b.igp_cost;
            let upto_hop = upto_cost && a.route.next_hop == b.route.next_hop;
            let upto_origin = upto_hop && origin(a) == origin(b);
            let upto_clusters = upto_origin && a.route.cluster_list@.len()
                == b.route.cluster_list@.len();
            &&& a.weight > b.weight ==> better(a, b)
            &&& upto_weight && lp(a) > lp(b) ==> better(a, b)
            &&& upto_pref && p.len() < q.len() ==> better(a, b)
            &&& upto_path && one_as && med(a) < med(b) ==> better(a, b)
            &&& upto_med && ebgp(a) && !ebgp(b) ==> better(a, b)
            &&& upto_type && a.igp_cost < b.igp_cost ==> better(a, b)
            &&& upto_cost && a.route.next_hop < b.route.next_hop ==> better(a, b)
            &&& upto_hop && origin(a) < origin(b) ==> better(a, b)
            &&& upto_origin && a.route.cluster_list@.len() < b.route.cluster_list@.len() ==> better(
                a,
                b,
            )
            &&& upto_clusters && a.from_id < b.from_id ==> better(a, b)
            &&& upto_clusters && a.from_id == b.from_id ==> !better(a, b)
        }),
        better(a, b) ==> !better(b, a),
{
}

/// Two routes are the same announcement exactly if they agree in everything, where a route that carries
/// no LOCAL-PREF agrees with one of 100, and a route that carries no MED with one of 0.
pub proof fn law_same_announcement(a: RouteView, b: RouteView)
    ensures
        same_route(a, b) <==> {
            &&& a.prefix == b.prefix
            &&& a.as_path == b.as_path
            &&& a.next_hop == b.next_hop
            &&& a.community == b.community
            &&& a.originator_id == b.originator_id
            &&& a.cluster_list == b.cluster_list
            &&& {
                ||| a.local_pref == b.local_pref
                ||| a.local_pref is None && b.local_pref == Some(100u32)
                ||| b.local_pref is None && a.local_pref == Some(100u32)
            }
            &&& {
                ||| a.med == b.med
                ||| a.med is None && b.med == Some(0u32)
                ||| b.med is None && a.med == Some(0u32)
            }
        },
{
    let (x, y) = (a.with_defaults(), b.with_defaults());
    assert(x == y ==> x.prefix == y.prefix && x.as_path == y.as_path && x.next_hop == y.next_hop
        && x.community == y.community && x.originator_id == y.originator_id && x.cluster_list
        == y.cluster_list && x.local_pref == y.local_pref && x.med == y.med);
}

/// Two messages say the same exactly if both withdraw one prefix, or both announce the same.
pub proof fn law_same_message(a: BgpEventView, b: BgpEventView)
    ensures
        a is Update != b is Update ==> !same_event(a, b),
        same_event(a, b) ==> a.prefix() == b.prefix(),
        a is Withdraw && b is Withdraw && a->Withdraw_0 == b->Withdraw_0 ==> same_event(a, b),
        a is Update && b is Update ==> (same_event(a, b) <==> same_route(a->Update_0, b->Update_0)),
{
    if let (BgpEventView::Update(x), BgpEventView::Update(y)) = (a, b) {
        law_same_announcement(x, y);
    }
}

/// A message that is moved to another prefix is on that prefix, and nothing else of it has changed: moved
/// back it is what it was. So it is with routes and entries.
pub proof fn law_moving_to_another_prefix<T>(
    route: RouteView,
    entry: EntryView,
    event: EventView<T>,
    prefix: Prefix,
)
    ensures
        route.with_prefix(prefix).prefix == prefix,
        route.with_prefix(prefix).with_prefix(route.prefix) == route,
        entry.with_prefix(prefix).route.prefix == prefix,
        entry.with_prefix(prefix).with_prefix(entry.route.prefix) == entry,
        event is Bgp ==> event.with_prefix(prefix).prefix() == Some(prefix) && event.with_prefix(
            prefix,
        ).with_prefix(event.prefix()->0) == event,
        event is Ospf ==> event.with_prefix(prefix) == event,
        event is Bgp ==> (event.with_prefix(prefix)->Bgp_e is Update <==> event->Bgp_e is Update),
{
    if let EventView::Bgp { e: BgpEventView::Update(r), .. } = event {
        assert(r.with_prefix(prefix).with_prefix(r.prefix) == r);
    }
}

/// A message that is moved to another time is at that time, and moved back it is what it was. It is
/// still between the same routers, also if its time is taken off.
pub proof fn law_moving_to_another_time(event: EventView<Time>, time: Time)
    ensures
        event.at(time).priority() == time,
        event.at(time).at(event.priority()) == event,
        event.at(time).source() == event.source(),
        event.at(time).router() == event.router(),
        event.at(time).prefix() == event.prefix(),
        timeless(event.at(time)) == timeless(event),
        timeless(event).source() == event.source(),
        timeless(event).router() == event.router(),
        timeless(event) is Bgp <==> event is Bgp,
        event is Bgp ==> timeless(event)->Bgp_e == event->Bgp_e,
        event is Bgp ==> event->Bgp_src == event.source() && event->Bgp_dst == event.router(),
        event is Ospf ==> event->Ospf_src == event.source() && event->Ospf_dst == event.router(),
{
}

} // verus!
