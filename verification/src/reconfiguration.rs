//! Changes to the configuration of a network, which set the scene for a bug.
use vstd::prelude::*;
use vstd::string::*;

use crate::bgp::{BgpSessionType, Prefix, RouteView, RouterId};
use crate::keyed::Keyed;
use crate::number_set::NumberSet;
use crate::route_map::{RouteMap, RouteMapMatch, RouteMapSet, RouteMapView};
use crate::text::{append_number, decimal};

verus! {

/// The BGP sessions of a router.
pub type Sessions = Vec<(RouterId, BgpSessionType)>;

/// A router and its BGP sessions.
#[derive(Debug)]
pub struct RouterSessions {
    pub router_id: RouterId,
    pub sessions: Sessions,
}

/// Some session is one of eBGP.
pub open spec fn has_ebgp(sessions: Seq<(RouterId, BgpSessionType)>) -> bool {
    exists|i: int| 0 <= i < sessions.len() && (#[trigger] sessions[i]).1 == BgpSessionType::EBgp
}

/// Whether some session is one of eBGP.
pub fn is_border(sessions: &Sessions) -> (r: bool)
    ensures
        r == has_ebgp(sessions@),
{
    for i in 0..sessions.len()
        invariant
            forall|j: int| 0 <= j < i ==> (#[trigger] sessions@[j]).1 != BgpSessionType::EBgp,
    {
        if sessions[i].1 == BgpSessionType::EBgp {
            return true;
        }
    }
    false
}

/// Router `r` is a border router.
pub open spec fn is_border_router(routers: Seq<RouterSessions>, r: RouterId) -> bool {
    exists|i: int|
        0 <= i < routers.len() && (#[trigger] routers[i]).router_id == r && has_ebgp(
            routers[i].sessions@,
        )
}

/// The border routers among the internal routers of a network.
pub fn get_border_routers(routers: &Vec<RouterSessions>) -> (r: NumberSet)
    ensures
        r.wf(),
        forall|x: RouterId| #[trigger] r@.contains(x) <==> is_border_router(routers@, x),
{
    let mut r = NumberSet::new();
    let ghost all = routers@;
    assert(all.take(0) =~= Seq::<RouterSessions>::empty());
    let mut i: usize = 0;
    while i < routers.len()
        invariant
            i <= all.len(),
            all == routers@,
            r.wf(),
            forall|x: RouterId| #[trigger]
                r@.contains(x) <==> is_border_router(all.take(i as int), x),
        decreases all.len() - i,
    {
        let ghost before = r@;
        let border: bool = is_border(&routers[i].sessions);
        if border {
            r.insert(routers[i].router_id);
        }
        proof {
            let (a, b) = (all.take(i as int), all.take(i + 1));
            assert forall|x: RouterId| #[trigger] r@.contains(x) <==> is_border_router(b, x) by {
                assert(before.contains(x) <==> is_border_router(a, x));
                if is_border_router(a, x) {
                    let j = choose|j: int|
                        0 <= j < a.len() && (#[trigger] a[j]).router_id == x && has_ebgp(
                            a[j].sessions@,
                        );
                    assert(b[j].router_id == x && has_ebgp(b[j].sessions@));
                }
                if is_border_router(b, x) {
                    let j = choose|j: int|
                        0 <= j < b.len() && (#[trigger] b[j]).router_id == x && has_ebgp(
                            b[j].sessions@,
                        );
                    if j < i {
                        assert(a[j].router_id == x && has_ebgp(a[j].sessions@));
                    }
                }
                if border && x == all[i as int].router_id {
                    assert(b[i as int].router_id == x && has_ebgp(b[i as int].sessions@));
                }
            }
        }
        i += 1;
    }
    assert(all.take(all.len() as int) =~= all);
    r
}

/// A change that is applied before a network is emulated.
#[derive(Debug, Clone, Copy)]
pub enum PreConfig {
    /// Only a certain prefix leaves a border router on its internal sessions.
    Whitelist { prefix: Prefix, router: RouterId },
    /// The route maps of an eBGP session add to LOCAL-PREF where they have set it.
    ToIncremental { router: RouterId, external: RouterId },
}

impl PreConfig {
    /// The router that is changed.
    pub open spec fn target(self) -> RouterId {
        match self {
            PreConfig::Whitelist { router, .. } => router,
            PreConfig::ToIncremental { router, .. } => router,
        }
    }

    /// The router that is changed.
    pub fn router(&self) -> (r: RouterId)
        ensures
            r == self.target(),
    {
        match self {
            PreConfig::Whitelist { router, .. } => *router,
            PreConfig::ToIncremental { router, .. } => *router,
        }
    }
}

/// A change that is applied to the emulated network.
#[derive(Debug)]
pub enum PostConfig {
    /// Set the MRAI on the internal sessions of some border routers.
    SetMrai { mrai: u16, routers: NumberSet },
    /// Change a prefix list back and forth.
    PrefixList { router: RouterId },
    /// Enable logging on a router.
    EnableLogging { router: RouterId },
}

/// The settings of an emulated network.
#[derive(Debug)]
pub struct Gns3Config {
    /// The templates of some routers: a name and an image
    pub router_templates: Keyed<(String, String)>,
    /// A change before the network is emulated
    pub pre_config: Option<PreConfig>,
    /// Changes to the emulated network
    pub post_config: Option<Vec<PostConfig>>,
}

/// A session that the whitelist of a border router covers.
pub open spec fn is_internal(s: (RouterId, BgpSessionType)) -> bool {
    s.1 != BgpSessionType::EBgp
}

/// The neighbors on internal sessions.
pub open spec fn internal_neighbors(sessions: Seq<(RouterId, BgpSessionType)>) -> Seq<RouterId>
    decreases sessions.len(),
{
    if sessions.len() == 0 {
        Seq::empty()
    } else {
        let init = internal_neighbors(sessions.drop_last());
        if is_internal(sessions.last()) {
            init.push(sessions.last().0)
        } else {
            init
        }
    }
}

/// The neighbors on internal sessions: those on which an MRAI is set, or a whitelist.
pub fn get_internal_neighbors(sessions: &Sessions) -> (r: Vec<RouterId>)
    ensures
        r@ == internal_neighbors(sessions@),
{
    let mut r: Vec<RouterId> = Vec::new();
    let ghost all = sessions@;
    assert(all.take(0) =~= Seq::<(RouterId, BgpSessionType)>::empty());
    for i in 0..sessions.len()
        invariant
            all == sessions@,
            r@ == internal_neighbors(all.take(i as int)),
    {
        assert(all.take(i + 1).drop_last() =~= all.take(i as int));
        if sessions[i].1 != BgpSessionType::EBgp {
            r.push(sessions[i].0);
        }
    }
    assert(all.take(all.len() as int) =~= all);
    r
}

/// The item that lets a prefix pass.
pub open spec fn allow_one(prefix: Prefix) -> RouteMapView {
    RouteMapView {
        order: 10,
        allow: true,
        conds: seq![RouteMapMatch::Prefix(prefix)],
        set: Seq::empty(),
        exit: true,
    }
}

/// The item that lets nothing pass.
pub open spec fn deny_all() -> RouteMapView {
    RouteMapView { order: 20, allow: false, conds: Seq::empty(), set: Seq::empty(), exit: false }
}

/// The items for some neighbors: each gets two.
pub open spec fn whitelisted(neighbors: Seq<RouterId>, prefix: Prefix) -> Seq<
    (RouterId, RouteMapView),
>
    decreases neighbors.len(),
{
    if neighbors.len() == 0 {
        Seq::empty()
    } else {
        whitelisted(neighbors.drop_last(), prefix) + seq![
            (neighbors.last(), allow_one(prefix)),
            (neighbors.last(), deny_all()),
        ]
    }
}

/// The views of route map items for neighbors.
pub open spec fn item_views(s: Seq<(RouterId, RouteMap)>) -> Seq<(RouterId, RouteMapView)> {
    Seq::new(s.len(), |i: int| (s[i].0, s[i].1@))
}

/// The outgoing route map items that let only a certain prefix leave a border router.
pub fn whitelist_prefix(sessions: &Sessions, prefix: Prefix) -> (r: Vec<(RouterId, RouteMap)>)
    requires
        has_ebgp(sessions@),
    ensures
        item_views(r@) == whitelisted(internal_neighbors(sessions@), prefix),
{
    let neighbors = get_internal_neighbors(sessions);
    let ghost all = neighbors@;
    let mut r: Vec<(RouterId, RouteMap)> = Vec::new();
    assert(all.take(0) =~= Seq::<RouterId>::empty());
    assert(item_views(r@) =~= whitelisted(all.take(0), prefix));
    for i in 0..neighbors.len()
        invariant
            all == neighbors@,
            item_views(r@) == whitelisted(all.take(i as int), prefix),
    {
        let ghost before = r@;
        let n: RouterId = neighbors[i];
        let mut conds: Vec<RouteMapMatch> = Vec::new();
        conds.push(RouteMapMatch::Prefix(prefix));
        let allow = RouteMap { order: 10, allow: true, conds, set: Vec::new(), exit: true };
        let deny = RouteMap {
            order: 20,
            allow: false,
            conds: Vec::new(),
            set: Vec::new(),
            exit: false,
        };
        proof {
            assert(allow@ =~= allow_one(prefix));
            assert(deny@ =~= deny_all());
        }
        r.push((n, allow));
        r.push((n, deny));
        proof {
            assert(all.take(i + 1).drop_last() =~= all.take(i as int));
            assert(item_views(r@) =~= item_views(before) + seq![
                (n, allow_one(prefix)),
                (n, deny_all()),
            ]);
        }
    }
    assert(all.take(all.len() as int) =~= all);
    r
}

/// A condition of a route map is met by a route.
pub open spec fn is_met(cond: RouteMapMatch, route: RouteView) -> bool {
    match cond {
        RouteMapMatch::Prefix(p) => route.prefix == p,
        RouteMapMatch::Community(c) => route.community.contains(c),
        RouteMapMatch::DenyCommunity(c) => !route.community.contains(c),
        RouteMapMatch::Probabilistic { .. } => arbitrary(),
        RouteMapMatch::Other => arbitrary(),
    }
}

/// A route passes the items of a route map from position `i` on, which stand in their order. What the
/// items do to the route does not matter here.
pub open spec fn passes(items: Seq<RouteMapView>, route: RouteView, i: int) -> bool
    decreases items.len() - i,
{
    if i < 0 || i >= items.len() {
        true
    } else if forall|j: int|
        0 <= j < items[i].conds.len() ==> is_met(#[trigger] items[i].conds[j], route) {
        items[i].allow && (items[i].exit || passes(items, route, i + 1))
    } else {
        passes(items, route, i + 1)
    }
}

/// With the whitelist, the routes of the prefix pass, and no others.
pub proof fn law_whitelist_passes_only_the_prefix(prefix: Prefix, route: RouteView)
    ensures
        passes(seq![allow_one(prefix), deny_all()], route, 0) <==> route.prefix == prefix,
{
    let items = seq![allow_one(prefix), deny_all()];
    reveal_with_fuel(passes, 3);
    let conds = items[0].conds;
    assert(conds[0] == RouteMapMatch::Prefix(prefix));
    assert(items[1].conds.len() == 0);
}

/// What an action that overwrites LOCAL-PREF becomes: one that adds to the default.
pub open spec fn incremental(s: RouteMapSet) -> RouteMapSet {
    match s {
        RouteMapSet::LocalPref(Some(x)) => RouteMapSet::LocalPrefDelta((x - 100) as i32),
        _ => s,
    }
}

/// The item with incremental actions.
pub open spec fn incremental_item(rm: RouteMapView) -> RouteMapView {
    RouteMapView { set: Seq::new(rm.set.len(), |i: int| incremental(rm.set[i])), ..rm }
}

/// The item overwrites LOCAL-PREF, or clears it.
pub open spec fn sets_local_pref(rm: RouteMapView) -> bool {
    exists|i: int| 0 <= i < rm.set.len() && #[trigger] rm.set[i] is LocalPref
}

/// The values that overwrite LOCAL-PREF can be signed numbers.
pub open spec fn is_signed(rm: RouteMapView) -> bool {
    forall|i: int|
        0 <= i < rm.set.len() ==> (#[trigger] rm.set[i] matches RouteMapSet::LocalPref(Some(x))
            ==> x <= i32::MAX)
}

/// The views of route map items.
pub open spec fn map_views(s: Seq<RouteMap>) -> Seq<RouteMapView> {
    Seq::new(s.len(), |i: int| s[i]@)
}

/// The number of items that overwrite LOCAL-PREF, or clear it.
pub open spec fn num_setting(s: Seq<RouteMapView>) -> nat
    decreases s.len(),
{
    if s.len() == 0 {
        0
    } else if sets_local_pref(s.last()) {
        num_setting(s.drop_last()) + 1
    } else {
        num_setting(s.drop_last())
    }
}

/// Let the route map of an eBGP session add to the default LOCAL-PREF where it has overwritten it.
/// Tell how many of its items were about LOCAL-PREF.
pub fn to_incremental(items: Vec<RouteMap>) -> (r: (Vec<RouteMap>, usize))
    requires
        forall|i: int| 0 <= i < items@.len() ==> is_signed((#[trigger] items@[i])@),
    ensures
        map_views(r.0@) == Seq::new(items@.len(), |i: int| incremental_item(items@[i]@)),
        r.1 == num_setting(map_views(items@)),
{
    let ghost all = items@;
    let ghost v = map_views(all);
    let total: usize = items.len();
    let mut changed: Vec<RouteMap> = Vec::new();
    let mut n: usize = 0;
    assert(v.take(0) =~= Seq::<RouteMapView>::empty());
    for rm in it: items
        invariant
            it.seq() == all,
            total == all.len(),
            v == map_views(all),
            forall|i: int| 0 <= i < all.len() ==> is_signed((#[trigger] all[i])@),
            changed@.len() == it.index(),
            forall|i: int|
                0 <= i < changed@.len() ==> (#[trigger] changed@[i])@ == incremental_item(all[i]@),
            n <= it.index(),
            n == num_setting(v.take(it.index() as int)),
    {
        let ghost k = it.index() as int;
        assert(rm == all[k]);
        assert(v[k] == rm@);
        let mut set: Vec<RouteMapSet> = Vec::new();
        let mut about: bool = false;
        for i in 0..rm.set.len()
            invariant
                is_signed(rm@),
                set@.len() == i,
                forall|j: int| 0 <= j < i ==> #[trigger] set@[j] == incremental(rm.set@[j]),
                about == exists|j: int| 0 <= j < i && #[trigger] rm.set@[j] is LocalPref,
        {
            let s: RouteMapSet = rm.set[i];
            assert(rm@.set[i as int] == s);
            match s {
                RouteMapSet::LocalPref(x) => {
                    about = true;
                    assert(rm.set@[i as int] is LocalPref);
                    match x {
                        Some(x) => {
                            set.push(RouteMapSet::LocalPrefDelta(x as i32 - 100));
                        },
                        None => {
                            set.push(s);
                        },
                    }
                },
                _ => {
                    set.push(s);
                },
            }
        }
        proof {
            assert(about == sets_local_pref(rm@));
            assert(v.take(k + 1).drop_last() =~= v.take(k));
            assert(v.take(k + 1).last() == rm@);
        }
        if about {
            n += 1;
        }
        let new_rm = RouteMap {
            order: rm.order,
            allow: rm.allow,
            conds: rm.conds,
            set,
            exit: rm.exit,
        };
        assert(new_rm@ =~= incremental_item(all[k]@));
        changed.push(new_rm);
    }
    proof {
        assert(v.take(all.len() as int) =~= v);
        assert(map_views(changed@) =~= Seq::new(all.len(), |i: int| incremental_item(all[i]@)));
    }
    (changed, n)
}

/// Afterwards no item overwrites LOCAL-PREF by a value, and nothing else has changed.
pub proof fn law_incremental_items_only_add(rm: RouteMapView, i: int)
    requires
        0 <= i < rm.set.len(),
    ensures
        !(incremental_item(rm).set[i] matches RouteMapSet::LocalPref(Some(_))),
        !(rm.set[i] is LocalPref) ==> incremental_item(rm).set[i] == rm.set[i],
        incremental_item(rm).conds == rm.conds,
        incremental_item(rm).order == rm.order,
{
}

/// The sessions on which an MRAI timer is set: those of some routers with their internal neighbors.
pub open spec fn timed_sessions(
    routers: Seq<RouterId>,
    sessions: Map<RouterId, Sessions>,
) -> Seq<(RouterId, RouterId)>
    decreases routers.len(),
{
    if routers.len() == 0 {
        Seq::empty()
    } else {
        let r = routers.last();
        timed_sessions(routers.drop_last(), sessions) + internal_neighbors(
            sessions[r]@,
        ).map_values(|n: RouterId| (r, n))
    }
}

/// The sessions on which an MRAI timer is set. All routers must be border routers.
pub fn configure_mrai_timers(routers: &NumberSet, sessions: &Keyed<Sessions>) -> (r: Vec<
    (RouterId, RouterId),
>)
    requires
        sessions.wf(),
        forall|i: int|
            0 <= i < routers.items@.len() ==> sessions@.contains_key(#[trigger] routers.items@[i])
                && has_ebgp(sessions@[routers.items@[i]]@),
    ensures
        r@ == timed_sessions(routers.items@, sessions@),
{
    let ghost all = routers.items@;
    let mut r: Vec<(RouterId, RouterId)> = Vec::new();
    assert(all.take(0) =~= Seq::<RouterId>::empty());
    for i in 0..routers.items.len()
        invariant
            all == routers.items@,
            sessions.wf(),
            forall|i: int| 0 <= i < all.len() ==> sessions@.contains_key(#[trigger] all[i]),
            r@ == timed_sessions(all.take(i as int), sessions@),
    {
        let router: RouterId = routers.items[i];
        let ghost before = r@;
        assert(all.take(i + 1).drop_last() =~= all.take(i as int));
        assert(sessions@.contains_key(all[i as int]));
        match sessions.get(router) {
            Some(list) => {
                let neighbors = get_internal_neighbors(list);
                let ghost f = |n: RouterId| (router, n);
                assert(r@ =~= before + neighbors@.take(0).map_values(f));
                for j in 0..neighbors.len()
                    invariant
                        f == (|n: RouterId| (router, n)),
                        r@ == before + neighbors@.take(j as int).map_values(f),
                {
                    r.push((router, neighbors[j]));
                    assert(r@ =~= before + neighbors@.take(j + 1).map_values(f));
                }
                assert(neighbors@.take(neighbors@.len() as int) =~= neighbors@);
            },
            None => {},
        }
    }
    assert(all.take(all.len() as int) =~= all);
    r
}

/// What to do to the emulated network.
#[derive(Debug)]
pub enum PostAction {
    /// Set an MRAI, in seconds, on some sessions: the router and its neighbor
    SetTimers { mrai: u16, sessions: Vec<(RouterId, RouterId)> },
    /// Change the prefix list of a router back and forth
    FlipPrefixList { router: RouterId },
    /// Enable logging on a router
    EnableLogging { router: RouterId },
}

impl PostConfig {
    /// The routers are border routers.
    pub open spec fn is_applicable(self, sessions: Map<RouterId, Sessions>) -> bool {
        self matches PostConfig::SetMrai { routers, .. } ==> forall|i: int|
            0 <= i < routers.items@.len() ==> sessions.contains_key(#[trigger] routers.items@[i])
                && has_ebgp(sessions[routers.items@[i]]@)
    }

    /// What to do to the emulated network, in which the internal routers have these sessions.
    pub fn apply(&self, sessions: &Keyed<Sessions>) -> (r: PostAction)
        requires
            sessions.wf(),
            self.is_applicable(sessions@),
        ensures
            match *self {
                PostConfig::SetMrai { mrai, routers } => r matches PostAction::SetTimers {
                    mrai: m,
                    sessions: s,
                } && m == mrai && s@ == timed_sessions(routers.items@, sessions@),
                PostConfig::PrefixList { router } => r == PostAction::FlipPrefixList { router },
                PostConfig::EnableLogging { router } => r == PostAction::EnableLogging { router },
            },
    {
        match self {
            PostConfig::SetMrai { mrai, routers } => PostAction::SetTimers {
                mrai: *mrai,
                sessions: configure_mrai_timers(routers, sessions),
            },
            PostConfig::PrefixList { router } => PostAction::FlipPrefixList { router: *router },
            PostConfig::EnableLogging { router } => PostAction::EnableLogging { router: *router },
        }
    }
}

/// What to do to the network before it is emulated.
#[derive(Debug)]
pub enum PreAction {
    /// Add items to the outgoing route maps of a router
    AddOutgoing { router: RouterId, items: Vec<(RouterId, RouteMap)> },
    /// Replace the incoming route map of a session
    ReplaceIncoming { router: RouterId, external: RouterId, items: Vec<RouteMap> },
}

impl PreConfig {
    /// The router is a border router, and what overwrites LOCAL-PREF can be made to add to it.
    pub open spec fn is_applicable(
        self,
        sessions: Seq<(RouterId, BgpSessionType)>,
        incoming: Seq<RouteMap>,
    ) -> bool {
        match self {
            PreConfig::Whitelist { .. } => has_ebgp(sessions),
            PreConfig::ToIncremental { external, .. } => (exists|i: int|
                0 <= i < sessions.len() && (#[trigger] sessions[i]).0 == external) && forall|i: int|
                0 <= i < incoming.len() ==> is_signed((#[trigger] incoming[i])@),
        }
    }

    /// What to do to the network, given the sessions of the router, and the incoming route map of its
    /// session with the external router.
    pub fn apply(&self, sessions: &Sessions, incoming: Vec<RouteMap>) -> (r: PreAction)
        requires
            self.is_applicable(sessions@, incoming@),
        ensures
            match *self {
                PreConfig::Whitelist { prefix, router } => r matches PreAction::AddOutgoing {
                    router: x,
                    items,
                } && x == router && item_views(items@) == whitelisted(
                    internal_neighbors(sessions@),
                    prefix,
                ),
                PreConfig::ToIncremental { router, external } => r matches
                    PreAction::ReplaceIncoming { router: x, external: e, items } && x == router && e
                    == external && map_views(items@) == Seq::new(
                    incoming@.len(),
                    |i: int| incremental_item(incoming@[i]@),
                ),
            },
    {
        match self {
            PreConfig::Whitelist { prefix, router } => PreAction::AddOutgoing {
                router: *router,
                items: whitelist_prefix(sessions, *prefix),
            },
            PreConfig::ToIncremental { router, external } => {
                let (items, _) = to_incremental(incoming);
                PreAction::ReplaceIncoming { router: *router, external: *external, items }
            },
        }
    }
}

/// The start of a command that changes a prefix list.
pub open spec fn command_start(name: Seq<char>, seq_number: u32) -> Seq<char> {
    "ip prefix-list "@ + name + " seq "@ + decimal(seq_number as nat)
}

/// The command that lets a prefix list deny everything.
pub fn deny_command(name: &str, seq_number: u32) -> (r: String)
    ensures
        r@ == command_start(name@, seq_number) + " deny any"@,
{
    let mut r = String::from_str("ip prefix-list ");
    r.append(name);
    r.append(" seq ");
    append_number(&mut r, seq_number as u64);
    r.append(" deny any");
    r
}

/// The command that lets a prefix list permit a prefix.
pub fn permit_command(name: &str, seq_number: u32, prefix: &str) -> (r: String)
    ensures
        r@ == command_start(name@, seq_number) + " permit "@ + prefix@,
{
    let mut r = String::from_str("ip prefix-list ");
    r.append(name);
    r.append(" seq ");
    append_number(&mut r, seq_number as u64);
    r.append(" permit ");
    r.append(prefix);
    r
}

/// The internal neighbors are those on sessions of iBGP. All sessions are with internal neighbors exactly
/// if the router is no border router.
pub proof fn law_internal_neighbors(sessions: Seq<(RouterId, BgpSessionType)>, n: RouterId)
    ensures
        internal_neighbors(sessions).contains(n) <==> exists|i: int|
            0 <= i < sessions.len() && (#[trigger] sessions[i]).0 == n && (sessions[i].1 is IBgpPeer
                || sessions[i].1 is IBgpClient),
        internal_neighbors(sessions).len() <= sessions.len(),
        internal_neighbors(sessions).len() == sessions.len() <==> !has_ebgp(sessions),
    decreases sessions.len(),
{
    if sessions.len() > 0 {
        let init = sessions.drop_last();
        law_internal_neighbors(init, n);
        let (a, b) = (internal_neighbors(init), internal_neighbors(sessions));
        if is_internal(sessions.last()) {
            if a.contains(n) {
                assert(b[a.index_of(n)] == n);
            }
            if sessions.last().0 == n {
                assert(b[a.len() as int] == n);
            }
            if b.contains(n) && b.index_of(n) < a.len() {
                assert(a[b.index_of(n)] == n);
            }
        } else {
            assert(sessions[sessions.len() - 1].1 == BgpSessionType::EBgp);
        }
        assert forall|i: int| 0 <= i < init.len() implies init[i] == #[trigger] sessions[i] by {}
        if has_ebgp(init) {
            let i = choose|i: int|
                0 <= i < init.len() && (#[trigger] init[i]).1 == BgpSessionType::EBgp;
            assert(sessions[i].1 == BgpSessionType::EBgp);
        }
        if exists|i: int|
            0 <= i < init.len() && (#[trigger] init[i]).0 == n && (init[i].1 is IBgpPeer
                || init[i].1 is IBgpClient) {
            let i = choose|i: int|
                0 <= i < init.len() && (#[trigger] init[i]).0 == n && (init[i].1 is IBgpPeer
                    || init[i].1 is IBgpClient);
            assert(sessions[i].0 == n);
        }
    }
}

/// A router is a border router exactly if one of its sessions is one of eBGP, wherever that stands.
pub proof fn law_border_routers_have_ebgp(
    sessions: Seq<(RouterId, BgpSessionType)>,
    i: int,
    routers: Seq<RouterSessions>,
    k: int,
)
    requires
        0 <= i < sessions.len(),
        0 <= k < routers.len(),
    ensures
        sessions[i].1 is EBgp ==> has_ebgp(sessions),
        has_ebgp(sessions) && !(sessions[i].1 is EBgp) ==> has_ebgp(sessions.remove(i)),
        has_ebgp(routers[k].sessions@) ==> is_border_router(routers, routers[k].router_id),
        !has_ebgp(Seq::empty()),
{
    if has_ebgp(sessions) && !(sessions[i].1 is EBgp) {
        let j = choose|j: int|
            0 <= j < sessions.len() && (#[trigger] sessions[j]).1 == BgpSessionType::EBgp;
        if j < i {
            assert(sessions.remove(i)[j] == sessions[j]);
        } else {
            assert(sessions.remove(i)[j - 1] == sessions[j]);
        }
    }
    if has_ebgp(routers[k].sessions@) {
        assert(routers[k].router_id == routers[k].router_id);
    }
}

/// Each internal neighbor gets an item that lets exactly the prefix pass, and behind that one that lets
/// nothing pass.
pub proof fn law_whitelist_for_each_neighbor(neighbors: Seq<RouterId>, prefix: Prefix, k: int)
    requires
        0 <= k < neighbors.len(),
    ensures
        ({
            let items = whitelisted(neighbors, prefix);
            &&& items.len() == 2 * neighbors.len()
            &&& items[2 * k].0 == neighbors[k]
            &&& items[2 * k + 1].0 == neighbors[k]
            &&& items[2 * k].1.order < items[2 * k + 1].1.order
            &&& items[2 * k].1.allow && !items[2 * k + 1].1.allow
            &&& items[2 * k].1.exit
            &&& items[2 * k].1.conds == seq![RouteMapMatch::Prefix(prefix)]
            &&& items[2 * k + 1].1.conds.len() == 0
            &&& items[2 * k].1.set.len() == 0 && items[2 * k + 1].1.set.len() == 0
            &&& forall|route: RouteView|
                #![trigger route.prefix]
                passes(seq![items[2 * k].1, items[2 * k + 1].1], route, 0) <==> route.prefix == prefix
        }),
    decreases neighbors.len(),
{
    let items = whitelisted(neighbors, prefix);
    lemma_whitelisted_len(neighbors, prefix);
    lemma_whitelisted_len(neighbors.drop_last(), prefix);
    if k < neighbors.len() - 1 {
        law_whitelist_for_each_neighbor(neighbors.drop_last(), prefix, k);
        let init = whitelisted(neighbors.drop_last(), prefix);
        assert(items[2 * k] == init[2 * k] && items[2 * k + 1] == init[2 * k + 1]);
    } else {
        assert(items[2 * k] == (neighbors[k], allow_one(prefix)));
        assert(items[2 * k + 1] == (neighbors[k], deny_all()));
        assert forall|route: RouteView|
            #![trigger route.prefix]
            passes(seq![items[2 * k].1, items[2 * k + 1].1], route, 0) <==> route.prefix == prefix by {
            law_whitelist_passes_only_the_prefix(prefix, route);
        }
    }
}

proof fn lemma_whitelisted_len(neighbors: Seq<RouterId>, prefix: Prefix)
    ensures
        whitelisted(neighbors, prefix).len() == 2 * neighbors.len(),
    decreases neighbors.len(),
{
    if neighbors.len() > 0 {
        lemma_whitelisted_len(neighbors.drop_last(), prefix);
    }
}

/// An item that sets LOCAL-PREF to a value adds so much that a route with the default of 100 ends up with
/// that value. All else stays as it is, and so does an item that clears LOCAL-PREF.
pub proof fn law_incremental_values(rm: RouteMapView, i: int)
    requires
        0 <= i < rm.set.len(),
        is_signed(rm),
    ensures
        incremental_item(rm).set.len() == rm.set.len(),
        rm.set[i] matches RouteMapSet::LocalPref(Some(x)) ==> incremental_item(rm).set[i] matches
            RouteMapSet::LocalPrefDelta(d) && 100 + d == x,
        rm.set[i] == RouteMapSet::LocalPref(None) ==> incremental_item(rm).set[i] == rm.set[i],
        rm.set[i] is LocalPref ==> num_setting(seq![rm]) == 1,
        incremental_item(rm).allow == rm.allow,
        incremental_item(rm).exit == rm.exit,
{
    reveal_with_fuel(num_setting, 2);
    assert(seq![rm].last() == rm);
    assert(seq![rm].drop_last() =~= Seq::empty());
    if rm.set[i] is LocalPref {
        assert(sets_local_pref(rm));
    }
}

/// The items that overwrite LOCAL-PREF or clear it are counted one by one, and no others.
pub proof fn law_counting_items_that_set(s: Seq<RouteMapView>, rm: RouteMapView)
    ensures
        (forall|i: int| 0 <= i < rm.set.len() ==> !(#[trigger] rm.set[i] is LocalPref)) ==> num_setting(
            s.push(rm),
        ) == num_setting(s),
        (exists|i: int| 0 <= i < rm.set.len() && #[trigger] rm.set[i] is LocalPref) ==> num_setting(
            s.push(rm),
        ) == num_setting(s) + 1,
        num_setting(Seq::empty()) == 0,
{
    assert(s.push(rm).drop_last() =~= s);
}

/// A timer is set exactly on the sessions of the routers with their neighbors on sessions of iBGP.
pub proof fn law_timers_on_internal_sessions(
    routers: Seq<RouterId>,
    sessions: Map<RouterId, Sessions>,
    r: RouterId,
    n: RouterId,
)
    ensures
        timed_sessions(routers, sessions).contains((r, n)) <==> routers.contains(r) && exists|i: int|
            0 <= i < sessions[r]@.len() && (#[trigger] sessions[r]@[i]).0 == n && !(
            sessions[r]@[i].1 is EBgp),
    decreases routers.len(),
{
    law_internal_neighbors(sessions[r]@, n);
    lemma_timed(routers, sessions, r, n);
}

proof fn lemma_timed(
    routers: Seq<RouterId>,
    sessions: Map<RouterId, Sessions>,
    r: RouterId,
    n: RouterId,
)
    ensures
        timed_sessions(routers, sessions).contains((r, n)) <==> routers.contains(r)
            && internal_neighbors(sessions[r]@).contains(n),
    decreases routers.len(),
{
    if routers.len() > 0 {
        let init = routers.drop_last();
        let x = routers.last();
        lemma_timed(init, sessions, r, n);
        let a = timed_sessions(init, sessions);
        let list = internal_neighbors(sessions[x]@);
        let b = list.map_values(|y: RouterId| (x, y));
        let all = timed_sessions(routers, sessions);
        assert(all == a + b);
        if a.contains((r, n)) {
            assert(all[a.index_of((r, n))] == (r, n));
            assert(routers[init.index_of(r)] == r);
        }
        if routers.contains(r) && list.contains(n) && r == x {
            let j = list.index_of(n);
            assert(b[j] == (r, n));
            assert(all[a.len() + j] == (r, n));
        }
        if routers.contains(r) && r != x {
            let j = routers.index_of(r);
            assert(init[j] == r);
        }
        if all.contains((r, n)) {
            let j = all.index_of((r, n));
            if j < a.len() {
                assert(a[j] == (r, n));
            } else {
                assert(b[j - a.len()] == (r, n));
                assert(list[j - a.len()] == n && r == x);
                assert(routers[routers.len() - 1] == r);
            }
        }
    }
}

} // verus!
