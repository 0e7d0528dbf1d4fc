//! Route maps, as far as anything looks into them.
use vstd::prelude::*;

use crate::bgp::Prefix;
use crate::reordering_session::Probability;

verus! {

/// A condition of a route map.
#[derive(Debug, Clone, Copy, PartialEq, Eq, Structural)]
pub enum RouteMapMatch {
    /// The route is for this prefix.
    Prefix(Prefix),
    /// The route has this community.
    Community(u32),
    /// The route does not have this community.
    DenyCommunity(u32),
    /// The condition holds with some probability. Two counters tell how often it did, and did not.
    Probabilistic { p: Probability, num_matched: usize, num_not_matched: usize },
    /// Any other condition
    Other,
}

/// What a route map does to a route.
#[derive(Debug, Clone, Copy, PartialEq, Eq, Structural)]
pub enum RouteMapSet {
    /// Overwrite LOCAL-PREF, or clear it.
    LocalPref(Option<u32>),
    /// Add to LOCAL-PREF.
    LocalPrefDelta(i32),
    SetCommunity(u32),
    DelCommunity(u32),
    /// Any other action
    Other,
}

/// In which direction a route map applies.
#[derive(Debug, Clone, Copy, PartialEq, Eq, Structural)]
pub enum RouteMapDirection {
    Incoming,
    Outgoing,
}

/// An item of a route map.
#[derive(Debug)]
pub struct RouteMap {
    /// The items are tried in increasing order.
    pub order: i16,
    /// Whether a matching route is allowed
    pub allow: bool,
    pub conds: Vec<RouteMapMatch>,
    pub set: Vec<RouteMapSet>,
    /// Whether a matching route skips the remaining items
    pub exit: bool,
}

/// What an item of a route map says.
#[verifier::ext_equal]
pub struct RouteMapView {
    pub order: i16,
    pub allow: bool,
    pub conds: Seq<RouteMapMatch>,
    pub set: Seq<RouteMapSet>,
    pub exit: bool,
}

impl View for RouteMap {
    type V = RouteMapView;

    open spec fn view(&self) -> RouteMapView {
        RouteMapView {
            order: self.order,
            allow: self.allow,
            conds: self.conds@,
            set: self.set@,
            exit: self.exit,
        }
    }
}

} // verus!
