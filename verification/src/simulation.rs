//! Events that a simulation applies to a network.
use vstd::prelude::*;

use crate::bgp::{copy_list, AsId, Prefix, RouterId};

verus! {

/// An announcement or a withdrawal of an external neighbor.
#[derive(Debug)]
pub struct ExternalEvent {
    /// Where the event originates
    pub external_neighbor: RouterId,
    /// The prefix that the event is about
    pub prefix: Prefix,
    /// The AS path that is announced, or `None` for a withdrawal
    pub route: Option<Vec<AsId>>,
}

/// What an external event says.
#[verifier::ext_equal]
pub struct ExternalView {
    pub external_neighbor: RouterId,
    pub prefix: Prefix,
    pub route: Option<Seq<AsId>>,
}

impl View for ExternalEvent {
    type V = ExternalView;

    open spec fn view(&self) -> ExternalView {
        ExternalView {
            external_neighbor: self.external_neighbor,
            prefix: self.prefix,
            route: match self.route {
                Some(path) => Some(path@),
                None => None,
            },
        }
    }
}

impl Clone for ExternalEvent {
    fn clone(&self) -> (r: Self)
        ensures
            r@ == self@,
    {
        ExternalEvent {
            external_neighbor: self.external_neighbor,
            prefix: self.prefix,
            route: match &self.route {
                Some(path) => Some(copy_list(path)),
                None => None,
            },
        }
    }
}

/// Something to apply to the simulation.
#[derive(Debug)]
pub enum SimulationEvent {
    /// An update or a withdrawal of an external neighbor
    External(ExternalEvent),
    /// A reconfiguration task
    Reconfiguration,
}

/// What an event says.
pub enum SimulationView {
    External(ExternalView),
    Reconfiguration,
}

impl View for SimulationEvent {
    type V = SimulationView;

    open spec fn view(&self) -> SimulationView {
        match self {
            SimulationEvent::External(e) => SimulationView::External(e@),
            SimulationEvent::Reconfiguration => SimulationView::Reconfiguration,
        }
    }
}

/// The events of a time step, which are applied in quick succession.
pub type SimulationTimeStep = Vec<SimulationEvent>;

/// The views of events.
pub open spec fn simulation_views(s: Seq<SimulationEvent>) -> Seq<SimulationView> {
    Seq::new(s.len(), |i: int| s[i]@)
}

} // verus!
