//! Node identifiers and source routes.
use vstd::prelude::*;

verus! {

/// Identifier of a node: a client, a server or a drone.
pub type NodeId = u8;

/// What a node does in the network.
#[derive(Clone, Copy, Debug, PartialEq, Eq, Structural)]
pub enum NodeType {
    Client,
    Drone,
    Server,
}

/// The route of a packet: every hop from the source to the destination, and
/// the position of the node that holds the packet.
#[derive(Debug, PartialEq, Eq)]
pub struct SourceRoutingHeader {
    pub hop_index: usize,
    pub hops: Vec<NodeId>,
}

/// Mathematical model of a [`SourceRoutingHeader`].
#[verifier::ext_equal]
pub struct RouteView {
    pub hop_index: nat,
    pub hops: Seq<NodeId>,
}

impl RouteView {
    /// The route that carries no hop: it marks a packet that waits for a route.
    pub open spec fn empty() -> RouteView {
        RouteView { hop_index: 0, hops: Seq::empty() }
    }

    /// The first hop.
    pub open spec fn source(self) -> Option<NodeId> {
        if self.hops.len() > 0 {
            Some(self.hops[0])
        } else {
            None
        }
    }

    /// The hop after the current one.
    pub open spec fn next_hop(self) -> Option<NodeId> {
        if self.hop_index + 1 < self.hops.len() {
            Some(self.hops[(self.hop_index + 1) as int])
        } else {
            None
        }
    }

    /// The same route, seen one hop further.
    pub open spec fn advanced(self) -> RouteView {
        RouteView { hop_index: self.hop_index + 1, hops: self.hops }
    }
}

impl View for SourceRoutingHeader {
    type V = RouteView;

    open spec fn view(&self) -> RouteView {
        RouteView { hop_index: self.hop_index as nat, hops: self.hops@ }
    }
}

impl Clone for SourceRoutingHeader {
    fn clone(&self) -> (copy: Self)
        ensures
            copy@ == self@,
    {
        SourceRoutingHeader { hop_index: self.hop_index, hops: self.hops.clone() }
    }
}

impl SourceRoutingHeader {
    /// A route over `hops`, held by the node at position `hop_index`.
    pub fn new(hops: Vec<NodeId>, hop_index: usize) -> (route: Self)
        ensures
            route.hop_index == hop_index,
            route.hops == hops,
    {
        SourceRoutingHeader { hop_index, hops }
    }

    /// The route without hops.
    pub fn empty_route() -> (route: Self)
        ensures
            route@ == RouteView::empty(),
    {
        SourceRoutingHeader { hop_index: 0, hops: Vec::new() }
    }

    /// Whether this is the route without hops.
    pub fn is_empty_route(&self) -> (empty: bool)
        ensures
            empty == (self@ == RouteView::empty()),
    {
        proof {
            if self.hops@.len() == 0 {
                assert(self.hops@ == Seq::<NodeId>::empty());
            }
        }
        self.hop_index == 0 && self.hops.len() == 0
    }

    /// The node that sent the packet first, if the route has any hop.
    pub fn source(&self) -> (source: Option<NodeId>)
        ensures
            source == self@.source(),
    {
        if self.hops.len() > 0 {
            Some(self.hops[0])
        } else {
            None
        }
    }

    /// The node that gets the packet next, unless the current hop is the last.
    pub fn next_hop(&self) -> (next: Option<NodeId>)
        ensures
            next == self@.next_hop(),
    {
        let n: usize = self.hops.len();
        if self.hop_index < n && self.hop_index + 1 < n {
            Some(self.hops[self.hop_index + 1])
        } else {
            None
        }
    }

    /// Moves the route on by one hop.
    pub fn increase_hop_index(&mut self)
        requires
            old(self).hop_index < usize::MAX,
        ensures
            final(self)@ == old(self)@.advanced(),
    {
        self.hop_index = self.hop_index + 1;
    }
}

/// A route knows its source if it has a hop at all, and the next hop is the one
/// that holds the packet once the route has moved on; moving on changes no hop.
pub proof fn law_route_moves_on(route: RouteView)
    ensures
        route.source() is None <==> route.hops.len() == 0,
        route.source() is Some ==> route.source() == Some(route.hops[0]),
        route.advanced().hops == route.hops,
        route.advanced().hop_index == route.hop_index + 1,
        route.next_hop() is Some <==> route.advanced().hop_index < route.hops.len(),
        route.next_hop() is Some ==> route.next_hop() == Some(
            route.hops[route.advanced().hop_index as int],
        ),
{
}

/// A packet that waits for a route has no hop, no source and no next hop; a
/// route with a hop is never taken for that one.
pub proof fn law_empty_route(route: RouteView)
    ensures
        RouteView::empty().hop_index == 0,
        RouteView::empty().hops.len() == 0,
        RouteView::empty().source() is None,
        RouteView::empty().next_hop() is None,
        route.hops.len() > 0 ==> route != RouteView::empty(),
{
}

/// The model of a route shows its position and every hop.
pub proof fn law_route_view(route: SourceRoutingHeader)
    ensures
        route@.hop_index == route.hop_index,
        route@.hops == route.hops@,
{
}

} // verus!
