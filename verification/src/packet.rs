//! The packets that nodes exchange.
use crate::network::{NodeId, NodeType, RouteView, SourceRoutingHeader};
use vstd::prelude::*;

verus! {

/// Number of bytes in the data field of a fragment.
pub const FRAGMENT_DSIZE: usize = 128;

/// Number of bytes that a fragment takes up in memory.
pub const FRAGMENT_FOOTPRINT: u64 = 152;

/// One piece of a message. The first `length` bytes of `data` are meant.
#[derive(Clone, Copy, Debug, PartialEq, Eq)]
pub struct Fragment {
    pub fragment_index: u64,
    pub total_n_fragments: u64,
    pub length: u8,
    pub data: [u8; FRAGMENT_DSIZE],
}

/// Confirms that a fragment has arrived.
#[derive(Clone, Copy, Debug, PartialEq, Eq)]
pub struct Ack {
    pub fragment_index: u64,
}

/// Why a packet did not arrive.
#[derive(Clone, Copy, Debug, PartialEq, Eq)]
pub enum NackType {
    /// The next hop is not a neighbour of the drone that answers.
    ErrorInRouting(NodeId),
    /// The route ends at a drone.
    DestinationIsDrone,
    /// A drone dropped the packet.
    Dropped,
    /// The packet reached a node that is not the current hop of its route.
    UnexpectedRecipient(NodeId),
}

/// Reports that a packet did not arrive.
#[derive(Clone, Copy, Debug, PartialEq, Eq)]
pub struct Nack {
    pub fragment_index: u64,
    pub nack_type: NackType,
}

/// Explores the network: each node on the way adds itself to the trace.
#[derive(Debug, PartialEq, Eq)]
pub struct FloodRequest {
    pub flood_id: u64,
    pub initiator_id: NodeId,
    pub path_trace: Vec<(NodeId, NodeType)>,
}

/// Brings the trace of a flood request back to the node that started it.
#[derive(Debug, PartialEq, Eq)]
pub struct FloodResponse {
    pub flood_id: u64,
    pub path_trace: Vec<(NodeId, NodeType)>,
}

/// What a packet carries.
#[derive(Debug, PartialEq, Eq)]
pub enum PacketType {
    MsgFragment(Fragment),
    Ack(Ack),
    Nack(Nack),
    FloodRequest(FloodRequest),
    FloodResponse(FloodResponse),
}

/// A packet on its route.
#[derive(Debug, PartialEq, Eq)]
pub struct Packet {
    pub routing_header: SourceRoutingHeader,
    pub session_id: u64,
    pub pack_type: PacketType,
}

/// Mathematical model of a [`FloodRequest`].
#[verifier::ext_equal]
pub struct FloodRequestView {
    pub flood_id: u64,
    pub initiator_id: NodeId,
    pub path_trace: Seq<(NodeId, NodeType)>,
}

/// Mathematical model of a [`FloodResponse`].
#[verifier::ext_equal]
pub struct FloodResponseView {
    pub flood_id: u64,
    pub path_trace: Seq<(NodeId, NodeType)>,
}

/// Mathematical model of a [`PacketType`].
#[verifier::ext_equal]
pub enum PacketTypeView {
    MsgFragment(Fragment),
    Ack(Ack),
    Nack(Nack),
    FloodRequest(FloodRequestView),
    FloodResponse(FloodResponseView),
}

/// Mathematical model of a [`Packet`].
#[verifier::ext_equal]
pub struct PacketView {
    pub routing_header: RouteView,
    pub session_id: u64,
    pub pack_type: PacketTypeView,
}

impl View for FloodRequest {
    type V = FloodRequestView;

    open spec fn view(&self) -> FloodRequestView {
        FloodRequestView {
            flood_id: self.flood_id,
            initiator_id: self.initiator_id,
            path_trace: self.path_trace@,
        }
    }
}

impl View for FloodResponse {
    type V = FloodResponseView;

    open spec fn view(&self) -> FloodResponseView {
        FloodResponseView { flood_id: self.flood_id, path_trace: self.path_trace@ }
    }
}

impl View for PacketType {
    type V = PacketTypeView;

    open spec fn view(&self) -> PacketTypeView {
        match *self {
            PacketType::MsgFragment(frag) => PacketTypeView::MsgFragment(frag),
            PacketType::Ack(ack) => PacketTypeView::Ack(ack),
            PacketType::Nack(nack) => PacketTypeView::Nack(nack),
            PacketType::FloodRequest(req) => PacketTypeView::FloodRequest(req@),
            PacketType::FloodResponse(res) => PacketTypeView::FloodResponse(res@),
        }
    }
}

impl View for Packet {
    type V = PacketView;

    open spec fn view(&self) -> PacketView {
        PacketView {
            routing_header: self.routing_header@,
            session_id: self.session_id,
            pack_type: self.pack_type@,
        }
    }
}

/// A copy of a trace.
fn clone_trace(trace: &Vec<(NodeId, NodeType)>) -> (copy: Vec<(NodeId, NodeType)>)
    ensures
        copy@ == trace@,
{
    let mut copy: Vec<(NodeId, NodeType)> = Vec::new();
    for i in 0..trace.len()
        invariant
            copy@ == trace@.take(i as int),
    {
        copy.push(trace[i]);
        assert(trace@.take(i + 1) == trace@.take(i as int).push(trace@[i as int]));
    }
    copy
}

impl Clone for FloodRequest {
    fn clone(&self) -> (copy: Self)
        ensures
            copy@ == self@,
    {
        FloodRequest {
            flood_id: self.flood_id,
            initiator_id: self.initiator_id,
            path_trace: clone_trace(&self.path_trace),
        }
    }
}

impl Clone for FloodResponse {
    fn clone(&self) -> (copy: Self)
        ensures
            copy@ == self@,
    {
        FloodResponse { flood_id: self.flood_id, path_trace: clone_trace(&self.path_trace) }
    }
}

impl Clone for PacketType {
    fn clone(&self) -> (copy: Self)
        ensures
            copy@ == self@,
    {
        match self {
            PacketType::MsgFragment(frag) => PacketType::MsgFragment(*frag),
            PacketType::Ack(ack) => PacketType::Ack(*ack),
            PacketType::Nack(nack) => PacketType::Nack(*nack),
            PacketType::FloodRequest(req) => PacketType::FloodRequest(req.clone()),
            PacketType::FloodResponse(res) => PacketType::FloodResponse(res.clone()),
        }
    }
}

impl Clone for Packet {
    fn clone(&self) -> (copy: Self)
        ensures
            copy@ == self@,
    {
        Packet {
            routing_header: self.routing_header.clone(),
            session_id: self.session_id,
            pack_type: self.pack_type.clone(),
        }
    }
}

impl FloodRequest {
    /// A request whose trace holds the initiator alone.
    pub fn initialize(flood_id: u64, initiator_id: NodeId, initiator_type: NodeType) -> (req: Self)
        ensures
            req@ == (FloodRequestView {
                flood_id,
                initiator_id,
                path_trace: seq![(initiator_id, initiator_type)],
            }),
    {
        let mut path_trace: Vec<(NodeId, NodeType)> = Vec::new();
        path_trace.push((initiator_id, initiator_type));
        FloodRequest { flood_id, initiator_id, path_trace }
    }
}

impl PacketView {
    /// A packet with a message fragment that waits for a route.
    pub open spec fn unrouted_fragment(session_id: u64, frag: Fragment) -> PacketView {
        PacketView {
            routing_header: RouteView::empty(),
            session_id,
            pack_type: PacketTypeView::MsgFragment(frag),
        }
    }

    /// A packet with an acknowledgement that waits for a route.
    pub open spec fn unrouted_ack(session_id: u64, fragment_index: u64) -> PacketView {
        PacketView {
            routing_header: RouteView::empty(),
            session_id,
            pack_type: PacketTypeView::Ack(Ack { fragment_index }),
        }
    }

    /// The same packet on another route.
    pub open spec fn on_route(self, routing_header: RouteView) -> PacketView {
        PacketView { routing_header, session_id: self.session_id, pack_type: self.pack_type }
    }
}

impl Packet {
    /// A packet that carries a piece of a message.
    pub fn new_fragment(
        routing_header: SourceRoutingHeader,
        session_id: u64,
        fragment: Fragment,
    ) -> (packet: Self)
        ensures
            packet@ == (PacketView {
                routing_header: routing_header@,
                session_id,
                pack_type: PacketTypeView::MsgFragment(fragment),
            }),
    {
        Packet { routing_header, session_id, pack_type: PacketType::MsgFragment(fragment) }
    }

    /// A packet that confirms the fragment `fragment_index`.
    pub fn new_ack(
        routing_header: SourceRoutingHeader,
        session_id: u64,
        fragment_index: u64,
    ) -> (packet: Self)
        ensures
            packet@ == (PacketView {
                routing_header: routing_header@,
                session_id,
                pack_type: PacketTypeView::Ack(Ack { fragment_index }),
            }),
    {
        Packet { routing_header, session_id, pack_type: PacketType::Ack(Ack { fragment_index }) }
    }

    /// A packet that carries a flood request.
    pub fn new_flood_request(
        routing_header: SourceRoutingHeader,
        session_id: u64,
        req: FloodRequest,
    ) -> (packet: Self)
        ensures
            packet@ == (PacketView {
                routing_header: routing_header@,
                session_id,
                pack_type: PacketTypeView::FloodRequest(req@),
            }),
    {
        Packet { routing_header, session_id, pack_type: PacketType::FloodRequest(req) }
    }

    /// A packet that carries a flood response.
    pub fn new_flood_response(
        routing_header: SourceRoutingHeader,
        session_id: u64,
        res: FloodResponse,
    ) -> (packet: Self)
        ensures
            packet@ == (PacketView {
                routing_header: routing_header@,
                session_id,
                pack_type: PacketTypeView::FloodResponse(res@),
            }),
    {
        Packet { routing_header, session_id, pack_type: PacketType::FloodResponse(res) }
    }
}

} // verus!
