//! The state of a node and what packets, messages and floods make of it.
//!
//! A node hands in what it receives and carries out what comes back: packets
//! for its neighbours, messages for its protocol handler. Nothing in here
//! sends or waits.
use crate::network::{NodeId, NodeType, SourceRoutingHeader};
use crate::packet::{Fragment, Packet, PacketType};
use crate::packet_handling::fragment::{fragments_of, is_fragmentation};
use crate::packet_handling::handling_steps::{transmissions_view, Transmission};
use crate::packet_handling::model::{unrouted_fragments, HandlerView, LeftoverView, RxEntryView};
use crate::packet_handling::routing::{packets_view, NodeInfo, RoutingHelper};
use crate::topology;
use crate::topology::LINK_WEIGHT;
use std::collections::{HashMap, VecDeque};
use vstd::prelude::*;

pub mod delivery_laws;
pub mod fragment;
pub mod handling_steps;
pub mod laws;
pub mod limits;
pub mod model;
mod packet_handlers;
pub mod routing;
pub mod routing_laws;
pub mod sending_laws;

verus! {

broadcast use vstd::std_specs::hash::group_hash_axioms;

/// The state of a node.
#[derive(Debug)]
pub struct PacketHandler {
    pub routing_helper: RoutingHelper,
    pub node_id: NodeId,
    /// Packets that wait to be sent, each with the node that it is for.
    pub tx_queue_packets: VecDeque<(Packet, NodeId)>,
    /// Sessions with fragments that are not acknowledged, each with its receiver.
    pub sent_fragments: HashMap<u64, (NodeId, Vec<Fragment>)>,
    /// Messages that come in, by sender and session: the fragments and the
    /// indices that are missing.
    pub rx_queue: HashMap<u128, (Vec<Fragment>, Vec<usize>)>,
    pub flood_flag: bool,
    pub cur_session_id: u64,
}

/// What a packet leaves to do.
#[derive(Debug, PartialEq, Eq)]
pub enum Leftover {
    /// Nothing.
    Nothing,
    /// Answer or spread the flood request in the packet.
    FloodRequest(Packet),
    /// Transmit, and tell the protocol handler of the clients and servers.
    FloodResponse(Vec<Transmission>, Vec<(NodeId, NodeType)>),
}

impl View for Leftover {
    type V = LeftoverView;

    open spec fn view(&self) -> LeftoverView {
        match *self {
            Leftover::Nothing => LeftoverView::Nothing,
            Leftover::FloodRequest(packet) => LeftoverView::FloodRequest(packet@),
            Leftover::FloodResponse(sent, endpoints) => LeftoverView::FloodResponse(
                transmissions_view(sent@),
                endpoints@,
            ),
        }
    }
}

/// Model of the sessions with fragments that are not acknowledged.
pub open spec fn sent_view(sent: Map<u64, (NodeId, Vec<Fragment>)>) -> Map<
    u64,
    (NodeId, Seq<Fragment>),
> {
    sent.map_values(|entry: (NodeId, Vec<Fragment>)| (entry.0, entry.1@))
}

/// Model of an incoming message.
pub open spec fn rx_entry_view(entry: (Vec<Fragment>, Vec<usize>)) -> RxEntryView {
    RxEntryView { fragments: entry.0@, missing: entry.1@ }
}

/// Model of the messages that come in.
pub open spec fn rx_view(rx: Map<u128, (Vec<Fragment>, Vec<usize>)>) -> Map<u128, RxEntryView> {
    rx.map_values(|entry: (Vec<Fragment>, Vec<usize>)| rx_entry_view(entry))
}

impl View for PacketHandler {
    type V = HandlerView;

    open spec fn view(&self) -> HandlerView {
        HandlerView {
            routing: self.routing_helper@,
            node_id: self.node_id,
            tx_queue: packets_view(self.tx_queue_packets@),
            sent_fragments: sent_view(self.sent_fragments@),
            rx_queue: rx_view(self.rx_queue@),
            flood_flag: self.flood_flag,
            cur_session_id: self.cur_session_id,
        }
    }
}

impl PacketHandler {
    /// A node of the given type, with the given neighbours.
    pub fn new_node(id: NodeId, node_type: NodeType, neighbors: Vec<NodeId>) -> (handler: Self)
        ensures
            handler@ == HandlerView::initial(id, node_type, neighbors@),
    {
        let handler = PacketHandler {
            routing_helper: RoutingHelper::new_with_neighbors(id, node_type, neighbors),
            node_id: id,
            tx_queue_packets: VecDeque::new(),
            sent_fragments: HashMap::new(),
            rx_queue: HashMap::new(),
            flood_flag: true,
            cur_session_id: 1,
        };
        assert(handler@ == HandlerView::initial(id, node_type, neighbors@));
        handler
    }

    /// Queues a packet.
    fn enqueue(&mut self, packet: Packet, node_id: NodeId)
        ensures
            final(self)@ == (HandlerView {
                tx_queue: old(self)@.tx_queue.push((packet@, node_id)),
                ..old(self)@
            }),
    {
        self.tx_queue_packets.push_back((packet, node_id));
        assert(self@.tx_queue == old(self)@.tx_queue.push((packet@, node_id)));
    }

    /// Queues an encoded message for `id`, as the fragments of a new session.
    pub fn send_msg(&mut self, msg: &[u8], id: NodeId)
        requires
            old(self).cur_session_id < u64::MAX,
        ensures
            is_fragmentation(fragments_of(msg@), msg@),
            final(self)@ == old(self)@.queue_fragments(fragments_of(msg@), id),
    {
        let fragments = fragment::fragment(msg);
        self.cur_session_id = self.cur_session_id + 1;
        let ghost start = self@;
        for i in 0..fragments.len()
            invariant
                self.cur_session_id == start.cur_session_id,
                self@ == (HandlerView {
                    tx_queue: start.tx_queue + unrouted_fragments(
                        start.cur_session_id,
                        fragments@.take(i as int),
                        id,
                    ),
                    ..start
                }),
        {
            let packet = Packet::new_fragment(
                SourceRoutingHeader::empty_route(),
                self.cur_session_id,
                fragments[i],
            );
            self.enqueue(packet, id);
            assert(fragments@.take(i + 1) == fragments@.take(i as int).push(fragments@[i as int]));
            assert(self@.tx_queue == start.tx_queue + unrouted_fragments(
                start.cur_session_id,
                fragments@.take(i + 1),
                id,
            ));
        }
        assert(fragments@.take(fragments@.len() as int) == fragments@);
        let ghost sent = self.sent_fragments@;
        self.sent_fragments.insert(self.cur_session_id, (id, fragments));
        assert(self@.sent_fragments == sent_view(sent).insert(
            self.cur_session_id,
            (id, fragments@),
        ));
    }

    /// Takes a packet from the network, or from the controller by a shortcut,
    /// and says what is left to do.
    pub fn handle_packet(
        &mut self,
        packet: Packet,
        from_shortcut: bool,
        connected: &Vec<NodeId>,
    ) -> (leftover: Leftover)
        requires
            old(self)@.can_receive(packet@),
        ensures
            final(self)@ == old(self)@.receive(packet@, from_shortcut),
            leftover@ == old(self)@.leftover(final(self)@, packet@, connected@),
    {
        match &packet.pack_type {
            PacketType::MsgFragment(frag) => {
                self.pkt_msgfragment(&packet, from_shortcut, frag);
                Leftover::Nothing
            },
            PacketType::Ack(ack) => {
                self.pkt_ack(&packet, from_shortcut, ack);
                Leftover::Nothing
            },
            PacketType::Nack(nack) => {
                self.pkt_nack(&packet, from_shortcut, nack);
                Leftover::Nothing
            },
            PacketType::FloodRequest(_) => {
                self.pkt_floodrequest(&packet, from_shortcut);
                Leftover::FloodRequest(packet)
            },
            PacketType::FloodResponse(res) => {
                let mut res = res.clone();
                let (sent, endpoints) = self.pkt_floodresponse(
                    &packet,
                    from_shortcut,
                    &mut res,
                    connected,
                );
                Leftover::FloodResponse(sent, endpoints)
            },
        }
    }

    /// Forgets a neighbour that is no longer connected.
    pub fn remove_sender(&mut self, node_id: NodeId)
        ensures
            final(self)@ == old(self)@.disconnect(node_id),
    {
        self.routing_helper.remove_node(node_id);
        self.flood_flag = true;
    }

    /// Notes a new neighbour.
    pub fn add_sender(&mut self, node_id: NodeId)
        ensures
            final(self)@ == old(self)@.connect(node_id),
    {
        topology::add_edge(
            &mut self.routing_helper.topology_graph,
            self.node_id,
            node_id,
            LINK_WEIGHT,
        );
        self.routing_helper.node_data.insert(
            node_id,
            NodeInfo { id: node_id, dropped_packets: 0, acked_packets: 0, node_type: None },
        );
        self.flood_flag = true;
    }
}

} // verus!
