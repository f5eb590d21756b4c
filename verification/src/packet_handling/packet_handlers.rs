//! What a node does with each kind of packet.
use crate::network::{NodeId, NodeType, RouteView, SourceRoutingHeader};
use crate::packet::{Ack, FloodResponse, Fragment, Nack, NackType, Packet};
use crate::packet_handling::handling_steps::{is_among, transmissions_view, Transmission};
use crate::packet_handling::model::{
    other_fragment, other_position, rx_key, HandlerView, RxEntryView,
};
use crate::packet_handling::routing::{
    acks_fit, lemma_occurrences_bounded, occurrences, packets_view,
};
use crate::packet_handling::{sent_view, PacketHandler};
use crate::topology;
use vstd::prelude::*;

verus! {

broadcast use vstd::std_specs::hash::group_hash_axioms;

/// The key under which the fragments of one session of one sender are kept.
pub(crate) fn make_rx_key(src: NodeId, session_id: u64) -> (key: u128)
    ensures
        key == rx_key(src, session_id),
{
    (src as u128) * 0x1_0000_0000_0000_0000 + (session_id as u128)
}

/// The positions `0..total`.
fn all_positions(total: usize) -> (positions: Vec<usize>)
    requires
        total <= u64::MAX,
    ensures
        positions@ == RxEntryView::expecting(total as u64).missing,
{
    let mut positions: Vec<usize> = Vec::new();
    for i in 0..total
        invariant
            positions@ == Seq::new(i as nat, |k: int| k as usize),
    {
        positions.push(i);
        assert(positions@ == Seq::new((i + 1) as nat, |k: int| k as usize));
    }
    positions
}

/// The positions other than `index`.
fn without_position(positions: &Vec<usize>, index: u64) -> (rest: Vec<usize>)
    ensures
        rest@ == positions@.filter(other_position(index)),
{
    let mut rest: Vec<usize> = Vec::new();
    let ghost keep = other_position(index);
    assert(positions@.take(0).filter(keep) == Seq::<usize>::empty()) by {
        reveal(Seq::filter);
    }
    for i in 0..positions.len()
        invariant
            keep == other_position(index),
            rest@ == positions@.take(i as int).filter(keep),
    {
        if positions[i] as u64 != index {
            rest.push(positions[i]);
        }
        assert(positions@.take(i + 1).drop_last() == positions@.take(i as int));
        reveal(Seq::filter);
    }
    assert(positions@.take(positions@.len() as int) == positions@);
    rest
}

/// The fragments that do not bear `index`.
fn without_fragment(frags: &Vec<Fragment>, index: u64) -> (rest: Vec<Fragment>)
    ensures
        rest@ == frags@.filter(other_fragment(index)),
{
    let mut rest: Vec<Fragment> = Vec::new();
    let ghost keep = other_fragment(index);
    assert(frags@.take(0).filter(keep) == Seq::<Fragment>::empty()) by {
        reveal(Seq::filter);
    }
    for i in 0..frags.len()
        invariant
            keep == other_fragment(index),
            rest@ == frags@.take(i as int).filter(keep),
    {
        if frags[i].fragment_index != index {
            rest.push(frags[i]);
        }
        assert(frags@.take(i + 1).drop_last() == frags@.take(i as int));
        reveal(Seq::filter);
    }
    assert(frags@.take(frags@.len() as int) == frags@);
    rest
}

impl PacketHandler {
    /// Learns the way back of a packet that came over the network.
    fn hear(&mut self, header: &SourceRoutingHeader, from_shortcut: bool)
        ensures
            final(self)@ == old(self)@.hear(header@, from_shortcut),
    {
        if !from_shortcut {
            self.routing_helper.add_from_incoming_routing_header(header);
        }
    }

    /// Stores a fragment and queues its acknowledgement. A fragment whose
    /// index is not one of its message, or that names no sender, is left out.
    pub fn pkt_msgfragment(&mut self, packet: &Packet, from_shortcut: bool, frag: &Fragment)
        requires
            old(self)@.can_receive_fragment(packet@.routing_header, packet@.session_id, *frag),
        ensures
            final(self)@ == old(self)@.receive_fragment(
                packet@.routing_header,
                packet@.session_id,
                from_shortcut,
                *frag,
            ),
    {
        self.hear(&packet.routing_header, from_shortcut);
        if frag.fragment_index + 1 > frag.total_n_fragments {
            return;
        }
        if let Some(src) = packet.routing_header.source() {
            let key = make_rx_key(src, packet.session_id);
            let ghost heard = self@;
            let (mut frags, missing) = match self.rx_queue.remove(&key) {
                Some(entry) => entry,
                None => (
                    Vec::with_capacity(frag.total_n_fragments as usize),
                    all_positions(frag.total_n_fragments as usize),
                ),
            };
            let ghost entry = heard.rx_entry(key, frag.total_n_fragments);
            assert(frags@ == entry.fragments && missing@ == entry.missing);
            assert(frag.fragment_index <= frags.len());
            frags.insert(frag.fragment_index as usize, *frag);
            let rest = without_position(&missing, frag.fragment_index);
            self.rx_queue.insert(key, (frags, rest));
            assert(self@.rx_queue == heard.rx_queue.insert(key, entry.accept(*frag)));
            proof {
                assert(packet.routing_header.hops.len() <= usize::MAX);
                lemma_acks_fit_after_hearing(old(self)@, packet@.routing_header, from_shortcut);
            }
            self.routing_helper.report_packet_ack(&packet.routing_header);
            let ack = Packet::new_ack(
                SourceRoutingHeader::empty_route(),
                packet.session_id,
                frag.fragment_index,
            );
            self.enqueue(ack, src);
        }
    }

    /// Takes an acknowledged fragment off its session, if the acknowledgement
    /// comes from the receiver.
    pub fn pkt_ack(&mut self, packet: &Packet, from_shortcut: bool, ack: &Ack)
        ensures
            final(self)@ == old(self)@.receive_ack(
                packet@.routing_header,
                packet@.session_id,
                from_shortcut,
                *ack,
            ),
    {
        self.hear(&packet.routing_header, from_shortcut);
        if let Some(src) = packet.routing_header.source() {
            let ghost sent = self.sent_fragments@;
            match self.sent_fragments.get(&packet.session_id) {
                Some(entry) => {
                    let node_id = entry.0;
                    if node_id == src {
                        let rest = without_fragment(&entry.1, ack.fragment_index);
                        if rest.len() == 0 {
                            self.sent_fragments.remove(&packet.session_id);
                            assert(self@.sent_fragments == sent_view(sent).remove(
                                packet.session_id,
                            ));
                        } else {
                            self.sent_fragments.insert(packet.session_id, (node_id, rest));
                            assert(self@.sent_fragments == sent_view(sent).insert(
                                packet.session_id,
                                (node_id, rest@),
                            ));
                        }
                    }
                },
                None => {},
            }
        }
    }

    /// Reacts to a packet that was not delivered: looks for another way, or
    /// sends the dropped fragment again.
    pub fn pkt_nack(&mut self, packet: &Packet, from_shortcut: bool, nack: &Nack)
        requires
            old(self)@.can_receive_nack(packet@.session_id, *nack),
        ensures
            final(self)@ == old(self)@.receive_nack(
                packet@.routing_header,
                packet@.session_id,
                from_shortcut,
                *nack,
            ),
    {
        match nack.nack_type {
            NackType::ErrorInRouting(id) => {
                self.routing_helper.remove_node(id);
                self.flood_flag = true;
            },
            NackType::DestinationIsDrone => {},
            NackType::Dropped => {
                self.hear(&packet.routing_header, from_shortcut);
                match self.sent_fragments.get(&packet.session_id) {
                    Some(entry) => {
                        let dst = entry.0;
                        let again: Option<Fragment> = if nack.fragment_index < entry.1.len() as u64 {
                            Some(entry.1[nack.fragment_index as usize])
                        } else {
                            None
                        };
                        self.routing_helper.report_packet_drop(dst);
                        if let Some(frag) = again {
                            let resent = Packet::new_fragment(
                                SourceRoutingHeader::empty_route(),
                                packet.session_id,
                                frag,
                            );
                            self.enqueue(resent, dst);
                        }
                    },
                    None => {},
                }
            },
            NackType::UnexpectedRecipient(_) => {},
        }
    }

    /// Learns the way back of a flood request. To answer or spread the request
    /// is left to the node.
    pub fn pkt_floodrequest(&mut self, packet: &Packet, from_shortcut: bool)
        ensures
            final(self)@ == old(self)@.hear(packet@.routing_header, from_shortcut),
    {
        self.hear(&packet.routing_header, from_shortcut);
    }

    /// The clients and servers among the other nodes, in the order of the topology.
    fn list_endpoints(&self) -> (endpoints: Vec<(NodeId, NodeType)>)
        ensures
            endpoints@ == self@.endpoints(),
    {
        let nodes = topology::nodes(&self.routing_helper.topology_graph);
        let mut endpoints: Vec<(NodeId, NodeType)> = Vec::new();
        assert(nodes@.take(0).filter_map(self@.endpoint()) == Seq::<(NodeId, NodeType)>::empty());
        for i in 0..nodes.len()
            invariant
                endpoints@ == nodes@.take(i as int).filter_map(self@.endpoint()),
        {
            let id = nodes[i];
            proof {
                nodes@.lemma_filter_map_take_succ(self@.endpoint(), i as int);
            }
            if id != self.node_id {
                if let Some(data) = self.routing_helper.node_data.get(&id) {
                    if let Some(typ) = data.node_type {
                        if typ != NodeType::Drone {
                            endpoints.push((id, typ));
                        }
                    }
                }
            }
        }
        assert(nodes@.take(nodes@.len() as int) == nodes@);
        endpoints
    }

    /// Learns from a flood response. The first result is what leaves at once,
    /// the second the clients and servers that are known then.
    pub fn pkt_floodresponse(
        &mut self,
        packet: &Packet,
        from_shortcut: bool,
        res: &mut FloodResponse,
        connected: &Vec<NodeId>,
    ) -> (result: (Vec<Transmission>, Vec<(NodeId, NodeType)>))
        ensures
            final(res)@ == old(res)@,
            final(self)@ == old(self)@.receive_flood_response(
                packet@.routing_header,
                from_shortcut,
                old(res)@,
            ),
            transmissions_view(result.0@) == old(self)@.passed_on(
                packet@.routing_header,
                packet@.session_id,
                old(res)@,
                connected@,
            ),
            result.1@ == final(self)@.endpoints(),
    {
        self.hear(&packet.routing_header, from_shortcut);
        let mut tx = self.routing_helper.handle_flood_response(
            packet.routing_header.clone(),
            packet.session_id,
            res,
        );
        let ghost all = tx@;
        let ghost passed = packets_view(all);
        assert(passed.len() <= 1);
        let mut sent: Vec<Transmission> = Vec::new();
        if let Some((forwarded, node_id)) = tx.pop() {
            assert(all[0] == (forwarded, node_id));
            assert((forwarded@, node_id) == passed[0]);
            if is_among(connected, node_id) {
                let reported = forwarded.clone();
                sent.push(Transmission { via: node_id, packet: forwarded, reported });
            }
        }
        let endpoints = self.list_endpoints();
        (sent, endpoints)
    }
}

/// Learning the way back brings only counters that can take the acknowledgements.
proof fn lemma_acks_fit_after_hearing(
    before: HandlerView,
    header: RouteView,
    from_shortcut: bool,
)
    requires
        acks_fit(before.routing.node_data, header.hops),
        header.hops.len() <= u64::MAX,
    ensures
        acks_fit(before.hear(header, from_shortcut).routing.node_data, header.hops),
{
    let heard = before.hear(header, from_shortcut).routing.node_data;
    assert forall|id: NodeId| #[trigger] heard.contains_key(id) implies heard[id].acked_packets
        + occurrences(header.hops, id) <= u64::MAX by {
        lemma_occurrences_bounded(header.hops, id);
    }
}

} // verus!
