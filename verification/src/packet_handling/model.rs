//! Mathematical model of a node: its state, and what each event makes of it.
use crate::network::{NodeId, NodeType, RouteView};
use crate::packet::{
    Ack, FloodResponseView, Fragment, Nack, NackType, PacketTypeView, PacketView,
    FRAGMENT_FOOTPRINT,
};
use crate::packet_handling::fragment::{fragments_of, joined, lengths_fit};
use crate::packet_handling::routing::{acks_fit, fresh_info, RoutingView};
use vstd::prelude::*;

verus! {

/// The key under which the fragments of one session of one sender are kept.
pub open spec fn rx_key(src: NodeId, session_id: u64) -> u128 {
    (src * 0x1_0000_0000_0000_0000 + session_id) as u128
}

/// Two senders or sessions never share a key.
pub proof fn law_rx_key_injective(src1: NodeId, session1: u64, src2: NodeId, session2: u64)
    requires
        rx_key(src1, session1) == rx_key(src2, session2),
    ensures
        src1 == src2,
        session1 == session2,
{
}

/// Keeps every position but one.
pub open spec fn other_position(index: u64) -> spec_fn(usize) -> bool {
    |position: usize| position as u64 != index
}

/// Keeps the fragments that do not bear one index.
pub open spec fn other_fragment(index: u64) -> spec_fn(Fragment) -> bool {
    |frag: Fragment| frag.fragment_index != index
}

/// A message that is coming in: the fragments that have been stored, and the
/// indices that have not been seen.
#[verifier::ext_equal]
pub struct RxEntryView {
    pub fragments: Seq<Fragment>,
    pub missing: Seq<usize>,
}

impl RxEntryView {
    /// Nothing of a message of `total` fragments has come in.
    pub open spec fn expecting(total: u64) -> RxEntryView {
        RxEntryView {
            fragments: Seq::empty(),
            missing: Seq::new(total as nat, |i: int| i as usize),
        }
    }

    /// After `frag` has been put in at its index.
    pub open spec fn accept(self, frag: Fragment) -> RxEntryView {
        RxEntryView {
            fragments: self.fragments.insert(frag.fragment_index as int, frag),
            missing: self.missing.filter(other_position(frag.fragment_index)),
        }
    }

    /// After `frags` have been put in, in order.
    pub open spec fn accept_all(self, frags: Seq<Fragment>) -> RxEntryView
        decreases frags.len(),
    {
        if frags.len() == 0 {
            self
        } else {
            self.accept_all(frags.drop_last()).accept(frags.last())
        }
    }

    /// Whether every index has been seen.
    pub open spec fn complete(self) -> bool {
        self.missing.len() == 0
    }
}

/// A packet that leaves: the neighbour that gets it, and the packet as it is
/// reported to the controller.
#[verifier::ext_equal]
pub struct TransmissionView {
    pub via: NodeId,
    pub packet: PacketView,
    pub reported: PacketView,
}

/// How far the sending of the queue has come.
#[verifier::ext_equal]
pub struct SendPass {
    pub routing: RoutingView,
    pub flood_flag: bool,
    pub sent: Seq<TransmissionView>,
    pub failed: Seq<(PacketView, NodeId)>,
}

/// The hop behind the one that holds the packet, on a route, if there is one.
pub open spec fn next_on_route(route: Option<RouteView>) -> Option<NodeId> {
    match route {
        Some(header) => header.next_hop(),
        None => None,
    }
}

/// How `packet` leaves for `node_id`, if it can: on the route that it bears, or
/// on `route` where it bears none.
pub open spec fn transmission(
    packet: PacketView,
    node_id: NodeId,
    route: Option<RouteView>,
    connected: Seq<NodeId>,
) -> Option<TransmissionView> {
    if packet.routing_header != RouteView::empty() {
        if connected.contains(node_id) {
            Some(TransmissionView { via: node_id, packet, reported: packet })
        } else {
            None
        }
    } else {
        match next_on_route(route) {
            Some(next_hop) if connected.contains(next_hop) => Some(
                TransmissionView {
                    via: next_hop,
                    packet: packet.on_route(RouteView { hop_index: 1, hops: route->0.hops }),
                    reported: packet,
                },
            ),
            _ => None,
        }
    }
}

/// The next hop that `packet` would need although it is not connected any more.
pub open spec fn lost_neighbor(
    packet: PacketView,
    route: Option<RouteView>,
    connected: Seq<NodeId>,
) -> Option<NodeId> {
    match next_on_route(route) {
        Some(next_hop) if packet.routing_header == RouteView::empty() && !connected.contains(
            next_hop,
        ) => Some(next_hop),
        _ => None,
    }
}

impl SendPass {
    /// After one more packet of the queue.
    pub open spec fn step(
        self,
        entry: (PacketView, NodeId),
        route: Option<RouteView>,
        connected: Seq<NodeId>,
    ) -> SendPass {
        let lost = lost_neighbor(entry.0, route, connected);
        let leaving = transmission(entry.0, entry.1, route, connected);
        SendPass {
            routing: if lost is Some {
                self.routing.forget(lost->0)
            } else {
                self.routing
            },
            flood_flag: self.flood_flag || lost is Some,
            sent: if leaving is Some {
                self.sent.push(leaving->0)
            } else {
                self.sent
            },
            failed: if leaving is Some {
                self.failed
            } else {
                self.failed.push(entry)
            },
        }
    }
}

/// What a packet leaves to do.
#[verifier::ext_equal]
pub enum LeftoverView {
    /// Nothing.
    Nothing,
    /// Answer or spread a flood request.
    FloodRequest(PacketView),
    /// Transmit, and tell the protocol handler of the clients and servers.
    FloodResponse(Seq<TransmissionView>, Seq<(NodeId, NodeType)>),
}

/// Mathematical model of a packet handler.
#[verifier::ext_equal]
pub struct HandlerView {
    pub routing: RoutingView,
    pub node_id: NodeId,
    pub tx_queue: Seq<(PacketView, NodeId)>,
    pub sent_fragments: Map<u64, (NodeId, Seq<Fragment>)>,
    pub rx_queue: Map<u128, RxEntryView>,
    pub flood_flag: bool,
    pub cur_session_id: u64,
}

/// The packets that carry `frags` to `id` in one session, still without a route.
pub open spec fn unrouted_fragments(
    session_id: u64,
    frags: Seq<Fragment>,
    id: NodeId,
) -> Seq<(PacketView, NodeId)> {
    frags.map_values(|frag: Fragment| (PacketView::unrouted_fragment(session_id, frag), id))
}

/// The model of a list of encoded messages, each with the node that it is for.
pub open spec fn messages_view(messages: Seq<(NodeId, Vec<u8>)>) -> Seq<(NodeId, Seq<u8>)> {
    messages.map_values(|message: (NodeId, Vec<u8>)| (message.0, message.1@))
}

impl HandlerView {
    /// A node that has just been created.
    pub open spec fn initial(
        id: NodeId,
        node_type: NodeType,
        neighbors: Seq<NodeId>,
    ) -> HandlerView {
        HandlerView {
            routing: RoutingView::initial_with_neighbors(id, node_type, neighbors),
            node_id: id,
            tx_queue: Seq::empty(),
            sent_fragments: Map::empty(),
            rx_queue: Map::empty(),
            flood_flag: true,
            cur_session_id: 1,
        }
    }

    /// After the message with these fragments has been queued for `id`.
    pub open spec fn queue_fragments(self, frags: Seq<Fragment>, id: NodeId) -> HandlerView {
        let session_id = (self.cur_session_id + 1) as u64;
        HandlerView {
            tx_queue: self.tx_queue + unrouted_fragments(session_id, frags, id),
            sent_fragments: self.sent_fragments.insert(session_id, (id, frags)),
            cur_session_id: session_id,
            ..self
        }
    }

    /// After `messages` have been queued, in order.
    pub open spec fn queue_messages(self, messages: Seq<(NodeId, Seq<u8>)>) -> HandlerView
        decreases messages.len(),
    {
        if messages.len() == 0 {
            self
        } else {
            self.queue_messages(messages.drop_last()).queue_fragments(
                fragments_of(messages.last().1),
                messages.last().0,
            )
        }
    }

    /// After a flood, if one was wanted.
    pub open spec fn flood(self, neighbors: Seq<NodeId>) -> HandlerView {
        if self.flood_flag {
            HandlerView {
                routing: self.routing.flooded(),
                tx_queue: self.tx_queue + self.routing.flood_requests(neighbors),
                flood_flag: false,
                ..self
            }
        } else {
            self
        }
    }

    /// How far the sending of the queue has come after `n` packets, if the
    /// `i`-th was given the route `routes[i]`.
    pub open spec fn pass(
        self,
        routes: Seq<Option<RouteView>>,
        connected: Seq<NodeId>,
        n: nat,
    ) -> SendPass
        decreases n,
    {
        if n == 0 {
            SendPass {
                routing: self.routing,
                flood_flag: self.flood_flag,
                sent: Seq::empty(),
                failed: Seq::empty(),
            }
        } else {
            self.pass(routes, connected, (n - 1) as nat).step(
                self.tx_queue[n - 1],
                routes[n - 1],
                connected,
            )
        }
    }

    /// After the sending of the whole queue: what could not leave is queued again.
    pub open spec fn after_pass(self, pass: SendPass) -> HandlerView {
        HandlerView {
            routing: pass.routing,
            flood_flag: pass.flood_flag,
            tx_queue: pass.failed,
            ..self
        }
    }

    /// Whether every fragment of the message under `key` has been seen.
    pub open spec fn complete(self, key: u128) -> bool {
        self.rx_queue.contains_key(key) && self.rx_queue[key].complete()
    }

    /// After the complete messages have been taken out.
    pub open spec fn without_complete(self) -> HandlerView {
        HandlerView {
            rx_queue: self.rx_queue.restrict(Set::new(|key: u128| !self.rx_queue[key].complete())),
            ..self
        }
    }

    /// Whether `messages` are the complete messages, each once, in the order of `keys`.
    pub open spec fn are_complete_messages(
        self,
        keys: Seq<u128>,
        messages: Seq<Seq<u8>>,
    ) -> bool {
        &&& keys.no_duplicates()
        &&& forall|key: u128| #[trigger] keys.contains(key) <==> self.complete(key)
        &&& messages == keys.map_values(|key: u128| joined(self.rx_queue[key].fragments))
    }

    /// Whether no fragment of a complete message claims more bytes than it has.
    pub open spec fn can_defragment(self) -> bool {
        forall|key: u128| #[trigger] self.complete(key) ==> lengths_fit(self.rx_queue[key].fragments)
    }

    /// After the route of an incoming packet has been looked at. A packet from
    /// the controller came over no route.
    pub open spec fn hear(self, header: RouteView, from_shortcut: bool) -> HandlerView {
        if from_shortcut {
            self
        } else {
            HandlerView { routing: self.routing.learn_header(header.hops), ..self }
        }
    }

    /// The incoming message under `key`, which may be new.
    pub open spec fn rx_entry(self, key: u128, total: u64) -> RxEntryView {
        if self.rx_queue.contains_key(key) {
            self.rx_queue[key]
        } else {
            RxEntryView::expecting(total)
        }
    }

    /// Whether a fragment is stored: its index is one of the message, and its
    /// sender is known.
    pub open spec fn stores(header: RouteView, frag: Fragment) -> bool {
        frag.fragment_index < frag.total_n_fragments && header.source() is Some
    }

    /// After a fragment has come in: it is stored and acknowledged.
    pub open spec fn receive_fragment(
        self,
        header: RouteView,
        session_id: u64,
        from_shortcut: bool,
        frag: Fragment,
    ) -> HandlerView {
        let heard = self.hear(header, from_shortcut);
        if HandlerView::stores(header, frag) {
            let src = header.source()->0;
            let key = rx_key(src, session_id);
            let entry = heard.rx_entry(key, frag.total_n_fragments);
            HandlerView {
                routing: heard.routing.count_acks(header.hops),
                rx_queue: heard.rx_queue.insert(key, entry.accept(frag)),
                tx_queue: heard.tx_queue.push(
                    (PacketView::unrouted_ack(session_id, frag.fragment_index), src),
                ),
                ..heard
            }
        } else {
            heard
        }
    }

    /// After `frags` have come in over one route in one session, in order.
    pub open spec fn receive_fragments(
        self,
        header: RouteView,
        session_id: u64,
        from_shortcut: bool,
        frags: Seq<Fragment>,
    ) -> HandlerView
        decreases frags.len(),
    {
        if frags.len() == 0 {
            self
        } else {
            self.receive_fragments(
                header,
                session_id,
                from_shortcut,
                frags.drop_last(),
            ).receive_fragment(header, session_id, from_shortcut, frags.last())
        }
    }

    /// Whether a fragment can be taken: there is room for the message if it is
    /// new, the index is at most the number of fragments that are stored, and
    /// no counter runs over.
    pub open spec fn can_receive_fragment(
        self,
        header: RouteView,
        session_id: u64,
        frag: Fragment,
    ) -> bool {
        &&& frag.fragment_index < u64::MAX
        &&& HandlerView::stores(header, frag) ==> {
            let key = rx_key(header.source()->0, session_id);
            &&& self.rx_queue.contains_key(key) || frag.total_n_fragments * FRAGMENT_FOOTPRINT
                <= isize::MAX
            &&& frag.fragment_index <= self.rx_entry(key, frag.total_n_fragments).fragments.len()
            &&& acks_fit(self.routing.node_data, header.hops)
        }
    }

    /// After an acknowledgement has come in. The session ends with its last fragment.
    pub open spec fn receive_ack(
        self,
        header: RouteView,
        session_id: u64,
        from_shortcut: bool,
        ack: Ack,
    ) -> HandlerView {
        let heard = self.hear(header, from_shortcut);
        if header.source() is Some && heard.sent_fragments.contains_key(session_id)
            && heard.sent_fragments[session_id].0 == header.source()->0 {
            let (node_id, frags) = heard.sent_fragments[session_id];
            let open = frags.filter(other_fragment(ack.fragment_index));
            HandlerView {
                sent_fragments: if open.len() == 0 {
                    heard.sent_fragments.remove(session_id)
                } else {
                    heard.sent_fragments.insert(session_id, (node_id, open))
                },
                ..heard
            }
        } else {
            heard
        }
    }

    /// After `acks` have come in over one route in one session, in order.
    pub open spec fn receive_acks(
        self,
        header: RouteView,
        session_id: u64,
        from_shortcut: bool,
        acks: Seq<Ack>,
    ) -> HandlerView
        decreases acks.len(),
    {
        if acks.len() == 0 {
            self
        } else {
            self.receive_acks(header, session_id, from_shortcut, acks.drop_last()).receive_ack(
                header,
                session_id,
                from_shortcut,
                acks.last(),
            )
        }
    }

    /// After a packet has been reported as dropped: the fragment at the given
    /// place among those that are not acknowledged is sent again.
    pub open spec fn receive_drop(
        self,
        header: RouteView,
        session_id: u64,
        from_shortcut: bool,
        fragment_index: u64,
    ) -> HandlerView {
        let heard = self.hear(header, from_shortcut);
        if heard.sent_fragments.contains_key(session_id) {
            let (dst, frags) = heard.sent_fragments[session_id];
            HandlerView {
                routing: heard.routing.count_drop(dst),
                tx_queue: if fragment_index < frags.len() {
                    heard.tx_queue.push(
                        (PacketView::unrouted_fragment(session_id, frags[fragment_index as int]), dst),
                    )
                } else {
                    heard.tx_queue
                },
                ..heard
            }
        } else {
            heard
        }
    }

    /// After a packet has been reported as not delivered.
    pub open spec fn receive_nack(
        self,
        header: RouteView,
        session_id: u64,
        from_shortcut: bool,
        nack: Nack,
    ) -> HandlerView {
        match nack.nack_type {
            NackType::ErrorInRouting(id) => self.disconnect(id),
            NackType::Dropped => self.receive_drop(
                header,
                session_id,
                from_shortcut,
                nack.fragment_index,
            ),
            NackType::DestinationIsDrone => self,
            NackType::UnexpectedRecipient(_) => self,
        }
    }

    /// Whether a report of a packet that was not delivered can be taken: no counter runs over.
    pub open spec fn can_receive_nack(self, session_id: u64, nack: Nack) -> bool {
        nack.nack_type is Dropped && self.sent_fragments.contains_key(session_id)
            ==> self.routing.drop_fits(self.sent_fragments[session_id].0)
    }

    /// After a flood response has come in.
    pub open spec fn receive_flood_response(
        self,
        header: RouteView,
        from_shortcut: bool,
        res: FloodResponseView,
    ) -> HandlerView {
        let heard = self.hear(header, from_shortcut);
        HandlerView { routing: heard.routing.learn_response(res), ..heard }
    }

    /// What leaves at once on a flood response: what is to be passed on, if its
    /// next hop is connected.
    pub open spec fn passed_on(
        self,
        header: RouteView,
        session_id: u64,
        res: FloodResponseView,
        connected: Seq<NodeId>,
    ) -> Seq<TransmissionView> {
        let passed = self.routing.passed_on(header, session_id, res);
        if passed.len() > 0 && connected.contains(passed[0].1) {
            seq![
                TransmissionView {
                    via: passed[0].1,
                    packet: passed[0].0,
                    reported: passed[0].0,
                },
            ]
        } else {
            Seq::empty()
        }
    }

    /// The type of another node that is a client or a server, as far as is known.
    pub open spec fn endpoint(self) -> spec_fn(NodeId) -> Option<(NodeId, NodeType)> {
        |id: NodeId|
            if id != self.node_id && self.routing.node_data.contains_key(id) {
                match self.routing.node_data[id].node_type {
                    Some(node_type) if node_type != NodeType::Drone => Some((id, node_type)),
                    _ => None,
                }
            } else {
                None
            }
    }

    /// The clients and servers among the other nodes, in the order of the topology.
    pub open spec fn endpoints(self) -> Seq<(NodeId, NodeType)> {
        self.routing.topology.nodes.filter_map(self.endpoint())
    }

    /// After a packet has come in.
    pub open spec fn receive(self, packet: PacketView, from_shortcut: bool) -> HandlerView {
        let header = packet.routing_header;
        let session_id = packet.session_id;
        match packet.pack_type {
            PacketTypeView::MsgFragment(frag) => self.receive_fragment(
                header,
                session_id,
                from_shortcut,
                frag,
            ),
            PacketTypeView::Ack(ack) => self.receive_ack(header, session_id, from_shortcut, ack),
            PacketTypeView::Nack(nack) => self.receive_nack(
                header,
                session_id,
                from_shortcut,
                nack,
            ),
            PacketTypeView::FloodRequest(_) => self.hear(header, from_shortcut),
            PacketTypeView::FloodResponse(res) => self.receive_flood_response(
                header,
                from_shortcut,
                res,
            ),
        }
    }

    /// What is left to do once a packet has been taken and the state is `after`.
    pub open spec fn leftover(
        self,
        after: HandlerView,
        packet: PacketView,
        connected: Seq<NodeId>,
    ) -> LeftoverView {
        match packet.pack_type {
            PacketTypeView::FloodRequest(_) => LeftoverView::FloodRequest(packet),
            PacketTypeView::FloodResponse(res) => LeftoverView::FloodResponse(
                self.passed_on(packet.routing_header, packet.session_id, res, connected),
                after.endpoints(),
            ),
            _ => LeftoverView::Nothing,
        }
    }

    /// Whether a packet can be taken.
    pub open spec fn can_receive(self, packet: PacketView) -> bool {
        match packet.pack_type {
            PacketTypeView::MsgFragment(frag) => self.can_receive_fragment(
                packet.routing_header,
                packet.session_id,
                frag,
            ),
            PacketTypeView::Nack(nack) => self.can_receive_nack(packet.session_id, nack),
            _ => true,
        }
    }

    /// After the neighbour or drone `id` has gone: a flood will find another way.
    pub open spec fn disconnect(self, id: NodeId) -> HandlerView {
        HandlerView { routing: self.routing.forget(id), flood_flag: true, ..self }
    }

    /// After an attempt to send that needed the neighbour `lost`, if any.
    pub open spec fn after_attempt(self, lost: Option<NodeId>) -> HandlerView {
        match lost {
            Some(id) => self.disconnect(id),
            None => self,
        }
    }

    /// After `id` has become a neighbour.
    pub open spec fn connect(self, id: NodeId) -> HandlerView {
        HandlerView {
            routing: RoutingView {
                topology: self.routing.topology.link(self.node_id, id),
                node_data: self.routing.node_data.insert(id, fresh_info(id, None)),
                ..self.routing
            },
            flood_flag: true,
            ..self
        }
    }

    /// What every node keeps: its knowledge is well formed, and no session has
    /// a number beyond the current one.
    pub open spec fn well_formed(self) -> bool {
        &&& self.routing.well_formed()
        &&& self.routing.node_id == self.node_id
        &&& forall|session_id: u64| #[trigger]
            self.sent_fragments.contains_key(session_id) ==> session_id <= self.cur_session_id
    }
}

} // verus!
