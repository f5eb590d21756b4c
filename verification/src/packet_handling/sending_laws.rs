//! What a node queues and what leaves it.
use crate::cost::{at_most, DropRate, Measure};
use crate::network::{NodeId, NodeType, RouteView, SourceRoutingHeader};
use crate::packet::{
    FloodRequest, FloodResponse, Fragment, Packet, PacketType, PacketTypeView, PacketView,
};
use crate::packet_handling::fragment::fragments_of;
use crate::packet_handling::handling_steps::{
    bytes_view, routes_found, transmissions_view, Transmission,
};
use crate::packet_handling::model::{
    lost_neighbor, messages_view, transmission, HandlerView, LeftoverView,
};
use crate::packet_handling::routing::{
    packets_view, path_view, route_along, route_view, NodeInfo, RoutingView,
};
use crate::packet_handling::routing_laws::law_found_route_is_cheapest;
use crate::packet_handling::{Leftover, PacketHandler};
use crate::topology::law_link;
use std::fmt::Debug;
use std::ops::Add;
use vstd::prelude::*;

verus! {

// What is queued.

/// A new node has nothing to send, no open session and no message, knows its
/// neighbours, wants a flood, and has used one session number.
pub proof fn law_new_node(id: NodeId, node_type: NodeType, neighbors: Seq<NodeId>)
    ensures
        ({
            let handler = HandlerView::initial(id, node_type, neighbors);
            &&& handler.node_id == id
            &&& handler.routing == RoutingView::initial_with_neighbors(id, node_type, neighbors)
            &&& handler.tx_queue.len() == 0
            &&& forall|session_id: u64| !#[trigger]
                handler.sent_fragments.contains_key(session_id)
            &&& forall|key: u128| !#[trigger] handler.rx_queue.contains_key(key)
            &&& handler.flood_flag
            &&& handler.cur_session_id == 1
        }),
{
}

/// A message opens the session with the next number, for its receiver and with
/// all its fragments, which are queued in order behind what was queued, each in
/// a packet of that session without a route. Nothing else changes.
pub proof fn law_message_is_queued(handler: HandlerView, frags: Seq<Fragment>, id: NodeId)
    requires
        handler.cur_session_id < u64::MAX,
    ensures
        ({
            let after = handler.queue_fragments(frags, id);
            let session_id = after.cur_session_id;
            let n = handler.tx_queue.len() as int;
            &&& session_id == handler.cur_session_id + 1
            &&& after.sent_fragments.contains_key(session_id)
            &&& after.sent_fragments[session_id].0 == id
            &&& after.sent_fragments[session_id].1 == frags
            &&& forall|other: u64| other != session_id ==> {
                &&& #[trigger] after.sent_fragments.contains_key(other)
                    <==> handler.sent_fragments.contains_key(other)
                &&& after.sent_fragments[other] == handler.sent_fragments[other]
            }
            &&& after.tx_queue.len() == n + frags.len()
            &&& handler.tx_queue.is_prefix_of(after.tx_queue)
            &&& forall|i: int|
                0 <= i < frags.len() ==> {
                    let (packet, dst) = #[trigger] after.tx_queue[n + i];
                    &&& dst == id
                    &&& packet.session_id == session_id
                    &&& packet.pack_type == PacketTypeView::MsgFragment(frags[i])
                    &&& packet.routing_header.hop_index == 0
                    &&& packet.routing_header.hops.len() == 0
                }
            &&& after.routing == handler.routing
            &&& after.rx_queue == handler.rx_queue
            &&& after.node_id == handler.node_id
            &&& after.flood_flag == handler.flood_flag
        }),
{
}

/// Messages are queued one after the other: the `i`-th opens the `i`-th session
/// from the next one on, for its receiver and with its fragments; sessions that
/// were open stay.
pub proof fn law_messages_are_queued(handler: HandlerView, messages: Seq<(NodeId, Seq<u8>)>)
    requires
        handler.cur_session_id + messages.len() <= u64::MAX,
    ensures
        ({
            let after = handler.queue_messages(messages);
            &&& after.cur_session_id == handler.cur_session_id + messages.len()
            &&& forall|session_id: u64|
                handler.cur_session_id < session_id <= after.cur_session_id
                    ==> #[trigger] after.sent_fragments.contains_key(session_id)
            &&& forall|session_id: u64|
                handler.cur_session_id < session_id <= after.cur_session_id ==> {
                    let (id, message) = messages[session_id - handler.cur_session_id - 1];
                    #[trigger] after.sent_fragments[session_id] == (id, fragments_of(message))
                }
            &&& forall|session_id: u64|
                session_id <= handler.cur_session_id || session_id > after.cur_session_id ==> {
                    &&& #[trigger] after.sent_fragments.contains_key(session_id)
                        <==> handler.sent_fragments.contains_key(session_id)
                    &&& after.sent_fragments[session_id] == handler.sent_fragments[session_id]
                }
            &&& handler.tx_queue.is_prefix_of(after.tx_queue)
            &&& after.routing == handler.routing
            &&& after.rx_queue == handler.rx_queue
            &&& after.node_id == handler.node_id
            &&& after.flood_flag == handler.flood_flag
        }),
    decreases messages.len(),
{
    if messages.len() > 0 {
        let front = messages.drop_last();
        law_messages_are_queued(handler, front);
        let before = handler.queue_messages(front);
        let after = handler.queue_messages(messages);
        law_message_is_queued(before, fragments_of(messages.last().1), messages.last().0);
        assert forall|session_id: u64|
            handler.cur_session_id < session_id <= after.cur_session_id implies
            #[trigger] after.sent_fragments.contains_key(session_id) by {
            if session_id != after.cur_session_id {
                assert(before.sent_fragments.contains_key(session_id));
            }
        }
        assert forall|session_id: u64|
            handler.cur_session_id < session_id <= after.cur_session_id implies {
            let (id, message) = messages[session_id - handler.cur_session_id - 1];
            #[trigger] after.sent_fragments[session_id] == (id, fragments_of(message))
        } by {
            if session_id != after.cur_session_id {
                let i = session_id - handler.cur_session_id - 1;
                assert(front[i] == messages[i]);
                assert(before.sent_fragments[session_id] == (
                    front[i].0,
                    fragments_of(front[i].1),
                ));
            }
        }
        assert(handler.tx_queue.is_prefix_of(after.tx_queue));
    } else {
        assert(handler.tx_queue.is_prefix_of(handler.tx_queue));
    }
}

/// Two runs of messages are queued one behind the other, a single message as
/// its fragments, and no message changes nothing.
pub proof fn law_message_runs(
    handler: HandlerView,
    first: Seq<(NodeId, Seq<u8>)>,
    second: Seq<(NodeId, Seq<u8>)>,
    message: (NodeId, Seq<u8>),
)
    ensures
        handler.queue_messages(Seq::empty()) == handler,
        handler.queue_messages(seq![message]) == handler.queue_fragments(
            fragments_of(message.1),
            message.0,
        ),
        handler.queue_messages(first + second) == handler.queue_messages(first).queue_messages(
            second,
        ),
    decreases second.len(),
{
    assert(handler.queue_messages(seq![message]) == handler.queue_fragments(
        fragments_of(message.1),
        message.0,
    )) by {
        assert(seq![message].drop_last() == Seq::<(NodeId, Seq<u8>)>::empty());
        assert(handler.queue_messages(Seq::empty()) == handler);
    }
    if second.len() == 0 {
        assert(first + second == first);
    } else {
        law_message_runs(handler, first, second.drop_last(), message);
        assert((first + second).drop_last() == first + second.drop_last());
        assert((first + second).last() == second.last());
    }
}

/// A flood that is wanted queues its requests behind what was queued, uses up
/// the flood number and is then not wanted any more; where none is wanted
/// nothing changes.
pub proof fn law_flood_is_queued(handler: HandlerView, neighbors: Seq<NodeId>)
    ensures
        ({
            let after = handler.flood(neighbors);
            &&& handler.flood_flag ==> {
                &&& after.tx_queue == handler.tx_queue + handler.routing.flood_requests(neighbors)
                &&& after.routing == handler.routing.flooded()
                &&& !after.flood_flag
            }
            &&& !handler.flood_flag ==> after == handler
            &&& after.sent_fragments == handler.sent_fragments
            &&& after.rx_queue == handler.rx_queue
            &&& after.node_id == handler.node_id
            &&& after.cur_session_id == handler.cur_session_id
        }),
{
}

// What leaves.

/// Whether a packet waits for a route.
pub open spec fn waits_for_route(packet: PacketView) -> bool {
    packet.routing_header.hop_index == 0 && packet.routing_header.hops.len() == 0
}

/// Whether `route` names a hop behind the one that it says holds the packet.
pub open spec fn names_next_hop(route: Option<RouteView>) -> bool {
    route is Some && route->0.hop_index + 1 < route->0.hops.len()
}

/// The hop that `route` names behind the one that it says holds the packet.
pub open spec fn named_hop(route: Option<RouteView>) -> NodeId {
    route->0.hops[route->0.hop_index as int + 1]
}

/// A packet that waits for a route is told apart by its route alone.
proof fn lemma_waits_for_route(packet: PacketView)
    ensures
        waits_for_route(packet) <==> packet.routing_header == RouteView::empty(),
{
    if waits_for_route(packet) {
        assert(packet.routing_header.hops == Seq::<NodeId>::empty());
    }
}

/// A packet that bears a route leaves as it is, for the node that it is for, if
/// that is connected. A packet that waits for a route leaves for the next hop of
/// the route that it is given, if that is connected: it then bears the hops of
/// that route, held by the first node behind the start, and is otherwise what it
/// was. No other packet leaves. Reported is the packet as it was queued.
pub proof fn law_packet_leaves(
    packet: PacketView,
    node_id: NodeId,
    route: Option<RouteView>,
    connected: Seq<NodeId>,
)
    ensures
        ({
            let leaving = transmission(packet, node_id, route, connected);
            &&& !waits_for_route(packet) ==> {
                &&& leaving is Some <==> connected.contains(node_id)
                &&& leaving is Some ==> {
                    &&& leaving->0.via == node_id
                    &&& leaving->0.packet == packet
                    &&& leaving->0.reported == packet
                }
            }
            &&& waits_for_route(packet) ==> {
                &&& leaving is Some <==> names_next_hop(route) && connected.contains(
                    named_hop(route),
                )
                &&& leaving is Some ==> {
                    &&& leaving->0.via == named_hop(route)
                    &&& leaving->0.packet.routing_header.hops == route->0.hops
                    &&& leaving->0.packet.routing_header.hop_index == 1
                    &&& leaving->0.packet.session_id == packet.session_id
                    &&& leaving->0.packet.pack_type == packet.pack_type
                    &&& leaving->0.reported == packet
                }
            }
        }),
{
    lemma_waits_for_route(packet);
}

/// A next hop is lost if a packet that waits for a route would need it and it is
/// not connected: it is forgotten and a flood is wanted. Otherwise an attempt to
/// send changes nothing.
pub proof fn law_attempt(
    handler: HandlerView,
    packet: PacketView,
    route: Option<RouteView>,
    connected: Seq<NodeId>,
)
    ensures
        ({
            let after = handler.after_attempt(lost_neighbor(packet, route, connected));
            let lost = waits_for_route(packet) && names_next_hop(route) && !connected.contains(
                named_hop(route),
            );
            &&& lost ==> {
                &&& after.routing == handler.routing.forget(named_hop(route))
                &&& after.flood_flag
            }
            &&& !lost ==> after.routing == handler.routing && after.flood_flag
                == handler.flood_flag
            &&& after.tx_queue == handler.tx_queue
            &&& after.sent_fragments == handler.sent_fragments
            &&& after.rx_queue == handler.rx_queue
            &&& after.node_id == handler.node_id
            &&& after.cur_session_id == handler.cur_session_id
        }),
{
    lemma_waits_for_route(packet);
}

/// Sending takes the packets of the queue one by one: each either leaves,
/// behind those that have left, or stays, behind those that have stayed; and
/// what one attempt makes of the knowledge of the node, the next one starts from.
pub proof fn law_queue_is_sent_in_order(
    handler: HandlerView,
    routes: Seq<Option<RouteView>>,
    connected: Seq<NodeId>,
    n: nat,
)
    requires
        n < handler.tx_queue.len(),
    ensures
        ({
            let start = handler.pass(routes, connected, 0);
            &&& start.routing == handler.routing
            &&& start.flood_flag == handler.flood_flag
            &&& start.sent.len() == 0
            &&& start.failed.len() == 0
        }),
        ({
            let before = handler.pass(routes, connected, n);
            let after = handler.pass(routes, connected, n + 1);
            let (packet, node_id) = handler.tx_queue[n as int];
            let route = routes[n as int];
            let leaving = transmission(packet, node_id, route, connected);
            let lost = waits_for_route(packet) && names_next_hop(route) && !connected.contains(
                named_hop(route),
            );
            &&& leaving is Some ==> {
                &&& after.sent == before.sent.push(leaving->0)
                &&& after.failed == before.failed
            }
            &&& leaving is None ==> {
                &&& after.sent == before.sent
                &&& after.failed == before.failed.push((packet, node_id))
            }
            &&& lost ==> after.routing == before.routing.forget(named_hop(route))
                && after.flood_flag
            &&& !lost ==> after.routing == before.routing && after.flood_flag == before.flood_flag
        }),
{
    lemma_waits_for_route(handler.tx_queue[n as int].0);
}

/// After the whole queue has been gone through, what stayed is queued, and
/// neither the sessions nor the messages that come in have changed.
pub proof fn law_rest_is_queued_again(
    handler: HandlerView,
    routes: Seq<Option<RouteView>>,
    connected: Seq<NodeId>,
)
    ensures
        ({
            let pass = handler.pass(routes, connected, handler.tx_queue.len());
            let after = handler.after_pass(pass);
            &&& after.tx_queue == pass.failed
            &&& after.routing == pass.routing
            &&& after.flood_flag == pass.flood_flag
            &&& after.sent_fragments == handler.sent_fragments
            &&& after.rx_queue == handler.rx_queue
            &&& after.node_id == handler.node_id
            &&& after.cur_session_id == handler.cur_session_id
        }),
{
}

/// Every packet that leaves is one of the queue: it has the session and the
/// contents of its queue entry, leaves for a connected node, and if it bore no
/// route it bears the hops of the one that was found for it.
pub proof fn law_sent_packets_are_queued_ones(
    handler: HandlerView,
    routes: Seq<Option<RouteView>>,
    connected: Seq<NodeId>,
    n: nat,
    i: int,
)
    requires
        n <= handler.tx_queue.len(),
        0 <= i < handler.pass(routes, connected, n).sent.len(),
    ensures
        ({
            let sent = handler.pass(routes, connected, n).sent[i];
            &&& sent.packet.session_id == sent.reported.session_id
            &&& sent.packet.pack_type == sent.reported.pack_type
            &&& connected.contains(sent.via)
            &&& exists|j: int|
                0 <= j < n && (#[trigger] handler.tx_queue[j]).0 == sent.reported && {
                    if waits_for_route(sent.reported) {
                        &&& names_next_hop(routes[j])
                        &&& sent.via == named_hop(routes[j])
                        &&& sent.packet.routing_header.hops == routes[j]->0.hops
                        &&& sent.packet.routing_header.hop_index == 1
                    } else {
                        sent.via == handler.tx_queue[j].1 && sent.packet == sent.reported
                    }
                }
        }),
    decreases n,
{
    if n > 0 {
        let m = (n - 1) as nat;
        let before = handler.pass(routes, connected, m);
        let after = handler.pass(routes, connected, n);
        let (packet, node_id) = handler.tx_queue[m as int];
        law_queue_is_sent_in_order(handler, routes, connected, m);
        law_packet_leaves(packet, node_id, routes[m as int], connected);
        if i < before.sent.len() {
            assert(after.sent[i] == before.sent[i]);
            law_sent_packets_are_queued_ones(handler, routes, connected, m, i);
        } else {
            assert(handler.tx_queue[m as int].0 == after.sent[i].reported);
        }
    }
}

/// The route that a queued packet without one is given leads from the node to
/// the one that the packet is for, by what was known when its turn came, and
/// costs no more than any other way; a packet is given none only where there is
/// no way.
pub proof fn law_queued_packets_get_best_routes<K, F>(
    handler: HandlerView,
    connected: Seq<NodeId>,
    cost: F,
    routes: Seq<Option<RouteView>>,
    n: nat,
    measure: Measure<K>,
    j: int,
    other: Seq<NodeId>,
) where
    K: Copy + Debug + PartialOrd + Add<Output = K> + Default,
    F: Fn(DropRate, DropRate) -> K,

    requires
        routes_found(handler, connected, cost, routes, n),
        measure.measures(cost),
        0 <= j < n,
        waits_for_route(handler.tx_queue[j].0),
    ensures
        routes.len() == n,
        ({
            let known = handler.pass(routes, connected, j as nat).routing;
            let dst = handler.tx_queue[j].1;
            &&& routes[j] is Some ==> {
                let hops = routes[j]->0.hops;
                &&& routes[j]->0.hop_index == 1
                &&& hops.len() > 0
                &&& hops[0] == handler.node_id
                &&& hops[hops.len() - 1] == dst
                &&& hops.no_duplicates()
                &&& forall|i: int|
                    0 <= i < hops.len() - 1 ==> known.topology.edges.contains_key(
                        (#[trigger] hops[i], hops[i + 1]),
                    )
                &&& known.topology.is_path(other, handler.node_id, dst) ==> at_most(
                    known.path_cost(measure, hops),
                    known.path_cost(measure, other),
                )
            }
            &&& routes[j] is None ==> !known.topology.is_path(other, handler.node_id, dst)
        }),
{
    reveal(routes_found);
    lemma_waits_for_route(handler.tx_queue[j].0);
    let known = handler.pass(routes, connected, j as nat).routing;
    assert(known.is_best_route(handler.node_id, handler.tx_queue[j].1, cost, routes[j]));
    law_found_route_is_cheapest(
        known,
        handler.node_id,
        handler.tx_queue[j].1,
        cost,
        routes[j],
        measure,
        other,
    );
}

// What neighbours change.

/// A new neighbour is linked to the node, starts with an empty entry, and makes
/// a flood be wanted; nothing else changes.
pub proof fn law_neighbor_comes(handler: HandlerView, id: NodeId)
    requires
        handler.well_formed(),
    ensures
        ({
            let after = handler.connect(id);
            &&& forall|a: NodeId, b: NodeId| #[trigger]
                after.routing.topology.linked(a, b) <==> handler.routing.topology.linked(a, b) || (a
                    == handler.node_id && b == id)
            &&& forall|n: NodeId| #[trigger]
                after.routing.topology.nodes.contains(n)
                    <==> handler.routing.topology.nodes.contains(n) || n == handler.node_id || n
                    == id
            &&& after.routing.node_data.contains_key(id)
            &&& after.routing.node_data[id] == (NodeInfo {
                id,
                dropped_packets: 0,
                acked_packets: 0,
                node_type: None,
            })
            &&& forall|other: NodeId| other != id ==> {
                &&& #[trigger] after.routing.node_data.contains_key(other)
                    <==> handler.routing.node_data.contains_key(other)
                &&& after.routing.node_data[other] == handler.routing.node_data[other]
            }
            &&& after.routing.cur_flood_id == handler.routing.cur_flood_id
            &&& after.routing.node_id == handler.routing.node_id
            &&& after.routing.node_type == handler.routing.node_type
            &&& after.flood_flag
            &&& after.tx_queue == handler.tx_queue
            &&& after.sent_fragments == handler.sent_fragments
            &&& after.rx_queue == handler.rx_queue
            &&& after.node_id == handler.node_id
            &&& after.cur_session_id == handler.cur_session_id
        }),
{
    law_link(handler.routing.topology, handler.node_id, id);
}

/// A neighbour that goes is forgotten and makes a flood be wanted; what is
/// queued, the sessions and the messages that come in stay.
pub proof fn law_neighbor_goes(handler: HandlerView, id: NodeId)
    ensures
        ({
            let after = handler.disconnect(id);
            &&& after.routing == handler.routing.forget(id)
            &&& after.flood_flag
            &&& after.tx_queue == handler.tx_queue
            &&& after.sent_fragments == handler.sent_fragments
            &&& after.rx_queue == handler.rx_queue
            &&& after.node_id == handler.node_id
            &&& after.cur_session_id == handler.cur_session_id
        }),
{
}

// What the models show.

/// The model of a node shows everything that the node holds: every queued
/// packet, every session, every message that comes in, and its flags and numbers.
pub proof fn law_handler_view(handler: PacketHandler)
    ensures
        handler@.routing == handler.routing_helper@,
        handler@.node_id == handler.node_id,
        handler@.flood_flag == handler.flood_flag,
        handler@.cur_session_id == handler.cur_session_id,
        handler@.tx_queue.len() == handler.tx_queue_packets@.len(),
        forall|i: int|
            0 <= i < handler.tx_queue_packets@.len() ==> #[trigger] handler@.tx_queue[i] == (
                handler.tx_queue_packets@[i].0@,
                handler.tx_queue_packets@[i].1,
            ),
        forall|session_id: u64| #[trigger]
            handler@.sent_fragments.contains_key(session_id)
                <==> handler.sent_fragments@.contains_key(session_id),
        forall|session_id: u64| #[trigger]
            handler@.sent_fragments.contains_key(session_id) ==> handler@.sent_fragments[session_id]
                == (
                handler.sent_fragments@[session_id].0,
                handler.sent_fragments@[session_id].1@,
            ),
        forall|key: u128| #[trigger]
            handler@.rx_queue.contains_key(key) <==> handler.rx_queue@.contains_key(key),
        forall|key: u128| #[trigger]
            handler@.rx_queue.contains_key(key) ==> handler@.rx_queue[key].fragments
                == handler.rx_queue@[key].0@ && handler@.rx_queue[key].missing
                == handler.rx_queue@[key].1@,
{
}

/// The models of packets and of what they carry show every field.
pub proof fn law_packet_view(packet: Packet, req: FloodRequest, res: FloodResponse)
    ensures
        packet@.routing_header == packet.routing_header@,
        packet@.session_id == packet.session_id,
        match packet.pack_type {
            PacketType::MsgFragment(frag) => packet@.pack_type == PacketTypeView::MsgFragment(frag),
            PacketType::Ack(ack) => packet@.pack_type == PacketTypeView::Ack(ack),
            PacketType::Nack(nack) => packet@.pack_type == PacketTypeView::Nack(nack),
            PacketType::FloodRequest(inner) => packet@.pack_type == PacketTypeView::FloodRequest(
                inner@,
            ),
            PacketType::FloodResponse(inner) => packet@.pack_type == PacketTypeView::FloodResponse(
                inner@,
            ),
        },
        req@.flood_id == req.flood_id,
        req@.initiator_id == req.initiator_id,
        req@.path_trace == req.path_trace@,
        res@.flood_id == res.flood_id,
        res@.path_trace == res.path_trace@,
{
}

/// The models of lists show every item, in order, and those of optional values
/// whether there is one.
pub proof fn law_list_views(
    sent: Seq<Transmission>,
    packets: Seq<(Packet, NodeId)>,
    messages: Seq<(NodeId, Vec<u8>)>,
    bytes: Seq<Vec<u8>>,
    path: Option<Vec<NodeId>>,
    route: Option<SourceRoutingHeader>,
    i: int,
)
    ensures
        transmissions_view(sent).len() == sent.len(),
        0 <= i < sent.len() ==> {
            &&& transmissions_view(sent)[i].via == sent[i].via
            &&& transmissions_view(sent)[i].packet == sent[i].packet@
            &&& transmissions_view(sent)[i].reported == sent[i].reported@
        },
        packets_view(packets).len() == packets.len(),
        0 <= i < packets.len() ==> packets_view(packets)[i] == (packets[i].0@, packets[i].1),
        messages_view(messages).len() == messages.len(),
        0 <= i < messages.len() ==> messages_view(messages)[i] == (
            messages[i].0,
            messages[i].1@,
        ),
        bytes_view(bytes).len() == bytes.len(),
        0 <= i < bytes.len() ==> bytes_view(bytes)[i] == bytes[i]@,
        path_view(path) is Some <==> path is Some,
        path is Some ==> path_view(path)->0 == path->0@,
        route_view(route) is Some <==> route is Some,
        route is Some ==> route_view(route)->0 == route->0@,
        route_along(path_view(path)) is Some <==> path is Some,
        path is Some ==> route_along(path_view(path))->0.hops == path->0@ && route_along(
            path_view(path),
        )->0.hop_index == 1,
{
}

/// The model of what is left to do shows what is to be done.
pub proof fn law_leftover_view(leftover: Leftover)
    ensures
        match leftover {
            Leftover::Nothing => leftover@ == LeftoverView::Nothing,
            Leftover::FloodRequest(packet) => leftover@ == LeftoverView::FloodRequest(packet@),
            Leftover::FloodResponse(sent, endpoints) => leftover@ == LeftoverView::FloodResponse(
                transmissions_view(sent@),
                endpoints@,
            ),
        },
{
}

} // verus!
