//! The steps that a node repeats: flooding, sending, taking out messages.
use crate::cost::{is_measure, DropRate};
use crate::network::{NodeId, RouteView, SourceRoutingHeader};
use crate::packet::{Packet, PacketView};
use crate::packet_handling::fragment::{defragment, fragments_of, is_fragmentation, joined};
use crate::packet_handling::model::{
    lost_neighbor, messages_view, transmission, HandlerView, TransmissionView,
};
use crate::packet_handling::routing::{packets_view, route_view};
use crate::packet_handling::{rx_entry_view, rx_view, PacketHandler};
use std::fmt::Debug;
use std::ops::Add;
use vstd::prelude::*;

verus! {

broadcast use vstd::std_specs::hash::group_hash_axioms;

/// A packet that leaves: the neighbour that gets it, and the packet as it is
/// reported to the controller.
#[derive(Debug, PartialEq, Eq)]
pub struct Transmission {
    pub via: NodeId,
    pub packet: Packet,
    pub reported: Packet,
}

impl View for Transmission {
    type V = TransmissionView;

    open spec fn view(&self) -> TransmissionView {
        TransmissionView { via: self.via, packet: self.packet@, reported: self.reported@ }
    }
}

/// The model of a list of transmissions.
pub open spec fn transmissions_view(sent: Seq<Transmission>) -> Seq<TransmissionView> {
    sent.map_values(|transmission: Transmission| transmission@)
}

/// The model of a list of encoded messages.
pub open spec fn bytes_view(messages: Seq<Vec<u8>>) -> Seq<Seq<u8>> {
    messages.map_values(|message: Vec<u8>| message@)
}

/// Whether `routes` holds, for each of the first `n` packets of the queue of
/// `handler` that bears no route, a best route by what was known when its turn came.
#[verifier::opaque]
pub open spec fn routes_found<K, F>(
    handler: HandlerView,
    connected: Seq<NodeId>,
    cost: F,
    routes: Seq<Option<RouteView>>,
    n: nat,
) -> bool where
    K: Copy + Debug + PartialOrd + Add<Output = K> + Default,
    F: Fn(DropRate, DropRate) -> K,
 {
    &&& routes.len() == n
    &&& forall|i: int|
        0 <= i < n && handler.tx_queue[i].0.routing_header == RouteView::empty() ==> handler.pass(
            routes,
            connected,
            i as nat,
        ).routing.is_best_route(
            handler.node_id,
            handler.tx_queue[i].1,
            cost,
            #[trigger] routes[i],
        )
}

/// One more route leaves what the earlier packets made of the sending, and what
/// was found for them.
proof fn lemma_one_more_route<K, F>(
    handler: HandlerView,
    connected: Seq<NodeId>,
    cost: F,
    routes: Seq<Option<RouteView>>,
    next: Option<RouteView>,
) where
    K: Copy + Debug + PartialOrd + Add<Output = K> + Default,
    F: Fn(DropRate, DropRate) -> K,

    requires
        routes_found(handler, connected, cost, routes, routes.len()),
        routes.len() < handler.tx_queue.len(),
        handler.tx_queue[routes.len() as int].0.routing_header == RouteView::empty()
            ==> handler.pass(routes, connected, routes.len()).routing.is_best_route(
            handler.node_id,
            handler.tx_queue[routes.len() as int].1,
            cost,
            next,
        ),
    ensures
        routes_found(handler, connected, cost, routes.push(next), routes.len() + 1),
        handler.pass(routes.push(next), connected, routes.len() + 1) == handler.pass(
            routes,
            connected,
            routes.len(),
        ).step(handler.tx_queue[routes.len() as int], next, connected),
{
    reveal(routes_found);
    let longer = routes.push(next);
    lemma_pass_prefix(handler, connected, routes, next, routes.len());
    assert forall|i: int|
        0 <= i < longer.len() && handler.tx_queue[i].0.routing_header
            == RouteView::empty() implies handler.pass(
        longer,
        connected,
        i as nat,
    ).routing.is_best_route(
        handler.node_id,
        handler.tx_queue[i].1,
        cost,
        #[trigger] longer[i],
    ) by {
        lemma_pass_prefix(handler, connected, routes, next, i as nat);
        if i < routes.len() {
            assert(longer[i] == routes[i]);
        }
    }
}

/// What the first packets make of the sending does not depend on later routes.
proof fn lemma_pass_prefix(
    handler: HandlerView,
    connected: Seq<NodeId>,
    routes: Seq<Option<RouteView>>,
    next: Option<RouteView>,
    n: nat,
)
    requires
        n <= routes.len(),
    ensures
        handler.pass(routes.push(next), connected, n) == handler.pass(routes, connected, n),
    decreases n,
{
    if n > 0 {
        lemma_pass_prefix(handler, connected, routes, next, (n - 1) as nat);
    }
}

/// Sending forgets nodes and learns nothing.
proof fn lemma_pass_routing(
    handler: HandlerView,
    connected: Seq<NodeId>,
    routes: Seq<Option<RouteView>>,
    n: nat,
)
    ensures
        handler.pass(routes, connected, n).routing.node_data.submap_of(handler.routing.node_data),
        handler.routing.rates_fit() ==> handler.pass(routes, connected, n).routing.rates_fit(),
    decreases n,
{
    if n > 0 {
        lemma_pass_routing(handler, connected, routes, (n - 1) as nat);
        assert forall|id: NodeId| #[trigger]
            handler.pass(routes, connected, n).routing.node_data.contains_key(id)
                && handler.routing.rates_fit() implies handler.pass(
            routes,
            connected,
            n,
        ).routing.rate_fits(id) by {
            assert(handler.routing.rate_fits(id));
        }
    }
}

/// Whether `id` is one of `nodes`.
pub(crate) fn is_among(nodes: &Vec<NodeId>, id: NodeId) -> (among: bool)
    ensures
        among == nodes@.contains(id),
{
    for i in 0..nodes.len()
        invariant
            forall|k: int| 0 <= k < i ==> nodes@[k] != id,
    {
        if nodes[i] == id {
            assert(nodes@[i as int] == id);
            return true;
        }
    }
    false
}

impl PacketHandler {
    /// Starts a flood to `neighbors`, if one is wanted.
    pub fn do_flood(&mut self, neighbors: Vec<NodeId>, busy: &mut bool)
        requires
            old(self).flood_flag ==> old(self).routing_helper.cur_flood_id < u64::MAX,
        ensures
            final(self)@ == old(self)@.flood(neighbors@),
            *final(busy) == (*old(busy) || old(self).flood_flag),
    {
        if self.flood_flag {
            *busy = true;
            self.flood_flag = false;
            let flood_req = self.routing_helper.generate_flood_requests(neighbors);
            self.enqueue_all(flood_req);
        }
    }

    /// Queues packets, in order.
    fn enqueue_all(&mut self, packets: Vec<(Packet, NodeId)>)
        ensures
            final(self)@ == (HandlerView {
                tx_queue: old(self)@.tx_queue + packets_view(packets@),
                ..old(self)@
            }),
    {
        let ghost start = self@;
        let ghost all = packets@;
        assert(start.tx_queue + packets_view(all.take(0)) == start.tx_queue);
        for entry in iter: packets
            invariant
                iter.seq() == all,
                self@ == (HandlerView {
                    tx_queue: start.tx_queue + packets_view(all.take(iter.index() as int)),
                    ..start
                }),
        {
            let (packet, node_id) = entry;
            self.enqueue(packet, node_id);
            assert(all.take(iter.index() + 1) == all.take(iter.index() as int).push(entry));
            assert(self@.tx_queue == start.tx_queue + packets_view(all.take(iter.index() + 1)));
        }
        assert(all.take(all.len() as int) == all);
    }

    /// Queues encoded messages, in order, each as a session of its own.
    pub fn send_messages(&mut self, data_to_send: Vec<(NodeId, Vec<u8>)>)
        requires
            old(self).cur_session_id + data_to_send@.len() <= u64::MAX,
        ensures
            forall|i: int|
                0 <= i < data_to_send@.len() ==> is_fragmentation(
                    fragments_of((#[trigger] data_to_send@[i]).1@),
                    data_to_send@[i].1@,
                ),
            final(self)@ == old(self)@.queue_messages(messages_view(data_to_send@)),
    {
        let ghost start = self@;
        for i in 0..data_to_send.len()
            invariant
                start.cur_session_id + data_to_send@.len() <= u64::MAX,
                self.cur_session_id == start.cur_session_id + i,
                self@ == start.queue_messages(messages_view(data_to_send@.take(i as int))),
                forall|k: int|
                    0 <= k < i ==> is_fragmentation(
                        fragments_of((#[trigger] data_to_send@[k]).1@),
                        data_to_send@[k].1@,
                    ),
        {
            let id = data_to_send[i].0;
            self.send_msg(data_to_send[i].1.as_slice(), id);
            assert(messages_view(data_to_send@.take(i + 1)).drop_last() == messages_view(
                data_to_send@.take(i as int),
            ));
        }
        assert(data_to_send@.take(data_to_send@.len() as int) == data_to_send@);
    }

    /// Takes the next packet off the queue.
    fn dequeue(&mut self) -> (next: Option<(Packet, NodeId)>)
        ensures
            match next {
                Some(entry) => {
                    &&& old(self)@.tx_queue.len() > 0
                    &&& (entry.0@, entry.1) == old(self)@.tx_queue[0]
                    &&& final(self)@ == (HandlerView {
                        tx_queue: old(self)@.tx_queue.skip(1),
                        ..old(self)@
                    })
                },
                None => old(self)@.tx_queue.len() == 0 && final(self)@ == old(self)@,
            },
    {
        let ghost waiting = self.tx_queue_packets@;
        let next = self.tx_queue_packets.pop_front();
        proof {
            if next is Some {
                let entry = next->0;
                assert(packets_view(waiting)[0] == (entry.0@, entry.1));
                assert(packets_view(self.tx_queue_packets@) == packets_view(waiting).skip(1));
            }
        }
        next
    }

    /// Tries to send one packet: on the route that it bears, to `node_id`, or
    /// else on `route`, to the hop behind the one that `route` says holds it. A
    /// packet that cannot leave comes back. A next hop that is not connected any
    /// more is forgotten, and a flood is wanted.
    pub fn send_packet(
        &mut self,
        packet: Packet,
        node_id: NodeId,
        route: Option<SourceRoutingHeader>,
        connected: &Vec<NodeId>,
    ) -> (outcome: Result<Transmission, Packet>)
        ensures
            final(self)@ == old(self)@.after_attempt(
                lost_neighbor(packet@, route_view(route), connected@),
            ),
            match outcome {
                Ok(leaving) => transmission(packet@, node_id, route_view(route), connected@)
                    == Some(leaving@),
                Err(back) => back@ == packet@ && transmission(
                    packet@,
                    node_id,
                    route_view(route),
                    connected@,
                ) is None,
            },
    {
        if !packet.routing_header.is_empty_route() {
            if is_among(connected, node_id) {
                let reported = packet.clone();
                return Ok(Transmission { via: node_id, packet, reported });
            }
            return Err(packet);
        }
        match route {
            Some(mut header) => match header.next_hop() {
                Some(next_hop) => {
                    if is_among(connected, next_hop) {
                        let mut final_packet = packet.clone();
                        header.hop_index = 1;
                        final_packet.routing_header = header;
                        Ok(Transmission { via: next_hop, packet: final_packet, reported: packet })
                    } else {
                        self.flood_flag = true;
                        self.routing_helper.remove_node(next_hop);
                        Err(packet)
                    }
                },
                None => Err(packet),
            },
            None => Err(packet),
        }
    }

    /// Sends what is queued, as far as it can leave, and queues the rest again.
    ///
    /// A packet that bears a route goes to the node that it is for; any other
    /// goes to the next hop of a best route by what is known at that moment.
    pub fn send_packets<K, F>(
        &mut self,
        connected: &Vec<NodeId>,
        cost: &F,
        busy: &mut bool,
    ) -> (sent: Vec<Transmission>) where
        K: Copy + Debug + PartialOrd + Add<Output = K> + Default,
        F: Fn(DropRate, DropRate) -> K,

        requires
            is_measure::<K, F>(*cost),
            old(self)@.routing.rates_fit(),
        ensures
            exists|routes: Seq<Option<RouteView>>| #[trigger]
                routes_found(
                    old(self)@,
                    connected@,
                    *cost,
                    routes,
                    old(self)@.tx_queue.len(),
                ) && {
                    let pass = old(self)@.pass(routes, connected@, old(self)@.tx_queue.len());
                    &&& final(self)@ == old(self)@.after_pass(pass)
                    &&& transmissions_view(sent@) == pass.sent
                },
            *final(busy) == (*old(busy) || old(self)@.tx_queue.len() > 0),
    {
        let ghost before = self@;
        let ghost queue = self@.tx_queue;
        let ghost mut routes: Seq<Option<RouteView>> = Seq::empty();
        let mut sent: Vec<Transmission> = Vec::new();
        let mut failed_sends: Vec<(Packet, NodeId)> = Vec::new();
        let ghost was_busy = *busy;
        assert(queue.skip(0) == queue);
        assert(routes_found(before, connected@, *cost, routes, 0)) by {
            reveal(routes_found);
        }
        loop
            invariant
                before == old(self)@,
                queue == before.tx_queue,
                is_measure::<K, F>(*cost),
                before.routing.rates_fit(),
                routes.len() <= queue.len(),
                routes_found(before, connected@, *cost, routes, routes.len()),
                ({
                    let pass = before.pass(routes, connected@, routes.len());
                    &&& self@ == (HandlerView {
                        routing: pass.routing,
                        flood_flag: pass.flood_flag,
                        tx_queue: queue.skip(routes.len() as int),
                        ..before
                    })
                    &&& transmissions_view(sent@) == pass.sent
                    &&& packets_view(failed_sends@) == pass.failed
                }),
                *busy == (was_busy || routes.len() > 0),
            ensures
                routes.len() == queue.len(),
            decreases queue.len() - routes.len(),
        {
            let (packet, node_id) = match self.dequeue() {
                Some(entry) => entry,
                None => break,
            };
            *busy = true;
            let ghost n = routes.len();
            let ghost pass = before.pass(routes, connected@, n);
            let ghost sent_before = sent@;
            let ghost failed_before = failed_sends@;
            let ghost start = self@;
            assert(start.tx_queue == queue.skip(n as int + 1));
            let route = if packet.routing_header.is_empty_route() {
                proof {
                    lemma_pass_routing(before, connected@, routes, n);
                }
                self.routing_helper.generate_source_routing_header(self.node_id, node_id, cost)
            } else {
                None
            };
            let ghost next = route_view(route);
            proof {
                lemma_one_more_route(before, connected@, *cost, routes, next);
                routes = routes.push(next);
            }
            match self.send_packet(packet, node_id, route, connected) {
                Ok(leaving) => {
                    sent.push(leaving);
                    assert(transmissions_view(sent@) == transmissions_view(sent_before).push(
                        leaving@,
                    ));
                },
                Err(back) => {
                    failed_sends.push((back, node_id));
                    assert(packets_view(failed_sends@) == packets_view(failed_before).push(
                        (back@, node_id),
                    ));
                },
            }
            assert(self@.routing == before.pass(routes, connected@, n + 1).routing);
        }
        assert(self@.tx_queue == Seq::<(PacketView, NodeId)>::empty());
        let ghost failed = packets_view(failed_sends@);
        self.enqueue_all(failed_sends);
        assert(self@.tx_queue == failed);
        sent
    }

    /// The keys of the messages whose fragments are all there.
    fn complete_keys(&self) -> (keys: Vec<u128>)
        ensures
            keys@.no_duplicates(),
            forall|key: u128| #[trigger] keys@.contains(key) <==> self@.complete(key),
    {
        let mut keys: Vec<u128> = Vec::new();
        let ghost rx = self.rx_queue@;
        for (key, entry) in iter: self.rx_queue.iter()
            invariant
                rx == self.rx_queue@,
                iter.seq().no_duplicates(),
                keys@.no_duplicates(),
                forall|j: int|
                    0 <= j < iter.index() && self@.complete(*(#[trigger] iter.seq()[j]).0)
                        ==> keys@.contains(*iter.seq()[j].0),
                forall|k: u128| #[trigger]
                    keys@.contains(k) ==> self@.complete(k) && exists|j: int|
                        0 <= j < iter.index() && *(#[trigger] iter.seq()[j]).0 == k,
        {
            let ghost n = iter.index() as int;
            let ghost before = keys@;
            assert(iter.seq()[n] == (key, entry));
            assert(rx.contains_key(*key) && rx[*key] == *entry);
            if entry.1.len() == 0 {
                proof {
                    if keys@.contains(*key) {
                        let j = choose|j: int| 0 <= j < n && *(#[trigger] iter.seq()[j]).0 == *key;
                        assert(rx[*iter.seq()[j].0] == *iter.seq()[j].1);
                        assert(iter.seq()[j] == iter.seq()[n]);
                    }
                }
                keys.push(*key);
                assert(keys@[before.len() as int] == *key);
            }
            assert forall|k: u128| before.contains(k) implies keys@.contains(k) by {
                let i = before.index_of(k);
                assert(keys@[i] == k);
            }
            assert forall|k: u128| #[trigger] keys@.contains(k) implies self@.complete(k)
                && exists|j: int| 0 <= j < n + 1 && *(#[trigger] iter.seq()[j]).0 == k by {
                let i = keys@.index_of(k);
                if i < before.len() {
                    assert(before[i] == k);
                    assert(before.contains(k));
                } else {
                    assert(*iter.seq()[n].0 == k);
                }
            }
        }
        keys
    }

    /// Takes out the messages whose fragments are all there, put together, in no
    /// particular order.
    pub fn recieve_fragments_from_queue(&mut self, busy: &mut bool) -> (messages: Vec<Vec<u8>>)
        requires
            old(self)@.can_defragment(),
        ensures
            final(self)@ == old(self)@.without_complete(),
            exists|keys: Seq<u128>| #[trigger]
                old(self)@.are_complete_messages(keys, bytes_view(messages@)),
            *final(busy) == (*old(busy) || !old(self)@.rx_queue.is_empty()),
    {
        let ghost before = self@;
        let ghost rx = self.rx_queue@;
        if self.rx_queue.len() > 0 {
            *busy = true;
        }
        assert(before.rx_queue.dom() == rx.dom());
        let keys = self.complete_keys();
        let mut messages: Vec<Vec<u8>> = Vec::new();
        for i in 0..keys.len()
            invariant
                before == old(self)@,
                before.rx_queue == rx_view(rx),
                before.can_defragment(),
                keys@.no_duplicates(),
                forall|key: u128| #[trigger] keys@.contains(key) <==> before.complete(key),
                self@ == (HandlerView { rx_queue: rx_view(self.rx_queue@), ..before }),
                forall|key: u128| #[trigger]
                    self.rx_queue@.contains_key(key) <==> rx.contains_key(key) && !keys@.take(
                        i as int,
                    ).contains(key),
                forall|key: u128| #[trigger]
                    self.rx_queue@.contains_key(key) ==> self.rx_queue@[key] == rx[key],
                bytes_view(messages@) == keys@.take(i as int).map_values(
                    |key: u128| joined(before.rx_queue[key].fragments),
                ),
        {
            let key = keys[i];
            let ghost done = keys@.take(i as int);
            let ghost made = messages@;
            assert(keys@.contains(key));
            assert(before.complete(key));
            assert(!done.contains(key));
            assert(self.rx_queue@.contains_key(key));
            let entry = self.rx_queue.remove(&key).unwrap();
            assert(rx_entry_view(entry) == before.rx_queue[key]);
            let message = defragment(&entry.0);
            messages.push(message);
            proof {
                let more = keys@.take(i + 1);
                assert(more == done.push(key));
                assert forall|k: u128| #[trigger] more.contains(k) <==> done.contains(k) || k
                    == key by {
                    if done.contains(k) {
                        assert(more[done.index_of(k)] == k);
                    }
                    if k == key {
                        assert(more[i as int] == k);
                    }
                }
                assert(bytes_view(messages@) == bytes_view(made).push(message@));
                assert(bytes_view(messages@) == more.map_values(
                    |k: u128| joined(before.rx_queue[k].fragments),
                ));
            }
        }
        proof {
            assert(keys@.take(keys@.len() as int) == keys@);
            assert(self@.rx_queue == before.without_complete().rx_queue);
            assert(before.are_complete_messages(keys@, bytes_view(messages@)));
        }
        messages
    }
}

} // verus!
