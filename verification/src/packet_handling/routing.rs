//! What a node knows of the network, and the routes that follow from it.
use crate::cost::{at_most, is_measure, is_rate, plus, DropRate, Measure};
use crate::network::{NodeId, NodeType, RouteView, SourceRoutingHeader};
use crate::packet::{
    FloodRequest, FloodRequestView, FloodResponse, FloodResponseView, Packet, PacketTypeView,
    PacketView,
};
use crate::topology;
use crate::topology::{Topology, LINK_WEIGHT};
use petgraph::graphmap::DiGraphMap;
use std::collections::HashMap;
use std::fmt::Debug;
use std::ops::Add;
use vstd::prelude::*;

verus! {

broadcast use vstd::std_specs::hash::group_hash_axioms;

/// What is known of one node.
#[derive(Clone, Copy, Debug, PartialEq, Eq)]
pub struct NodeInfo {
    pub id: NodeId,
    pub dropped_packets: u64,
    pub acked_packets: u64,
    pub node_type: Option<NodeType>,
}

/// The part of a node that knows the network.
#[derive(Debug)]
pub struct RoutingHelper {
    pub cur_flood_id: u64,
    pub topology_graph: DiGraphMap<NodeId, u8>,
    pub node_data: HashMap<NodeId, NodeInfo>,
    pub node_id: NodeId,
    pub node_type: NodeType,
}

/// Mathematical model of a [`RoutingHelper`].
#[verifier::ext_equal]
pub struct RoutingView {
    pub cur_flood_id: u64,
    pub topology: Topology,
    pub node_data: Map<NodeId, NodeInfo>,
    pub node_id: NodeId,
    pub node_type: NodeType,
}

impl View for RoutingHelper {
    type V = RoutingView;

    open spec fn view(&self) -> RoutingView {
        RoutingView {
            cur_flood_id: self.cur_flood_id,
            topology: topology::topology(self.topology_graph),
            node_data: self.node_data@,
            node_id: self.node_id,
            node_type: self.node_type,
        }
    }
}

/// What is known of a node that has only been heard of.
pub open spec fn fresh_info(id: NodeId, node_type: Option<NodeType>) -> NodeInfo {
    NodeInfo { id, dropped_packets: 0, acked_packets: 0, node_type }
}

/// Fresh entries, of unknown type, for the nodes of `ids`.
pub open spec fn fresh_entries(ids: Set<NodeId>) -> Map<NodeId, NodeInfo> {
    Map::new(|id: NodeId| ids.contains(id), |id: NodeId| fresh_info(id, None))
}

/// The hops behind the source of a route.
pub open spec fn later_hops(hops: Seq<NodeId>) -> Set<NodeId> {
    Set::new(|id: NodeId| exists|i: int| 1 <= i < hops.len() && #[trigger] hops[i] == id)
}

/// The hops from position `start` on.
spec fn later_hops_from(hops: Seq<NodeId>, start: int) -> Set<NodeId> {
    Set::new(|id: NodeId| exists|i: int| start <= i < hops.len() && #[trigger] hops[i] == id)
}

/// How often `id` occurs in `hops`.
pub open spec fn occurrences(hops: Seq<NodeId>, id: NodeId) -> nat
    decreases hops.len(),
{
    if hops.len() == 0 {
        0
    } else {
        occurrences(hops.drop_last(), id) + if hops.last() == id {
            1nat
        } else {
            0
        }
    }
}

/// `node_data`, with the type of `id` set to `node_type`.
pub open spec fn typed(
    node_data: Map<NodeId, NodeInfo>,
    id: NodeId,
    node_type: NodeType,
) -> Map<NodeId, NodeInfo> {
    node_data.insert(
        id,
        if node_data.contains_key(id) {
            NodeInfo { node_type: Some(node_type), ..node_data[id] }
        } else {
            fresh_info(id, Some(node_type))
        },
    )
}

/// `node_data` after an acknowledgement has come over `hops`: a node counts it
/// once for each time that it occurs in the route.
pub open spec fn acked_over(
    node_data: Map<NodeId, NodeInfo>,
    hops: Seq<NodeId>,
) -> Map<NodeId, NodeInfo> {
    Map::new(
        |id: NodeId| node_data.contains_key(id),
        |id: NodeId|
            NodeInfo {
                acked_packets: (node_data[id].acked_packets + occurrences(hops, id)) as u64,
                ..node_data[id]
            },
    )
}

/// Whether every counter can take the acknowledgements of a packet over `hops`.
pub open spec fn acks_fit(node_data: Map<NodeId, NodeInfo>, hops: Seq<NodeId>) -> bool {
    forall|id: NodeId| #[trigger]
        node_data.contains_key(id) ==> node_data[id].acked_packets + occurrences(hops, id)
            <= u64::MAX
}

/// The links that two neighbours in a trace stand for: only drones pass packets on.
pub open spec fn link_by_type(
    t: Topology,
    a: (NodeId, NodeType),
    b: (NodeId, NodeType),
) -> Topology {
    match (a.1, b.1) {
        (NodeType::Drone, NodeType::Drone) => t.link(a.0, b.0).link(b.0, a.0),
        (NodeType::Drone, _) => t.link(a.0, b.0),
        (_, NodeType::Drone) => t.link(b.0, a.0),
        _ => t,
    }
}

/// The model of a list of packets, each with the node that it is for.
pub open spec fn packets_view(packets: Seq<(Packet, NodeId)>) -> Seq<(PacketView, NodeId)> {
    packets.map_values(|entry: (Packet, NodeId)| (entry.0@, entry.1))
}

/// The hops of a path, where there is one.
pub open spec fn path_view(path: Option<Vec<NodeId>>) -> Option<Seq<NodeId>> {
    match path {
        Some(hops) => Some(hops@),
        None => None,
    }
}

/// The model of a route, where there is one.
pub open spec fn route_view(route: Option<SourceRoutingHeader>) -> Option<RouteView> {
    match route {
        Some(header) => Some(header@),
        None => None,
    }
}

/// The route along a path, where there is one.
pub open spec fn route_along(path: Option<Seq<NodeId>>) -> Option<RouteView> {
    match path {
        Some(hops) => Some(RouteView { hop_index: 1, hops }),
        None => None,
    }
}

impl RoutingView {
    /// The node knows nothing.
    pub open spec fn initial(node_id: NodeId, node_type: NodeType) -> RoutingView {
        RoutingView {
            cur_flood_id: 1,
            topology: Topology::empty(),
            node_data: Map::empty(),
            node_id,
            node_type,
        }
    }

    /// The node knows its neighbours.
    pub open spec fn initial_with_neighbors(
        node_id: NodeId,
        node_type: NodeType,
        neighbors: Seq<NodeId>,
    ) -> RoutingView {
        RoutingView {
            topology: Topology::empty().link_star(node_id, neighbors),
            node_data: fresh_entries(neighbors.to_set()),
            ..RoutingView::initial(node_id, node_type)
        }
    }

    /// After a packet has come over `hops`: the way back is known.
    pub open spec fn learn_header(self, hops: Seq<NodeId>) -> RoutingView {
        RoutingView {
            topology: self.topology.link_path(hops.reverse()),
            node_data: fresh_entries(later_hops(hops)).union_prefer_right(self.node_data),
            ..self
        }
    }

    /// After two neighbours in a trace have been seen.
    pub open spec fn learn_pair(
        self,
        a: (NodeId, NodeType),
        b: (NodeId, NodeType),
    ) -> RoutingView {
        RoutingView {
            topology: link_by_type(self.topology, a, b),
            node_data: typed(typed(self.node_data, a.0, a.1), b.0, b.1),
            ..self
        }
    }

    /// After the neighbours in `trace` have been seen, in order.
    pub open spec fn learn_trace(self, trace: Seq<(NodeId, NodeType)>) -> RoutingView
        decreases trace.len(),
    {
        if trace.len() < 2 {
            self
        } else {
            self.learn_trace(trace.drop_last()).learn_pair(trace[trace.len() - 2], trace.last())
        }
    }

    /// After an acknowledged packet has come over `hops`.
    pub open spec fn count_acks(self, hops: Seq<NodeId>) -> RoutingView {
        RoutingView { node_data: acked_over(self.node_data, hops), ..self }
    }

    /// After a packet for `node_id` has been dropped.
    pub open spec fn count_drop(self, node_id: NodeId) -> RoutingView {
        if self.node_data.contains_key(node_id) {
            let info = self.node_data[node_id];
            RoutingView {
                node_data: self.node_data.insert(
                    node_id,
                    NodeInfo { dropped_packets: (info.dropped_packets + 1) as u64, ..info },
                ),
                ..self
            }
        } else {
            self
        }
    }

    /// Whether the counter of `node_id` can take a drop.
    pub open spec fn drop_fits(self, node_id: NodeId) -> bool {
        self.node_data.contains_key(node_id) ==> self.node_data[node_id].dropped_packets < u64::MAX
    }

    /// Whether the packets that `id` has passed on or dropped can be added up.
    pub open spec fn rate_fits(self, id: NodeId) -> bool {
        self.node_data.contains_key(id) ==> self.node_data[id].acked_packets
            + self.node_data[id].dropped_packets < u64::MAX
    }

    /// Whether that holds of every known node.
    pub open spec fn rates_fit(self) -> bool {
        forall|id: NodeId| #[trigger] self.node_data.contains_key(id) ==> self.rate_fits(id)
    }

    /// The share of packets that `id` has dropped.
    pub open spec fn drop_rate(self, id: NodeId) -> DropRate {
        if self.node_data.contains_key(id) {
            let info = self.node_data[id];
            (info.dropped_packets, (info.acked_packets + info.dropped_packets + 1) as u64)
        } else {
            (1, 1)
        }
    }

    /// What going along `hops` costs, by one measure.
    pub open spec fn path_cost<K>(self, measure: Measure<K>, hops: Seq<NodeId>) -> K where
        K: Copy + Debug + PartialOrd + Add<Output = K> + Default,

        decreases hops.len(),
    {
        if hops.len() < 2 {
            measure.nothing
        } else {
            plus(
                self.path_cost(measure, hops.drop_last()),
                (measure.weight)(
                    self.drop_rate(hops[hops.len() - 2]),
                    self.drop_rate(hops.last()),
                ),
            )
        }
    }

    /// Whether `path` leads from `src` to `dst`, visits no node twice, and costs
    /// no more than any other way; or is none, and there is no way.
    pub open spec fn is_best_path<K, F>(
        self,
        src: NodeId,
        dst: NodeId,
        cost: F,
        path: Option<Seq<NodeId>>,
    ) -> bool where
        K: Copy + Debug + PartialOrd + Add<Output = K> + Default,
        F: Fn(DropRate, DropRate) -> K,
     {
        match path {
            Some(hops) => {
                &&& self.topology.is_path(hops, src, dst)
                &&& hops.no_duplicates()
                &&& forall|measure: Measure<K>, other: Seq<NodeId>| #[trigger]
                    measure.measures(cost) && #[trigger] self.topology.is_path(other, src, dst)
                        ==> at_most(
                        self.path_cost(measure, hops),
                        self.path_cost(measure, other),
                    )
            },
            None => !self.topology.reachable(src, dst),
        }
    }

    /// Whether `route` goes along a best path and is held by the first node
    /// behind its start; or is none, and there is no way.
    pub open spec fn is_best_route<K, F>(
        self,
        src: NodeId,
        dst: NodeId,
        cost: F,
        route: Option<RouteView>,
    ) -> bool where
        K: Copy + Debug + PartialOrd + Add<Output = K> + Default,
        F: Fn(DropRate, DropRate) -> K,
     {
        match route {
            Some(header) => header.hop_index == 1 && self.is_best_path(
                src,
                dst,
                cost,
                Some(header.hops),
            ),
            None => self.is_best_path(src, dst, cost, None),
        }
    }

    /// After `node_id` has been forgotten.
    pub open spec fn forget(self, node_id: NodeId) -> RoutingView {
        RoutingView {
            topology: self.topology.unlink(node_id),
            node_data: self.node_data.remove(node_id),
            ..self
        }
    }

    /// After a flood has been started.
    pub open spec fn flooded(self) -> RoutingView {
        RoutingView { cur_flood_id: (self.cur_flood_id + 1) as u64, ..self }
    }

    /// The request of the next flood for one neighbour.
    pub open spec fn flood_request(self, neighbor: NodeId) -> (PacketView, NodeId) {
        (
            PacketView {
                routing_header: RouteView { hop_index: 1, hops: seq![self.node_id, neighbor] },
                session_id: self.cur_flood_id,
                pack_type: PacketTypeView::FloodRequest(
                    FloodRequestView {
                        flood_id: self.cur_flood_id,
                        initiator_id: self.node_id,
                        path_trace: seq![(self.node_id, self.node_type)],
                    },
                ),
            },
            neighbor,
        )
    }

    /// The requests of the next flood for `neighbors`.
    pub open spec fn flood_requests(self, neighbors: Seq<NodeId>) -> Seq<(PacketView, NodeId)> {
        neighbors.map_values(|neighbor: NodeId| self.flood_request(neighbor))
    }

    /// Whether a trace answers a flood of this node.
    pub open spec fn started(self, trace: Seq<(NodeId, NodeType)>) -> bool {
        trace.len() > 0 && trace[0].0 == self.node_id
    }

    /// After a flood response has come in.
    pub open spec fn learn_response(self, res: FloodResponseView) -> RoutingView {
        if self.started(res.path_trace) {
            self.learn_trace(res.path_trace)
        } else {
            self
        }
    }

    /// What is passed on of a flood response: the response itself, to the next
    /// hop, if another node started the flood and the route goes on.
    pub open spec fn passed_on(
        self,
        rh: RouteView,
        sid: u64,
        res: FloodResponseView,
    ) -> Seq<(PacketView, NodeId)> {
        if res.path_trace.len() > 0 && !self.started(res.path_trace) && rh.next_hop() is Some {
            seq![
                (
                    PacketView {
                        routing_header: rh.advanced(),
                        session_id: sid,
                        pack_type: PacketTypeView::FloodResponse(res),
                    },
                    rh.next_hop()->0,
                ),
            ]
        } else {
            Seq::empty()
        }
    }

    /// The topology is well formed, and every entry bears the id that it is found by.
    pub open spec fn well_formed(self) -> bool {
        &&& self.topology.well_formed()
        &&& forall|id: NodeId| #[trigger]
            self.node_data.contains_key(id) ==> self.node_data[id].id == id
    }
}

/// Whether two nodes are the same.
fn same_node(a: NodeId, b: NodeId) -> (same: bool)
    ensures
        same == (a == b),
{
    a == b
}

/// The estimate that says nothing.
fn no_estimate<K: Default>() -> (estimate: K)
    ensures
        call_ensures(K::default, (), estimate),
{
    K::default()
}

/// Calls `petgraph::algo::astar`, without an estimate: the path that it finds
/// starts at `src`, ends at `dst`, follows links, visits no node twice, and
/// costs no more than any other; none is found only where there is none. The
/// requirement on `cost` is what makes the search end and its result cheapest.
/// Which of several cheapest paths is found is left open: it depends on the
/// order in which links were learned and on how a heap breaks ties.
#[verifier::external_body]
fn find_path<K, F>(helper: &RoutingHelper, src: NodeId, dst: NodeId, cost: &F) -> (path: Option<
    Vec<NodeId>,
>) where
    K: Copy + Debug + PartialOrd + Add<Output = K> + Default,
    F: Fn(DropRate, DropRate) -> K,

    requires
        is_measure::<K, F>(*cost),
        helper@.rates_fit(),
    ensures
        helper@.is_best_path(src, dst, *cost, path_view(path)),
{
    petgraph::algo::astar(
        &helper.topology_graph,
        src,
        |node| same_node(node, dst),
        |link| helper.link_cost(link.0, link.1, cost),
        |_| no_estimate(),
    ).map(|found| found.1)
}

impl RoutingHelper {
    /// A helper that knows nothing.
    pub fn new(node_id: NodeId, node_type: NodeType) -> (helper: Self)
        ensures
            helper@ == RoutingView::initial(node_id, node_type),
    {
        RoutingHelper {
            cur_flood_id: 1,
            topology_graph: topology::empty_graph(),
            node_data: HashMap::new(),
            node_id,
            node_type,
        }
    }

    /// A helper that knows the neighbours of its node.
    pub fn new_with_neighbors(
        node_id: NodeId,
        node_type: NodeType,
        neighbors: Vec<NodeId>,
    ) -> (helper: Self)
        ensures
            helper@ == RoutingView::initial_with_neighbors(node_id, node_type, neighbors@),
    {
        let mut helper = RoutingHelper::new(node_id, node_type);
        assert(helper.node_data@ == fresh_entries(neighbors@.take(0).to_set()));
        for i in 0..neighbors.len()
            invariant
                helper@ == RoutingView::initial_with_neighbors(
                    node_id,
                    node_type,
                    neighbors@.take(i as int),
                ),
        {
            let neighbor = neighbors[i];
            topology::add_edge(&mut helper.topology_graph, node_id, neighbor, LINK_WEIGHT);
            helper.node_data.insert(
                neighbor,
                NodeInfo { id: neighbor, dropped_packets: 0, acked_packets: 0, node_type: None },
            );
            proof {
                let before = neighbors@.take(i as int);
                let after = neighbors@.take(i + 1);
                assert(after.drop_last() == before);
                assert(after == before.push(neighbor));
                assert(after.to_set() == before.to_set().insert(neighbor)) by {
                    assert(after[i as int] == neighbor);
                    assert forall|n: NodeId| before.contains(n) implies after.contains(n) by {
                        let k = before.index_of(n);
                        assert(after[k] == n);
                    }
                }
                assert(helper.node_data@ == fresh_entries(after.to_set()));
            }
        }
        assert(neighbors@.take(neighbors@.len() as int) == neighbors@);
        helper
    }

    /// The share of packets that `id` has dropped. A node that is not known
    /// counts as one that drops everything.
    pub fn drop_rate(&self, id: NodeId) -> (rate: DropRate)
        requires
            self@.rate_fits(id),
        ensures
            rate == self@.drop_rate(id),
    {
        match self.node_data.get(&id) {
            Some(info) => (
                info.dropped_packets,
                info.acked_packets + info.dropped_packets + 1,
            ),
            None => (1, 1),
        }
    }

    /// What `cost` makes of the link from `a` to `b`.
    pub fn link_cost<K, F>(&self, a: NodeId, b: NodeId, cost: &F) -> (result: K) where
        F: Fn(DropRate, DropRate) -> K,

        requires
            self@.rate_fits(a),
            self@.rate_fits(b),
            call_requires(*cost, (self@.drop_rate(a), self@.drop_rate(b))),
        ensures
            call_ensures(*cost, (self@.drop_rate(a), self@.drop_rate(b)), result),
    {
        cost(self.drop_rate(a), self.drop_rate(b))
    }

    /// The route along a path, held by the first node behind its start.
    pub fn source_route(path: Option<Vec<NodeId>>) -> (route: Option<SourceRoutingHeader>)
        ensures
            route_view(route) == route_along(path_view(path)),
    {
        match path {
            Some(hops) => Some(SourceRoutingHeader::new(hops, 1)),
            None => None,
        }
    }

    /// A route from `src` to `dst` that costs the least, if there is a way at
    /// all. What a link costs is what `cost` makes of the drop rates of its ends.
    pub fn generate_source_routing_header<K, F>(
        &self,
        src: NodeId,
        dst: NodeId,
        cost: &F,
    ) -> (route: Option<SourceRoutingHeader>) where
        K: Copy + Debug + PartialOrd + Add<Output = K> + Default,
        F: Fn(DropRate, DropRate) -> K,

        requires
            is_measure::<K, F>(*cost),
            self@.rates_fit(),
        ensures
            self@.is_best_route(src, dst, *cost, route_view(route)),
    {
        let path = find_path(self, src, dst, cost);
        RoutingHelper::source_route(path)
    }

    /// Counts an acknowledgement for every known node on `route`.
    pub fn report_packet_ack(&mut self, route: &SourceRoutingHeader)
        requires
            acks_fit(old(self)@.node_data, route@.hops),
        ensures
            final(self)@ == old(self)@.count_acks(route@.hops),
    {
        let ghost before = self@;
        assert(self.node_data@ == acked_over(before.node_data, route.hops@.take(0)));
        for i in 0..route.hops.len()
            invariant
                acks_fit(before.node_data, route.hops@),
                self@ == before.count_acks(route.hops@.take(i as int)),
        {
            let id = route.hops[i];
            proof {
                assert(route.hops@.take(i + 1).drop_last() == route.hops@.take(i as int));
                lemma_occurrences_grow(route.hops@, id, i + 1);
            }
            match self.node_data.get(&id) {
                Some(info) => {
                    assert(before.node_data.contains_key(id));
                    let counted = NodeInfo {
                        id: info.id,
                        dropped_packets: info.dropped_packets,
                        acked_packets: info.acked_packets + 1,
                        node_type: info.node_type,
                    };
                    self.node_data.insert(id, counted);
                },
                None => {},
            }
            assert(self.node_data@ == acked_over(before.node_data, route.hops@.take(i + 1)));
        }
        assert(route.hops@.take(route.hops@.len() as int) == route.hops@);
    }

    /// Counts a dropped packet for `node_id`, if it is known.
    pub fn report_packet_drop(&mut self, node_id: NodeId)
        requires
            old(self)@.drop_fits(node_id),
        ensures
            final(self)@ == old(self)@.count_drop(node_id),
    {
        match self.node_data.get(&node_id) {
            Some(info) => {
                let counted = NodeInfo {
                    id: info.id,
                    dropped_packets: info.dropped_packets + 1,
                    acked_packets: info.acked_packets,
                    node_type: info.node_type,
                };
                self.node_data.insert(node_id, counted);
            },
            None => {},
        }
    }

    /// Forgets a node and all its links.
    pub fn remove_node(&mut self, node_id: NodeId)
        ensures
            final(self)@ == old(self)@.forget(node_id),
    {
        self.node_data.remove(&node_id);
        topology::remove_node(&mut self.topology_graph, node_id);
    }

    /// Starts a flood: one request for each of `neighbors`.
    pub fn generate_flood_requests(&mut self, neighbors: Vec<NodeId>) -> (packets: Vec<
        (Packet, NodeId),
    >)
        requires
            old(self).cur_flood_id < u64::MAX,
        ensures
            final(self)@ == old(self)@.flooded(),
            packets_view(packets@) == old(self)@.flood_requests(neighbors@),
    {
        let mut packets: Vec<(Packet, NodeId)> = Vec::new();
        let ghost before = self@;
        for i in 0..neighbors.len()
            invariant
                self@ == before,
                packets_view(packets@) == before.flood_requests(neighbors@.take(i as int)),
        {
            let neighbor = neighbors[i];
            let mut hops: Vec<NodeId> = Vec::new();
            hops.push(self.node_id);
            hops.push(neighbor);
            let header = SourceRoutingHeader::new(hops, 1);
            let packet = Packet::new_flood_request(
                header,
                self.cur_flood_id,
                FloodRequest::initialize(self.cur_flood_id, self.node_id, self.node_type),
            );
            assert((packet@, neighbor) == before.flood_request(neighbor)) by {
                assert(hops@ == seq![self.node_id, neighbor]);
            }
            let ghost made = packets@;
            packets.push((packet, neighbor));
            assert(neighbors@.take(i + 1) == neighbors@.take(i as int).push(neighbor));
            assert(packets_view(packets@) == packets_view(made).push((packet@, neighbor)));
            assert(packets_view(packets@) == before.flood_requests(neighbors@.take(i + 1)));
        }
        assert(neighbors@.take(neighbors@.len() as int) == neighbors@);
        self.cur_flood_id = self.cur_flood_id + 1;
        packets
    }

    /// Notes the type of `id`, which may be new.
    fn set_type(&mut self, id: NodeId, node_type: NodeType)
        ensures
            final(self)@ == (RoutingView {
                node_data: typed(old(self)@.node_data, id, node_type),
                ..old(self)@
            }),
    {
        let info = match self.node_data.get(&id) {
            Some(info) => NodeInfo {
                id: info.id,
                dropped_packets: info.dropped_packets,
                acked_packets: info.acked_packets,
                node_type: Some(node_type),
            },
            None => NodeInfo {
                id,
                dropped_packets: 0,
                acked_packets: 0,
                node_type: Some(node_type),
            },
        };
        self.node_data.insert(id, info);
    }

    /// Notes the link from `a` to `b`.
    fn add_link(&mut self, a: NodeId, b: NodeId)
        ensures
            final(self)@ == (RoutingView {
                topology: old(self)@.topology.link(a, b),
                ..old(self)@
            }),
    {
        topology::add_edge(&mut self.topology_graph, a, b, LINK_WEIGHT);
    }

    /// Learns from the response to a flood of this node, or says where to pass
    /// the response to a flood of another node.
    pub fn handle_flood_response(
        &mut self,
        mut rh: SourceRoutingHeader,
        sid: u64,
        pkt: &mut FloodResponse,
    ) -> (packets: Vec<(Packet, NodeId)>)
        ensures
            final(pkt)@ == old(pkt)@,
            final(self)@ == old(self)@.learn_response(old(pkt)@),
            packets_view(packets@) == old(self)@.passed_on(rh@, sid, old(pkt)@),
    {
        let ghost before = self@;
        let ghost route = rh@;
        let mut packets: Vec<(Packet, NodeId)> = Vec::new();
        if pkt.path_trace.len() == 0 {
            return packets;
        }
        if pkt.path_trace[0].0 == self.node_id {
            let trace = &pkt.path_trace;
            for i in 1..trace.len()
                invariant
                    self@ == before.learn_trace(trace@.take(i as int)),
            {
                let (id_a, typ_a) = trace[i - 1];
                let (id_b, typ_b) = trace[i];
                let ghost start = self@;
                self.set_type(id_a, typ_a);
                self.set_type(id_b, typ_b);
                if typ_a == NodeType::Drone && typ_b == NodeType::Drone {
                    self.add_link(id_a, id_b);
                    self.add_link(id_b, id_a);
                } else if typ_a == NodeType::Drone {
                    self.add_link(id_a, id_b);
                } else if typ_b == NodeType::Drone {
                    self.add_link(id_b, id_a);
                }
                assert(self@ == start.learn_pair(trace@[i - 1], trace@[i as int]));
                assert(trace@.take(i + 1).drop_last() == trace@.take(i as int));
            }
            assert(trace@.take(trace@.len() as int) == trace@);
        } else if let Some(nh) = rh.next_hop() {
            assert(rh.hops.len() <= usize::MAX);
            rh.increase_hop_index();
            let p = Packet::new_flood_response(rh, sid, pkt.clone());
            packets.push((p, nh));
        }
        packets
    }

    /// Forgets all links. What is known of the nodes themselves stays.
    pub fn reset_topology(&mut self)
        ensures
            final(self)@ == (RoutingView { topology: Topology::empty(), ..old(self)@ }),
    {
        topology::clear(&mut self.topology_graph);
    }

    /// Learns the way back from the route of an incoming packet. The types of
    /// its hops are not known yet: a flood response will tell them.
    pub fn add_from_incoming_routing_header(&mut self, header: &SourceRoutingHeader)
        ensures
            final(self)@ == old(self)@.learn_header(header@.hops),
    {
        let n: usize = header.hops.len();
        let ghost before = self@;
        let ghost hops = header.hops@;
        let ghost back = hops.reverse();
        if n == 0 {
            assert(self@ == before.learn_header(hops));
            return;
        }
        assert(self.node_data@ == fresh_entries(later_hops_from(hops, n as int)).union_prefer_right(
            before.node_data,
        ));
        for i in 1..n
            invariant
                n == hops.len(),
                hops == header.hops@,
                back == hops.reverse(),
                self@ == (RoutingView {
                    topology: before.topology.link_path(back.take(i as int)),
                    node_data: fresh_entries(later_hops_from(hops, n - i + 1)).union_prefer_right(
                        before.node_data,
                    ),
                    ..before
                }),
        {
            let a = header.hops[n - i];
            let b = header.hops[n - i - 1];
            self.add_link(a, b);
            if !self.node_data.contains_key(&a) {
                self.node_data.insert(
                    a,
                    NodeInfo { id: a, dropped_packets: 0, acked_packets: 0, node_type: None },
                );
            }
            proof {
                assert(back.take(i + 1).drop_last() == back.take(i as int));
                assert(back[i - 1] == a && back[i as int] == b);
                assert(hops[n - i] == a);
                assert(self.node_data@ == fresh_entries(
                    later_hops_from(hops, n - i),
                ).union_prefer_right(before.node_data));
            }
        }
        assert(back.take(n as int) == back);
        assert(later_hops_from(hops, 1) == later_hops(hops));
    }
}

/// What a node drops is a share between nothing and everything.
pub proof fn law_drop_rate_is_rate(view: RoutingView, id: NodeId)
    requires
        view.rate_fits(id),
    ensures
        is_rate(view.drop_rate(id)),
{
}

/// A node occurs no more often than there are hops.
pub(crate) proof fn lemma_occurrences_bounded(hops: Seq<NodeId>, id: NodeId)
    ensures
        occurrences(hops, id) <= hops.len(),
    decreases hops.len(),
{
    if hops.len() > 0 {
        lemma_occurrences_bounded(hops.drop_last(), id);
    }
}

/// A part of a route holds no node more often than the whole.
proof fn lemma_occurrences_grow(hops: Seq<NodeId>, id: NodeId, n: int)
    requires
        0 <= n <= hops.len(),
    ensures
        occurrences(hops.take(n), id) <= occurrences(hops, id),
    decreases hops.len(),
{
    if n < hops.len() {
        assert(hops.drop_last().take(n) == hops.take(n));
        lemma_occurrences_grow(hops.drop_last(), id, n);
    } else {
        assert(hops.take(n) == hops);
    }
}

} // verus!
