use chat_common::cost::DropRate;
use chat_common::network::{NodeId, NodeType, SourceRoutingHeader};
use chat_common::packet::{FloodResponse, PacketType};
use chat_common::packet_handling::routing::{NodeInfo, RoutingHelper};

fn pdr(a: DropRate, b: DropRate) -> f64 {
    a.0 as f64 / a.1 as f64 + b.0 as f64 / b.1 as f64
}

fn header(hops: &[NodeId]) -> SourceRoutingHeader {
    SourceRoutingHeader::new(hops.to_vec(), 1)
}

fn edges(helper: &RoutingHelper) -> Vec<(NodeId, NodeId)> {
    let mut edges: Vec<(NodeId, NodeId)> =
        helper.topology_graph.all_edges().map(|(a, b, _)| (a, b)).collect();
    edges.sort();
    edges
}

fn response(trace: &[(NodeId, NodeType)]) -> FloodResponse {
    FloodResponse { flood_id: 9, path_trace: trace.to_vec() }
}

#[test]
fn new_helper_is_empty() {
    let helper = RoutingHelper::new(4, NodeType::Server);
    assert_eq!(helper.cur_flood_id, 1);
    assert_eq!(helper.node_id, 4);
    assert_eq!(helper.node_type, NodeType::Server);
    assert_eq!(helper.topology_graph.node_count(), 0);
    assert_eq!(helper.topology_graph.edge_count(), 0);
    assert!(helper.node_data.is_empty());
}

#[test]
fn neighbors_are_linked_one_way() {
    let helper = RoutingHelper::new_with_neighbors(1, NodeType::Client, vec![5, 3]);
    assert_eq!(edges(&helper), vec![(1, 3), (1, 5)]);
    assert_eq!(helper.topology_graph.nodes().collect::<Vec<_>>(), vec![1, 5, 3]);
    let info = NodeInfo { id: 3, dropped_packets: 0, acked_packets: 0, node_type: None };
    assert_eq!(helper.node_data.get(&3), Some(&info));
    assert_eq!(helper.node_data.get(&1), None);
}

#[test]
fn header_teaches_the_way_back() {
    let mut helper = RoutingHelper::new(3, NodeType::Client);
    helper.add_from_incoming_routing_header(&header(&[1, 2, 3]));
    assert_eq!(edges(&helper), vec![(2, 1), (3, 2)]);
    assert!(helper.node_data.contains_key(&3));
    assert!(helper.node_data.contains_key(&2));
    assert!(!helper.node_data.contains_key(&1));
    let route = helper.generate_source_routing_header(3, 1, &pdr).unwrap();
    assert_eq!(route, SourceRoutingHeader::new(vec![3, 2, 1], 1));
}

#[test]
fn header_keeps_what_is_known() {
    let mut helper = RoutingHelper::new_with_neighbors(1, NodeType::Client, vec![2]);
    helper.report_packet_drop(2);
    helper.add_from_incoming_routing_header(&header(&[9, 2, 1]));
    assert_eq!(helper.node_data[&2].dropped_packets, 1);
    helper.add_from_incoming_routing_header(&header(&[]));
    helper.add_from_incoming_routing_header(&header(&[7]));
    assert_eq!(edges(&helper), vec![(1, 2), (2, 9)]);
}

#[test]
fn no_way_no_route() {
    let helper = RoutingHelper::new_with_neighbors(1, NodeType::Client, vec![2]);
    assert_eq!(helper.generate_source_routing_header(1, 9, &pdr), None);
    assert_eq!(helper.generate_source_routing_header(2, 1, &pdr), None);
    let here = helper.generate_source_routing_header(7, 7, &pdr).unwrap();
    assert_eq!(here.hops, vec![7]);
}

#[test]
fn route_avoids_what_drops_packets() {
    let mut helper = RoutingHelper::new(1, NodeType::Client);
    helper.add_from_incoming_routing_header(&header(&[4, 2, 1]));
    helper.add_from_incoming_routing_header(&header(&[4, 3, 1]));
    helper.report_packet_drop(2);
    let route = helper.generate_source_routing_header(1, 4, &pdr).unwrap();
    assert_eq!(route.hops, vec![1, 3, 4]);
    helper.report_packet_drop(3);
    helper.report_packet_drop(3);
    let route = helper.generate_source_routing_header(1, 4, &pdr).unwrap();
    assert_eq!(route.hops, vec![1, 2, 4]);
    assert_eq!(route.hop_index, 1);
}

#[test]
fn acknowledgements_make_a_link_cheaper() {
    let mut helper = RoutingHelper::new(1, NodeType::Client);
    helper.add_from_incoming_routing_header(&header(&[4, 2, 1]));
    helper.add_from_incoming_routing_header(&header(&[4, 3, 1]));
    helper.report_packet_drop(2);
    helper.report_packet_drop(3);
    for _ in 0..3 {
        helper.report_packet_ack(&header(&[4, 3, 1]));
    }
    assert_eq!(helper.drop_rate(3), (1, 5));
    assert_eq!(helper.drop_rate(2), (1, 2));
    assert_eq!(helper.drop_rate(200), (1, 1));
    assert_eq!(helper.link_cost(2, 3, &pdr), 0.7);
    let route = helper.generate_source_routing_header(1, 4, &pdr).unwrap();
    assert_eq!(route.hops, vec![1, 3, 4]);
}

#[test]
fn costs_may_be_integers() {
    let mut helper = RoutingHelper::new(1, NodeType::Client);
    helper.add_from_incoming_routing_header(&header(&[4, 2, 1]));
    helper.add_from_incoming_routing_header(&header(&[4, 5, 3, 1]));
    let hops = |_: DropRate, _: DropRate| 1u64;
    let route = helper.generate_source_routing_header(1, 4, &hops).unwrap();
    assert_eq!(route.hops, vec![1, 2, 4]);
}

#[test]
fn acks_count_every_occurrence() {
    let mut helper = RoutingHelper::new_with_neighbors(1, NodeType::Client, vec![2, 3]);
    assert!(helper.check_acks(&header(&[2, 3, 2, 8])));
    helper.report_packet_ack(&header(&[2, 3, 2, 8]));
    assert_eq!(helper.node_data[&2].acked_packets, 2);
    assert_eq!(helper.node_data[&3].acked_packets, 1);
    assert!(!helper.node_data.contains_key(&8));
}

#[test]
fn drops_count_known_nodes_only() {
    let mut helper = RoutingHelper::new_with_neighbors(1, NodeType::Client, vec![2]);
    helper.report_packet_drop(2);
    helper.report_packet_drop(8);
    assert_eq!(helper.node_data[&2].dropped_packets, 1);
    assert_eq!(helper.node_data.len(), 1);
}

#[test]
fn counters_are_checked() {
    let mut helper = RoutingHelper::new_with_neighbors(1, NodeType::Client, vec![2]);
    assert!(helper.check_drop(2) && helper.check_rates());
    helper.node_data.get_mut(&2).unwrap().dropped_packets = u64::MAX;
    assert!(!helper.check_drop(2));
    assert!(helper.check_drop(3));
    assert!(!helper.check_rates());
    let info = helper.node_data.get_mut(&2).unwrap();
    info.dropped_packets = 0;
    info.acked_packets = u64::MAX - 1;
    assert!(helper.check_rates());
    assert!(helper.check_acks(&header(&[2])));
    assert!(!helper.check_acks(&header(&[2, 2])));
}

#[test]
fn forgotten_node_is_avoided() {
    let mut helper = RoutingHelper::new(1, NodeType::Client);
    helper.add_from_incoming_routing_header(&header(&[4, 2, 1]));
    helper.add_from_incoming_routing_header(&header(&[4, 5, 3, 1]));
    helper.remove_node(2);
    assert_eq!(edges(&helper), vec![(1, 3), (3, 5), (5, 4)]);
    assert!(!helper.node_data.contains_key(&2));
    let route = helper.generate_source_routing_header(1, 4, &pdr).unwrap();
    assert_eq!(route.hops, vec![1, 3, 5, 4]);
    assert_eq!(helper.topology_graph.nodes().collect::<Vec<_>>(), vec![1, 5, 4, 3]);
    helper.remove_node(99);
    assert_eq!(helper.topology_graph.node_count(), 4);
}

#[test]
fn reset_keeps_the_nodes() {
    let mut helper = RoutingHelper::new_with_neighbors(1, NodeType::Client, vec![2]);
    helper.reset_topology();
    assert_eq!(helper.topology_graph.node_count(), 0);
    assert_eq!(helper.topology_graph.edge_count(), 0);
    assert!(helper.node_data.contains_key(&2));
}

#[test]
fn flood_requests_go_to_each_neighbor() {
    let mut helper = RoutingHelper::new(1, NodeType::Client);
    let packets = helper.generate_flood_requests(vec![7, 5]);
    assert_eq!(packets.len(), 2);
    assert_eq!((packets[0].1, packets[1].1), (7, 5));
    let packet = &packets[1].0;
    assert_eq!(packet.routing_header, SourceRoutingHeader::new(vec![1, 5], 1));
    assert_eq!(packet.session_id, 1);
    match &packet.pack_type {
        PacketType::FloodRequest(req) => {
            assert_eq!(req.flood_id, 1);
            assert_eq!(req.initiator_id, 1);
            assert_eq!(req.path_trace, vec![(1, NodeType::Client)]);
        }
        other => panic!("{other:?}"),
    }
    assert_eq!(helper.cur_flood_id, 2);
    assert!(helper.generate_flood_requests(vec![]).is_empty());
    assert_eq!(helper.cur_flood_id, 3);
}

#[test]
fn response_teaches_links_of_drones() {
    let mut helper = RoutingHelper::new(1, NodeType::Client);
    let mut res = response(&[
        (1, NodeType::Client),
        (2, NodeType::Drone),
        (3, NodeType::Drone),
        (4, NodeType::Server),
        (5, NodeType::Client),
    ]);
    let packets = helper.handle_flood_response(header(&[4, 3, 2, 1]), 8, &mut res);
    assert!(packets.is_empty());
    assert_eq!(edges(&helper), vec![(2, 1), (2, 3), (3, 2), (3, 4)]);
    assert_eq!(helper.node_data[&4].node_type, Some(NodeType::Server));
    assert_eq!(helper.node_data[&5].node_type, Some(NodeType::Client));
    assert_eq!(helper.node_data[&3].node_type, Some(NodeType::Drone));
}

#[test]
fn response_keeps_the_counters() {
    let mut helper = RoutingHelper::new_with_neighbors(1, NodeType::Client, vec![2]);
    helper.report_packet_drop(2);
    let mut res = response(&[(1, NodeType::Client), (2, NodeType::Drone)]);
    helper.handle_flood_response(header(&[2, 1]), 8, &mut res);
    let info = helper.node_data[&2];
    assert_eq!((info.dropped_packets, info.node_type), (1, Some(NodeType::Drone)));
}

#[test]
fn short_traces_teach_nothing() {
    let mut helper = RoutingHelper::new(1, NodeType::Client);
    let empty = helper.handle_flood_response(header(&[2, 1, 3]), 8, &mut response(&[]));
    assert!(empty.is_empty());
    let mut res = response(&[(1, NodeType::Client)]);
    assert!(helper.handle_flood_response(header(&[2, 1, 3]), 8, &mut res).is_empty());
    assert!(helper.node_data.is_empty());
}

#[test]
fn foreign_response_is_passed_on() {
    let mut helper = RoutingHelper::new(2, NodeType::Client);
    let mut res = response(&[(1, NodeType::Client), (2, NodeType::Client)]);
    let packets = helper.handle_flood_response(header(&[3, 2, 1]), 8, &mut res);
    assert_eq!(packets.len(), 1);
    assert_eq!(packets[0].1, 1);
    assert_eq!(packets[0].0.routing_header, SourceRoutingHeader::new(vec![3, 2, 1], 2));
    assert_eq!(packets[0].0.session_id, 8);
    assert_eq!(packets[0].0.pack_type, PacketType::FloodResponse(res.clone()));
    assert!(helper.node_data.is_empty());
    assert!(helper.handle_flood_response(header(&[3, 2]), 8, &mut res).is_empty());
}

#[test]
fn routes() {
    let mut route = SourceRoutingHeader::new(vec![1, 2, 3], 1);
    assert_eq!(route.source(), Some(1));
    assert_eq!(route.next_hop(), Some(3));
    route.increase_hop_index();
    assert_eq!(route.next_hop(), None);
    assert_eq!(route.hop_index, 2);
    assert!(!route.is_empty_route());
    let empty = SourceRoutingHeader::empty_route();
    assert!(empty.is_empty_route());
    assert_eq!((empty.source(), empty.next_hop()), (None, None));
    assert!(!SourceRoutingHeader::new(vec![], 1).is_empty_route());
}
