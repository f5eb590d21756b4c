use chat_common::cost::DropRate;
use chat_common::network::{NodeId, NodeType, SourceRoutingHeader};
use chat_common::packet::{
    Ack, FloodRequest, FloodResponse, Fragment, Nack, NackType, Packet, PacketType,
};
use chat_common::packet_handling::fragment::fragment;
use chat_common::packet_handling::handling_steps::Transmission;
use chat_common::packet_handling::{Leftover, PacketHandler};

fn pdr(a: DropRate, b: DropRate) -> f64 {
    a.0 as f64 / a.1 as f64 + b.0 as f64 / b.1 as f64
}

fn header(hops: &[NodeId]) -> SourceRoutingHeader {
    SourceRoutingHeader::new(hops.to_vec(), 1)
}

fn packet(hops: &[NodeId], session_id: u64, pack_type: PacketType) -> Packet {
    Packet { routing_header: header(hops), session_id, pack_type }
}

fn queue(node: &PacketHandler) -> Vec<(Packet, NodeId)> {
    node.tx_queue_packets.iter().cloned().collect()
}

fn client() -> PacketHandler {
    PacketHandler::new_node(1, NodeType::Client, vec![2])
}

fn message(n: usize) -> Vec<u8> {
    (0..n).map(|i| (i % 250) as u8).collect()
}

fn nack(nack_type: NackType, fragment_index: u64) -> PacketType {
    PacketType::Nack(Nack { fragment_index, nack_type })
}

fn take(node: &mut PacketHandler, packet: Packet) -> Leftover {
    assert!(node.check_packet(&packet));
    node.handle_packet(packet, false, &vec![2])
}

fn unrouted(session_id: u64, frag: Fragment) -> Packet {
    Packet::new_fragment(SourceRoutingHeader::empty_route(), session_id, frag)
}

#[test]
fn new_node_wants_a_flood() {
    let node = client();
    assert!(node.flood_flag);
    assert_eq!((node.node_id, node.cur_session_id), (1, 1));
    assert!(node.tx_queue_packets.is_empty());
    assert!(node.sent_fragments.is_empty() && node.rx_queue.is_empty());
    assert!(node.routing_helper.topology_graph.contains_edge(1, 2));
}

#[test]
fn flood_once() {
    let mut node = client();
    let mut busy = false;
    node.do_flood(vec![2, 3], &mut busy);
    assert!(busy && !node.flood_flag);
    let targets: Vec<NodeId> = queue(&node).iter().map(|x| x.1).collect();
    assert_eq!(targets, vec![2, 3]);
    assert_eq!(node.routing_helper.cur_flood_id, 2);
    busy = false;
    node.do_flood(vec![2, 3], &mut busy);
    assert!(!busy);
    assert_eq!(queue(&node).len(), 2);
}

#[test]
fn message_becomes_a_session() {
    let mut node = client();
    let bytes = message(200);
    node.send_msg(&bytes, 9);
    let frags = fragment(&bytes);
    assert_eq!(node.cur_session_id, 2);
    assert_eq!(node.sent_fragments[&2], (9, frags.clone()));
    assert_eq!(queue(&node), vec![(unrouted(2, frags[0]), 9), (unrouted(2, frags[1]), 9)]);
}

#[test]
fn messages_become_sessions_in_order() {
    let mut node = client();
    node.send_messages(vec![(9, vec![1]), (8, vec![2, 3])]);
    assert_eq!(node.cur_session_id, 3);
    assert_eq!(node.sent_fragments[&2].0, 9);
    assert_eq!(node.sent_fragments[&3], (8, fragment(&[2, 3])));
    let targets: Vec<NodeId> = queue(&node).iter().map(|x| x.1).collect();
    assert_eq!(targets, vec![9, 8]);
}

#[test]
fn message_arrives_in_order() {
    let mut node = client();
    let bytes = message(300);
    let mut busy = false;
    for frag in fragment(&bytes) {
        assert!(node.recieve_fragments_from_queue(&mut busy).is_empty());
        take(&mut node, packet(&[7, 2, 1], 5, PacketType::MsgFragment(frag)));
    }
    assert!(busy && node.check_messages());
    let acks: Vec<(Packet, NodeId)> = (0..3)
        .map(|i| (Packet::new_ack(SourceRoutingHeader::empty_route(), 5, i), 7))
        .collect();
    assert_eq!(queue(&node), acks);
    assert_eq!(node.recieve_fragments_from_queue(&mut busy), vec![bytes]);
    assert!(node.rx_queue.is_empty());
    busy = false;
    assert!(node.recieve_fragments_from_queue(&mut busy).is_empty());
    assert!(!busy);
    assert_eq!(node.routing_helper.node_data[&2].acked_packets, 3);
    assert!(node.routing_helper.topology_graph.contains_edge(2, 7));
}

#[test]
fn sessions_and_senders_stay_apart() {
    let mut node = client();
    let frags = fragment(&message(200));
    take(&mut node, packet(&[7, 2, 1], 5, PacketType::MsgFragment(frags[0])));
    take(&mut node, packet(&[7, 2, 1], 6, PacketType::MsgFragment(frags[0])));
    take(&mut node, packet(&[8, 2, 1], 5, PacketType::MsgFragment(frags[0])));
    assert_eq!(node.rx_queue.len(), 3);
    take(&mut node, packet(&[8, 2, 1], 5, PacketType::MsgFragment(frags[1])));
    let mut busy = false;
    assert_eq!(node.recieve_fragments_from_queue(&mut busy), vec![message(200)]);
    assert_eq!(node.rx_queue.len(), 2);
}

#[test]
fn repeated_fragment_is_put_in_again() {
    let mut node = client();
    let frags = fragment(&message(130));
    for frag in [frags[0], frags[0], frags[1]] {
        take(&mut node, packet(&[7, 2, 1], 5, PacketType::MsgFragment(frag)));
    }
    let (stored, missing) = node.rx_queue.values().next().unwrap();
    assert!(missing.is_empty());
    assert_eq!(*stored, vec![frags[0], frags[1], frags[0]]);
}

#[test]
fn fragments_that_are_left_out() {
    let mut node = client();
    let mut frag = fragment(&[1])[0];
    take(&mut node, packet(&[], 5, PacketType::MsgFragment(frag)));
    frag.fragment_index = 1;
    take(&mut node, packet(&[7, 2, 1], 5, PacketType::MsgFragment(frag)));
    assert!(node.rx_queue.is_empty() && node.tx_queue_packets.is_empty());
    assert!(node.routing_helper.topology_graph.contains_edge(2, 7));
}

#[test]
fn packets_that_cannot_be_taken() {
    let mut node = client();
    let frags = fragment(&message(300));
    let early = packet(&[7, 2, 1], 5, PacketType::MsgFragment(frags[1]));
    assert!(!node.check_packet(&early));
    take(&mut node, packet(&[7, 2, 1], 5, PacketType::MsgFragment(frags[0])));
    assert!(node.check_packet(&early));
    let mut frag = frags[0];
    frag.fragment_index = u64::MAX;
    assert!(!node.check_packet(&packet(&[7, 2, 1], 5, PacketType::MsgFragment(frag))));
    frag = frags[0];
    frag.total_n_fragments = u64::MAX;
    assert!(!node.check_packet(&packet(&[8, 2, 1], 5, PacketType::MsgFragment(frag))));
    assert!(node.check_packet(&packet(&[7, 2, 1], 5, PacketType::MsgFragment(frag))));
    node.send_msg(&[1], 2);
    node.routing_helper.node_data.get_mut(&2).unwrap().dropped_packets = u64::MAX;
    assert!(!node.check_packet(&packet(&[3, 1], 2, nack(NackType::Dropped, 0))));
    assert!(node.check_packet(&packet(&[3, 1], 9, nack(NackType::Dropped, 0))));
}

#[test]
fn long_lengths_cannot_be_put_together() {
    let mut node = client();
    let mut frag = fragment(&[1])[0];
    frag.length = 200;
    take(&mut node, packet(&[7, 2, 1], 5, PacketType::MsgFragment(frag)));
    assert!(!node.check_messages());
}

#[test]
fn acks_end_a_session_in_any_order() {
    let mut node = client();
    node.send_msg(&message(300), 9);
    for index in [2, 0] {
        let ack = PacketType::Ack(Ack { fragment_index: index });
        take(&mut node, packet(&[9, 2, 1], 2, ack));
    }
    let left: Vec<u64> = node.sent_fragments[&2].1.iter().map(|f| f.fragment_index).collect();
    assert_eq!(left, vec![1]);
    take(&mut node, packet(&[9, 2, 1], 2, PacketType::Ack(Ack { fragment_index: 1 })));
    assert!(node.sent_fragments.is_empty());
}

#[test]
fn acks_of_others_end_nothing() {
    let mut node = client();
    node.send_msg(&[1], 9);
    let ack = PacketType::Ack(Ack { fragment_index: 0 });
    take(&mut node, packet(&[8, 2, 1], 2, ack.clone()));
    take(&mut node, packet(&[], 2, ack.clone()));
    take(&mut node, packet(&[9, 2, 1], 3, ack.clone()));
    assert_eq!(node.sent_fragments.len(), 1);
    node.handle_packet(packet(&[9, 6, 1], 2, ack), true, &vec![2]);
    assert!(node.sent_fragments.is_empty());
    assert!(!node.routing_helper.topology_graph.contains_node(6));
}

#[test]
fn dropped_fragment_is_sent_again() {
    let mut node = client();
    node.send_msg(&message(300), 2);
    node.tx_queue_packets.clear();
    take(&mut node, packet(&[3, 1], 2, nack(NackType::Dropped, 1)));
    let frag = fragment(&message(300))[1];
    assert_eq!(queue(&node), vec![(unrouted(2, frag), 2)]);
    assert_eq!(node.routing_helper.node_data[&2].dropped_packets, 1);
    take(&mut node, packet(&[3, 1], 2, nack(NackType::Dropped, 7)));
    take(&mut node, packet(&[3, 1], 8, nack(NackType::Dropped, 0)));
    assert_eq!(queue(&node).len(), 1);
    assert_eq!(node.routing_helper.node_data[&2].dropped_packets, 2);
}

#[test]
fn place_counts_once_something_is_acknowledged() {
    let mut node = client();
    node.send_msg(&message(300), 2);
    node.tx_queue_packets.clear();
    take(&mut node, packet(&[2, 1], 2, PacketType::Ack(Ack { fragment_index: 0 })));
    take(&mut node, packet(&[3, 1], 2, nack(NackType::Dropped, 1)));
    let frag = fragment(&message(300))[2];
    assert_eq!(queue(&node), vec![(unrouted(2, frag), 2)]);
}

#[test]
fn error_in_routing_forgets_the_node() {
    let mut node = client();
    node.flood_flag = false;
    take(&mut node, packet(&[3, 1], 2, nack(NackType::ErrorInRouting(2), 0)));
    assert!(node.flood_flag);
    assert!(!node.routing_helper.topology_graph.contains_node(2));
    assert!(!node.routing_helper.topology_graph.contains_node(3));
    assert!(node.routing_helper.node_data.is_empty());
}

#[test]
fn other_nacks_change_nothing() {
    let mut node = client();
    node.flood_flag = false;
    take(&mut node, packet(&[3, 1], 2, nack(NackType::DestinationIsDrone, 0)));
    take(&mut node, packet(&[3, 1], 2, nack(NackType::UnexpectedRecipient(4), 0)));
    assert!(!node.flood_flag);
    assert!(!node.routing_helper.topology_graph.contains_node(3));
    assert!(node.tx_queue_packets.is_empty());
}

#[test]
fn flood_request_is_left_over() {
    let mut node = client();
    let req = FloodRequest::initialize(3, 7, NodeType::Server);
    let incoming = packet(&[7, 1], 3, PacketType::FloodRequest(req));
    assert_eq!(take(&mut node, incoming.clone()), Leftover::FloodRequest(incoming));
    assert!(node.routing_helper.topology_graph.contains_edge(1, 7));
}

#[test]
fn flood_response_names_clients_and_servers() {
    let mut node = client();
    let res = FloodResponse {
        flood_id: 1,
        path_trace: vec![
            (1, NodeType::Client),
            (2, NodeType::Drone),
            (5, NodeType::Server),
        ],
    };
    let incoming = packet(&[5, 2, 1], 1, PacketType::FloodResponse(res));
    assert_eq!(
        take(&mut node, incoming),
        Leftover::FloodResponse(vec![], vec![(5, NodeType::Server)])
    );
}

#[test]
fn foreign_flood_response_is_passed_on_if_connected() {
    let mut node = client();
    let res = FloodResponse { flood_id: 1, path_trace: vec![(2, NodeType::Client)] };
    let incoming = packet(&[5, 1, 2], 1, PacketType::FloodResponse(res.clone()));
    let mut passed = incoming.clone();
    passed.routing_header.hop_index = 2;
    let sent = Transmission { via: 2, packet: passed.clone(), reported: passed };
    assert_eq!(take(&mut node, incoming), Leftover::FloodResponse(vec![sent], vec![]));
    let lost = packet(&[5, 1, 4], 1, PacketType::FloodResponse(res));
    assert_eq!(take(&mut node, lost), Leftover::FloodResponse(vec![], vec![]));
}

#[test]
fn routed_packets_leave_for_connected_neighbours() {
    let mut node = client();
    let mut busy = false;
    node.do_flood(vec![2, 3], &mut busy);
    let queued = queue(&node);
    busy = false;
    let sent = node.send_packets(&vec![2], &pdr, &mut busy);
    assert!(busy);
    assert_eq!(sent.len(), 1);
    assert_eq!((sent[0].via, &sent[0].packet), (2, &queued[0].0));
    assert_eq!(sent[0].reported, queued[0].0);
    assert_eq!(queue(&node), vec![queued[1].clone()]);
    assert!(!node.flood_flag);
}

#[test]
fn unrouted_packets_get_a_route() {
    let mut node = client();
    node.routing_helper.add_from_incoming_routing_header(&header(&[9, 3, 2, 1]));
    node.flood_flag = false;
    node.send_msg(&[1], 9);
    let queued = queue(&node);
    let mut busy = false;
    let sent = node.send_packets(&vec![2, 3], &pdr, &mut busy);
    assert_eq!(sent.len(), 1);
    assert_eq!(sent[0].via, 3);
    assert_eq!(sent[0].packet.routing_header, SourceRoutingHeader::new(vec![1, 2, 3, 9], 1));
    assert_eq!(sent[0].packet.pack_type, queued[0].0.pack_type);
    assert_eq!(sent[0].reported, queued[0].0);
    assert!(node.tx_queue_packets.is_empty() && !node.flood_flag);
}

#[test]
fn lost_next_hop_is_forgotten() {
    let mut node = client();
    node.routing_helper.add_from_incoming_routing_header(&header(&[9, 3, 2, 1]));
    node.flood_flag = false;
    node.send_msg(&[1], 9);
    let queued = queue(&node);
    let mut busy = false;
    assert!(node.send_packets(&vec![2], &pdr, &mut busy).is_empty());
    assert!(node.flood_flag);
    assert!(!node.routing_helper.topology_graph.contains_node(3));
    assert!(!node.routing_helper.node_data.contains_key(&3));
    assert_eq!(queue(&node), queued);
}

#[test]
fn packets_without_a_way_wait() {
    let mut node = client();
    node.flood_flag = false;
    node.send_msg(&[1], 9);
    node.send_msg(&[1], 1);
    let queued = queue(&node);
    let mut busy = false;
    assert!(node.send_packets(&vec![2], &pdr, &mut busy).is_empty());
    assert_eq!(queue(&node), queued);
    assert!(!node.flood_flag);
    node.tx_queue_packets.clear();
    busy = false;
    assert!(node.send_packets(&vec![2], &pdr, &mut busy).is_empty());
    assert!(!busy);
}

#[test]
fn one_packet() {
    let mut node = client();
    let p = unrouted(4, fragment(&[1])[0]);
    assert_eq!(node.send_packet(p.clone(), 9, None, &vec![2]), Err(p.clone()));
    let short = Some(header(&[1, 2]));
    assert_eq!(node.send_packet(p.clone(), 2, short, &vec![2]), Err(p.clone()));
    let route = Some(header(&[1, 5, 2]));
    let sent = node.send_packet(p.clone(), 2, route, &vec![2]).unwrap();
    assert_eq!((sent.via, sent.reported), (2, p));
}

#[test]
fn neighbours_come_and_go() {
    let mut node = client();
    node.flood_flag = false;
    node.routing_helper.report_packet_drop(2);
    node.add_sender(2);
    assert!(node.flood_flag);
    assert_eq!(node.routing_helper.node_data[&2].dropped_packets, 0);
    node.add_sender(6);
    assert!(node.routing_helper.topology_graph.contains_edge(1, 6));
    node.flood_flag = false;
    node.remove_sender(6);
    assert!(node.flood_flag);
    assert!(!node.routing_helper.topology_graph.contains_node(6));
    assert!(!node.routing_helper.node_data.contains_key(&6));
}

#[test]
fn message_round_trip() {
    let mut sender = client();
    let mut receiver = PacketHandler::new_node(9, NodeType::Server, vec![2]);
    let bytes = message(300);
    sender.send_msg(&bytes, 9);
    for (mut p, id) in queue(&sender) {
        assert_eq!(id, 9);
        p.routing_header = header(&[1, 2, 9]);
        take(&mut receiver, p);
    }
    let mut busy = false;
    assert_eq!(receiver.recieve_fragments_from_queue(&mut busy), vec![bytes]);
    assert_eq!(sender.sent_fragments.len(), 1);
    for (mut p, id) in queue(&receiver) {
        assert_eq!(id, 1);
        p.routing_header = header(&[9, 2, 1]);
        take(&mut sender, p);
    }
    assert!(sender.sent_fragments.is_empty());
}

#[test]
fn sending_loses_no_packet() {
    let mut node = client();
    node.routing_helper.add_from_incoming_routing_header(&header(&[9, 3, 2, 1]));
    let mut busy = false;
    node.do_flood(vec![2, 6], &mut busy);
    node.send_msg(&message(200), 9);
    node.send_msg(&[1], 8);
    let before = queue(&node);
    let sent = node.send_packets(&vec![2, 3], &pdr, &mut busy);
    let after = queue(&node);
    assert_eq!((before.len(), sent.len(), after.len()), (5, 3, 2));
    for (p, _) in &before {
        let left = sent.iter().filter(|t| t.reported == *p).count();
        let kept = after.iter().filter(|x| x.0 == *p).count();
        assert_eq!(left + kept, 1);
    }
    assert!(sent.iter().all(|t| t.via == 2 || t.via == 3));
}

#[test]
fn shortcut_leaves_the_topology() {
    let mut node = client();
    let frag = fragment(&[1])[0];
    let incoming = packet(&[7, 5, 1], 5, PacketType::MsgFragment(frag));
    node.handle_packet(incoming, true, &vec![2]);
    assert_eq!(node.routing_helper.topology_graph.edge_count(), 1);
    assert_eq!(node.rx_queue.len(), 1);
}
