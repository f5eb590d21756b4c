//! What holds of a node across operations.
use crate::network::{NodeId, NodeType, RouteView};
use crate::packet::{Ack, Fragment, Nack, NackType, PacketTypeView, PacketView};
use crate::packet_handling::fragment::{
    carries_piece, fragments_of, is_fragmentation, joined, law_defragment_undoes_fragment,
    law_fragmentation_exists,
};
use crate::packet_handling::model::{
    law_rx_key_injective, other_fragment, other_position, rx_key, unrouted_fragments, HandlerView,
    RxEntryView, TransmissionView,
};
use crate::packet_handling::routing::{
    fresh_entries, later_hops, link_by_type, RoutingView,
};
use crate::topology::{law_link_well_formed, law_unlink, Topology};
use vstd::prelude::*;

verus! {

// What every operation keeps.

/// Learning the links from one node keeps a topology well formed.
proof fn lemma_link_star_well_formed(t: Topology, center: NodeId, others: Seq<NodeId>)
    requires
        t.well_formed(),
    ensures
        t.link_star(center, others).well_formed(),
    decreases others.len(),
{
    if others.len() > 0 {
        lemma_link_star_well_formed(t, center, others.drop_last());
        law_link_well_formed(t.link_star(center, others.drop_last()), center, others.last());
    }
}

/// Learning the links of a path keeps a topology well formed.
proof fn lemma_link_path_well_formed(t: Topology, hops: Seq<NodeId>)
    requires
        t.well_formed(),
    ensures
        t.link_path(hops).well_formed(),
    decreases hops.len(),
{
    if hops.len() >= 2 {
        lemma_link_path_well_formed(t, hops.drop_last());
        law_link_well_formed(t.link_path(hops.drop_last()), hops[hops.len() - 2], hops.last());
    }
}

/// Learning from a trace keeps the knowledge well formed, and the node what it is.
proof fn lemma_learn_trace_well_formed(view: RoutingView, trace: Seq<(NodeId, NodeType)>)
    requires
        view.well_formed(),
    ensures
        view.learn_trace(trace).well_formed(),
        view.learn_trace(trace).node_id == view.node_id,
    decreases trace.len(),
{
    if trace.len() >= 2 {
        lemma_learn_trace_well_formed(view, trace.drop_last());
        let before = view.learn_trace(trace.drop_last());
        let a = trace[trace.len() - 2];
        let b = trace.last();
        law_link_well_formed(before.topology, a.0, b.0);
        law_link_well_formed(before.topology, b.0, a.0);
        law_link_well_formed(before.topology.link(a.0, b.0), b.0, a.0);
    }
}

/// A new node is well formed.
pub proof fn law_initial_well_formed(id: NodeId, node_type: NodeType, neighbors: Seq<NodeId>)
    ensures
        HandlerView::initial(id, node_type, neighbors).well_formed(),
{
    assert(Topology::empty().well_formed());
    lemma_link_star_well_formed(Topology::empty(), id, neighbors);
}

/// Queueing a message keeps a node well formed, and uses a session number that
/// no open session has.
pub proof fn law_queue_fragments(handler: HandlerView, frags: Seq<Fragment>, id: NodeId)
    requires
        handler.well_formed(),
        handler.cur_session_id < u64::MAX,
    ensures
        handler.queue_fragments(frags, id).well_formed(),
        !handler.sent_fragments.contains_key(handler.queue_fragments(frags, id).cur_session_id),
{
}

/// A flood keeps a node well formed.
pub proof fn law_flood_well_formed(handler: HandlerView, neighbors: Seq<NodeId>)
    requires
        handler.well_formed(),
    ensures
        handler.flood(neighbors).well_formed(),
{
}

/// Sending keeps a node well formed, whatever the routes.
pub proof fn law_pass_well_formed(
    handler: HandlerView,
    routes: Seq<Option<RouteView>>,
    connected: Seq<NodeId>,
    n: nat,
)
    requires
        handler.well_formed(),
    ensures
        handler.after_pass(handler.pass(routes, connected, n)).well_formed(),
    decreases n,
{
    if n > 0 {
        law_pass_well_formed(handler, routes, connected, (n - 1) as nat);
        let before = handler.pass(routes, connected, (n - 1) as nat);
        let after = handler.pass(routes, connected, n);
        assert forall|id: NodeId| before.routing.forget(id).topology.well_formed() by {
            law_unlink(before.routing.topology, id);
        }
        assert(after.routing.well_formed());
    }
}

/// Taking out the complete messages keeps a node well formed.
pub proof fn law_without_complete_well_formed(handler: HandlerView)
    requires
        handler.well_formed(),
    ensures
        handler.without_complete().well_formed(),
{
}

/// A neighbour that comes keeps a node well formed.
pub proof fn law_connect_well_formed(handler: HandlerView, id: NodeId)
    requires
        handler.well_formed(),
    ensures
        handler.connect(id).well_formed(),
{
    law_link_well_formed(handler.routing.topology, handler.node_id, id);
}

/// A neighbour that goes keeps a node well formed.
pub proof fn law_disconnect_well_formed(handler: HandlerView, id: NodeId)
    requires
        handler.well_formed(),
    ensures
        handler.disconnect(id).well_formed(),
{
    law_unlink(handler.routing.topology, id);
}

/// Every packet keeps a node well formed.
pub proof fn law_receive_well_formed(handler: HandlerView, packet: PacketView, from_shortcut: bool)
    requires
        handler.well_formed(),
    ensures
        handler.receive(packet, from_shortcut).well_formed(),
{
    let header = packet.routing_header;
    let heard = handler.hear(header, from_shortcut);
    lemma_link_path_well_formed(handler.routing.topology, header.hops.reverse());
    assert(heard.well_formed());
    match packet.pack_type {
        PacketTypeView::Nack(nack) => {
            if nack.nack_type is ErrorInRouting {
                law_disconnect_well_formed(handler, nack.nack_type->ErrorInRouting_0);
            }
        },
        PacketTypeView::FloodResponse(res) => {
            lemma_learn_trace_well_formed(heard.routing, res.path_trace);
        },
        _ => {},
    }
}

// What becomes of a message.

/// The positions from `k` on, among `n`.
spec fn positions_from(k: int, n: nat) -> Seq<usize> {
    Seq::new((n - k) as nat, |i: int| (k + i) as usize)
}

/// Leaving out the first of the remaining positions leaves the others.
proof fn lemma_positions_filter(k: int, n: nat)
    requires
        0 <= k < n <= usize::MAX,
        n <= u64::MAX,
    ensures
        positions_from(k, n).filter(other_position(k as u64)) == positions_from(k + 1, n),
{
    let all = positions_from(k, n);
    let keep = other_position(k as u64);
    let rest = positions_from(k + 1, n);
    assert(all == seq![k as usize] + rest);
    Seq::filter_distributes_over_add(seq![k as usize], rest, keep);
    assert(seq![k as usize].filter(keep) == Seq::<usize>::empty()) by {
        reveal_with_fuel(Seq::filter, 2);
    }
    lemma_filter_all(rest, keep);
}

/// A filter keeps the items that pass it, and no others.
pub(crate) proof fn lemma_filter_members<A>(s: Seq<A>, keep: spec_fn(A) -> bool, x: A)
    ensures
        s.filter(keep).contains(x) <==> s.contains(x) && keep(x),
    decreases s.len(),
{
    reveal(Seq::filter);
    if s.len() > 0 {
        let front = s.drop_last();
        lemma_filter_members(front, keep, x);
        let kept = front.filter(keep);
        let all = s.filter(keep);
        if kept.contains(x) {
            assert(all[kept.index_of(x)] == x);
        }
        if front.contains(x) {
            assert(s[front.index_of(x)] == x);
        }
        if keep(s.last()) {
            assert(all[kept.len() as int] == s.last());
        }
        if s.contains(x) {
            let i = s.index_of(x);
            if i < front.len() {
                assert(front[i] == x);
            }
        }
        if all.contains(x) {
            let i = all.index_of(x);
            if i < kept.len() {
                assert(kept[i] == x);
            }
        }
    }
}

/// A filter that every item passes leaves everything.
proof fn lemma_filter_all<A>(s: Seq<A>, keep: spec_fn(A) -> bool)
    requires
        forall|i: int| 0 <= i < s.len() ==> #[trigger] keep(s[i]),
    ensures
        s.filter(keep) == s,
    decreases s.len(),
{
    reveal(Seq::filter);
    if s.len() > 0 {
        lemma_filter_all(s.drop_last(), keep);
        assert(keep(s[s.len() - 1]));
        assert(s.drop_last().push(s.last()) == s);
    }
}

/// Fragments that come in order are stored in order, and every one is missing
/// until it has come: the message is complete with its last fragment, not
/// before, and is then the one that was cut.
pub proof fn law_fragments_in_order(frags: Seq<Fragment>, message: Seq<u8>, k: int)
    requires
        is_fragmentation(frags, message),
        frags.len() <= usize::MAX,
        frags.len() <= u64::MAX,
        0 <= k <= frags.len(),
    ensures
        ({
            let entry = RxEntryView::expecting(frags.len() as u64).accept_all(frags.take(k));
            &&& entry.fragments == frags.take(k)
            &&& entry.complete() <==> k == frags.len()
            &&& entry.complete() ==> joined(entry.fragments) == message
        }),
{
    lemma_accept_in_order(frags, message, k);
    law_defragment_undoes_fragment(frags, message);
    assert(frags.take(frags.len() as int) == frags);
}

/// What is stored and what is missing after the first `k` fragments.
proof fn lemma_accept_in_order(frags: Seq<Fragment>, message: Seq<u8>, k: int)
    requires
        is_fragmentation(frags, message),
        frags.len() <= usize::MAX,
        frags.len() <= u64::MAX,
        0 <= k <= frags.len(),
    ensures
        RxEntryView::expecting(frags.len() as u64).accept_all(frags.take(k)) == (RxEntryView {
            fragments: frags.take(k),
            missing: positions_from(k, frags.len()),
        }),
    decreases k,
{
    let start = RxEntryView::expecting(frags.len() as u64);
    if k == 0 {
        assert(start.missing == positions_from(0, frags.len()));
        assert(start.fragments == frags.take(0));
    } else {
        lemma_accept_in_order(frags, message, k - 1);
        assert(frags.take(k).drop_last() == frags.take(k - 1));
        assert(carries_piece(frags[k - 1], message, k - 1));
        assert(frags.take(k - 1).insert(k - 1, frags[k - 1]) == frags.take(k));
        lemma_positions_filter(k - 1, frags.len());
    }
}

/// A node that gets the fragments of a message in order, in a session that is
/// new to it, acknowledges each of them to the sender, and then holds the
/// message; messages of other senders and sessions stay as they are.
pub proof fn law_message_arrives(
    handler: HandlerView,
    header: RouteView,
    session_id: u64,
    from_shortcut: bool,
    frags: Seq<Fragment>,
    message: Seq<u8>,
)
    requires
        is_fragmentation(frags, message),
        message.len() > 0,
        frags.len() <= usize::MAX,
        frags.len() <= u64::MAX,
        header.source() is Some,
        !handler.rx_queue.contains_key(rx_key(header.source()->0, session_id)),
    ensures
        ({
            let src = header.source()->0;
            let key = rx_key(src, session_id);
            let after = handler.receive_fragments(header, session_id, from_shortcut, frags);
            &&& after.complete(key)
            &&& joined(after.rx_queue[key].fragments) == message
            &&& after.rx_queue.remove(key) == handler.rx_queue
            &&& after.tx_queue == handler.tx_queue + Seq::new(
                frags.len(),
                |i: int| (PacketView::unrouted_ack(session_id, i as u64), src),
            )
        }),
{
    let key = rx_key(header.source()->0, session_id);
    assert(frags.len() > 0);
    lemma_receive_in_order(
        handler,
        header,
        session_id,
        from_shortcut,
        frags,
        message,
        frags.len() as int,
    );
    assert(frags.take(frags.len() as int) == frags);
    law_fragments_in_order(frags, message, frags.len() as int);
    let after = handler.receive_fragments(header, session_id, from_shortcut, frags);
    assert(after.rx_queue.remove(key) == handler.rx_queue);
}

/// A fragment that comes in order finds all fragments before it stored, and is
/// put in behind them.
pub proof fn law_room_in_order(
    handler: HandlerView,
    header: RouteView,
    session_id: u64,
    from_shortcut: bool,
    frags: Seq<Fragment>,
    message: Seq<u8>,
    k: int,
)
    requires
        is_fragmentation(frags, message),
        frags.len() <= usize::MAX,
        frags.len() <= u64::MAX,
        header.source() is Some,
        !handler.rx_queue.contains_key(rx_key(header.source()->0, session_id)),
        0 <= k < frags.len(),
    ensures
        ({
            let key = rx_key(header.source()->0, session_id);
            let before = handler.receive_fragments(
                header,
                session_id,
                from_shortcut,
                frags.take(k),
            );
            before.rx_entry(key, frags[k].total_n_fragments).fragments.len()
                == frags[k].fragment_index
        }),
{
    assert(carries_piece(frags[k], message, k));
    lemma_receive_in_order(handler, header, session_id, from_shortcut, frags, message, k);
    lemma_accept_in_order(frags, message, k);
}

/// What a node holds after the first `k` fragments of a message.
proof fn lemma_receive_in_order(
    handler: HandlerView,
    header: RouteView,
    session_id: u64,
    from_shortcut: bool,
    frags: Seq<Fragment>,
    message: Seq<u8>,
    k: int,
)
    requires
        is_fragmentation(frags, message),
        frags.len() <= usize::MAX,
        frags.len() <= u64::MAX,
        header.source() is Some,
        !handler.rx_queue.contains_key(rx_key(header.source()->0, session_id)),
        0 <= k <= frags.len(),
    ensures
        ({
            let src = header.source()->0;
            let key = rx_key(src, session_id);
            let after = handler.receive_fragments(
                header,
                session_id,
                from_shortcut,
                frags.take(k),
            );
            &&& k == 0 ==> after == handler
            &&& k > 0 ==> after.rx_queue == handler.rx_queue.insert(
                key,
                RxEntryView::expecting(frags.len() as u64).accept_all(frags.take(k)),
            )
            &&& after.tx_queue == handler.tx_queue + Seq::new(
                k as nat,
                |i: int| (PacketView::unrouted_ack(session_id, i as u64), src),
            )
        }),
    decreases k,
{
    if k > 0 {
        lemma_receive_in_order(handler, header, session_id, from_shortcut, frags, message, k - 1);
        let src = header.source()->0;
        let key = rx_key(src, session_id);
        let frag = frags[k - 1];
        assert(carries_piece(frag, message, k - 1));
        assert(frags.take(k).drop_last() == frags.take(k - 1));
        let before = handler.receive_fragments(
            header,
            session_id,
            from_shortcut,
            frags.take(k - 1),
        );
        let after = handler.receive_fragments(header, session_id, from_shortcut, frags.take(k));
        assert(frags.take(0) == Seq::<Fragment>::empty());
        let start = RxEntryView::expecting(frags.len() as u64);
        assert(before.rx_entry(key, frag.total_n_fragments) == start.accept_all(frags.take(k - 1)));
        assert(after.rx_queue == handler.rx_queue.insert(
            key,
            start.accept_all(frags.take(k - 1)).accept(frag),
        ));
        assert(after.tx_queue == handler.tx_queue + Seq::new(
            k as nat,
            |i: int| (PacketView::unrouted_ack(session_id, i as u64), src),
        ));
    }
}

/// A message of one sender and session never touches another.
pub proof fn law_sessions_apart(
    handler: HandlerView,
    header: RouteView,
    session_id: u64,
    from_shortcut: bool,
    frag: Fragment,
    other_src: NodeId,
    other_session: u64,
)
    requires
        header.source() != Some(other_src) || session_id != other_session,
    ensures
        ({
            let key = rx_key(other_src, other_session);
            let after = handler.receive_fragment(header, session_id, from_shortcut, frag);
            &&& after.rx_queue.contains_key(key) <==> handler.rx_queue.contains_key(key)
            &&& handler.rx_queue.contains_key(key) ==> after.rx_queue[key] == handler.rx_queue[key]
        }),
{
    if header.source() is Some {
        let src = header.source()->0;
        if rx_key(src, session_id) == rx_key(other_src, other_session) {
            law_rx_key_injective(src, session_id, other_src, other_session);
        }
    }
}

// What becomes of a session.

/// The fragments of a session that no acknowledgement has named.
pub open spec fn is_open(frag: Fragment, acks: Seq<Ack>) -> bool {
    forall|i: int| 0 <= i < acks.len() ==> (#[trigger] acks[i]).fragment_index
        != frag.fragment_index
}

/// What is left of a session after `acks` from its receiver.
proof fn lemma_receive_acks(
    handler: HandlerView,
    header: RouteView,
    session_id: u64,
    from_shortcut: bool,
    acks: Seq<Ack>,
)
    requires
        handler.sent_fragments.contains_key(session_id),
        header.source() == Some(handler.sent_fragments[session_id].0),
    ensures
        ({
            let (id, frags) = handler.sent_fragments[session_id];
            let after = handler.receive_acks(
                header,
                session_id,
                from_shortcut,
                acks,
            ).sent_fragments;
            &&& after.contains_key(session_id) ==> {
                &&& after[session_id].0 == id
                &&& acks.len() > 0 ==> after[session_id].1.len() > 0
                &&& forall|frag: Fragment| #[trigger]
                    after[session_id].1.contains(frag) <==> frags.contains(frag) && is_open(
                        frag,
                        acks,
                    )
            }
            &&& !after.contains_key(session_id) ==> forall|frag: Fragment| #[trigger]
                frags.contains(frag) ==> !is_open(frag, acks)
        }),
    decreases acks.len(),
{
    if acks.len() > 0 {
        let prefix = acks.drop_last();
        let ack = acks.last();
        lemma_receive_acks(handler, header, session_id, from_shortcut, prefix);
        let (id, frags) = handler.sent_fragments[session_id];
        let before = handler.receive_acks(
            header,
            session_id,
            from_shortcut,
            prefix,
        ).sent_fragments;
        let after = handler.receive_acks(header, session_id, from_shortcut, acks).sent_fragments;
        assert forall|frag: Fragment| #[trigger]
            is_open(frag, acks) <==> is_open(frag, prefix) && ack.fragment_index
                != frag.fragment_index by {
            if is_open(frag, acks) {
                assert(acks[acks.len() - 1] == ack);
                assert forall|i: int| 0 <= i < prefix.len() implies (#[trigger]
                prefix[i]).fragment_index != frag.fragment_index by {
                    assert(prefix[i] == acks[i]);
                }
            }
            if is_open(frag, prefix) && ack.fragment_index != frag.fragment_index {
                assert forall|i: int| 0 <= i < acks.len() implies (#[trigger]
                acks[i]).fragment_index != frag.fragment_index by {
                    if i < prefix.len() {
                        assert(acks[i] == prefix[i]);
                    }
                }
            }
        }
        if before.contains_key(session_id) {
            let left = before[session_id].1;
            let keep = other_fragment(ack.fragment_index);
            let rest = left.filter(keep);
            assert forall|frag: Fragment| #[trigger]
                rest.contains(frag) <==> left.contains(frag) && frag.fragment_index
                    != ack.fragment_index by {
                lemma_filter_members(left, keep, frag);
            }
            assert forall|frag: Fragment| #[trigger]
                rest.contains(frag) <==> frags.contains(frag) && is_open(frag, acks) by {
                assert(is_open(frag, acks) <==> is_open(frag, prefix) && ack.fragment_index
                    != frag.fragment_index);
                assert(left.contains(frag) <==> frags.contains(frag) && is_open(frag, prefix));
            }
            if rest.len() == 0 {
                assert forall|frag: Fragment| #[trigger] frags.contains(frag) implies !is_open(
                    frag,
                    acks,
                ) by {
                    assert(!rest.contains(frag));
                }
            }
        } else {
            assert forall|frag: Fragment| #[trigger] frags.contains(frag) implies !is_open(
                frag,
                acks,
            ) by {
                assert(!is_open(frag, prefix));
            }
        }
    } else {
        let (id, frags) = handler.sent_fragments[session_id];
        assert forall|frag: Fragment| is_open(frag, acks) by {}
    }
}

/// A session ends with the acknowledgement of its last open fragment, in
/// whatever order the receiver sends them, and not before.
pub proof fn law_acks_end_session(
    handler: HandlerView,
    header: RouteView,
    session_id: u64,
    from_shortcut: bool,
    acks: Seq<Ack>,
)
    requires
        handler.sent_fragments.contains_key(session_id),
        header.source() == Some(handler.sent_fragments[session_id].0),
        acks.len() > 0,
    ensures
        ({
            let frags = handler.sent_fragments[session_id].1;
            let after = handler.receive_acks(header, session_id, from_shortcut, acks);
            !after.sent_fragments.contains_key(session_id) <==> forall|frag: Fragment| #[trigger]
                frags.contains(frag) ==> !is_open(frag, acks)
        }),
{
    lemma_receive_acks(handler, header, session_id, from_shortcut, acks);
    let frags = handler.sent_fragments[session_id].1;
    let after = handler.receive_acks(header, session_id, from_shortcut, acks).sent_fragments;
    if after.contains_key(session_id) {
        let first = after[session_id].1[0];
        assert(after[session_id].1.contains(first));
        assert(frags.contains(first));
    }
}

/// A message that one node queues for another arrives whole if its fragments
/// come in order, and the acknowledgements that the receiver then queues end
/// the session of the sender.
pub proof fn law_message_round_trip(
    sender: HandlerView,
    receiver: HandlerView,
    message: Seq<u8>,
    there: RouteView,
    back: RouteView,
)
    requires
        0 < message.len() <= usize::MAX,
        message.len() <= u64::MAX,
        sender.cur_session_id < u64::MAX,
        there.source() == Some(sender.node_id),
        back.source() == Some(receiver.node_id),
        !receiver.rx_queue.contains_key(
            rx_key(sender.node_id, (sender.cur_session_id + 1) as u64),
        ),
    ensures
        ({
            let frags = fragments_of(message);
            let queued = sender.queue_fragments(frags, receiver.node_id);
            let session_id = queued.cur_session_id;
            let key = rx_key(sender.node_id, session_id);
            let reached = receiver.receive_fragments(there, session_id, false, frags);
            let acks = Seq::new(frags.len(), |i: int| Ack { fragment_index: i as u64 });
            &&& queued.tx_queue == sender.tx_queue + unrouted_fragments(
                session_id,
                frags,
                receiver.node_id,
            )
            &&& reached.complete(key)
            &&& joined(reached.rx_queue[key].fragments) == message
            &&& reached.tx_queue == receiver.tx_queue + acks.map_values(
                |ack: Ack|
                    (PacketView::unrouted_ack(session_id, ack.fragment_index), sender.node_id),
            )
            &&& !queued.receive_acks(back, session_id, false, acks).sent_fragments.contains_key(
                session_id,
            )
        }),
{
    let frags = fragments_of(message);
    law_fragmentation_exists(message);
    let queued = sender.queue_fragments(frags, receiver.node_id);
    let session_id = queued.cur_session_id;
    law_message_arrives(receiver, there, session_id, false, frags, message);
    let reached = receiver.receive_fragments(there, session_id, false, frags);
    let acks = Seq::new(frags.len(), |i: int| Ack { fragment_index: i as u64 });
    assert(reached.tx_queue == receiver.tx_queue + acks.map_values(
        |ack: Ack| (PacketView::unrouted_ack(session_id, ack.fragment_index), sender.node_id),
    ));
    assert forall|frag: Fragment| #[trigger] frags.contains(frag) implies !is_open(frag, acks) by {
        let i = frags.index_of(frag);
        assert(carries_piece(frags[i], message, i));
        assert(acks[i].fragment_index == frag.fragment_index);
    }
    law_acks_end_session(queued, back, session_id, false, acks);
}

/// An acknowledgement from another node than the receiver ends nothing.
pub proof fn law_foreign_ack(
    handler: HandlerView,
    header: RouteView,
    session_id: u64,
    from_shortcut: bool,
    ack: Ack,
)
    requires
        handler.sent_fragments.contains_key(session_id) ==> header.source() != Some(
            handler.sent_fragments[session_id].0,
        ),
    ensures
        handler.receive_ack(header, session_id, from_shortcut, ack).sent_fragments
            == handler.sent_fragments,
{
}

/// As long as no fragment of a message is acknowledged, the report that one was
/// dropped queues that one again, for the same receiver and in the same session.
pub proof fn law_dropped_fragment_is_sent_again(
    handler: HandlerView,
    header: RouteView,
    session_id: u64,
    from_shortcut: bool,
    fragment_index: u64,
    message: Seq<u8>,
)
    requires
        handler.sent_fragments.contains_key(session_id),
        is_fragmentation(handler.sent_fragments[session_id].1, message),
        fragment_index < handler.sent_fragments[session_id].1.len(),
    ensures
        ({
            let (id, frags) = handler.sent_fragments[session_id];
            let frag = frags[fragment_index as int];
            let nack = Nack { fragment_index, nack_type: NackType::Dropped };
            let after = handler.receive_nack(header, session_id, from_shortcut, nack);
            &&& frag.fragment_index == fragment_index
            &&& after.tx_queue == handler.tx_queue.push(
                (PacketView::unrouted_fragment(session_id, frag), id),
            )
            &&& after.sent_fragments == handler.sent_fragments
        }),
{
    let frags = handler.sent_fragments[session_id].1;
    assert(carries_piece(frags[fragment_index as int], message, fragment_index as int));
}

// What a node learns.

/// Learning a path loses no link and makes the path one that packets can go.
proof fn lemma_link_path(t: Topology, hops: Seq<NodeId>)
    ensures
        forall|a: NodeId, b: NodeId| t.linked(a, b) ==> #[trigger] t.link_path(hops).linked(a, b),
        hops.len() > 0 ==> t.link_path(hops).is_path(hops, hops[0], hops.last()),
    decreases hops.len(),
{
    if hops.len() >= 2 {
        let front = hops.drop_last();
        lemma_link_path(t, front);
        let before = t.link_path(front);
        let after = t.link_path(hops);
        assert forall|a: NodeId, b: NodeId| before.linked(a, b) implies #[trigger] after.linked(
            a,
            b,
        ) by {}
        assert forall|i: int| 0 <= i < hops.len() - 1 implies after.linked(
            #[trigger] hops[i],
            hops[i + 1],
        ) by {
            if i < hops.len() - 2 {
                assert(before.linked(front[i], front[i + 1]));
            }
        }
    }
}

/// A packet that has come over the network teaches the way back: its last hop
/// can then reach its source along the same hops, nothing that was known is
/// lost, and every hop behind the source has an entry.
pub proof fn law_header_teaches_way_back(view: RoutingView, hops: Seq<NodeId>)
    requires
        hops.len() > 0,
    ensures
        ({
            let after = view.learn_header(hops);
            &&& after.topology.is_path(hops.reverse(), hops.last(), hops[0])
            &&& after.topology.reachable(hops.last(), hops[0])
            &&& forall|a: NodeId, b: NodeId|
                view.topology.linked(a, b) ==> #[trigger] after.topology.linked(a, b)
            &&& forall|id: NodeId| #[trigger]
                view.node_data.contains_key(id) ==> after.node_data.contains_key(id)
                    && after.node_data[id] == view.node_data[id]
            &&& forall|i: int|
                1 <= i < hops.len() ==> after.node_data.contains_key(#[trigger] hops[i])
        }),
{
    let back = hops.reverse();
    lemma_link_path(view.topology, back);
    assert(back[0] == hops.last());
    assert(back.last() == hops[0]);
    let after = view.learn_header(hops);
    assert forall|i: int| 1 <= i < hops.len() implies after.node_data.contains_key(
        #[trigger] hops[i],
    ) by {
        assert(later_hops(hops).contains(hops[i]));
        assert(fresh_entries(later_hops(hops)).contains_key(hops[i]));
    }
}

/// No way from another node to another node leads over a node that has been
/// forgotten.
pub proof fn law_forgotten_node_is_avoided(
    view: RoutingView,
    id: NodeId,
    hops: Seq<NodeId>,
    src: NodeId,
    dst: NodeId,
)
    requires
        view.well_formed(),
        view.forget(id).topology.is_path(hops, src, dst),
        src != id,
    ensures
        !hops.contains(id),
        !view.forget(id).node_data.contains_key(id),
{
    let t = view.forget(id).topology;
    law_unlink(view.topology, id);
    if hops.contains(id) {
        let i = hops.index_of(id);
        assert(i > 0);
        assert(t.linked(hops[i - 1], hops[i]));
    }
}

/// Whether a trace shows a link from the drone `a` to the node `b`.
pub open spec fn shows_link(trace: Seq<(NodeId, NodeType)>, a: NodeId, b: NodeId) -> bool {
    exists|i: int|
        0 <= i < trace.len() - 1 && ((#[trigger] trace[i] == (a, NodeType::Drone) && trace[i
            + 1].0 == b) || (trace[i + 1] == (a, NodeType::Drone) && trace[i].0 == b))
}

/// A trace teaches the links that it shows, and no others: only drones pass
/// packets on. Nothing that was known is lost, and every node of a trace of
/// two or more has an entry with a type.
pub proof fn law_trace_teaches_links(view: RoutingView, trace: Seq<(NodeId, NodeType)>)
    ensures
        ({
            let after = view.learn_trace(trace);
            &&& forall|a: NodeId, b: NodeId| #[trigger]
                after.topology.linked(a, b) <==> view.topology.linked(a, b) || shows_link(
                    trace,
                    a,
                    b,
                )
            &&& forall|id: NodeId| #[trigger]
                view.node_data.contains_key(id) ==> after.node_data.contains_key(id)
            &&& trace.len() >= 2 ==> forall|i: int|
                0 <= i < trace.len() ==> after.node_data.contains_key((#[trigger] trace[i]).0)
                    && after.node_data[trace[i].0].node_type is Some
        }),
    decreases trace.len(),
{
    if trace.len() >= 2 {
        let front = trace.drop_last();
        law_trace_teaches_links(view, front);
        let before = view.learn_trace(front);
        let after = view.learn_trace(trace);
        let n = trace.len() - 2;
        let a = trace[n];
        let b = trace[n + 1];
        assert(link_by_type(before.topology, a, b) == after.topology);
        assert forall|x: NodeId, y: NodeId| #[trigger]
            after.topology.linked(x, y) <==> view.topology.linked(x, y) || shows_link(
                trace,
                x,
                y,
            ) by {
            assert(before.topology.linked(x, y) <==> view.topology.linked(x, y) || shows_link(
                front,
                x,
                y,
            ));
            let newest = (a == (x, NodeType::Drone) && b.0 == y) || (b == (x, NodeType::Drone)
                && a.0 == y);
            assert(after.topology.linked(x, y) <==> before.topology.linked(x, y) || newest);
            if shows_link(front, x, y) {
                let i = choose|i: int|
                    0 <= i < front.len() - 1 && ((#[trigger] front[i] == (x, NodeType::Drone)
                        && front[i + 1].0 == y) || (front[i + 1] == (x, NodeType::Drone)
                        && front[i].0 == y));
                assert(trace[i] == front[i] && trace[i + 1] == front[i + 1]);
            }
            if newest {
                assert(trace[n] == a);
                assert(shows_link(trace, x, y));
            }
            if shows_link(trace, x, y) && !newest {
                let i = choose|i: int|
                    0 <= i < trace.len() - 1 && ((#[trigger] trace[i] == (x, NodeType::Drone)
                        && trace[i + 1].0 == y) || (trace[i + 1] == (x, NodeType::Drone)
                        && trace[i].0 == y));
                assert(i < n);
                assert(front[i] == trace[i] && front[i + 1] == trace[i + 1]);
                assert(shows_link(front, x, y));
            }
        }
        assert forall|i: int| 0 <= i < trace.len() implies after.node_data.contains_key(
            (#[trigger] trace[i]).0,
        ) && after.node_data[trace[i].0].node_type is Some by {
            if i < n {
                assert(front[i] == trace[i]);
            }
        }
    }
}

/// What comes from the controller says nothing of the network: fragments,
/// acknowledgements, reports of dropped packets and flood requests leave the
/// topology as it is.
pub proof fn law_shortcut_leaves_topology(handler: HandlerView, packet: PacketView)
    requires
        match packet.pack_type {
            PacketTypeView::Nack(nack) => !(nack.nack_type is ErrorInRouting),
            PacketTypeView::FloodResponse(_) => false,
            _ => true,
        },
    ensures
        handler.receive(packet, true).routing.topology == handler.routing.topology,
{
}

// What leaves a node.

/// The packet of a queue entry.
pub open spec fn entry_packet(entry: (PacketView, NodeId)) -> PacketView {
    entry.0
}

/// The packet that a transmission took off the queue.
pub open spec fn sent_packet(sent: TransmissionView) -> PacketView {
    sent.reported
}

/// Sending loses nothing and invents nothing: each packet of the queue has
/// either left or is queued again.
pub proof fn law_sending_conserves_packets(
    handler: HandlerView,
    routes: Seq<Option<RouteView>>,
    connected: Seq<NodeId>,
    n: nat,
)
    requires
        n <= handler.tx_queue.len(),
    ensures
        ({
            let pass = handler.pass(routes, connected, n);
            handler.tx_queue.take(n as int).map_values(
                |entry: (PacketView, NodeId)| entry_packet(entry),
            ).to_multiset() == pass.sent.map_values(
                |sent: TransmissionView| sent_packet(sent),
            ).to_multiset().add(
                pass.failed.map_values(
                    |entry: (PacketView, NodeId)| entry_packet(entry),
                ).to_multiset(),
            )
        }),
    decreases n,
{
    let of_entry = |entry: (PacketView, NodeId)| entry_packet(entry);
    let of_sent = |sent: TransmissionView| sent_packet(sent);
    let pass = handler.pass(routes, connected, n);
    let queue = handler.tx_queue.take(n as int).map_values(of_entry);
    let sent = pass.sent.map_values(of_sent);
    let failed = pass.failed.map_values(of_entry);
    broadcast use vstd::seq_lib::group_to_multiset_ensures;

    if n == 0 {
        assert(queue == Seq::<PacketView>::empty());
        assert(sent == Seq::<PacketView>::empty());
        assert(failed == Seq::<PacketView>::empty());
        assert(queue.to_multiset() =~= sent.to_multiset().add(failed.to_multiset()));
    } else {
        let m = (n - 1) as nat;
        law_sending_conserves_packets(handler, routes, connected, m);
        let before = handler.pass(routes, connected, m);
        let entry = handler.tx_queue[m as int];
        let queue0 = handler.tx_queue.take(m as int).map_values(of_entry);
        let sent0 = before.sent.map_values(of_sent);
        let failed0 = before.failed.map_values(of_entry);
        assert(queue == queue0.push(entry.0));
        assert(pass == before.step(entry, routes[m as int], connected));
        if pass.sent.len() > before.sent.len() {
            assert(sent == sent0.push(entry.0));
            assert(failed == failed0);
        } else {
            assert(sent == sent0);
            assert(failed == failed0.push(entry.0));
        }
        assert(queue.to_multiset() =~= sent.to_multiset().add(failed.to_multiset()));
    }
}

/// Packets leave for connected neighbours only, and on a route.
pub proof fn law_sent_to_connected(
    handler: HandlerView,
    routes: Seq<Option<RouteView>>,
    connected: Seq<NodeId>,
    n: nat,
)
    ensures
        forall|i: int|
            0 <= i < handler.pass(routes, connected, n).sent.len() ==> {
                let sent = #[trigger] handler.pass(routes, connected, n).sent[i];
                connected.contains(sent.via) && sent.packet.routing_header != RouteView::empty()
            },
    decreases n,
{
    if n > 0 {
        law_sent_to_connected(handler, routes, connected, (n - 1) as nat);
        let before = handler.pass(routes, connected, (n - 1) as nat);
        let after = handler.pass(routes, connected, n);
        assert forall|i: int| 0 <= i < after.sent.len() implies {
            let sent = #[trigger] after.sent[i];
            connected.contains(sent.via) && sent.packet.routing_header != RouteView::empty()
        } by {
            if i < before.sent.len() {
                assert(after.sent[i] == before.sent[i]);
            }
        }
    }
}

/// Once a flood has been started, none is wanted, and the next one has a greater
/// number; its requests go one to each neighbour, behind what was queued.
pub proof fn law_flood(handler: HandlerView, neighbors: Seq<NodeId>)
    requires
        handler.flood_flag,
        handler.routing.cur_flood_id < u64::MAX,
    ensures
        ({
            let after = handler.flood(neighbors);
            &&& !after.flood_flag
            &&& after.routing.cur_flood_id > handler.routing.cur_flood_id
            &&& after.flood(neighbors) == after
            &&& after.tx_queue.len() == handler.tx_queue.len() + neighbors.len()
            &&& forall|i: int|
                0 <= i < neighbors.len() ==> (#[trigger] after.tx_queue[handler.tx_queue.len()
                    + i]).1 == neighbors[i]
        }),
{
}

} // verus!
