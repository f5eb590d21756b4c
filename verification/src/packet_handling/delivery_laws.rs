//! What a node makes of the packets that it gets.
use crate::network::{NodeId, NodeType, RouteView};
use crate::packet::{
    Ack, FloodResponseView, Fragment, Nack, NackType, PacketTypeView, PacketView,
};
use crate::packet_handling::fragment::{carries_piece, is_fragmentation, joined};
use crate::packet_handling::laws::{
    law_fragments_in_order, law_receive_well_formed, law_trace_teaches_links, lemma_filter_members,
    shows_link,
};
use crate::packet_handling::model::{
    law_rx_key_injective, other_fragment, other_position, rx_key, HandlerView, LeftoverView,
    RxEntryView,
};
use crate::packet_handling::routing::RoutingView;
use crate::packet_handling::routing_laws::{
    law_counters_have_room, law_foreign_response_goes_on, law_trace_teaches_types,
};
use vstd::prelude::*;

verus! {

// What is kept of the fragments of messages.

/// What is known once the route of a packet has been looked at: the way back,
/// unless the packet came from the controller.
pub open spec fn knowledge_after(
    view: RoutingView,
    hops: Seq<NodeId>,
    from_shortcut: bool,
) -> RoutingView {
    if from_shortcut {
        view
    } else {
        view.learn_header(hops)
    }
}

/// Looking at the route of a packet changes nothing but what is known of the network.
pub proof fn law_hearing_only_teaches(handler: HandlerView, header: RouteView, from_shortcut: bool)
    ensures
        ({
            let after = handler.hear(header, from_shortcut);
            &&& after.routing == knowledge_after(handler.routing, header.hops, from_shortcut)
            &&& from_shortcut ==> after.routing == handler.routing
            &&& !from_shortcut ==> after.routing == handler.routing.learn_header(header.hops)
            &&& after.node_id == handler.node_id
            &&& after.tx_queue == handler.tx_queue
            &&& after.sent_fragments == handler.sent_fragments
            &&& after.rx_queue == handler.rx_queue
            &&& after.flood_flag == handler.flood_flag
            &&& after.cur_session_id == handler.cur_session_id
        }),
{
}

/// A fragment of a known sender whose index is one of its message is put in at
/// its index, among the fragments of its sender and session, and is not missing
/// any more; its acknowledgement is queued behind what was queued, for the
/// sender, and every known node on its way has passed one packet more. Any other
/// fragment only teaches its way. Nothing else changes.
pub proof fn law_fragment_is_stored(
    handler: HandlerView,
    header: RouteView,
    session_id: u64,
    from_shortcut: bool,
    frag: Fragment,
)
    requires
        handler.can_receive_fragment(header, session_id, frag),
    ensures
        ({
            let after = handler.receive_fragment(header, session_id, from_shortcut, frag);
            let taken = frag.fragment_index < frag.total_n_fragments && header.hops.len() > 0;
            let index = frag.fragment_index as int;
            let known = knowledge_after(handler.routing, header.hops, from_shortcut);
            &&& taken ==> {
                let src = header.hops[0];
                let key = rx_key(src, session_id);
                let entry = after.rx_queue[key];
                let stored = if handler.rx_queue.contains_key(key) {
                    handler.rx_queue[key].fragments
                } else {
                    Seq::empty()
                };
                &&& after.rx_queue.contains_key(key)
                &&& entry.fragments.len() == stored.len() + 1
                &&& entry.fragments[index] == frag
                &&& forall|i: int|
                    0 <= i < index ==> #[trigger] entry.fragments[i] == stored[i]
                &&& forall|i: int|
                    index < i < entry.fragments.len() ==> #[trigger] entry.fragments[i]
                        == stored[i - 1]
                &&& handler.rx_queue.contains_key(key) ==> entry.missing
                    == handler.rx_queue[key].missing.filter(|p: usize| p != index)
                &&& !handler.rx_queue.contains_key(key) ==> {
                    &&& entry.missing.no_duplicates()
                    &&& forall|p: usize| #[trigger]
                        entry.missing.contains(p) <==> p < frag.total_n_fragments && p != index
                }
                &&& forall|other: u128| other != key ==> {
                    &&& #[trigger] after.rx_queue.contains_key(other)
                        <==> handler.rx_queue.contains_key(other)
                    &&& after.rx_queue[other] == handler.rx_queue[other]
                }
                &&& after.tx_queue.len() == handler.tx_queue.len() + 1
                &&& handler.tx_queue.is_prefix_of(after.tx_queue)
                &&& after.tx_queue.last().1 == src
                &&& after.tx_queue.last().0.session_id == session_id
                &&& after.tx_queue.last().0.pack_type == PacketTypeView::Ack(
                    Ack { fragment_index: frag.fragment_index },
                )
                &&& after.tx_queue.last().0.routing_header.hop_index == 0
                &&& after.tx_queue.last().0.routing_header.hops.len() == 0
                &&& after.routing == known.count_acks(header.hops)
            }
            &&& !taken ==> {
                &&& after.rx_queue == handler.rx_queue
                &&& after.tx_queue == handler.tx_queue
                &&& after.routing == known
            }
            &&& after.node_id == handler.node_id
            &&& after.sent_fragments == handler.sent_fragments
            &&& after.flood_flag == handler.flood_flag
            &&& after.cur_session_id == handler.cur_session_id
        }),
{
    let after = handler.receive_fragment(header, session_id, from_shortcut, frag);
    let index = frag.fragment_index as int;
    if frag.fragment_index < frag.total_n_fragments && header.hops.len() > 0 {
        let key = rx_key(header.hops[0], session_id);
        let keep = other_position(frag.fragment_index);
        assert(keep =~= |p: usize| p != index);
        let entry = after.rx_queue[key];
        if !handler.rx_queue.contains_key(key) {
            let all = RxEntryView::expecting(frag.total_n_fragments).missing;
            assert(all.no_duplicates()) by {
                assert forall|i: int, j: int|
                    0 <= i < all.len() && 0 <= j < all.len() && i != j implies all[i] != all[j] by {
                    assert(all[i] == i as usize && all[j] == j as usize);
                }
            }
            lemma_filter_no_duplicates(all, keep);
            assert forall|p: usize| #[trigger]
                entry.missing.contains(p) <==> p < frag.total_n_fragments && p != index by {
                lemma_filter_members(all, keep, p);
                if p < frag.total_n_fragments {
                    assert(all[p as int] == p);
                }
            }
        }
    }
}

/// A filter brings nothing twice that was there once.
proof fn lemma_filter_no_duplicates<A>(s: Seq<A>, keep: spec_fn(A) -> bool)
    requires
        s.no_duplicates(),
    ensures
        s.filter(keep).no_duplicates(),
    decreases s.len(),
{
    reveal(Seq::filter);
    if s.len() > 0 {
        let front = s.drop_last();
        lemma_filter_no_duplicates(front, keep);
        let kept = front.filter(keep);
        if kept.contains(s.last()) {
            front.lemma_filter_contains_rev(keep, s.last());
            let i = front.index_of(s.last());
            assert(s[i] == s[s.len() - 1]);
        }
    }
}

/// A fragment can be taken if it is no more than the next of its message, if
/// there is room for its message where it is the first, and if no counter on its
/// way runs over; one that would not be stored can always be taken, unless its
/// index is the greatest number.
pub proof fn law_fragment_can_be_taken(
    handler: HandlerView,
    header: RouteView,
    session_id: u64,
    frag: Fragment,
)
    ensures
        handler.can_receive_fragment(header, session_id, frag) <==> {
            let taken = frag.fragment_index < frag.total_n_fragments && header.hops.len() > 0;
            let key = rx_key(header.hops[0], session_id);
            &&& frag.fragment_index != u64::MAX
            &&& taken && handler.rx_queue.contains_key(key) ==> frag.fragment_index
                <= handler.rx_queue[key].fragments.len()
            &&& taken && !handler.rx_queue.contains_key(key) ==> frag.fragment_index == 0
                && frag.total_n_fragments * 152 <= isize::MAX
            &&& taken ==> forall|n: NodeId| #[trigger]
                handler.routing.node_data.contains_key(n)
                    ==> handler.routing.node_data[n].acked_packets
                    + header.hops.to_multiset().count(n) <= u64::MAX
        },
{
    law_counters_have_room(handler.routing, header.hops, 0);
}

// What is handed over.

/// Taking out the complete messages leaves every message of which something is
/// missing as it is, takes out every other, and changes nothing else.
pub proof fn law_taking_out_leaves_incomplete(handler: HandlerView)
    ensures
        ({
            let after = handler.without_complete();
            &&& forall|key: u128| #[trigger]
                after.rx_queue.contains_key(key) <==> handler.rx_queue.contains_key(key)
                    && handler.rx_queue[key].missing.len() > 0
            &&& forall|key: u128| #[trigger]
                handler.rx_queue.contains_key(key) && handler.rx_queue[key].missing.len() > 0
                    ==> after.rx_queue[key].fragments == handler.rx_queue[key].fragments
                    && after.rx_queue[key].missing == handler.rx_queue[key].missing
            &&& after.routing == handler.routing
            &&& after.node_id == handler.node_id
            &&& after.tx_queue == handler.tx_queue
            &&& after.sent_fragments == handler.sent_fragments
            &&& after.flood_flag == handler.flood_flag
            &&& after.cur_session_id == handler.cur_session_id
        }),
{
}

/// The messages that are taken out are those of which nothing is missing, each
/// once, and each is what its fragments give when they are put together.
pub proof fn law_taken_out_messages(
    handler: HandlerView,
    keys: Seq<u128>,
    messages: Seq<Seq<u8>>,
)
    requires
        handler.are_complete_messages(keys, messages),
    ensures
        messages.len() == keys.len(),
        forall|i: int, j: int| 0 <= i < j < keys.len() ==> keys[i] != keys[j],
        forall|key: u128| #[trigger]
            keys.contains(key) <==> handler.rx_queue.contains_key(key)
                && handler.rx_queue[key].missing.len() == 0,
        forall|i: int|
            0 <= i < messages.len() ==> #[trigger] messages[i] == joined(
                handler.rx_queue[keys[i]].fragments,
            ),
        forall|key: u128| #[trigger]
            handler.rx_queue.contains_key(key) && handler.rx_queue[key].missing.len() == 0
                ==> messages.contains(joined(handler.rx_queue[key].fragments)),
{
    assert forall|key: u128| #[trigger]
        keys.contains(key) <==> handler.rx_queue.contains_key(key)
            && handler.rx_queue[key].missing.len() == 0 by {
        assert(keys.contains(key) <==> handler.complete(key));
    }
    assert forall|key: u128| #[trigger]
        handler.rx_queue.contains_key(key) && handler.rx_queue[key].missing.len()
            == 0 implies messages.contains(joined(handler.rx_queue[key].fragments)) by {
        assert(keys.contains(key));
        let i = keys.index_of(key);
        assert(messages[i] == joined(handler.rx_queue[key].fragments));
    }
}

/// The messages can be put together unless a fragment of one that is complete
/// claims more bytes than it has.
pub proof fn law_messages_can_be_put_together(handler: HandlerView)
    ensures
        handler.can_defragment() <==> forall|key: u128, i: int|
            handler.rx_queue.contains_key(key) && handler.rx_queue[key].missing.len() == 0 && 0
                <= i < handler.rx_queue[key].fragments.len() ==> (
            #[trigger] handler.rx_queue[key].fragments[i]).length <= 128,
{
    let short = forall|key: u128, i: int|
        handler.rx_queue.contains_key(key) && handler.rx_queue[key].missing.len() == 0 && 0 <= i
            < handler.rx_queue[key].fragments.len() ==> (
        #[trigger] handler.rx_queue[key].fragments[i]).length <= 128;
    if handler.can_defragment() {
        assert forall|key: u128, i: int|
            handler.rx_queue.contains_key(key) && handler.rx_queue[key].missing.len() == 0 && 0
                <= i < handler.rx_queue[key].fragments.len() implies (
        #[trigger] handler.rx_queue[key].fragments[i]).length <= 128 by {
            assert(handler.complete(key));
            assert(crate::packet_handling::fragment::length_fits(
                handler.rx_queue[key].fragments[i],
            ));
        }
    }
    if short {
        assert forall|key: u128| #[trigger]
            handler.complete(key) implies crate::packet_handling::fragment::lengths_fit(
            handler.rx_queue[key].fragments,
        ) by {}
    }
}

/// The state after `frags` have come in over one route in one session, in
/// order, if the complete messages were taken out before the `i`-th of them
/// wherever `taking[i]` says so.
pub open spec fn receive_taking_out(
    handler: HandlerView,
    header: RouteView,
    session_id: u64,
    from_shortcut: bool,
    frags: Seq<Fragment>,
    taking: Seq<bool>,
) -> HandlerView
    decreases frags.len(),
{
    if frags.len() == 0 {
        handler
    } else {
        let before = receive_taking_out(
            handler,
            header,
            session_id,
            from_shortcut,
            frags.drop_last(),
            taking,
        );
        (if taking[frags.len() - 1] {
            before.without_complete()
        } else {
            before
        }).receive_fragment(header, session_id, from_shortcut, frags.last())
    }
}

/// A message whose fragments come in order arrives, however often the complete
/// messages are taken out in between: after `k` fragments those `k` are stored,
/// something is missing until the last has come, and what is then there is the
/// message.
pub proof fn law_message_arrives_bit_by_bit(
    handler: HandlerView,
    header: RouteView,
    session_id: u64,
    from_shortcut: bool,
    frags: Seq<Fragment>,
    message: Seq<u8>,
    taking: Seq<bool>,
    k: int,
)
    requires
        is_fragmentation(frags, message),
        frags.len() <= usize::MAX,
        frags.len() <= u64::MAX,
        header.hops.len() > 0,
        !handler.rx_queue.contains_key(rx_key(header.hops[0], session_id)),
        0 < k <= frags.len(),
    ensures
        ({
            let key = rx_key(header.hops[0], session_id);
            let after = receive_taking_out(
                handler,
                header,
                session_id,
                from_shortcut,
                frags.take(k),
                taking,
            );
            &&& after.rx_queue.contains_key(key)
            &&& after.rx_queue[key].fragments == frags.take(k)
            &&& after.rx_queue[key].missing.len() == 0 <==> k == frags.len()
            &&& k == frags.len() ==> joined(after.rx_queue[key].fragments) == message
            &&& k < frags.len() ==> after.without_complete().rx_queue.contains_key(key)
        }),
{
    lemma_receive_taking_out(
        handler,
        header,
        session_id,
        from_shortcut,
        frags,
        message,
        taking,
        k,
    );
    law_fragments_in_order(frags, message, k);
}

/// What is kept of a message after its first `k` fragments.
proof fn lemma_receive_taking_out(
    handler: HandlerView,
    header: RouteView,
    session_id: u64,
    from_shortcut: bool,
    frags: Seq<Fragment>,
    message: Seq<u8>,
    taking: Seq<bool>,
    k: int,
)
    requires
        is_fragmentation(frags, message),
        frags.len() <= usize::MAX,
        frags.len() <= u64::MAX,
        header.hops.len() > 0,
        !handler.rx_queue.contains_key(rx_key(header.hops[0], session_id)),
        0 <= k <= frags.len(),
    ensures
        ({
            let key = rx_key(header.hops[0], session_id);
            let after = receive_taking_out(
                handler,
                header,
                session_id,
                from_shortcut,
                frags.take(k),
                taking,
            );
            &&& k == 0 ==> !after.rx_queue.contains_key(key)
            &&& k > 0 ==> after.rx_queue.contains_key(key) && after.rx_queue[key]
                == RxEntryView::expecting(frags.len() as u64).accept_all(frags.take(k))
        }),
    decreases k,
{
    if k > 0 {
        lemma_receive_taking_out(
            handler,
            header,
            session_id,
            from_shortcut,
            frags,
            message,
            taking,
            k - 1,
        );
        law_fragments_in_order(frags, message, k - 1);
        let key = rx_key(header.hops[0], session_id);
        let frag = frags[k - 1];
        assert(carries_piece(frag, message, k - 1));
        assert(frags.take(k).drop_last() == frags.take(k - 1));
        assert(frags.take(0) == Seq::<Fragment>::empty());
        let start = RxEntryView::expecting(frags.len() as u64);
        let before = receive_taking_out(
            handler,
            header,
            session_id,
            from_shortcut,
            frags.take(k - 1),
            taking,
        );
        let ready = if taking[k - 1] {
            before.without_complete()
        } else {
            before
        };
        assert(ready.rx_entry(key, frag.total_n_fragments) == start.accept_all(frags.take(k - 1)));
    }
}

// What becomes of open sessions.

/// An acknowledgement for one session leaves every other session as it was.
pub proof fn law_ack_leaves_other_sessions(
    handler: HandlerView,
    header: RouteView,
    session_id: u64,
    from_shortcut: bool,
    ack: Ack,
    other: u64,
)
    requires
        other != session_id,
    ensures
        ({
            let after = handler.receive_ack(header, session_id, from_shortcut, ack);
            &&& after.sent_fragments.contains_key(other) <==> handler.sent_fragments.contains_key(
                other,
            )
            &&& after.sent_fragments[other] == handler.sent_fragments[other]
        }),
{
}

/// An acknowledgement from the receiver of a session strikes the fragment that
/// it names off that session and leaves the others in their order; the session
/// ends if none is left. Any other acknowledgement leaves the session as it is.
/// No acknowledgement touches the queue or the messages that come in.
pub proof fn law_ack_strikes_fragment(
    handler: HandlerView,
    header: RouteView,
    session_id: u64,
    from_shortcut: bool,
    ack: Ack,
)
    ensures
        ({
            let after = handler.receive_ack(header, session_id, from_shortcut, ack);
            let was_open = handler.sent_fragments.contains_key(session_id);
            let (receiver, frags) = handler.sent_fragments[session_id];
            let named = was_open && header.hops.len() > 0 && header.hops[0] == receiver;
            &&& named ==> {
                &&& after.sent_fragments.contains_key(session_id) <==> exists|i: int|
                    0 <= i < frags.len() && (#[trigger] frags[i]).fragment_index
                        != ack.fragment_index
                &&& after.sent_fragments.contains_key(session_id)
                    ==> after.sent_fragments[session_id].0 == receiver
                    && after.sent_fragments[session_id].1 == frags.filter(
                    |frag: Fragment| frag.fragment_index != ack.fragment_index,
                )
            }
            &&& !named ==> after.sent_fragments == handler.sent_fragments
            &&& after.routing == knowledge_after(handler.routing, header.hops, from_shortcut)
            &&& after.node_id == handler.node_id
            &&& after.tx_queue == handler.tx_queue
            &&& after.rx_queue == handler.rx_queue
            &&& after.flood_flag == handler.flood_flag
            &&& after.cur_session_id == handler.cur_session_id
        }),
{
    let (receiver, frags) = handler.sent_fragments[session_id];
    let keep = other_fragment(ack.fragment_index);
    assert(keep =~= |frag: Fragment| frag.fragment_index != ack.fragment_index);
    let rest = frags.filter(keep);
    if rest.len() > 0 {
        assert(rest.contains(rest[0]));
        lemma_filter_members(frags, keep, rest[0]);
        let i = frags.index_of(rest[0]);
        assert(frags[i].fragment_index != ack.fragment_index);
    }
    assert forall|i: int|
        0 <= i < frags.len() && (#[trigger] frags[i]).fragment_index
            != ack.fragment_index implies rest.len() > 0 by {
        lemma_filter_members(frags, keep, frags[i]);
        assert(rest.contains(frags[i]));
    }
}

/// The report of a dropped packet of an open session counts against the
/// receiver, and queues the fragment at the place that it names, if there is
/// one, again for that receiver, in that session and without a route. It changes
/// neither the sessions nor the messages that come in, and of a session that is
/// not open it only teaches its way.
pub proof fn law_drop_report(
    handler: HandlerView,
    header: RouteView,
    session_id: u64,
    from_shortcut: bool,
    fragment_index: u64,
)
    ensures
        ({
            let nack = Nack { fragment_index, nack_type: NackType::Dropped };
            let after = handler.receive_nack(header, session_id, from_shortcut, nack);
            let was_open = handler.sent_fragments.contains_key(session_id);
            let (receiver, frags) = handler.sent_fragments[session_id];
            let known = knowledge_after(handler.routing, header.hops, from_shortcut);
            &&& after.routing == (if was_open {
                known.count_drop(receiver)
            } else {
                known
            })
            &&& was_open && fragment_index < frags.len() ==> {
                &&& after.tx_queue.len() == handler.tx_queue.len() + 1
                &&& handler.tx_queue.is_prefix_of(after.tx_queue)
                &&& after.tx_queue.last().1 == receiver
                &&& after.tx_queue.last().0.session_id == session_id
                &&& after.tx_queue.last().0.pack_type == PacketTypeView::MsgFragment(
                    frags[fragment_index as int],
                )
                &&& after.tx_queue.last().0.routing_header.hop_index == 0
                &&& after.tx_queue.last().0.routing_header.hops.len() == 0
            }
            &&& !was_open || fragment_index >= frags.len() ==> after.tx_queue == handler.tx_queue
            &&& after.sent_fragments == handler.sent_fragments
            &&& after.rx_queue == handler.rx_queue
            &&& after.node_id == handler.node_id
            &&& after.flood_flag == handler.flood_flag
            &&& after.cur_session_id == handler.cur_session_id
        }),
{
}

/// A report that a node cannot be reached makes the node be forgotten and a
/// flood be wanted, and changes nothing else; the other reports change nothing.
pub proof fn law_other_reports(
    handler: HandlerView,
    header: RouteView,
    session_id: u64,
    from_shortcut: bool,
    nack: Nack,
)
    requires
        !(nack.nack_type is Dropped),
    ensures
        ({
            let after = handler.receive_nack(header, session_id, from_shortcut, nack);
            &&& nack.nack_type is ErrorInRouting ==> after.routing == handler.routing.forget(
                nack.nack_type->ErrorInRouting_0,
            ) && after.flood_flag
            &&& !(nack.nack_type is ErrorInRouting) ==> after.routing == handler.routing
                && after.flood_flag == handler.flood_flag
            &&& after.tx_queue == handler.tx_queue
            &&& after.sent_fragments == handler.sent_fragments
            &&& after.rx_queue == handler.rx_queue
            &&& after.node_id == handler.node_id
            &&& after.cur_session_id == handler.cur_session_id
        }),
{
}

/// A report can be taken unless it counts a drop on a counter that is full.
pub proof fn law_report_can_be_taken(handler: HandlerView, session_id: u64, nack: Nack)
    ensures
        !handler.can_receive_nack(session_id, nack) <==> {
            let receiver = handler.sent_fragments[session_id].0;
            &&& nack.nack_type is Dropped
            &&& handler.sent_fragments.contains_key(session_id)
            &&& handler.routing.node_data.contains_key(receiver)
            &&& handler.routing.node_data[receiver].dropped_packets == u64::MAX
        },
{
}

// What becomes of flood responses.

/// The named nodes among the first `n` of the topology.
proof fn lemma_endpoints(handler: HandlerView, n: int)
    requires
        0 <= n <= handler.routing.topology.nodes.len(),
        handler.routing.topology.nodes.no_duplicates(),
    ensures
        ({
            let nodes = handler.routing.topology.nodes;
            let named = nodes.take(n).filter_map(handler.endpoint());
            &&& forall|id: NodeId, node_type: NodeType| #[trigger]
                named.contains((id, node_type)) <==> nodes.take(n).contains(id)
                    && handler.endpoint()(id) == Some((id, node_type))
            &&& forall|i: int|
                0 <= i < named.len() ==> 0 <= nodes.index_of((#[trigger] named[i]).0) < n
                    && nodes.contains(named[i].0)
            &&& forall|i: int, j: int|
                0 <= i < j < named.len() ==> nodes.index_of((#[trigger] named[i]).0)
                    < nodes.index_of((#[trigger] named[j]).0)
        }),
    decreases n,
{
    let nodes = handler.routing.topology.nodes;
    let f = handler.endpoint();
    let named = nodes.take(n).filter_map(f);
    if n > 0 {
        lemma_endpoints(handler, n - 1);
        let before = nodes.take(n - 1).filter_map(f);
        let last = nodes[n - 1];
        nodes.lemma_filter_map_take_succ(f, n - 1);
        assert(nodes.contains(last));
        assert(nodes.index_of(last) == n - 1);
        assert forall|id: NodeId| #[trigger] nodes.take(n).contains(id) <==> nodes.take(
            n - 1,
        ).contains(id) || id == last by {
            if nodes.take(n - 1).contains(id) {
                assert(nodes.take(n)[nodes.take(n - 1).index_of(id)] == id);
            }
            if nodes.take(n).contains(id) {
                let i = nodes.take(n).index_of(id);
                if i < n - 1 {
                    assert(nodes.take(n - 1)[i] == id);
                }
            }
            assert(nodes.take(n)[n - 1] == last);
        }
        assert forall|id: NodeId, node_type: NodeType| #[trigger]
            named.contains((id, node_type)) <==> nodes.take(n).contains(id) && f(id) == Some(
                (id, node_type),
            ) by {
            let x = (id, node_type);
            assert(before.contains(x) <==> nodes.take(n - 1).contains(id) && f(id) == Some(x));
            if before.contains(x) {
                assert(named[before.index_of(x)] == x);
            }
            if named.contains(x) {
                let i = named.index_of(x);
                if i < before.len() {
                    assert(before[i] == x);
                }
            }
            if id == last && f(id) == Some(x) {
                assert(named[before.len() as int] == x);
            }
        }
        assert forall|i: int| 0 <= i < named.len() implies 0 <= nodes.index_of(
            (#[trigger] named[i]).0,
        ) < n && nodes.contains(named[i].0) by {
            if i < before.len() {
                assert(named[i] == before[i]);
            }
        }
        assert forall|i: int, j: int| 0 <= i < j < named.len() implies nodes.index_of(
            (#[trigger] named[i]).0,
        ) < nodes.index_of((#[trigger] named[j]).0) by {
            assert(named[i] == before[i]);
            if j < before.len() {
                assert(named[j] == before[j]);
            }
        }
    }
}

/// The nodes that are named are exactly the other nodes of the topology that
/// are known to be clients or servers, each with that type, once, and in the
/// order of the topology.
pub proof fn law_endpoints(handler: HandlerView)
    requires
        handler.routing.topology.nodes.no_duplicates(),
    ensures
        ({
            let named = handler.endpoints();
            let nodes = handler.routing.topology.nodes;
            &&& forall|id: NodeId, node_type: NodeType| #[trigger]
                named.contains((id, node_type)) <==> {
                    &&& nodes.contains(id)
                    &&& id != handler.node_id
                    &&& handler.routing.node_data.contains_key(id)
                    &&& handler.routing.node_data[id].node_type == Some(node_type)
                    &&& node_type == NodeType::Client || node_type == NodeType::Server
                }
            &&& forall|i: int, j: int|
                0 <= i < j < named.len() ==> nodes.index_of((#[trigger] named[i]).0)
                    < nodes.index_of((#[trigger] named[j]).0)
        }),
{
    let nodes = handler.routing.topology.nodes;
    lemma_endpoints(handler, nodes.len() as int);
    assert(nodes.take(nodes.len() as int) == nodes);
}

/// The response to a flood of the node itself names every client and server of
/// its trace that stands next to a drone there.
pub proof fn law_own_flood_names_endpoints(
    handler: HandlerView,
    packet: PacketView,
    from_shortcut: bool,
    res: FloodResponseView,
    i: int,
)
    requires
        handler.well_formed(),
        packet.pack_type == PacketTypeView::FloodResponse(res),
        res.path_trace.len() >= 2,
        res.path_trace[0].0 == handler.node_id,
        0 <= i < res.path_trace.len(),
        res.path_trace[i].0 != handler.node_id,
        res.path_trace[i].1 != NodeType::Drone,
        forall|j: int|
            i < j < res.path_trace.len() ==> (#[trigger] res.path_trace[j]).0
                != res.path_trace[i].0,
        (i > 0 && res.path_trace[i - 1].1 == NodeType::Drone) || (i + 1 < res.path_trace.len()
            && res.path_trace[i + 1].1 == NodeType::Drone),
    ensures
        handler.receive(packet, from_shortcut).endpoints().contains(res.path_trace[i]),
{
    let trace = res.path_trace;
    let after = handler.receive(packet, from_shortcut);
    let heard = knowledge_after(handler.routing, packet.routing_header.hops, from_shortcut);
    assert(after.routing == heard.learn_trace(trace));
    law_receive_well_formed(handler, packet, from_shortcut);
    law_trace_teaches_links(heard, trace);
    law_trace_teaches_types(heard, trace);
    let id = trace[i].0;
    if i > 0 && trace[i - 1].1 == NodeType::Drone {
        assert(trace[i - 1] == (trace[i - 1].0, NodeType::Drone));
        assert(shows_link(trace, trace[i - 1].0, id));
        assert(after.routing.topology.linked(trace[i - 1].0, id));
    } else {
        assert(trace[i] == trace[i]);
        assert(trace[i + 1] == (trace[i + 1].0, NodeType::Drone));
        assert(shows_link(trace, trace[i + 1].0, id));
        assert(after.routing.topology.linked(trace[i + 1].0, id));
    }
    assert(after.routing.topology.nodes.contains(id));
    law_endpoints(after);
    assert(trace[i] == (id, trace[i].1));
    assert(after.endpoints().contains((id, trace[i].1)));
}

/// A flood response teaches its way and, if it answers a flood of the node
/// itself, its trace; it changes nothing else.
pub proof fn law_flood_response_teaches(
    handler: HandlerView,
    header: RouteView,
    from_shortcut: bool,
    res: FloodResponseView,
)
    ensures
        ({
            let after = handler.receive_flood_response(header, from_shortcut, res);
            let known = knowledge_after(handler.routing, header.hops, from_shortcut);
            &&& after.routing == (if res.path_trace.len() > 0 && res.path_trace[0].0
                == handler.routing.node_id {
                known.learn_trace(res.path_trace)
            } else {
                known
            })
            &&& after.tx_queue == handler.tx_queue
            &&& after.sent_fragments == handler.sent_fragments
            &&& after.rx_queue == handler.rx_queue
            &&& after.node_id == handler.node_id
            &&& after.flood_flag == handler.flood_flag
            &&& after.cur_session_id == handler.cur_session_id
        }),
{
}

/// What a flood response makes leave at once: the response itself, if another
/// node started the flood and the next hop of the route is connected. It goes to
/// that hop, on the route moved on by one, and is reported as it leaves.
pub proof fn law_passed_on_response(
    handler: HandlerView,
    header: RouteView,
    session_id: u64,
    res: FloodResponseView,
    connected: Seq<NodeId>,
)
    ensures
        ({
            let sent = handler.passed_on(header, session_id, res, connected);
            let goes_on = res.path_trace.len() > 0 && res.path_trace[0].0
                != handler.routing.node_id && header.hop_index + 1 < header.hops.len()
                && connected.contains(header.hops[header.hop_index as int + 1]);
            &&& goes_on ==> {
                &&& sent.len() == 1
                &&& sent[0].via == header.hops[header.hop_index as int + 1]
                &&& sent[0].packet.routing_header.hops == header.hops
                &&& sent[0].packet.routing_header.hop_index == header.hop_index + 1
                &&& sent[0].packet.session_id == session_id
                &&& sent[0].packet.pack_type == PacketTypeView::FloodResponse(res)
                &&& sent[0].reported == sent[0].packet
            }
            &&& !goes_on ==> sent.len() == 0
        }),
{
    law_foreign_response_goes_on(handler.routing, header, session_id, res);
}

// What becomes of any packet.

/// Every packet is treated by what it carries.
pub proof fn law_packets_by_kind(handler: HandlerView, packet: PacketView, from_shortcut: bool)
    ensures
        ({
            let after = handler.receive(packet, from_shortcut);
            let header = packet.routing_header;
            let session_id = packet.session_id;
            match packet.pack_type {
                PacketTypeView::MsgFragment(frag) => after == handler.receive_fragment(
                    header,
                    session_id,
                    from_shortcut,
                    frag,
                ),
                PacketTypeView::Ack(ack) => after == handler.receive_ack(
                    header,
                    session_id,
                    from_shortcut,
                    ack,
                ),
                PacketTypeView::Nack(nack) => after == handler.receive_nack(
                    header,
                    session_id,
                    from_shortcut,
                    nack,
                ),
                PacketTypeView::FloodRequest(_) => after == handler.hear(header, from_shortcut),
                PacketTypeView::FloodResponse(res) => after == handler.receive_flood_response(
                    header,
                    from_shortcut,
                    res,
                ),
            }
        }),
        match packet.pack_type {
            PacketTypeView::MsgFragment(frag) => handler.can_receive(packet)
                == handler.can_receive_fragment(packet.routing_header, packet.session_id, frag),
            PacketTypeView::Nack(nack) => handler.can_receive(packet) == handler.can_receive_nack(
                packet.session_id,
                nack,
            ),
            _ => handler.can_receive(packet),
        },
{
}

/// A flood request is left to be answered or spread as it came, a flood
/// response to be passed on and to be told of, and no other packet leaves
/// anything to do.
pub proof fn law_leftover(
    handler: HandlerView,
    after: HandlerView,
    packet: PacketView,
    connected: Seq<NodeId>,
)
    ensures
        ({
            let leftover = handler.leftover(after, packet, connected);
            match packet.pack_type {
                PacketTypeView::FloodRequest(_) => leftover == LeftoverView::FloodRequest(packet),
                PacketTypeView::FloodResponse(res) => {
                    &&& leftover is FloodResponse
                    &&& leftover->FloodResponse_0 == handler.passed_on(
                        packet.routing_header,
                        packet.session_id,
                        res,
                        connected,
                    )
                    &&& leftover->FloodResponse_1 == after.endpoints()
                },
                _ => leftover == LeftoverView::Nothing,
            }
        }),
{
}

/// The fragments of one sender and session are kept under a key of their own,
/// and a fragment of another sender or session goes elsewhere.
pub proof fn law_fragment_leaves_other_messages(
    handler: HandlerView,
    packet: PacketView,
    from_shortcut: bool,
    src: NodeId,
    session_id: u64,
)
    requires
        packet.pack_type is MsgFragment,
        packet.routing_header.hops.len() == 0 || packet.routing_header.hops[0] != src
            || packet.session_id != session_id,
    ensures
        ({
            let key = rx_key(src, session_id);
            let after = handler.receive(packet, from_shortcut);
            &&& after.rx_queue.contains_key(key) <==> handler.rx_queue.contains_key(key)
            &&& after.rx_queue[key] == handler.rx_queue[key]
        }),
{
    if packet.routing_header.hops.len() > 0 {
        let other = packet.routing_header.hops[0];
        if rx_key(other, packet.session_id) == rx_key(src, session_id) {
            law_rx_key_injective(other, packet.session_id, src, session_id);
        }
    }
}

} // verus!
