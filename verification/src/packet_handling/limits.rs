//! Whether a node can take what it is about to be given.
//!
//! Counters and memory are finite, and a fragment is put in at its index. A
//! caller that cannot rule the exceptions out asks here first.
use crate::network::{NodeId, SourceRoutingHeader};
use crate::packet::{
    Fragment, Nack, NackType, Packet, PacketType, FRAGMENT_DSIZE, FRAGMENT_FOOTPRINT,
};
use crate::packet_handling::fragment::{length_fits, lengths_fit};
use crate::packet_handling::packet_handlers::make_rx_key;
use crate::packet_handling::routing::{acks_fit, occurrences, RoutingHelper};
use crate::packet_handling::{rx_entry_view, PacketHandler};
use vstd::prelude::*;

verus! {

broadcast use vstd::std_specs::hash::group_hash_axioms;

/// How often `id` occurs in `hops`.
fn count_occurrences(hops: &Vec<NodeId>, id: NodeId) -> (count: usize)
    ensures
        count == occurrences(hops@, id),
{
    let mut count: usize = 0;
    for i in 0..hops.len()
        invariant
            count <= i,
            count == occurrences(hops@.take(i as int), id),
    {
        assert(hops@.take(i + 1).drop_last() == hops@.take(i as int));
        if hops[i] == id {
            count = count + 1;
        }
    }
    assert(hops@.take(hops@.len() as int) == hops@);
    count
}

/// A node that is no hop does not occur.
proof fn lemma_no_occurrence(hops: Seq<NodeId>, id: NodeId)
    requires
        !hops.contains(id),
    ensures
        occurrences(hops, id) == 0,
    decreases hops.len(),
{
    if hops.len() > 0 {
        assert(hops.last() != id) by {
            assert(hops[hops.len() - 1] == hops.last());
        }
        assert forall|x: NodeId| hops.drop_last().contains(x) implies hops.contains(x) by {
            let i = hops.drop_last().index_of(x);
            assert(hops[i] == x);
        }
        lemma_no_occurrence(hops.drop_last(), id);
    }
}

/// Whether the length of every fragment stays within its data.
pub fn check_lengths(frags: &Vec<Fragment>) -> (fit: bool)
    ensures
        fit == lengths_fit(frags@),
{
    for i in 0..frags.len()
        invariant
            forall|k: int| 0 <= k < i ==> #[trigger] length_fits(frags@[k]),
    {
        if frags[i].length as usize > FRAGMENT_DSIZE {
            assert(!length_fits(frags@[i as int]));
            return false;
        }
    }
    true
}

impl RoutingHelper {
    /// Whether every counter can take the acknowledgements of a packet over `route`.
    pub fn check_acks(&self, route: &SourceRoutingHeader) -> (fit: bool)
        ensures
            fit == acks_fit(self@.node_data, route@.hops),
    {
        for i in 0..route.hops.len()
            invariant
                forall|k: int|
                    0 <= k < i && self@.node_data.contains_key(#[trigger] route.hops@[k])
                        ==> self@.node_data[route.hops@[k]].acked_packets + occurrences(
                        route.hops@,
                        route.hops@[k],
                    ) <= u64::MAX,
        {
            let id = route.hops[i];
            match self.node_data.get(&id) {
                Some(info) => {
                    let count: usize = count_occurrences(&route.hops, id);
                    if info.acked_packets > u64::MAX - count as u64 {
                        assert(self@.node_data.contains_key(id));
                        return false;
                    }
                },
                None => {},
            }
        }
        assert forall|id: NodeId| #[trigger]
            self@.node_data.contains_key(id) implies self@.node_data[id].acked_packets
            + occurrences(route.hops@, id) <= u64::MAX by {
            if route.hops@.contains(id) {
                let k = route.hops@.index_of(id);
                assert(route.hops@[k] == id);
            } else {
                lemma_no_occurrence(route.hops@, id);
            }
        }
        true
    }

    /// Whether the counter of `node_id` can take a drop.
    pub fn check_drop(&self, node_id: NodeId) -> (fits: bool)
        ensures
            fits == self@.drop_fits(node_id),
    {
        match self.node_data.get(&node_id) {
            Some(info) => info.dropped_packets < u64::MAX,
            None => true,
        }
    }

    /// Whether the drop rate of every known node can be told.
    pub fn check_rates(&self) -> (fit: bool)
        ensures
            fit == self@.rates_fit(),
    {
        let ghost data = self.node_data@;
        for (id, info) in iter: self.node_data.iter()
            invariant
                data == self.node_data@,
                forall|j: int|
                    0 <= j < iter.index() ==> self@.rate_fits(*(#[trigger] iter.seq()[j]).0),
        {
            let ghost n = iter.index() as int;
            assert(iter.seq()[n] == (id, info));
            assert(data.contains_key(*id) && data[*id] == *info);
            if info.acked_packets >= u64::MAX - info.dropped_packets {
                assert(!self@.rate_fits(*id));
                return false;
            }
        }
        true
    }
}

impl PacketHandler {
    /// Whether a fragment can be taken.
    fn check_fragment(&self, packet: &Packet, frag: &Fragment) -> (fits: bool)
        ensures
            fits == self@.can_receive_fragment(packet@.routing_header, packet@.session_id, *frag),
    {
        if frag.fragment_index == u64::MAX {
            return false;
        }
        if frag.fragment_index >= frag.total_n_fragments {
            return true;
        }
        match packet.routing_header.source() {
            Some(src) => {
                let key = make_rx_key(src, packet.session_id);
                let stored: u64 = match self.rx_queue.get(&key) {
                    Some(entry) => {
                        assert(rx_entry_view(*entry) == self@.rx_queue[key]);
                        entry.0.len() as u64
                    },
                    None => {
                        if frag.total_n_fragments > isize::MAX as u64 / FRAGMENT_FOOTPRINT {
                            return false;
                        }
                        0
                    },
                };
                frag.fragment_index <= stored && self.routing_helper.check_acks(
                    &packet.routing_header,
                )
            },
            None => true,
        }
    }

    /// Whether a report of a packet that was not delivered can be taken.
    fn check_nack(&self, packet: &Packet, nack: &Nack) -> (fits: bool)
        ensures
            fits == self@.can_receive_nack(packet@.session_id, *nack),
    {
        match nack.nack_type {
            NackType::Dropped => match self.sent_fragments.get(&packet.session_id) {
                Some(entry) => self.routing_helper.check_drop(entry.0),
                None => true,
            },
            _ => true,
        }
    }

    /// Whether a packet can be taken.
    pub fn check_packet(&self, packet: &Packet) -> (fits: bool)
        ensures
            fits == self@.can_receive(packet@),
    {
        match &packet.pack_type {
            PacketType::MsgFragment(frag) => self.check_fragment(packet, frag),
            PacketType::Nack(nack) => self.check_nack(packet, nack),
            _ => true,
        }
    }

    /// Whether the messages that are complete can be put together.
    pub fn check_messages(&self) -> (fit: bool)
        ensures
            fit == self@.can_defragment(),
    {
        let ghost rx = self.rx_queue@;
        for (key, entry) in iter: self.rx_queue.iter()
            invariant
                rx == self.rx_queue@,
                forall|j: int|
                    0 <= j < iter.index() && self@.complete(*(#[trigger] iter.seq()[j]).0)
                        ==> lengths_fit(self@.rx_queue[*iter.seq()[j].0].fragments),
        {
            let ghost n = iter.index() as int;
            assert(iter.seq()[n] == (key, entry));
            assert(rx.contains_key(*key) && rx[*key] == *entry);
            if entry.1.len() == 0 && !check_lengths(&entry.0) {
                assert(self@.complete(*key));
                return false;
            }
        }
        true
    }
}

} // verus!
