//! What holds of the knowledge of a node and of the routes that follow from it.
use crate::cost::{at_most, is_ordered, less, plus, DropRate, Measure};
use crate::network::{NodeId, NodeType, RouteView};
use crate::packet::{FloodResponseView, PacketTypeView};
use crate::packet_handling::routing::{
    acks_fit, fresh_entries, later_hops, occurrences, NodeInfo, RoutingHelper,
    RoutingView,
};
use crate::topology::{is_step, law_link_path, law_link_star, law_unlink, Topology};
use std::fmt::Debug;
use std::ops::Add;
use vstd::prelude::*;

verus! {

// What a node counts.

/// Whether the share `a` is less than the share `b`.
pub open spec fn rate_below(a: DropRate, b: DropRate) -> bool {
    a.0 * b.1 < b.0 * a.1
}

/// The drop rate of a known node is its dropped packets out of all packets that
/// it is known to have had, and one more: nothing only as long as it has
/// dropped nothing, never everything. A node that is not known drops everything.
pub proof fn law_drop_rate_counts(view: RoutingView, id: NodeId)
    requires
        view.rate_fits(id),
    ensures
        view.node_data.contains_key(id) ==> {
            let info = view.node_data[id];
            let rate = view.drop_rate(id);
            &&& rate.0 == info.dropped_packets
            &&& rate.1 == info.acked_packets + info.dropped_packets + 1
            &&& rate.0 == 0 <==> info.dropped_packets == 0
            &&& rate.0 < rate.1
        },
        !view.node_data.contains_key(id) ==> view.drop_rate(id).0 == view.drop_rate(id).1
            && view.drop_rate(id).1 > 0,
{
}

/// The rates of two known nodes are in the order of their dropped packets where
/// they have passed on the same number, and in the opposite order of what they
/// have passed on where they have dropped the same number, if any; no known
/// node is as bad as one that is not known.
pub proof fn law_drop_rate_order(view: RoutingView, a: NodeId, b: NodeId, unknown: NodeId)
    requires
        view.rate_fits(a),
        view.rate_fits(b),
        view.node_data.contains_key(a),
        view.node_data.contains_key(b),
        !view.node_data.contains_key(unknown),
    ensures
        ({
            let x = view.node_data[a];
            let y = view.node_data[b];
            &&& x.acked_packets == y.acked_packets ==> (rate_below(
                view.drop_rate(a),
                view.drop_rate(b),
            ) <==> x.dropped_packets < y.dropped_packets)
            &&& x.dropped_packets == y.dropped_packets && x.dropped_packets > 0 ==> (rate_below(
                view.drop_rate(a),
                view.drop_rate(b),
            ) <==> x.acked_packets > y.acked_packets)
            &&& rate_below(view.drop_rate(a), view.drop_rate(unknown))
        }),
{
    let x = view.node_data[a];
    let y = view.node_data[b];
    let (p, q) = (x.dropped_packets as int, x.acked_packets + x.dropped_packets + 1);
    let (r, s) = (y.dropped_packets as int, y.acked_packets + y.dropped_packets + 1);
    if x.acked_packets == y.acked_packets {
        let k = x.acked_packets + 1;
        assert(p * (r + k) < r * (p + k) <==> p < r) by (nonlinear_arith)
            requires
                k >= 1,
        ;
        assert(q == p + k && s == r + k);
    }
    if p == r && p > 0 {
        assert(p * s < p * q <==> s < q) by (nonlinear_arith)
            requires
                p > 0,
        ;
    }
    assert(p * 1 < 1 * q);
}

/// Every packet that a known node drops makes its rate greater, counts for that
/// node once and changes nothing else; of a node that is not known nothing is
/// counted.
pub proof fn law_drop_raises_rate(view: RoutingView, id: NodeId, other: NodeId)
    requires
        view.drop_fits(id),
    ensures
        ({
            let after = view.count_drop(id);
            &&& view.node_data.contains_key(id) ==> {
                let before = view.node_data[id];
                &&& after.node_data.contains_key(id)
                &&& after.node_data[id].dropped_packets == before.dropped_packets + 1
                &&& after.node_data[id].acked_packets == before.acked_packets
                &&& after.node_data[id].node_type == before.node_type
                &&& after.node_data[id].id == before.id
                &&& after.rate_fits(id) ==> view.rate_fits(id) && rate_below(
                    view.drop_rate(id),
                    after.drop_rate(id),
                )
            }
            &&& !view.node_data.contains_key(id) ==> after == view
            &&& other != id ==> {
                &&& after.node_data.contains_key(other) <==> view.node_data.contains_key(other)
                &&& after.node_data[other] == view.node_data[other]
                &&& after.drop_rate(other) == view.drop_rate(other)
            }
            &&& after.topology == view.topology
            &&& after.cur_flood_id == view.cur_flood_id
            &&& after.node_id == view.node_id
            &&& after.node_type == view.node_type
        }),
{
    let after = view.count_drop(id);
    if view.node_data.contains_key(id) && after.rate_fits(id) {
        let d = view.node_data[id].dropped_packets as int;
        let n = view.node_data[id].acked_packets + d + 1;
        assert(d * (n + 1) < (d + 1) * n) by (nonlinear_arith)
            requires
                d < n,
        ;
    }
}

/// A node is counted once for each time that it stands in a route.
pub proof fn law_occurrences_count(hops: Seq<NodeId>, id: NodeId)
    ensures
        occurrences(hops, id) == hops.to_multiset().count(id),
    decreases hops.len(),
{
    broadcast use vstd::seq_lib::group_to_multiset_ensures;

    if hops.len() > 0 {
        law_occurrences_count(hops.drop_last(), id);
        assert(hops == hops.drop_last().push(hops.last()));
    } else {
        assert(hops.to_multiset().len() == 0);
        assert(hops.to_multiset().count(id) == 0);
    }
}

/// A packet that has come over a route counts as passed on for every known node
/// of that route, once for each time it occurs there: the rate of such a node
/// sinks if it has dropped anything, the rates of all others stay.
pub proof fn law_ack_lowers_rates(view: RoutingView, hops: Seq<NodeId>, id: NodeId)
    requires
        acks_fit(view.node_data, hops),
    ensures
        ({
            let after = view.count_acks(hops);
            &&& after.node_data.contains_key(id) <==> view.node_data.contains_key(id)
            &&& view.node_data.contains_key(id) ==> {
                let before = view.node_data[id];
                &&& after.node_data[id].acked_packets == before.acked_packets
                    + hops.to_multiset().count(id)
                &&& after.node_data[id].dropped_packets == before.dropped_packets
                &&& after.node_data[id].node_type == before.node_type
                &&& after.node_data[id].id == before.id
                &&& after.rate_fits(id) && hops.contains(id) && before.dropped_packets > 0
                    ==> rate_below(after.drop_rate(id), view.drop_rate(id))
                &&& after.rate_fits(id) ==> !rate_below(view.drop_rate(id), after.drop_rate(id))
            }
            &&& !hops.contains(id) || !view.node_data.contains_key(id) ==> after.drop_rate(id)
                == view.drop_rate(id)
            &&& after.topology == view.topology
            &&& after.cur_flood_id == view.cur_flood_id
            &&& after.node_id == view.node_id
            &&& after.node_type == view.node_type
        }),
{
    broadcast use vstd::seq_lib::group_to_multiset_ensures;

    law_occurrences_count(hops, id);
    let after = view.count_acks(hops);
    let k = occurrences(hops, id) as int;
    if view.node_data.contains_key(id) {
        assert(view.node_data[id].acked_packets + occurrences(hops, id) <= u64::MAX);
        if after.rate_fits(id) {
            let d = view.node_data[id].dropped_packets as int;
            let n = view.node_data[id].acked_packets + d + 1;
            assert(after.drop_rate(id).1 == n + k);
            assert(d * n <= d * (n + k)) by (nonlinear_arith)
                requires
                    d >= 0,
                    k >= 0,
            ;
            if hops.contains(id) && d > 0 {
                assert(k > 0);
                assert(d * n < d * (n + k)) by (nonlinear_arith)
                    requires
                        d > 0,
                        k > 0,
                ;
            }
        }
    }
}

/// A counter can take the packets of a route unless it would run over.
pub proof fn law_counters_have_room(view: RoutingView, hops: Seq<NodeId>, id: NodeId)
    ensures
        acks_fit(view.node_data, hops) <==> forall|n: NodeId| #[trigger]
            view.node_data.contains_key(n) ==> view.node_data[n].acked_packets
                + hops.to_multiset().count(n) <= u64::MAX,
        view.drop_fits(id) <==> (view.node_data.contains_key(id)
            ==> view.node_data[id].dropped_packets != u64::MAX),
        view.rates_fit() <==> forall|n: NodeId| #[trigger]
            view.node_data.contains_key(n) ==> view.node_data[n].acked_packets
                + view.node_data[n].dropped_packets + 1 <= u64::MAX,
{
    assert forall|n: NodeId| #[trigger]
        view.node_data.contains_key(n) implies hops.to_multiset().count(n) == occurrences(
        hops,
        n,
    ) by {
        law_occurrences_count(hops, n);
    }
    if view.rates_fit() {
        assert forall|n: NodeId| #[trigger]
            view.node_data.contains_key(n) implies view.node_data[n].acked_packets
            + view.node_data[n].dropped_packets + 1 <= u64::MAX by {
            assert(view.rate_fits(n));
        }
    }
}

// What routes a node finds.

/// A route that is found leads from link to link, from `src` to `dst`, visits
/// no node twice, is held by the first node behind its start, and costs no more
/// than any other way; none is found only where there is no way.
pub proof fn law_found_route_is_cheapest<K, F>(
    view: RoutingView,
    src: NodeId,
    dst: NodeId,
    cost: F,
    route: Option<RouteView>,
    measure: Measure<K>,
    other: Seq<NodeId>,
) where
    K: Copy + Debug + PartialOrd + Add<Output = K> + Default,
    F: Fn(DropRate, DropRate) -> K,

    requires
        view.is_best_route(src, dst, cost, route),
        measure.measures(cost),
    ensures
        route is Some ==> {
            let hops = route->0.hops;
            &&& route->0.hop_index == 1
            &&& hops.len() > 0
            &&& hops[0] == src
            &&& hops[hops.len() - 1] == dst
            &&& hops.no_duplicates()
            &&& forall|i: int|
                0 <= i < hops.len() - 1 ==> view.topology.edges.contains_key(
                    (#[trigger] hops[i], hops[i + 1]),
                )
            &&& view.topology.is_path(other, src, dst) ==> at_most(
                view.path_cost(measure, hops),
                view.path_cost(measure, other),
            )
        },
        route is None ==> !view.topology.is_path(other, src, dst),
{
    if route is Some {
        let hops = route->0.hops;
        assert forall|i: int| 0 <= i < hops.len() - 1 implies view.topology.edges.contains_key(
            (#[trigger] hops[i], hops[i + 1]),
        ) by {
            assert(view.topology.linked(hops[i], hops[i + 1]));
        }
    }
}

/// The cost of every path is on the scale of the measure.
proof fn lemma_path_cost_on_scale<K, F>(
    view: RoutingView,
    cost: F,
    measure: Measure<K>,
    hops: Seq<NodeId>,
) where
    K: Copy + Debug + PartialOrd + Add<Output = K> + Default,
    F: Fn(DropRate, DropRate) -> K,

    requires
        view.rates_fit(),
        measure.measures(cost),
    ensures
        measure.scale.contains(view.path_cost(measure, hops)),
    decreases hops.len(),
{
    if hops.len() >= 2 {
        let front = hops.drop_last();
        lemma_path_cost_on_scale(view, cost, measure, front);
        let a = view.drop_rate(hops[hops.len() - 2]);
        let b = view.drop_rate(hops.last());
        assert(view.rate_fits(hops[hops.len() - 2]));
        assert(view.rate_fits(hops.last()));
        let w = (measure.weight)(a, b);
        assert(measure.is_weight(w));
        assert(measure.scale.contains(plus(view.path_cost(measure, front), w)));
    }
}

/// Of two ways to a node the dearer one is not taken: where the drop rates make
/// one of them cost less, the route does not go the other.
pub proof fn law_dearer_way_is_not_taken<K, F>(
    view: RoutingView,
    src: NodeId,
    dst: NodeId,
    cost: F,
    route: RouteView,
    measure: Measure<K>,
    cheap: Seq<NodeId>,
    dear: Seq<NodeId>,
) where
    K: Copy + Debug + PartialOrd + Add<Output = K> + Default,
    F: Fn(DropRate, DropRate) -> K,

    requires
        view.rates_fit(),
        view.is_best_route(src, dst, cost, Some(route)),
        measure.measures(cost),
        view.topology.is_path(cheap, src, dst),
        less(view.path_cost(measure, cheap), view.path_cost(measure, dear)),
    ensures
        route.hops != dear,
{
    lemma_path_cost_on_scale(view, cost, measure, cheap);
    lemma_path_cost_on_scale(view, cost, measure, dear);
    assert(is_ordered(measure.scale));
    let x = view.path_cost(measure, cheap);
    let y = view.path_cost(measure, dear);
    assert(at_most(x, y) || at_most(y, x));
    assert(at_most(y, x) || at_most(x, y));
    if route.hops == dear {
        assert(at_most(y, x));
    }
}

/// Staying costs nothing, and each further hop adds what its link costs by the
/// drop rates of the two nodes that it joins.
pub proof fn law_path_cost<K>(
    view: RoutingView,
    measure: Measure<K>,
    hops: Seq<NodeId>,
    next: NodeId,
) where K: Copy + Debug + PartialOrd + Add<Output = K> + Default
    requires
        hops.len() > 0,
    ensures
        view.path_cost(measure, seq![next]) == measure.nothing,
        view.path_cost(measure, hops.push(next)) == plus(
            view.path_cost(measure, hops),
            (measure.weight)(view.drop_rate(hops[hops.len() - 1]), view.drop_rate(next)),
        ),
{
    assert(hops.push(next).drop_last() == hops);
}

// What a node learns.

/// A node that has been told its neighbours knows the links to them and no
/// others, and of each of them nothing but that it is there.
pub proof fn law_new_helper(node_id: NodeId, node_type: NodeType, neighbors: Seq<NodeId>)
    ensures
        ({
            let view = RoutingView::initial_with_neighbors(node_id, node_type, neighbors);
            &&& view.node_id == node_id
            &&& view.node_type == node_type
            &&& view.cur_flood_id == 1
            &&& forall|a: NodeId, b: NodeId| #[trigger]
                view.topology.linked(a, b) <==> a == node_id && neighbors.contains(b)
            &&& forall|id: NodeId| #[trigger]
                view.node_data.contains_key(id) <==> neighbors.contains(id)
            &&& forall|id: NodeId| #[trigger]
                view.node_data.contains_key(id) ==> view.node_data[id] == (NodeInfo {
                    id,
                    dropped_packets: 0,
                    acked_packets: 0,
                    node_type: None,
                })
        }),
        ({
            let view = RoutingView::initial(node_id, node_type);
            &&& view.node_id == node_id
            &&& view.node_type == node_type
            &&& view.cur_flood_id == 1
            &&& view.topology.nodes.len() == 0
            &&& forall|a: NodeId, b: NodeId| !#[trigger] view.topology.linked(a, b)
            &&& forall|id: NodeId| !#[trigger] view.node_data.contains_key(id)
        }),
{
    let view = RoutingView::initial_with_neighbors(node_id, node_type, neighbors);
    assert(Topology::empty().well_formed());
    law_link_star(Topology::empty(), node_id, neighbors);
    assert forall|id: NodeId| #[trigger] view.node_data.contains_key(id) <==> neighbors.contains(
        id,
    ) by {
        assert(neighbors.to_set().contains(id) <==> neighbors.contains(id));
    }
}

/// The route of a packet teaches exactly the links of the way back, and brings
/// an entry, of unknown type and with empty counters, for each node behind the
/// source that had none; what was known of a node stays.
pub proof fn law_header_teaches_exactly(view: RoutingView, hops: Seq<NodeId>)
    requires
        view.well_formed(),
    ensures
        ({
            let after = view.learn_header(hops);
            &&& forall|a: NodeId, b: NodeId| #[trigger]
                after.topology.linked(a, b) <==> view.topology.linked(a, b) || is_step(hops, b, a)
            &&& forall|n: NodeId| #[trigger]
                after.topology.nodes.contains(n) <==> view.topology.nodes.contains(n) || (
                hops.len() >= 2 && hops.contains(n))
            &&& forall|id: NodeId| #[trigger]
                after.node_data.contains_key(id) <==> view.node_data.contains_key(id) || exists|
                    i: int,
                |
                    1 <= i < hops.len() && #[trigger] hops[i] == id
            &&& forall|id: NodeId| #[trigger]
                view.node_data.contains_key(id) ==> after.node_data[id] == view.node_data[id]
            &&& forall|id: NodeId| #[trigger]
                after.node_data.contains_key(id) && !view.node_data.contains_key(id)
                    ==> after.node_data[id] == (NodeInfo {
                    id,
                    dropped_packets: 0,
                    acked_packets: 0,
                    node_type: None,
                })
            &&& after.cur_flood_id == view.cur_flood_id
            &&& after.node_id == view.node_id
            &&& after.node_type == view.node_type
        }),
{
    let after = view.learn_header(hops);
    let back = hops.reverse();
    law_link_path(view.topology, back);
    assert forall|a: NodeId, b: NodeId| #[trigger] is_step(back, a, b) <==> is_step(hops, b, a) by {
        if is_step(back, a, b) {
            let i = choose|i: int|
                0 <= i < back.len() - 1 && #[trigger] back[i] == a && back[i + 1] == b;
            let k = hops.len() - 2 - i;
            assert(hops[k] == b && hops[k + 1] == a);
        }
        if is_step(hops, b, a) {
            let i = choose|i: int|
                0 <= i < hops.len() - 1 && #[trigger] hops[i] == b && hops[i + 1] == a;
            let k = hops.len() - 2 - i;
            assert(back[k] == a && back[k + 1] == b);
        }
    }
    assert forall|n: NodeId| #[trigger] back.contains(n) <==> hops.contains(n) by {
        if back.contains(n) {
            assert(hops[hops.len() - 1 - back.index_of(n)] == n);
        }
        if hops.contains(n) {
            assert(back[hops.len() - 1 - hops.index_of(n)] == n);
        }
    }
    assert forall|n: NodeId| #[trigger] after.topology.nodes.contains(n) <==> view.topology.nodes.contains(
        n,
    ) || (hops.len() >= 2 && hops.contains(n)) by {
        assert(back.contains(n) <==> hops.contains(n));
    }
    assert forall|a: NodeId, b: NodeId| #[trigger]
        after.topology.linked(a, b) <==> view.topology.linked(a, b) || is_step(hops, b, a) by {
        assert(is_step(back, a, b) <==> is_step(hops, b, a));
    }
    assert forall|id: NodeId| #[trigger]
        after.node_data.contains_key(id) <==> view.node_data.contains_key(id) || exists|i: int|
        1 <= i < hops.len() && #[trigger] hops[i] == id by {
        assert(fresh_entries(later_hops(hops)).contains_key(id) <==> later_hops(hops).contains(id));
    }
}

/// The knowledge of a node after a trace: the type of each node of a trace of
/// two or more is the one that the trace shows last, its counters stay, or
/// start at nothing if it is new; of all other nodes what was known stays.
pub proof fn law_trace_teaches_types(view: RoutingView, trace: Seq<(NodeId, NodeType)>)
    requires
        trace.len() >= 2,
    ensures
        ({
            let after = view.learn_trace(trace);
            &&& forall|i: int|
                0 <= i < trace.len() && (forall|j: int|
                    i < j < trace.len() ==> (#[trigger] trace[j]).0 != trace[i].0) ==> {
                    let id = (#[trigger] trace[i]).0;
                    &&& after.node_data.contains_key(id)
                    &&& after.node_data[id].node_type == Some(trace[i].1)
                    &&& view.node_data.contains_key(id) ==> {
                        &&& after.node_data[id].id == view.node_data[id].id
                        &&& after.node_data[id].dropped_packets
                            == view.node_data[id].dropped_packets
                        &&& after.node_data[id].acked_packets == view.node_data[id].acked_packets
                    }
                    &&& !view.node_data.contains_key(id) ==> {
                        &&& after.node_data[id].id == id
                        &&& after.node_data[id].dropped_packets == 0
                        &&& after.node_data[id].acked_packets == 0
                    }
                }
            &&& forall|id: NodeId|
                (forall|j: int| 0 <= j < trace.len() ==> (#[trigger] trace[j]).0 != id) ==> {
                    &&& #[trigger] after.node_data.contains_key(id)
                        <==> view.node_data.contains_key(id)
                    &&& after.node_data[id] == view.node_data[id]
                }
            &&& after.cur_flood_id == view.cur_flood_id
            &&& after.node_id == view.node_id
            &&& after.node_type == view.node_type
        }),
{
    let after = view.learn_trace(trace);
    assert forall|i: int|
        0 <= i < trace.len() && (forall|j: int|
            i < j < trace.len() ==> (#[trigger] trace[j]).0 != trace[i].0) implies {
        let id = (#[trigger] trace[i]).0;
        &&& after.node_data.contains_key(id)
        &&& after.node_data[id].node_type == Some(trace[i].1)
        &&& view.node_data.contains_key(id) ==> {
            &&& after.node_data[id].id == view.node_data[id].id
            &&& after.node_data[id].dropped_packets == view.node_data[id].dropped_packets
            &&& after.node_data[id].acked_packets == view.node_data[id].acked_packets
        }
        &&& !view.node_data.contains_key(id) ==> {
            &&& after.node_data[id].id == id
            &&& after.node_data[id].dropped_packets == 0
            &&& after.node_data[id].acked_packets == 0
        }
    } by {
        lemma_trace_type(view, trace, i);
        lemma_trace_counters(view, trace, trace[i].0);
    }
    assert forall|id: NodeId|
        (forall|j: int| 0 <= j < trace.len() ==> (#[trigger] trace[j]).0 != id) implies {
        &&& #[trigger] after.node_data.contains_key(id) <==> view.node_data.contains_key(id)
        &&& after.node_data[id] == view.node_data[id]
    } by {
        lemma_trace_others(view, trace, id);
    }
    lemma_trace_self(view, trace);
}

/// The type of a node after a trace is the one that the trace shows last.
proof fn lemma_trace_type(view: RoutingView, trace: Seq<(NodeId, NodeType)>, i: int)
    requires
        trace.len() >= 2,
        0 <= i < trace.len(),
        forall|j: int| i < j < trace.len() ==> (#[trigger] trace[j]).0 != trace[i].0,
    ensures
        view.learn_trace(trace).node_data.contains_key(trace[i].0),
        view.learn_trace(trace).node_data[trace[i].0].node_type == Some(trace[i].1),
    decreases trace.len(),
{
    let n = trace.len() as int;
    let front = trace.drop_last();
    if i < n - 2 {
        assert(trace[n - 2].0 != trace[i].0);
        assert(trace[n - 1].0 != trace[i].0);
        assert(front[i] == trace[i]);
        assert forall|j: int| i < j < front.len() implies (#[trigger] front[j]).0 != front[i].0 by {
            assert(trace[j].0 != trace[i].0);
        }
        lemma_trace_type(view, front, i);
    } else if i == n - 2 {
        assert(trace[n - 1].0 != trace[i].0);
    }
}

/// A trace says nothing of nodes that it does not show.
proof fn lemma_trace_others(view: RoutingView, trace: Seq<(NodeId, NodeType)>, id: NodeId)
    requires
        forall|j: int| 0 <= j < trace.len() ==> (#[trigger] trace[j]).0 != id,
    ensures
        view.learn_trace(trace).node_data.contains_key(id) <==> view.node_data.contains_key(id),
        view.learn_trace(trace).node_data[id] == view.node_data[id],
    decreases trace.len(),
{
    if trace.len() >= 2 {
        let front = trace.drop_last();
        assert(trace[trace.len() - 2].0 != id && trace[trace.len() - 1].0 != id);
        assert forall|j: int| 0 <= j < front.len() implies (#[trigger] front[j]).0 != id by {
            assert(trace[j].0 != id);
        }
        lemma_trace_others(view, front, id);
    }
}

/// A trace leaves the numbers and the type of the node itself as they are.
proof fn lemma_trace_self(view: RoutingView, trace: Seq<(NodeId, NodeType)>)
    ensures
        view.learn_trace(trace).cur_flood_id == view.cur_flood_id,
        view.learn_trace(trace).node_id == view.node_id,
        view.learn_trace(trace).node_type == view.node_type,
    decreases trace.len(),
{
    if trace.len() >= 2 {
        lemma_trace_self(view, trace.drop_last());
    }
}

/// A trace leaves all counters as they are, and brings new ones that start at nothing.
proof fn lemma_trace_counters(view: RoutingView, trace: Seq<(NodeId, NodeType)>, id: NodeId)
    ensures
        ({
            let after = view.learn_trace(trace).node_data;
            &&& view.node_data.contains_key(id) ==> {
                &&& after.contains_key(id)
                &&& after[id].id == view.node_data[id].id
                &&& after[id].dropped_packets == view.node_data[id].dropped_packets
                &&& after[id].acked_packets == view.node_data[id].acked_packets
            }
            &&& !view.node_data.contains_key(id) && after.contains_key(id) ==> {
                &&& after[id].id == id
                &&& after[id].dropped_packets == 0
                &&& after[id].acked_packets == 0
            }
        }),
    decreases trace.len(),
{
    if trace.len() >= 2 {
        lemma_trace_counters(view, trace.drop_last(), id);
    }
}

/// A node learns from a flood response only if it started the flood: its own
/// number then stands first in the trace. A trace that goes nowhere teaches
/// nothing.
pub proof fn law_own_flood_teaches(view: RoutingView, res: FloodResponseView)
    ensures
        res.path_trace.len() > 0 && res.path_trace[0].0 == view.node_id ==> view.learn_response(res)
            == view.learn_trace(res.path_trace),
        res.path_trace.len() == 0 || res.path_trace[0].0 != view.node_id ==> view.learn_response(
            res,
        ) == view,
        res.path_trace.len() < 2 ==> view.learn_trace(res.path_trace) == view,
{
}

/// The response to the flood of another node goes on as it is, to the next hop
/// of its route, which has moved on by one; nothing else goes on.
pub proof fn law_foreign_response_goes_on(
    view: RoutingView,
    route: RouteView,
    session_id: u64,
    res: FloodResponseView,
)
    ensures
        ({
            let passed = view.passed_on(route, session_id, res);
            let foreign = res.path_trace.len() > 0 && res.path_trace[0].0 != view.node_id;
            &&& foreign && route.hop_index + 1 < route.hops.len() ==> {
                &&& passed.len() == 1
                &&& passed[0].1 == route.hops[route.hop_index as int + 1]
                &&& passed[0].0.routing_header.hops == route.hops
                &&& passed[0].0.routing_header.hop_index == route.hop_index + 1
                &&& passed[0].0.session_id == session_id
                &&& passed[0].0.pack_type == PacketTypeView::FloodResponse(res)
            }
            &&& !foreign || route.hop_index + 1 >= route.hops.len() ==> passed.len() == 0
        }),
{
}

/// Forgetting a node forgets its links and its entry, and nothing of the others.
pub proof fn law_forget_leaves_others(view: RoutingView, id: NodeId)
    requires
        view.well_formed(),
    ensures
        ({
            let after = view.forget(id);
            &&& !after.topology.nodes.contains(id)
            &&& !after.node_data.contains_key(id)
            &&& forall|n: NodeId| #[trigger]
                after.topology.nodes.contains(n) <==> view.topology.nodes.contains(n) && n != id
            &&& forall|a: NodeId, b: NodeId| #[trigger]
                after.topology.linked(a, b) <==> view.topology.linked(a, b) && a != id && b != id
            &&& forall|n: NodeId| n != id ==> {
                &&& #[trigger] after.node_data.contains_key(n) <==> view.node_data.contains_key(n)
                &&& after.node_data[n] == view.node_data[n]
            }
            &&& after.cur_flood_id == view.cur_flood_id
            &&& after.node_id == view.node_id
            &&& after.node_type == view.node_type
        }),
{
    law_unlink(view.topology, id);
}

// What a flood asks.

/// A flood sends one request to each neighbour, in order: it goes that one hop,
/// bears the number of the flood, and its trace holds the node that started it.
/// The number is then used up.
pub proof fn law_flood_requests(view: RoutingView, neighbors: Seq<NodeId>)
    requires
        view.cur_flood_id < u64::MAX,
    ensures
        ({
            let requests = view.flood_requests(neighbors);
            &&& requests.len() == neighbors.len()
            &&& forall|i: int|
                0 <= i < neighbors.len() ==> {
                    let (packet, dst) = #[trigger] requests[i];
                    &&& dst == neighbors[i]
                    &&& packet.routing_header.hop_index == 1
                    &&& packet.routing_header.hops == seq![view.node_id, neighbors[i]]
                    &&& packet.session_id == view.cur_flood_id
                    &&& packet.pack_type is FloodRequest
                    &&& packet.pack_type->FloodRequest_0.flood_id == view.cur_flood_id
                    &&& packet.pack_type->FloodRequest_0.initiator_id == view.node_id
                    &&& packet.pack_type->FloodRequest_0.path_trace == seq![
                        (view.node_id, view.node_type),
                    ]
                }
            &&& view.flooded().cur_flood_id == view.cur_flood_id + 1
            &&& view.flooded().topology == view.topology
            &&& view.flooded().node_data == view.node_data
            &&& view.flooded().node_id == view.node_id
            &&& view.flooded().node_type == view.node_type
        }),
{
}

/// The model of a helper shows its number, type, flood number and entries.
pub proof fn law_helper_view(helper: RoutingHelper)
    ensures
        helper@.node_id == helper.node_id,
        helper@.node_type == helper.node_type,
        helper@.cur_flood_id == helper.cur_flood_id,
        helper@.node_data == helper.node_data@,
        helper@.topology.nodes == crate::topology::graph_nodes(helper.topology_graph),
        helper@.topology.edges == crate::topology::graph_edges(helper.topology_graph),
{
}

} // verus!
