//! The graph of known links, kept in a `petgraph` graph map.
//!
//! An edge `(a, b)` says that a packet can go from `a` to `b` in one hop. The
//! weight of an edge carries no information: what a link costs follows from
//! the counters of its two ends.
use crate::network::NodeId;
use petgraph::graphmap::DiGraphMap;
use petgraph::graphmap::GraphMap;
use std::hash::BuildHasher;
use vstd::prelude::*;

verus! {

/// The weight that every link has.
pub const LINK_WEIGHT: u8 = 1;

/// The graph map of `petgraph`, with contents known only through
/// [`graph_nodes`] and [`graph_edges`].
#[verifier::external_type_specification]
#[verifier::external_body]
#[verifier::reject_recursive_types(N)]
#[verifier::reject_recursive_types(E)]
#[verifier::reject_recursive_types(Ty)]
#[verifier::reject_recursive_types(S)]
pub struct ExGraphMap<N, E, Ty, S>(GraphMap<N, E, Ty, S>) where S: BuildHasher;

/// The marker type of directed graphs in `petgraph`.
#[verifier::external_type_specification]
#[verifier::external_body]
pub struct ExDirected(petgraph::Directed);

/// The nodes of a graph map, in the order in which `GraphMap::nodes` yields them.
pub uninterp spec fn graph_nodes(graph: DiGraphMap<u8, u8>) -> Seq<u8>;

/// The directed edges of a graph map, with their weights.
pub uninterp spec fn graph_edges(graph: DiGraphMap<u8, u8>) -> Map<(u8, u8), u8>;

/// `nodes`, with `node` behind the others if it was not among them.
pub open spec fn with_node(nodes: Seq<NodeId>, node: NodeId) -> Seq<NodeId> {
    if nodes.contains(node) {
        nodes
    } else {
        nodes.push(node)
    }
}

/// `nodes` without `node`, whose place the last one takes.
pub open spec fn without_node(nodes: Seq<NodeId>, node: NodeId) -> Seq<NodeId> {
    if nodes.contains(node) {
        nodes.update(nodes.index_of(node), nodes.last()).drop_last()
    } else {
        nodes
    }
}

/// `edges` without those that start or end at `node`.
pub open spec fn without_edges_at(
    edges: Map<(NodeId, NodeId), u8>,
    node: NodeId,
) -> Map<(NodeId, NodeId), u8> {
    edges.restrict(Set::new(|link: (NodeId, NodeId)| link.0 != node && link.1 != node))
}

/// What a graph holds.
#[verifier::ext_equal]
pub struct Topology {
    pub nodes: Seq<NodeId>,
    pub edges: Map<(NodeId, NodeId), u8>,
}

/// What `graph` holds.
pub open spec fn topology(graph: DiGraphMap<u8, u8>) -> Topology {
    Topology { nodes: graph_nodes(graph), edges: graph_edges(graph) }
}

impl Topology {
    /// Nothing is known.
    pub open spec fn empty() -> Topology {
        Topology { nodes: Seq::empty(), edges: Map::empty() }
    }

    /// Whether a packet can go from `a` to `b` in one hop.
    pub open spec fn linked(self, a: NodeId, b: NodeId) -> bool {
        self.edges.contains_key((a, b))
    }

    /// After the link from `a` to `b` has been learned.
    pub open spec fn link(self, a: NodeId, b: NodeId) -> Topology {
        Topology {
            nodes: if self.linked(a, b) {
                self.nodes
            } else {
                with_node(with_node(self.nodes, a), b)
            },
            edges: self.edges.insert((a, b), LINK_WEIGHT),
        }
    }

    /// After the links from `center` to each of `others` have been learned, in order.
    pub open spec fn link_star(self, center: NodeId, others: Seq<NodeId>) -> Topology
        decreases others.len(),
    {
        if others.len() == 0 {
            self
        } else {
            self.link_star(center, others.drop_last()).link(center, others.last())
        }
    }

    /// After the links between consecutive hops have been learned, in order.
    pub open spec fn link_path(self, hops: Seq<NodeId>) -> Topology
        decreases hops.len(),
    {
        if hops.len() < 2 {
            self
        } else {
            self.link_path(hops.drop_last()).link(hops[hops.len() - 2], hops.last())
        }
    }

    /// After `node` has been forgotten.
    pub open spec fn unlink(self, node: NodeId) -> Topology {
        if self.nodes.contains(node) {
            Topology {
                nodes: without_node(self.nodes, node),
                edges: without_edges_at(self.edges, node),
            }
        } else {
            self
        }
    }

    /// Whether a packet can go along `hops`, from `src` to `dst`.
    pub open spec fn is_path(self, hops: Seq<NodeId>, src: NodeId, dst: NodeId) -> bool {
        &&& hops.len() > 0
        &&& hops[0] == src
        &&& hops.last() == dst
        &&& forall|i: int| 0 <= i < hops.len() - 1 ==> self.linked(#[trigger] hops[i], hops[i + 1])
    }

    /// Whether a packet can get from `src` to `dst` at all.
    pub open spec fn reachable(self, src: NodeId, dst: NodeId) -> bool {
        exists|hops: Seq<NodeId>| self.is_path(hops, src, dst)
    }

    /// No node occurs twice, every edge joins two nodes, and every weight is
    /// the common one.
    pub open spec fn well_formed(self) -> bool {
        &&& self.nodes.no_duplicates()
        &&& forall|a: NodeId, b: NodeId| #[trigger]
            self.linked(a, b) ==> self.nodes.contains(a) && self.nodes.contains(b)
                && self.edges[(a, b)] == LINK_WEIGHT
    }
}

/// Calls `GraphMap::new`: the graph has no node and no edge.
#[verifier::external_body]
pub(crate) fn empty_graph() -> (graph: DiGraphMap<u8, u8>)
    ensures
        graph_nodes(graph) == Seq::<u8>::empty(),
        (graph_edges(graph) == Map::<(u8, u8), u8>::empty()),
{
    DiGraphMap::new()
}

/// Calls `GraphMap::add_edge`: the edge from `a` to `b` gets the weight
/// `weight`, and the weight that it had is returned. A new edge brings those
/// of its ends that are not nodes yet, `a` before `b`, behind the other nodes.
#[verifier::external_body]
pub(crate) fn add_edge(graph: &mut DiGraphMap<u8, u8>, a: u8, b: u8, weight: u8) -> (before: Option<
    u8,
>)
    ensures
        graph_edges(*final(graph)) == graph_edges(*old(graph)).insert((a, b), weight),
        graph_edges(*old(graph)).contains_key((a, b)) ==> graph_nodes(*final(graph))
            == graph_nodes(*old(graph)),
        !graph_edges(*old(graph)).contains_key((a, b)) ==> graph_nodes(*final(graph)) == with_node(
            with_node(graph_nodes(*old(graph)), a),
            b,
        ),
        before == (if graph_edges(*old(graph)).contains_key((a, b)) {
            Some(graph_edges(*old(graph))[(a, b)])
        } else {
            None
        }),
{
    graph.add_edge(a, b, weight)
}

/// Calls `GraphMap::remove_node`: a node goes with all its edges, and the last
/// node takes its place; where `node` is none, nothing changes. The result
/// says whether it was one.
#[verifier::external_body]
pub(crate) fn remove_node(graph: &mut DiGraphMap<u8, u8>, node: u8) -> (removed: bool)
    ensures
        removed == graph_nodes(*old(graph)).contains(node),
        graph_nodes(*final(graph)) == without_node(graph_nodes(*old(graph)), node),
        removed ==> graph_edges(*final(graph)) == without_edges_at(graph_edges(*old(graph)), node),
        !removed ==> graph_edges(*final(graph)) == graph_edges(*old(graph)),
{
    graph.remove_node(node)
}

/// Calls `GraphMap::clear`: no node and no edge is left.
#[verifier::external_body]
pub(crate) fn clear(graph: &mut DiGraphMap<u8, u8>)
    ensures
        graph_nodes(*final(graph)) == Seq::<u8>::empty(),
        (graph_edges(*final(graph)) == Map::<(u8, u8), u8>::empty()),
{
    graph.clear()
}

/// Calls `GraphMap::nodes`: the nodes, in the order of the graph.
#[verifier::external_body]
pub(crate) fn nodes(graph: &DiGraphMap<u8, u8>) -> (nodes: Vec<u8>)
    ensures
        nodes@ == graph_nodes(*graph),
{
    graph.nodes().collect()
}

/// Learning a link keeps a topology well formed.
pub proof fn law_link_well_formed(t: Topology, a: NodeId, b: NodeId)
    requires
        t.well_formed(),
    ensures
        t.link(a, b).well_formed(),
{
    let after = t.link(a, b);
    let one = with_node(t.nodes, a);
    assert forall|n: NodeId| t.nodes.contains(n) implies after.nodes.contains(n) by {
        let i = choose|i: int| 0 <= i < t.nodes.len() && t.nodes[i] == n;
        assert(one[i] == n);
        assert(after.nodes[i] == n);
    }
    if !t.linked(a, b) {
        assert(one.contains(a)) by {
            if !t.nodes.contains(a) {
                assert(one[t.nodes.len() as int] == a);
            }
        }
        let i = choose|i: int| 0 <= i < one.len() && one[i] == a;
        assert(after.nodes[i] == a);
        if !one.contains(b) {
            assert(after.nodes[one.len() as int] == b);
        }
    }
    assert forall|x: NodeId, y: NodeId| #[trigger] after.linked(x, y) implies after.nodes.contains(x)
        && after.nodes.contains(y) && after.edges[(x, y)] == LINK_WEIGHT by {
        if (x, y) != (a, b) {
            assert(t.linked(x, y));
        }
    }
}

/// Forgetting a node keeps a topology well formed, and leaves neither the node
/// nor any link from or to it.
pub proof fn law_unlink(t: Topology, node: NodeId)
    requires
        t.well_formed(),
    ensures
        t.unlink(node).well_formed(),
        !t.unlink(node).nodes.contains(node),
        forall|a: NodeId, b: NodeId| #[trigger]
            t.unlink(node).linked(a, b) <==> t.linked(a, b) && a != node && b != node,
        forall|n: NodeId| #[trigger]
            t.unlink(node).nodes.contains(n) <==> t.nodes.contains(n) && n != node,
{
    let after = t.unlink(node);
    if t.nodes.contains(node) {
        let i = t.nodes.index_of(node);
        let last = t.nodes.len() - 1;
        assert(t.nodes[i] == node);
        assert forall|n: NodeId| t.nodes.contains(n) && n != node implies after.nodes.contains(
            n,
        ) by {
            let k = choose|k: int| 0 <= k < t.nodes.len() && t.nodes[k] == n;
            if k == last {
                assert(after.nodes[i] == n);
            } else {
                assert(after.nodes[k] == n);
            }
        }
        assert forall|n: NodeId| after.nodes.contains(n) implies t.nodes.contains(n) && n
            != node by {
            let k = choose|k: int| 0 <= k < after.nodes.len() && after.nodes[k] == n;
            if k == i {
                assert(t.nodes[last] == n);
            } else {
                assert(t.nodes[k] == n);
            }
        }
    }
    assert forall|a: NodeId, b: NodeId| #[trigger] after.linked(a, b) <==> t.linked(a, b) && a
        != node && b != node by {
        assert(t.linked(a, b) ==> t.nodes.contains(a) && t.nodes.contains(b));
    }
    assert forall|a: NodeId, b: NodeId| #[trigger] after.linked(a, b) implies after.nodes.contains(a)
        && after.nodes.contains(b) && after.edges[(a, b)] == LINK_WEIGHT by {
        assert(t.linked(a, b));
    }
}

/// Before anything is learned there is no node and no link.
pub proof fn law_empty_topology(a: NodeId, b: NodeId)
    ensures
        Topology::empty().nodes.len() == 0,
        !Topology::empty().linked(a, b),
        Topology::empty().reachable(a, b) <==> a == b,
{
    let t = Topology::empty();
    if a == b {
        assert(t.is_path(seq![a], a, b));
    } else if t.reachable(a, b) {
        let hops = choose|hops: Seq<NodeId>| t.is_path(hops, a, b);
        assert(t.linked(hops[0], hops[1]));
    }
}

/// Learning a link brings that link and no other, keeps the nodes that there
/// were in their places, and puts its ends behind them if they are new.
pub proof fn law_link(t: Topology, a: NodeId, b: NodeId)
    requires
        t.well_formed(),
    ensures
        ({
            let after = t.link(a, b);
            &&& forall|x: NodeId, y: NodeId| #[trigger]
                after.linked(x, y) <==> t.linked(x, y) || (x == a && y == b)
            &&& forall|n: NodeId| #[trigger]
                after.nodes.contains(n) <==> t.nodes.contains(n) || n == a || n == b
            &&& t.nodes.is_prefix_of(after.nodes)
            &&& !t.nodes.contains(a) ==> after.nodes[t.nodes.len() as int] == a
        }),
{
    let after = t.link(a, b);
    let one = with_node(t.nodes, a);
    law_link_well_formed(t, a, b);
    assert(after.linked(a, b));
    assert forall|n: NodeId| #[trigger] after.nodes.contains(n) <==> t.nodes.contains(n) || n == a
        || n == b by {
        if t.nodes.contains(n) {
            let i = t.nodes.index_of(n);
            assert(after.nodes[i] == n);
        }
        if after.nodes.contains(n) && n != a && n != b {
            let i = after.nodes.index_of(n);
            assert(i < one.len());
            assert(one[i] == n);
            assert(i < t.nodes.len());
            assert(t.nodes[i] == n);
        }
    }
    if t.linked(a, b) {
        assert(t.nodes.contains(a));
    }
}

/// Learning the links from one node to others brings those links and no others.
pub proof fn law_link_star(t: Topology, center: NodeId, others: Seq<NodeId>)
    requires
        t.well_formed(),
    ensures
        ({
            let after = t.link_star(center, others);
            &&& after.well_formed()
            &&& forall|x: NodeId, y: NodeId| #[trigger]
                after.linked(x, y) <==> t.linked(x, y) || (x == center && others.contains(y))
            &&& forall|n: NodeId| #[trigger]
                after.nodes.contains(n) <==> t.nodes.contains(n) || others.contains(n) || (n
                    == center && others.len() > 0)
        }),
    decreases others.len(),
{
    if others.len() > 0 {
        let front = others.drop_last();
        let last = others.last();
        law_link_star(t, center, front);
        law_link_well_formed(t.link_star(center, front), center, last);
        law_link(t.link_star(center, front), center, last);
        assert forall|n: NodeId| #[trigger] others.contains(n) <==> front.contains(n) || n
            == last by {
            if front.contains(n) {
                assert(others[front.index_of(n)] == n);
            }
            if others.contains(n) {
                let i = others.index_of(n);
                if i < front.len() {
                    assert(front[i] == n);
                }
            }
            assert(others[others.len() - 1] == last);
        }
    }
}

/// Whether `a` comes directly before `b` somewhere in `hops`.
pub open spec fn is_step(hops: Seq<NodeId>, a: NodeId, b: NodeId) -> bool {
    exists|i: int| 0 <= i < hops.len() - 1 && #[trigger] hops[i] == a && hops[i + 1] == b
}

/// Learning a path brings the links between its consecutive hops and no others.
pub proof fn law_link_path(t: Topology, hops: Seq<NodeId>)
    requires
        t.well_formed(),
    ensures
        ({
            let after = t.link_path(hops);
            &&& after.well_formed()
            &&& forall|x: NodeId, y: NodeId| #[trigger]
                after.linked(x, y) <==> t.linked(x, y) || is_step(hops, x, y)
            &&& forall|n: NodeId| #[trigger]
                after.nodes.contains(n) <==> t.nodes.contains(n) || (hops.len() >= 2
                    && hops.contains(n))
        }),
    decreases hops.len(),
{
    if hops.len() >= 2 {
        let front = hops.drop_last();
        let a = hops[hops.len() - 2];
        let b = hops.last();
        law_link_path(t, front);
        law_link_well_formed(t.link_path(front), a, b);
        law_link(t.link_path(front), a, b);
        assert forall|x: NodeId, y: NodeId| #[trigger] is_step(hops, x, y) <==> is_step(
            front,
            x,
            y,
        ) || (x == a && y == b) by {
            if is_step(front, x, y) {
                let i = choose|i: int|
                    0 <= i < front.len() - 1 && #[trigger] front[i] == x && front[i + 1] == y;
                assert(hops[i] == x && hops[i + 1] == y);
            }
            if x == a && y == b {
                assert(hops[hops.len() - 2] == x);
            }
            if is_step(hops, x, y) {
                let i = choose|i: int|
                    0 <= i < hops.len() - 1 && #[trigger] hops[i] == x && hops[i + 1] == y;
                if i < front.len() - 1 {
                    assert(front[i] == x && front[i + 1] == y);
                }
            }
        }
        assert forall|n: NodeId| #[trigger] hops.contains(n) <==> front.contains(n) || n == b by {
            if front.contains(n) {
                assert(hops[front.index_of(n)] == n);
            }
            if hops.contains(n) {
                let i = hops.index_of(n);
                if i < front.len() {
                    assert(front[i] == n);
                }
            }
            assert(hops[hops.len() - 1] == b);
        }
        assert(front[front.len() - 1] == a);
        assert(front.contains(a));
        if front.len() == 1 {
            assert forall|n: NodeId| front.contains(n) implies n == a by {}
        }
    } else {
        assert forall|x: NodeId, y: NodeId| !is_step(hops, x, y) by {}
    }
}

/// A node reaches itself, the nodes that it is linked to, and what those reach.
pub proof fn law_reachable(t: Topology, a: NodeId, b: NodeId, c: NodeId)
    ensures
        t.reachable(a, a),
        t.linked(a, b) ==> t.reachable(a, b),
        t.reachable(a, b) && t.reachable(b, c) ==> t.reachable(a, c),
{
    assert(t.is_path(seq![a], a, a));
    if t.linked(a, b) {
        assert(t.is_path(seq![a, b], a, b));
    }
    if t.reachable(a, b) && t.reachable(b, c) {
        let first = choose|hops: Seq<NodeId>| t.is_path(hops, a, b);
        let second = choose|hops: Seq<NodeId>| t.is_path(hops, b, c);
        let whole = first + second.skip(1);
        assert forall|i: int| 0 <= i < whole.len() - 1 implies t.linked(
            #[trigger] whole[i],
            whole[i + 1],
        ) by {
            if i < first.len() - 1 {
                assert(t.linked(first[i], first[i + 1]));
            } else {
                let k = i - (first.len() - 1);
                assert(whole[i] == second[k]);
                assert(whole[i + 1] == second[k + 1]);
                assert(t.linked(second[k], second[k + 1]));
            }
        }
        assert(t.is_path(whole, a, c));
    }
}

} // verus!
