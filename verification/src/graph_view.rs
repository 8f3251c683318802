use vstd::prelude::*;

use crate::id::NodeId;

pub(crate) mod private;

verus! {

/// Every stored neighbour index names a node of the graph.
pub open spec fn adjacency_bounded(adj: Seq<Seq<nat>>) -> bool {
    forall|v: int, k: int|
        0 <= v < adj.len() && 0 <= k < adj[v].len() ==> #[trigger] adj[v][k] < adj.len()
}

/// Total number of stored (directed) adjacency entries.
pub open spec fn adjacency_size(adj: Seq<Seq<nat>>) -> nat
    decreases adj.len(),
{
    if adj.len() == 0 {
        0
    } else {
        adjacency_size(adj.drop_last()) + adj.last().len()
    }
}

/// How many times `x` occurs in `s`.
pub open spec fn occurrences(s: Seq<nat>, x: nat) -> nat
    decreases s.len(),
{
    if s.len() == 0 {
        0
    } else {
        occurrences(s.drop_last(), x) + if s.last() == x {
            1nat
        } else {
            0nat
        }
    }
}

/// An undirected adjacency: node `v` is listed among the neighbours of `u`
/// exactly as often as `u` is listed among the neighbours of `v`.
pub open spec fn symmetric_adjacency(adj: Seq<Seq<nat>>) -> bool {
    forall|u: nat, v: nat|
        u < adj.len() && v < adj.len() ==> #[trigger] occurrences(adj[u as int], v) == #[trigger] occurrences(
            adj[v as int],
            u,
        )
}

/// Sealed supertrait for forward compatibility.
///
/// It cannot be implemented outside this crate. It marks graph types that
/// support multilayer operations.
pub trait MultilayerView: private::Sealed + GraphView {

}

/// Core trait for graph representations.
///
/// Nodes are addressed by 1-based [`NodeId`]s; the model `adjacency()` is
/// indexed by the 0-based node index and lists the 0-based indices of the
/// neighbours in stored order.
pub trait GraphView {
    /// The type of an edge weight.
    type Weight: Copy;

    /// Neighbour lists, by 0-based node index.
    spec fn adjacency(&self) -> Seq<Seq<nat>>;

    /// The weight of the first stored edge from `from` to `to` (0-based), if any.
    spec fn weight_between(&self, from: nat, to: nat) -> Option<Self::Weight>;

    /// Number of nodes in the graph.
    fn node_count(&self) -> (n: usize)
        ensures
            n == self.adjacency().len(),
            n <= u32::MAX,
            adjacency_bounded(self.adjacency()),
    ;

    /// Number of (directed) edge entries in the graph.
    fn edge_count(&self) -> (n: usize)
        ensures
            n == adjacency_size(self.adjacency()),
    ;

    /// Returns the neighbours of the given node, in stored order.
    fn neighbors(&self, node: NodeId) -> (r: Vec<NodeId>)
        requires
            1 <= node.value() <= self.adjacency().len(),
        ensures
            r@.len() == self.adjacency()[node.value() - 1].len(),
            forall|k: int|
                0 <= k < r@.len() ==> #[trigger] r@[k].value() == self.adjacency()[node.value()
                    - 1][k] + 1,
    ;

    /// Returns the weight of the edge between two nodes, if it exists.
    fn edge_weight(&self, from: NodeId, to: NodeId) -> (r: Option<Self::Weight>)
        requires
            1 <= from.value() <= self.adjacency().len(),
        ensures
            r == self.weight_between((from.value() - 1) as nat, (to.value() - 1) as nat),
            r is Some <==> self.adjacency()[from.value() - 1].contains((to.value() - 1) as nat),
    ;

    /// Degree of a node (number of neighbours).
    fn degree(&self, node: NodeId) -> (r: usize)
        requires
            1 <= node.value() <= self.adjacency().len(),
        ensures
            r == self.adjacency()[node.value() - 1].len(),
    {
        self.neighbors(node).len()
    }

    /// Checks if an edge exists between two nodes.
    fn has_edge(&self, from: NodeId, to: NodeId) -> (r: bool)
        requires
            1 <= from.value() <= self.adjacency().len(),
        ensures
            r == self.weight_between((from.value() - 1) as nat, (to.value() - 1) as nat) is Some,
    {
        self.edge_weight(from, to).is_some()
    }

    /// Number of neighbours (alias for [`Self::degree`]).
    fn neighbor_count(&self, node: NodeId) -> (r: usize)
        requires
            1 <= node.value() <= self.adjacency().len(),
        ensures
            r == self.adjacency()[node.value() - 1].len(),
    {
        self.degree(node)
    }
}

} // verus!
