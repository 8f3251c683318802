use vstd::prelude::*;

use crate::io::text::{decimal, push_char, push_decimal};
use crate::graph_view::{adjacency_bounded, adjacency_size, GraphView};
use crate::id::NodeId;
use crate::partition::Partition;

verus! {

/// The line `"<node> <community>"`.
pub open spec fn partition_line(node: nat, community: u32) -> Seq<char> {
    decimal(node) + seq![' '] + decimal(community as nat)
}

/// The lines of `membership`, one per node in index order, separated by `'\n'`
/// (no line feed after the last line).
pub open spec fn serialized_membership(membership: Seq<u32>) -> Seq<char>
    decreases membership.len(),
{
    if membership.len() == 0 {
        Seq::empty()
    } else if membership.len() == 1 {
        partition_line(0, membership[0])
    } else {
        serialized_membership(membership.drop_last()) + seq!['\n'] + partition_line(
            (membership.len() - 1) as nat,
            membership.last(),
        )
    }
}

/// Serializes a partition to "node_id community_id" format.
///
/// Each line contains a node index and its assigned community ID separated by
/// a single space. Lines are separated by newlines.
pub fn serialize_partition<Q>(partition: &Partition<Q>) -> (r: String)
    ensures
        r@ == serialized_membership(partition.spec_membership()),
{
    let membership = partition.membership_vec();
    let len = membership.len();
    let mut out = String::new();
    let mut i: usize = 0;
    while i < len
        invariant
            i <= len,
            len == membership@.len(),
            membership@ == partition.spec_membership(),
            out@ == serialized_membership(membership@.take(i as int)),
        decreases len - i,
    {
        let ghost before = out@;
        if i > 0 {
            push_char(&mut out, '\n');
        }
        push_decimal(&mut out, i);
        push_char(&mut out, ' ');
        push_decimal(&mut out, membership[i] as usize);
        proof {
            let next = membership@.take(i + 1);
            assert(next.drop_last() =~= membership@.take(i as int));
            if i == 0 {
                assert(out@ =~= partition_line(0, membership@[0]));
            } else {
                assert(out@ =~= before + seq!['\n'] + partition_line(i as nat, membership@[i as int]));
            }
        }
        i = i + 1;
    }
    assert(membership@.take(len as int) =~= membership@);
    out
}

/// The directed adjacency entries of nodes `0..k`, in node-index order and,
/// for each node, in stored order: source index, target index (both 0-based)
/// and the weight of the first edge between them.
pub open spec fn entry_listing<G: GraphView>(g: &G, k: nat) -> Seq<(u32, u32, G::Weight)>
    decreases k,
{
    if k == 0 {
        Seq::empty()
    } else {
        let v = (k - 1) as nat;
        let row = g.adjacency()[v as int];
        entry_listing(g, v) + Seq::new(
            row.len(),
            |j: int| (v as u32, row[j] as u32, g.weight_between(v, row[j]).unwrap()),
        )
    }
}

/// Lists every directed edge entry of the graph as `(source, target, weight)`
/// with 0-based node indices, in node-index order: the lines that an edge
/// list serialization of the graph writes, one per entry.
pub fn graph_entries<G: GraphView>(graph: &G) -> (r: Vec<(u32, u32, G::Weight)>)
    ensures
        r@ == entry_listing(graph, graph.adjacency().len()),
{
    let ghost adj = graph.adjacency();
    let n = graph.node_count();
    let mut out: Vec<(u32, u32, G::Weight)> = Vec::new();
    let mut v: usize = 0;
    while v < n
        invariant
            v <= n,
            n == adj.len(),
            n <= u32::MAX,
            adj == graph.adjacency(),
            adjacency_bounded(adj),
            out@ == entry_listing(graph, v as nat),
        decreases n - v,
    {
        let node = NodeId::new((v + 1) as u32).unwrap();
        let nbrs = graph.neighbors(node);
        let ghost row = adj[v as int];
        let ghost base = out@;
        let mut k: usize = 0;
        while k < nbrs.len()
            invariant
                k <= nbrs@.len(),
                v < n,
                n == adj.len(),
                n <= u32::MAX,
                adj == graph.adjacency(),
                adjacency_bounded(adj),
                row == adj[v as int],
                node.value() == v + 1,
                nbrs@.len() == row.len(),
                forall|j: int| 0 <= j < nbrs@.len() ==> #[trigger] nbrs@[j].value() == row[j] + 1,
                base == entry_listing(graph, v as nat),
                out@ == base + Seq::new(
                    k as nat,
                    |j: int| (v as u32, row[j] as u32, graph.weight_between(v as nat, row[j]).unwrap()),
                ),
            decreases nbrs@.len() - k,
        {
            let nb = nbrs[k];
            assert(row[k as int] < n);
            assert(row.contains(row[k as int]));
            if let Some(w) = graph.edge_weight(node, nb) {
                out.push((v as u32, nb.raw() - 1, w));
            }
            assert(out@ =~= base + Seq::new(
                (k + 1) as nat,
                |j: int| (v as u32, row[j] as u32, graph.weight_between(v as nat, row[j]).unwrap()),
            ));
            k = k + 1;
        }
        assert(out@ =~= entry_listing(graph, (v + 1) as nat));
        v = v + 1;
    }
    out
}

proof fn lemma_entry_listing_prefix<G: GraphView>(g: &G, k: nat)
    requires
        k <= g.adjacency().len(),
    ensures
        entry_listing(g, k).len() == adjacency_size(g.adjacency().take(k as int)),
    decreases k,
{
    if k > 0 {
        lemma_entry_listing_prefix(g, (k - 1) as nat);
        assert(g.adjacency().take(k as int).drop_last() =~= g.adjacency().take((k - 1) as int));
    }
}

/// A serialized graph has one line per directed edge entry: [`graph_entries`]
/// lists as many entries as `GraphView::edge_count` counts.
pub proof fn lemma_entry_listing_len<G: GraphView>(g: &G)
    ensures
        entry_listing(g, g.adjacency().len()).len() == adjacency_size(g.adjacency()),
{
    lemma_entry_listing_prefix(g, g.adjacency().len());
    assert(g.adjacency().take(g.adjacency().len() as int) =~= g.adjacency());
}

} // verus!
