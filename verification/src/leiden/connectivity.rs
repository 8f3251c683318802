//! Why moving nodes keeps communities connected.
//!
//! Both phases of the Leiden algorithm move a node only into a community that
//! holds one of its neighbours, and only when what it leaves behind stays
//! connected (in the refinement phase, the node is alone in its refined
//! community, so nothing is left behind). In an undirected graph such a move
//! keeps every community connected.

use vstd::prelude::*;

use crate::graph_view::GraphView;
use crate::id::NodeId;
use crate::leiden::local_moving::{
    community_members, is_least, members_connected, search_starts_inside, would_remain_connected,
};
use crate::leiden::refinement::all_communities_connected;
use crate::traversal::{
    lemma_reach_edge, lemma_reach_reverse, lemma_reach_self, lemma_reach_trans, lemma_reach_widen,
    reachable_within, undirected,
};

verus! {

/// Every non-empty set of nodes has a least element.
proof fn lemma_least_exists(s: Set<nat>, x: nat) -> (r: nat)
    requires
        s.contains(x),
    ensures
        is_least(s, r),
    decreases x,
{
    if forall|y: nat| s.contains(y) ==> x <= y {
        x
    } else {
        let y = choose|y: nat| s.contains(y) && !(x <= y);
        lemma_least_exists(s, y)
    }
}

/// In a connected community, every member reaches every other member.
proof fn lemma_reach_all_from(adj: Seq<Seq<nat>>, c: Set<nat>, k: nat, y: nat)
    requires
        undirected(adj),
        members_connected(adj, c),
        c.contains(k),
        c.contains(y),
        k < adj.len(),
        forall|x: nat| c.contains(x) ==> x < adj.len(),
    ensures
        reachable_within(adj, c, k, y),
{
    if y == k {
        lemma_reach_self(adj, c, k);
    } else {
        assert(!(forall|a: nat, b: nat| c.contains(a) && c.contains(b) ==> a == b));
        let r = lemma_least_exists(c, k);
        assert(reachable_within(adj, c, r, k));
        assert(reachable_within(adj, c, r, y));
        lemma_reach_reverse(adj, c, r, k);
        lemma_reach_trans(adj, c, k, r, y);
    }
}

/// Moving node `i` into community `to`, which holds a neighbour `k` of `i`,
/// keeps every community connected, provided that the graph is undirected,
/// every community was connected, and the rest of the community that `i`
/// leaves is connected without it (as the connectivity check of the local
/// moving phase ensures, and as holds when `i` was alone in its community).
pub proof fn lemma_move_keeps_connected(
    adj: Seq<Seq<nat>>,
    membership: Seq<u32>,
    i: int,
    to: u32,
    k: int,
)
    requires
        undirected(adj),
        membership.len() <= adj.len(),
        all_communities_connected(adj, membership),
        0 <= i < membership.len(),
        members_connected(adj, community_members(membership, membership[i], i)),
        0 <= k < membership.len(),
        k != i,
        membership[k] == to,
        adj[i].contains(k as nat),
    ensures
        all_communities_connected(adj, membership.update(i, to)),
{
    let from = membership[i];
    let moved = membership.update(i, to);
    if to == from {
        assert(moved =~= membership);
    } else {
        assert forall|c: u32| #[trigger] members_connected(adj, community_members(moved, c, -1)) by {
            if c == from {
                assert(community_members(moved, c, -1) =~= community_members(membership, from, i));
            } else if c == to {
                lemma_join_neighbour(adj, membership, i, to, k);
            } else {
                assert(community_members(moved, c, -1) =~= community_members(membership, c, -1));
            }
        }
    }
}

proof fn lemma_join_neighbour(adj: Seq<Seq<nat>>, membership: Seq<u32>, i: int, to: u32, k: int)
    requires
        undirected(adj),
        membership.len() <= adj.len(),
        all_communities_connected(adj, membership),
        0 <= i < membership.len(),
        0 <= k < membership.len(),
        k != i,
        membership[k] == to,
        membership[i] != to,
        adj[i].contains(k as nat),
    ensures
        members_connected(adj, community_members(membership.update(i, to), to, -1)),
{
    let moved = membership.update(i, to);
    let old_c = community_members(membership, to, -1);
    let new_c = community_members(moved, to, -1);
    let kn = k as nat;
    let inat = i as nat;
    assert(new_c =~= old_c.insert(inat));
    assert(members_connected(adj, old_c));
    assert(old_c.contains(kn));
    assert forall|x: nat| new_c.contains(x) implies x < adj.len() by {}
    assert forall|y: nat| new_c.contains(y) implies reachable_within(adj, new_c, kn, y) by {
        if y == inat {
            assert(adj[kn as int].contains(inat));
            lemma_reach_edge(adj, new_c, kn, inat);
        } else {
            assert(old_c.contains(y));
            lemma_reach_all_from(adj, old_c, kn, y);
            lemma_reach_widen(adj, old_c, new_c, kn, y);
        }
    }
    assert forall|root: nat, y: nat| is_least(new_c, root) && new_c.contains(y) implies #[trigger] reachable_within(
        adj,
        new_c,
        root,
        y,
    ) by {
        assert(reachable_within(adj, new_c, kn, root));
        lemma_reach_reverse(adj, new_c, kn, root);
        assert(reachable_within(adj, new_c, kn, y));
        lemma_reach_trans(adj, new_c, root, kn, y);
    }
}

/// The move of node `i` into community `to` that both phases make: `to` holds
/// a neighbour `k` of `i` (another node, with an edge from `i` to `k`), and
/// what is left of the community of `i` stays connected without it.
pub open spec fn allowed_move(adj: Seq<Seq<nat>>, membership: Seq<u32>, i: int, to: u32) -> bool {
    &&& exists|k: int|
        0 <= k < membership.len() && k != i && membership[k] == to && #[trigger] adj[i].contains(
            k as nat,
        )
    &&& members_connected(adj, community_members(membership, membership[i], i))
}

/// A node may move into the community of any of its neighbours, whichever
/// their positions, once what it leaves behind stays connected; in an
/// undirected graph it does not matter from which end the edge is listed.
pub proof fn lemma_move_toward_neighbour(
    adj: Seq<Seq<nat>>,
    membership: Seq<u32>,
    i: int,
    to: u32,
    k: int,
)
    requires
        0 <= i < membership.len(),
        i < adj.len(),
        0 <= k < membership.len(),
        k != i,
        membership[k] == to,
        adj[i].contains(k as nat) || (undirected(adj) && k < adj.len() && adj[k].contains(
            i as nat,
        )),
        members_connected(adj, community_members(membership, membership[i], i)),
    ensures
        allowed_move(adj, membership, i, to),
{
    if !adj[i].contains(k as nat) {
        assert(adj[k].contains(i as nat));
    }
    assert(adj[i].contains(k as nat));
}

/// Whether `node` may move into community `to`: `to` holds one of its
/// neighbours, and its own community stays connected without it.
pub fn move_allowed<G: GraphView>(graph: &G, membership: &[u32], node: NodeId, to: u32) -> (r: bool)
    requires
        node.value() <= graph.adjacency().len(),
        node.value() - 1 < membership@.len(),
        search_starts_inside(
            graph.adjacency().len(),
            community_members(membership@, membership@[node.value() - 1], node.value() - 1),
        ),
    ensures
        r == allowed_move(graph.adjacency(), membership@, node.value() - 1, to),
        forall|k: int|
            0 <= k < membership@.len() && k != node.value() - 1 && membership@[k] == to
                && #[trigger] graph.adjacency()[node.value() - 1].contains(k as nat)
                && members_connected(
                graph.adjacency(),
                community_members(membership@, membership@[node.value() - 1], node.value() - 1),
            ) ==> r,
        r ==> members_connected(
            graph.adjacency(),
            community_members(membership@, membership@[node.value() - 1], node.value() - 1),
        ),
{
    let ghost adj = graph.adjacency();
    let i = node.index() - 1;
    let nbrs = graph.neighbors(node);
    let ghost row = adj[i as int];
    let len = membership.len();
    let mut found = false;
    let mut j: usize = 0;
    while j < nbrs.len()
        invariant
            j <= nbrs@.len(),
            adj == graph.adjacency(),
            row == adj[i as int],
            i == node.value() - 1,
            i < len,
            len == membership@.len(),
            nbrs@.len() == row.len(),
            forall|q: int| 0 <= q < nbrs@.len() ==> #[trigger] nbrs@[q].value() == row[q] + 1,
            found ==> exists|k: int|
                0 <= k < membership@.len() && k != i && membership@[k] == to && #[trigger] adj[i as int].contains(
                    k as nat,
                ),
            !found ==> forall|q: int|
                0 <= q < j ==> !(#[trigger] row[q] < len && row[q] != i && membership@[row[q] as int]
                    == to),
        decreases nbrs@.len() - j,
    {
        let k = nbrs[j].index() - 1;
        if k < len && k != i && membership[k] == to {
            proof {
                let kk = k as int;
                assert(row[j as int] == kk as nat);
                assert(adj[i as int].contains(kk as nat));
                assert(0 <= kk < membership@.len() && kk != i && membership@[kk] == to);
            }
            found = true;
        }
        j = j + 1;
    }
    proof {
        if !found {
            assert forall|k: int|
                !(0 <= k < membership@.len() && k != i && membership@[k] == to && #[trigger] adj[i as int].contains(
                    k as nat,
                )) by {
                if 0 <= k < membership@.len() && k != i && membership@[k] == to && adj[i as int].contains(
                    k as nat,
                ) {
                    let q = choose|q: int| 0 <= q < row.len() && row[q] == k as nat;
                    assert(row[q] < len && row[q] != i && membership@[row[q] as int] == to);
                }
            }
        }
    }
    if !found {
        return false;
    }
    would_remain_connected(graph, membership, node, membership[i])
}

/// Moves `node` into community `to`, a move that [`move_allowed`] allows.
///
/// In an undirected graph whose communities were all connected, they all
/// stay connected.
pub fn move_node<G: GraphView>(graph: &G, membership: &mut [u32], node: NodeId, to: u32)
    requires
        node.value() - 1 < old(membership)@.len(),
        allowed_move(graph.adjacency(), old(membership)@, node.value() - 1, to),
    ensures
        final(membership)@ == old(membership)@.update(node.value() - 1, to),
        undirected(graph.adjacency()) && old(membership)@.len() <= graph.adjacency().len()
            && all_communities_connected(graph.adjacency(), old(membership)@)
            ==> all_communities_connected(graph.adjacency(), final(membership)@),
{
    let i = node.index() - 1;
    proof {
        let adj = graph.adjacency();
        let m = membership@;
        if undirected(adj) && m.len() <= adj.len() && all_communities_connected(adj, m) {
            let k = choose|k: int|
                0 <= k < m.len() && k != i && m[k] == to && #[trigger] adj[i as int].contains(k as nat);
            lemma_move_keeps_connected(adj, m, i as int, to, k);
        }
    }
    membership[i] = to;
}

} // verus!
