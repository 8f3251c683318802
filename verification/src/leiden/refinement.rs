use vstd::prelude::*;

use crate::graph_view::GraphView;
use std::collections::HashMap;

use crate::leiden::local_moving::{
    at_most_one, community_connected, community_members, count_in, members_connected,
    search_starts_inside,
};

verus! {

/// The membership that the refinement phase starts from: node `i` is put in
/// community `i + 1` (its singleton), where that identifier fits in a `u32`;
/// an index too large keeps its previous community.
pub open spec fn singleton_reset(parent: Seq<u32>) -> Seq<u32> {
    Seq::new(
        parent.len(),
        |i: int|
            if i < u32::MAX {
                (i + 1) as u32
            } else {
                parent[i]
            },
    )
}

/// Every community of `membership` is connected (see [`members_connected`]).
pub open spec fn all_communities_connected(adj: Seq<Seq<nat>>, membership: Seq<u32>) -> bool {
    forall|c: u32| #[trigger] members_connected(adj, community_members(membership, c, -1))
}

/// Snapshots the parent partition and resets membership to singletons.
///
/// Returns the membership as it was (the parent partition) and overwrites
/// every entry with its singleton community id (`index + 1`); an index whose
/// singleton id does not fit in a `u32` keeps its parent value.
pub fn snapshot_parent_and_reset(membership: &mut [u32]) -> (parent: Vec<u32>)
    ensures
        parent@ == old(membership)@,
        final(membership)@ == singleton_reset(old(membership)@),
{
    let len = membership.len();
    let mut parent: Vec<u32> = Vec::new();
    let mut i: usize = 0;
    while i < len
        invariant
            i <= len,
            len == membership@.len(),
            membership@ == old(membership)@,
            parent@ == old(membership)@.take(i as int),
        decreases len - i,
    {
        parent.push(membership[i]);
        assert(parent@ =~= old(membership)@.take(i + 1));
        i = i + 1;
    }
    assert(parent@ =~= old(membership)@);
    let mut i: usize = 0;
    while i < len
        invariant
            i <= len,
            len == membership@.len(),
            parent@ == old(membership)@,
            parent@.len() == len,
            forall|j: int| 0 <= j < i ==> #[trigger] membership@[j] == singleton_reset(parent@)[j],
            forall|j: int| i <= j < len ==> #[trigger] membership@[j] == parent@[j],
        decreases len - i,
    {
        if i < u32::MAX as usize {
            membership[i] = (i as u32) + 1;
        }
        i = i + 1;
    }
    assert(membership@ =~= singleton_reset(old(membership)@));
    parent
}

/// Verifies that all communities in the partition are connected subgraphs.
///
/// For each community, all of its nodes must be reachable from its first node
/// through intra-community edges.
pub fn verify_communities_connected<G: GraphView>(graph: &G, membership: &[u32]) -> (r: bool)
    requires
        forall|c: u32|
            #[trigger] search_starts_inside(
                graph.adjacency().len(),
                community_members(membership@, c, -1),
            ),
    ensures
        r == all_communities_connected(graph.adjacency(), membership@),
{
    let ghost adj = graph.adjacency();
    let len = membership.len();
    let mut i: usize = 0;
    while i < len
        invariant
            i <= len,
            len == membership@.len(),
            forall|c: u32| #[trigger] search_starts_inside(adj.len(), community_members(membership@, c, -1)),
            adj == graph.adjacency(),
            forall|j: int|
                0 <= j < i ==> #[trigger] members_connected(
                    adj,
                    community_members(membership@, membership@[j], -1),
                ),
        decreases len - i,
    {
        let c = membership[i];
        // Only the first node of each community starts a check.
        let mut first = true;
        let mut j: usize = 0;
        while j < i
            invariant
                j <= i,
                i < len,
                len == membership@.len(),
                c == membership@[i as int],
                first <==> forall|jj: int| 0 <= jj < j ==> #[trigger] membership@[jj] != c,
            decreases i - j,
        {
            if membership[j] == c {
                first = false;
            }
            j = j + 1;
        }
        if first {
            assert(search_starts_inside(adj.len(), community_members(membership@, c, -1)));
            if !community_connected(graph, membership, c, None) {
                return false;
            }
        } else {
            let ghost jj = choose|jj: int| 0 <= jj < i && membership@[jj] == c;
            assert(members_connected(adj, community_members(membership@, membership@[jj], -1)));
        }
        i = i + 1;
    }
    proof {
        assert forall|c: u32| #[trigger] members_connected(adj, community_members(membership@, c, -1)) by {
            let s = community_members(membership@, c, -1);
            if exists|j: int| 0 <= j < len && membership@[j] == c {
                let j = choose|j: int| 0 <= j < len && membership@[j] == c;
                assert(members_connected(adj, community_members(membership@, membership@[j], -1)));
            } else {
                assert(at_most_one(s));
            }
        }
    }
    true
}

/// A partition in which no two nodes share a community has only connected
/// communities.
pub proof fn lemma_distinct_communities_connected(adj: Seq<Seq<nat>>, membership: Seq<u32>)
    requires
        forall|i: int, j: int|
            0 <= i < j < membership.len() ==> membership[i] != membership[j],
    ensures
        all_communities_connected(adj, membership),
{
    assert forall|c: u32| #[trigger] members_connected(adj, community_members(membership, c, -1)) by {
        let s = community_members(membership, c, -1);
        assert forall|a: nat, b: nat| s.contains(a) && s.contains(b) implies a == b by {
            if a < b {
                assert(membership[a as int] != membership[b as int]);
            } else if b < a {
                assert(membership[b as int] != membership[a as int]);
            }
        }
    }
}

/// The refinement phase starts from a partition whose communities are all
/// connected: the singleton reset of any membership with at most `u32::MAX`
/// nodes.
pub proof fn lemma_singleton_reset_connected(adj: Seq<Seq<nat>>, parent: Seq<u32>)
    requires
        parent.len() <= u32::MAX,
    ensures
        all_communities_connected(adj, singleton_reset(parent)),
{
    let m = singleton_reset(parent);
    assert forall|i: int, j: int| 0 <= i < j < m.len() implies m[i] != m[j] by {
        assert(m[i] == (i + 1) as u32);
        assert(m[j] == (j + 1) as u32);
    }
    lemma_distinct_communities_connected(adj, m);
}

/// Number of nodes of `membership` in community `c`.
pub fn count_members(membership: &[u32], c: u32) -> (r: usize)
    ensures
        r == count_in(membership@, c),
{
    let len = membership.len();
    let mut count: usize = 0;
    let mut i: usize = 0;
    while i < len
        invariant
            i <= len,
            len == membership@.len(),
            count == count_in(membership@.take(i as int), c),
            count <= i,
        decreases len - i,
    {
        assert(membership@.take(i + 1).drop_last() =~= membership@.take(i as int));
        if membership[i] == c {
            count = count + 1;
        }
        i = i + 1;
    }
    assert(membership@.take(len as int) =~= membership@);
    count
}

/// Number of nodes in each community of `membership`: every community that
/// occurs is a key, mapped to its number of nodes.
pub fn community_size_map(membership: &[u32]) -> (sizes: HashMap<u32, usize>)
    ensures
        forall|c: u32|
            #[trigger] sizes@.contains_key(c) <==> exists|i: int|
                0 <= i < membership@.len() && membership@[i] == c,
        forall|c: u32| #[trigger] sizes@.contains_key(c) ==> sizes@[c] == count_in(membership@, c),
{
    let mut sizes: HashMap<u32, usize> = HashMap::new();
    let len = membership.len();
    let mut i: usize = 0;
    while i < len
        invariant
            i <= len,
            len == membership@.len(),
            forall|c: u32|
                #[trigger] sizes@.contains_key(c) <==> exists|j: int|
                    0 <= j < i && membership@[j] == c,
            forall|c: u32|
                #[trigger] sizes@.contains_key(c) ==> sizes@[c] == count_in(
                    membership@.take(i as int),
                    c,
                ) && sizes@[c] <= i,
        decreases len - i,
    {
        let c = membership[i];
        let ghost prefix = membership@.take(i as int);
        assert(membership@.take(i + 1).drop_last() =~= prefix);
        proof {
            if !sizes@.contains_key(c) {
                assert forall|j: int| 0 <= j < i implies membership@[j] != c by {}
                lemma_count_in_absent_value(prefix, c);
            }
        }
        let current: usize = match sizes.get(&c) {
            Some(n) => *n,
            None => 0,
        };
        sizes.insert(c, current + 1);
        proof {
            assert forall|d: u32|
                #[trigger] sizes@.contains_key(d) <==> exists|j: int|
                    0 <= j < i + 1 && membership@[j] == d by {
                if d != c && sizes@.contains_key(d) {
                    let j = choose|j: int| 0 <= j < i && membership@[j] == d;
                }
            }
        }
        i = i + 1;
    }
    assert(membership@.take(len as int) =~= membership@);
    sizes
}

proof fn lemma_count_in_absent_value(membership: Seq<u32>, c: u32)
    requires
        forall|j: int| 0 <= j < membership.len() ==> membership[j] != c,
    ensures
        count_in(membership, c) == 0,
    decreases membership.len(),
{
    if membership.len() > 0 {
        lemma_count_in_absent_value(membership.drop_last(), c);
    }
}

/// The parent community recorded for node `i` (`u32::MAX` beyond the snapshot).
pub open spec fn parent_of(parent: Seq<u32>, i: int) -> u32 {
    if 0 <= i < parent.len() {
        parent[i]
    } else {
        u32::MAX
    }
}

/// Size of refined community `community` when all of its nodes lie in parent
/// community `parent_community`; `None` when one of them lies elsewhere.
pub fn refined_size_within_parent(
    membership: &[u32],
    parent: &[u32],
    community: u32,
    parent_community: u32,
) -> (r: Option<usize>)
    ensures
        (forall|i: int|
            0 <= i < membership@.len() && #[trigger] membership@[i] == community ==> parent_of(
                parent@,
                i,
            ) == parent_community) ==> r == Some(count_in(membership@, community) as usize),
        !(forall|i: int|
            0 <= i < membership@.len() && #[trigger] membership@[i] == community ==> parent_of(
                parent@,
                i,
            ) == parent_community) ==> r is None,
{
    let len = membership.len();
    let mut size: usize = 0;
    let mut i: usize = 0;
    while i < len
        invariant
            i <= len,
            len == membership@.len(),
            size == count_in(membership@.take(i as int), community),
            size <= i,
            forall|j: int|
                0 <= j < i && #[trigger] membership@[j] == community ==> parent_of(parent@, j)
                    == parent_community,
        decreases len - i,
    {
        assert(membership@.take(i + 1).drop_last() =~= membership@.take(i as int));
        if membership[i] == community {
            let p = if i < parent.len() {
                parent[i]
            } else {
                u32::MAX
            };
            if p != parent_community {
                return None;
            }
            size = size + 1;
        }
        i = i + 1;
    }
    assert(membership@.take(len as int) =~= membership@);
    Some(size)
}

/// `refined` is a subpartition of `parent`: nodes that share a refined
/// community share a parent community.
pub open spec fn refines(refined: Seq<u32>, parent: Seq<u32>) -> bool {
    &&& refined.len() == parent.len()
    &&& forall|i: int, j: int|
        0 <= i < refined.len() && 0 <= j < refined.len() && #[trigger] refined[i] == #[trigger] refined[j]
            ==> parent[i] == parent[j]
}

/// The singleton reset of a parent partition (with at most `u32::MAX`
/// nodes) is a subpartition of it.
pub proof fn lemma_singleton_reset_refines(parent: Seq<u32>)
    requires
        parent.len() <= u32::MAX,
    ensures
        refines(singleton_reset(parent), parent),
{
    let m = singleton_reset(parent);
    assert forall|i: int, j: int|
        0 <= i < m.len() && 0 <= j < m.len() && #[trigger] m[i] == #[trigger] m[j] implies parent[i]
        == parent[j] by {
        assert(m[i] == (i + 1) as u32);
        assert(m[j] == (j + 1) as u32);
    }
}

/// Moving node `i` into a refined community whose members all lie in the
/// parent community of `i` (what [`refined_size_within_parent`] checks)
/// keeps the refined partition a subpartition of the parent partition.
pub proof fn lemma_move_within_parent(refined: Seq<u32>, parent: Seq<u32>, i: int, to: u32)
    requires
        refines(refined, parent),
        0 <= i < refined.len(),
        forall|j: int| 0 <= j < refined.len() && #[trigger] refined[j] == to ==> parent[j] == parent[i],
    ensures
        refines(refined.update(i, to), parent),
{
    let moved = refined.update(i, to);
    assert forall|a: int, b: int|
        0 <= a < moved.len() && 0 <= b < moved.len() && #[trigger] moved[a] == #[trigger] moved[b] implies parent[a]
        == parent[b] by {
        if a == i && b != i {
            assert(refined[b] == to);
        } else if b == i && a != i {
            assert(refined[a] == to);
        } else if a != i && b != i {
            assert(refined[a] == refined[b]);
        }
    }
}

} // verus!
