use vstd::prelude::*;

use crate::graph_view::{adjacency_bounded, GraphView};
use crate::id::NodeId;
use crate::traversal::{
    closed_under, count_true, lemma_closed_contains_reachable, lemma_count_true_all_false,
    lemma_count_true_bounded, lemma_count_true_set, lemma_reach_self, lemma_reach_step, marked,
    reachable_within,
};

verus! {

/// The nodes (0-based indices into `membership`) of `community`, leaving out index `skip`.
pub open spec fn community_members(membership: Seq<u32>, community: u32, skip: int) -> Set<nat> {
    Set::new(|i: nat| i < membership.len() && membership[i as int] == community && i != skip)
}

/// `s` has no two distinct elements.
pub open spec fn at_most_one(s: Set<nat>) -> bool {
    forall|a: nat, b: nat| s.contains(a) && s.contains(b) ==> a == b
}

/// `x` is the smallest element of `s`.
pub open spec fn is_least(s: Set<nat>, x: nat) -> bool {
    s.contains(x) && forall|y: nat| s.contains(y) ==> x <= y
}

/// Every element of `s` can be reached from the smallest element of `s` by a
/// walk that stays inside `s`.
pub open spec fn connected_from_least(adj: Seq<Seq<nat>>, s: Set<nat>) -> bool {
    forall|root: nat, y: nat|
        is_least(s, root) && s.contains(y) ==> #[trigger] reachable_within(adj, s, root, y)
}

/// The node set `s` is connected in the sense checked by the detection
/// algorithms: it has at most one node, or all of it is reachable from its
/// smallest node inside `s`.
pub open spec fn members_connected(adj: Seq<Seq<nat>>, s: Set<nat>) -> bool {
    at_most_one(s) || connected_from_least(adj, s)
}

/// The search of the node set `s` starts inside a graph of `n` nodes: `s` has
/// at most one node, or its least node is a node of the graph.
pub open spec fn search_starts_inside(n: nat, s: Set<nat>) -> bool {
    at_most_one(s) || forall|r: nat| is_least(s, r) ==> r < n
}

/// Checks whether the members of `community` (leaving out index `skip`, if any)
/// induce a subgraph in which all of them are reachable from the first one.
pub fn community_connected<G: GraphView>(
    graph: &G,
    membership: &[u32],
    community: u32,
    skip: Option<usize>,
) -> (r: bool)
    requires
        search_starts_inside(
            graph.adjacency().len(),
            community_members(
                membership@,
                community,
                match skip {
                    Some(x) => x as int,
                    None => -1,
                },
            ),
        ),
    ensures
        r == members_connected(
            graph.adjacency(),
            community_members(
                membership@,
                community,
                match skip {
                    Some(x) => x as int,
                    None => -1,
                },
            ),
        ),
{
    let ghost adj = graph.adjacency();
    let ghost skip_i: int = match skip {
        Some(x) => x as int,
        None => -1,
    };
    let ghost s = community_members(membership@, community, skip_i);
    let n = graph.node_count();
    let len = membership.len();
    // Membership flags and the first two members.
    let mut in_set: Vec<bool> = Vec::new();
    let mut first: usize = len;
    let mut second_found = false;
    let mut i: usize = 0;
    while i < len
        invariant
            i <= len,
            len == membership@.len(),
            skip_i == match skip {
                Some(x) => x as int,
                None => -1,
            },
            s == community_members(membership@, community, skip_i),
            in_set@.len() == i,
            first <= len,
            forall|j: int| 0 <= j < i ==> #[trigger] in_set@[j] == s.contains(j as nat),
            first == len ==> forall|j: nat| j < i ==> !s.contains(j),
            first < len ==> first < i && s.contains(first as nat) && forall|j: nat|
                j < first ==> !s.contains(j),
            second_found <==> exists|j: nat| first < j < i && s.contains(j),
        decreases len - i,
    {
        let skipped = match skip {
            Some(x) => x == i,
            None => false,
        };
        let member = membership[i] == community && !skipped;
        assert(member == s.contains(i as nat));
        in_set.push(member);
        if member {
            if first == len {
                first = i;
            } else {
                assert(first < len);
                assert(first < i);
                assert(s.contains(i as nat));
                second_found = true;
            }
        }
        i = i + 1;
    }
    if !second_found {
        assert(at_most_one(s)) by {
            assert forall|a: nat, b: nat| s.contains(a) && s.contains(b) implies a == b by {
                assert(a < len && b < len);
                assert(i == len);
                if first == len {
                    assert(!s.contains(a));
                } else {
                    assert(first <= a && first <= b);
                    if first < a {
                        assert(second_found);
                    }
                    if first < b {
                        assert(second_found);
                    }
                }
            }
        }
        return true;
    }
    assert(first < len);
    let ghost root = first as nat;
    assert(is_least(s, root));
    assert(root < n);
    assert(!at_most_one(s)) by {
        let second = choose|x: nat| first < x < len && s.contains(x);
        assert(s.contains(root) && s.contains(second));
    }
    // Depth-first search inside the community, from its first member.
    let mut visited: Vec<bool> = vec![false; len];
    proof {
        assert(visited@ =~= Seq::new(len as nat, |i: int| false));
        lemma_count_true_all_false(len as nat);
        lemma_reach_self(adj, s, root);
    }
    let mut stack: Vec<usize> = Vec::new();
    stack.push(first);
    assert(stack@[0] == root as usize);
    while stack.len() > 0
        invariant
            adj == graph.adjacency(),
            n == adj.len(),
            adjacency_bounded(adj),
            len == membership@.len(),
            in_set@.len() == len,
            forall|j: int| 0 <= j < len ==> #[trigger] in_set@[j] == s.contains(j as nat),
            forall|x: nat| s.contains(x) ==> x < len,
            visited@.len() == len,
            n <= u32::MAX,
            root < len,
            root < n,
            forall|j: int| 0 <= j < stack@.len() ==> #[trigger] stack@[j] < n,
            s.contains(root),
            is_least(s, root),
            !at_most_one(s),
            forall|j: int| 0 <= j < stack@.len() ==> #[trigger] stack@[j] < len && s.contains(stack@[j] as nat)
                && reachable_within(adj, s, root, stack@[j] as nat),
            forall|x: int|
                0 <= x < len && #[trigger] visited@[x] ==> s.contains(x as nat) && reachable_within(
                    adj,
                    s,
                    root,
                    x as nat,
                ),
            visited@[root as int] || stack@.contains(root as usize),
            forall|w: int, k: int|
                0 <= w < len && visited@[w] && 0 <= k < adj[w].len() && s.contains(adj[w][k])
                    ==> visited@[#[trigger] adj[w][k] as int] || stack@.contains(
                    adj[w][k] as usize,
                ),
        decreases len - count_true(visited@), stack@.len(),
    {
        let ghost old_stack = stack@;
        let current = stack.pop().unwrap();
        proof {
            assert(old_stack == stack@.push(current));
            assert(old_stack[old_stack.len() - 1] == current);
            lemma_count_true_bounded(visited@);
        }
        if !visited[current] {
            let ghost pre_vis = visited@;
            proof {
                lemma_count_true_set(visited@, current as int);
                lemma_count_true_bounded(visited@.update(current as int, true));
            }
            visited.set(current, true);
            assert(current < len);
            assert(current < n);
            let node_opt = NodeId::new((current + 1) as u32);
            let node = node_opt.unwrap();
            let nbrs = graph.neighbors(node);
            let ghost u = current as nat;
            proof {
                assert forall|w: int, k: int|
                    0 <= w < len && visited@[w] && w != u && 0 <= k < adj[w].len() && s.contains(
                        adj[w][k],
                    ) implies visited@[#[trigger] adj[w][k] as int] || stack@.contains(
                    adj[w][k] as usize,
                ) by {
                    assert(pre_vis[w]);
                    if !pre_vis[adj[w][k] as int] && adj[w][k] != u {
                        assert(old_stack.contains(adj[w][k] as usize));
                        let j = choose|j: int|
                            0 <= j < old_stack.len() && old_stack[j] == adj[w][k] as usize;
                        assert(j != old_stack.len() - 1);
                        assert(stack@[j] == old_stack[j]);
                    }
                }
                if !visited@[root as int] {
                    let j = choose|j: int| 0 <= j < old_stack.len() && old_stack[j] == root as usize;
                    if j < old_stack.len() - 1 {
                        assert(stack@[j] == old_stack[j]);
                    }
                }
            }
            let mut k: usize = 0;
            while k < nbrs.len()
                invariant
                    adj == graph.adjacency(),
                    n == adj.len(),
                    adjacency_bounded(adj),
                    len == membership@.len(),
                    in_set@.len() == len,
                    forall|j: int| 0 <= j < len ==> #[trigger] in_set@[j] == s.contains(j as nat),
                    forall|x: nat| s.contains(x) ==> x < len,
                    visited@.len() == len,
                    n <= u32::MAX,
                    root < len,
                    root < n,
                    u < n,
                    forall|j: int| 0 <= j < stack@.len() ==> #[trigger] stack@[j] < n,
                    s.contains(root),
                    is_least(s, root),
                    !at_most_one(s),
                    u < len,
                    visited@[u as int],
                    s.contains(u),
                    reachable_within(adj, s, root, u),
                    nbrs@.len() == adj[u as int].len(),
                    forall|kk: int|
                        0 <= kk < nbrs@.len() ==> #[trigger] nbrs@[kk].value() == adj[u as int][kk]
                            + 1,
                    forall|j: int| 0 <= j < stack@.len() ==> #[trigger] stack@[j] < len && s.contains(stack@[j] as nat)
                        && reachable_within(adj, s, root, stack@[j] as nat),
                    forall|x: int|
                        0 <= x < len && #[trigger] visited@[x] ==> s.contains(x as nat)
                            && reachable_within(adj, s, root, x as nat),
                    visited@[root as int] || stack@.contains(root as usize),
                    forall|w: int, kk: int|
                        0 <= w < len && visited@[w] && w != u && 0 <= kk < adj[w].len() && s.contains(adj[w][kk])
                            ==> visited@[#[trigger] adj[w][kk] as int] || stack@.contains(
                            adj[w][kk] as usize,
                        ),
                    forall|kk: int|
                        0 <= kk < k && s.contains(adj[u as int][kk]) ==> visited@[#[trigger] adj[u as int][kk] as int]
                            || stack@.contains(adj[u as int][kk] as usize),
                    k <= nbrs@.len(),
                decreases nbrs@.len() - k,
            {
                let neighbor_idx = nbrs[k].index() - 1;
                assert(adj[u as int][k as int] < n);
                if neighbor_idx < len && in_set[neighbor_idx] && !visited[neighbor_idx] {
                    let ghost pre_stack = stack@;
                    proof {
                        lemma_reach_step(adj, s, root, u, k as int);
                    }
                    stack.push(neighbor_idx);
                    proof {
                        assert(stack@[stack@.len() - 1] == neighbor_idx);
                        assert forall|y: usize| #[trigger] pre_stack.contains(y) implies stack@.contains(y) by {
                            let j = choose|j: int| 0 <= j < pre_stack.len() && pre_stack[j] == y;
                            assert(stack@[j] == pre_stack[j]);
                        }
                        if !visited@[root as int] {
                            assert(pre_stack.contains(root as usize));
                        }
                    }
                }
                k = k + 1;
            }
        } else {
            proof {
                assert forall|y: usize| #[trigger] old_stack.contains(y) && y != current implies stack@.contains(y) by {
                    let j = choose|j: int| 0 <= j < old_stack.len() && old_stack[j] == y;
                    assert(j != old_stack.len() - 1);
                    assert(stack@[j] == old_stack[j]);
                }
            }
        }
    }
    proof {
        let vis = marked(visited@);
        assert(closed_under(adj, s, vis)) by {
            assert forall|w: nat, kk: int|
                vis.contains(w) && w < adj.len() && 0 <= kk < adj[w as int].len() && s.contains(
                    adj[w as int][kk],
                ) implies vis.contains(#[trigger] adj[w as int][kk]) by {
                assert(visited@[adj[w as int][kk] as int] || stack@.contains(
                    adj[w as int][kk] as usize,
                ));
            }
        }
        assert(vis.contains(root));
        assert forall|y: nat| #[trigger] reachable_within(adj, s, root, y) implies visited@[y as int] && y < len by {
            lemma_closed_contains_reachable(adj, s, vis, root, y);
        }
    }
    // All members must have been reached.
    let mut j: usize = 0;
    while j < len
        invariant
            j <= len,
            in_set@.len() == len,
            visited@.len() == len,
            forall|jj: int| 0 <= jj < len ==> #[trigger] in_set@[jj] == s.contains(jj as nat),
            forall|x: nat| s.contains(x) ==> x < len,
            forall|jj: int| 0 <= jj < j ==> #[trigger] in_set@[jj] ==> visited@[jj],
            is_least(s, root),
            !at_most_one(s),
            adj == graph.adjacency(),
            skip_i == match skip {
                Some(x) => x as int,
                None => -1,
            },
            s == community_members(membership@, community, skip_i),
            forall|y: nat| #[trigger] reachable_within(adj, s, root, y) ==> visited@[y as int] && y < len,
        decreases len - j,
    {
        if in_set[j] && !visited[j] {
            proof {
                assert(s.contains(j as nat));
                if connected_from_least(adj, s) {
                    assert(is_least(s, root));
                    assert(reachable_within(adj, s, root, j as nat));
                    assert(visited@[j as int]);
                }
                assert(!connected_from_least(adj, s));
                assert(!members_connected(adj, s));
            }
            return false;
        }
        j = j + 1;
    }
    proof {
        assert forall|rt: nat, y: nat| is_least(s, rt) && s.contains(y) implies #[trigger] reachable_within(adj, s, rt, y) by {
            assert(rt == root);
            assert(in_set@[y as int]);
            assert(visited@[y as int]);
        }
    }
    true
}

/// Checks if removing a node from its community would leave the community connected.
pub fn would_remain_connected<G: GraphView>(
    graph: &G,
    membership: &[u32],
    node: NodeId,
    community: u32,
) -> (r: bool)
    requires
        search_starts_inside(
            graph.adjacency().len(),
            community_members(membership@, community, node.value() - 1),
        ),
    ensures
        r == members_connected(
            graph.adjacency(),
            community_members(membership@, community, node.value() - 1),
        ),
{
    let node_idx = node.index() - 1;
    community_connected(graph, membership, community, Some(node_idx))
}

/// Number of nodes of `membership` in community `c`.
pub open spec fn count_in(membership: Seq<u32>, c: u32) -> nat
    decreases membership.len(),
{
    if membership.len() == 0 {
        0
    } else {
        count_in(membership.drop_last(), c) + if membership.last() == c {
            1nat
        } else {
            0nat
        }
    }
}

/// The largest community ID of `membership` (0 when it is empty).
pub open spec fn max_community(membership: Seq<u32>) -> u32
    decreases membership.len(),
{
    if membership.len() == 0 {
        0
    } else {
        let prev = max_community(membership.drop_last());
        if prev >= membership.last() {
            prev
        } else {
            membership.last()
        }
    }
}

/// Number of nodes in each community, indexed by community ID, for IDs
/// `0..=max`, where `max` is the largest ID in `membership` (0 when empty).
pub fn community_sizes(membership: &[u32]) -> (sizes: Vec<usize>)
    requires
        max_community(membership@) < usize::MAX,
    ensures
        sizes@.len() == max_community(membership@) + 1,
        forall|c: int| 0 <= c < sizes@.len() ==> #[trigger] sizes@[c] == count_in(membership@, c as u32),
        sizes_match(sizes@, membership@),
{
    let len = membership.len();
    let mut max: u32 = 0;
    let mut i: usize = 0;
    while i < len
        invariant
            i <= len,
            len == membership@.len(),
            max == max_community(membership@.take(i as int)),
        decreases len - i,
    {
        assert(membership@.take(i + 1).drop_last() =~= membership@.take(i as int));
        if membership[i] > max {
            max = membership[i];
        }
        i = i + 1;
    }
    assert(membership@.take(len as int) =~= membership@);
    let mut sizes: Vec<usize> = vec![0usize; max as usize + 1];
    proof {
        lemma_max_community_bound(membership@);
        assert forall|c: int| 0 <= c < sizes@.len() implies #[trigger] sizes@[c] == count_in(
            membership@.take(0),
            c as u32,
        ) by {}
    }
    let mut i: usize = 0;
    while i < len
        invariant
            i <= len,
            len == membership@.len(),
            max == max_community(membership@),
            sizes@.len() == max + 1,
            forall|c: int|
                0 <= c < sizes@.len() ==> #[trigger] sizes@[c] == count_in(
                    membership@.take(i as int),
                    c as u32,
                ),
            forall|j: int| 0 <= j < len ==> #[trigger] membership@[j] <= max,
        decreases len - i,
    {
        let c = membership[i] as usize;
        assert(membership@.take(i + 1).drop_last() =~= membership@.take(i as int));
        proof {
            lemma_count_in_bounded(membership@.take(i as int), c as u32);
        }
        sizes.set(c, sizes[c] + 1);
        i = i + 1;
    }
    assert(membership@.take(len as int) =~= membership@);
    sizes
}

proof fn lemma_max_community_bound(membership: Seq<u32>)
    ensures
        forall|j: int| 0 <= j < membership.len() ==> #[trigger] membership[j] <= max_community(membership),
    decreases membership.len(),
{
    if membership.len() > 0 {
        lemma_max_community_bound(membership.drop_last());
        assert forall|j: int| 0 <= j < membership.len() implies #[trigger] membership[j] <= max_community(membership) by {
            if j < membership.len() - 1 {
                assert(membership[j] == membership.drop_last()[j]);
            }
        }
    }
}

proof fn lemma_count_in_bounded(membership: Seq<u32>, c: u32)
    ensures
        count_in(membership, c) <= membership.len(),
    decreases membership.len(),
{
    if membership.len() > 0 {
        lemma_count_in_bounded(membership.drop_last(), c);
    }
}

/// `sizes` is the community-size table of `membership`: every community of
/// `membership` has an entry, and every entry is the number of nodes in its
/// community.
pub open spec fn sizes_match(sizes: Seq<usize>, membership: Seq<u32>) -> bool {
    &&& forall|i: int| 0 <= i < membership.len() ==> #[trigger] membership[i] < sizes.len()
    &&& forall|c: int| 0 <= c < sizes.len() ==> #[trigger] sizes[c] == count_in(membership, c as u32)
}

/// The size table after one member moves from community `from` to community
/// `to`: the table is first extended with zeros to hold both communities,
/// then `from` loses a member and `to` gains one.
pub open spec fn moved_sizes(sizes: Seq<usize>, from: u32, to: u32) -> Seq<usize> {
    let top: int = if from >= to {
        from as int
    } else {
        to as int
    };
    let len: int = if sizes.len() > top {
        sizes.len() as int
    } else {
        top + 1
    };
    let grown = Seq::new(
        len as nat,
        |c: int|
            if c < sizes.len() {
                sizes[c]
            } else {
                0usize
            },
    );
    let less = grown.update(from as int, (grown[from as int] - 1) as usize);
    less.update(to as int, (less[to as int] + 1) as usize)
}

/// Moves one member from community `from` to community `to` in a table of
/// community sizes, first extending the table with zeros so that it holds
/// both communities.
pub fn move_member(sizes: &mut Vec<usize>, from: u32, to: u32)
    requires
        (from as int) < old(sizes)@.len(),
        old(sizes)@[from as int] > 0,
        (to as int) < old(sizes)@.len() && to != from ==> old(sizes)@[to as int] < usize::MAX,
        (to as int) < usize::MAX,
        (from as int) < usize::MAX,
    ensures
        final(sizes)@ == moved_sizes(old(sizes)@, from, to),
{
    let f = from as usize;
    let t = to as usize;
    let top = if f >= t {
        f
    } else {
        t
    };
    let ghost old_sizes = sizes@;
    while sizes.len() <= top
        invariant
            old_sizes.len() <= sizes@.len(),
            sizes@.len() <= if old_sizes.len() > top {
                old_sizes.len() as int
            } else {
                top + 1
            },
            forall|c: int| 0 <= c < sizes@.len() ==> #[trigger] sizes@[c] == if c < old_sizes.len() {
                old_sizes[c]
            } else {
                0usize
            },
        decreases top + 1 - sizes@.len(),
    {
        sizes.push(0);
    }
    let ghost grown = sizes@;
    sizes.set(f, sizes[f] - 1);
    sizes.set(t, sizes[t] + 1);
    assert(sizes@ =~= moved_sizes(old_sizes, from, to)) by {
        let g = Seq::new(
            grown.len(),
            |c: int|
                if c < old_sizes.len() {
                    old_sizes[c]
                } else {
                    0usize
                },
        );
        assert(g =~= grown);
    }
}

proof fn lemma_count_in_update(membership: Seq<u32>, i: int, to: u32, c: u32)
    requires
        0 <= i < membership.len(),
    ensures
        count_in(membership.update(i, to), c) + (if membership[i] == c {
            1int
        } else {
            0int
        }) == count_in(membership, c) + (if to == c {
            1int
        } else {
            0int
        }),
    decreases membership.len(),
{
    let updated = membership.update(i, to);
    if i < membership.len() - 1 {
        lemma_count_in_update(membership.drop_last(), i, to, c);
        assert(updated.drop_last() =~= membership.drop_last().update(i, to));
    } else {
        assert(updated.drop_last() =~= membership.drop_last());
    }
}

proof fn lemma_count_in_positive(membership: Seq<u32>, i: int)
    requires
        0 <= i < membership.len(),
    ensures
        count_in(membership, membership[i]) >= 1,
    decreases membership.len(),
{
    if i < membership.len() - 1 {
        lemma_count_in_positive(membership.drop_last(), i);
    }
}

/// Moving a node keeps a community-size table right: if `sizes` is the size
/// table of `membership` (as [`community_sizes`] builds it), then after node
/// `i` moves to community `to` ([`move_member`]), the table is the size table
/// of the updated membership.
pub proof fn lemma_move_keeps_sizes(sizes: Seq<usize>, membership: Seq<u32>, i: int, to: u32)
    requires
        sizes_match(sizes, membership),
        sizes.len() <= u32::MAX as nat + 1,
        0 <= i < membership.len(),
        membership.len() <= usize::MAX,
        (to as int) < usize::MAX,
    ensures
        sizes_match(moved_sizes(sizes, membership[i], to), membership.update(i, to)),
{
    let from = membership[i];
    let updated = membership.update(i, to);
    let next = moved_sizes(sizes, from, to);
    lemma_count_in_positive(membership, i);
    assert(membership[i] < sizes.len());
    assert forall|c: int| 0 <= c < next.len() implies #[trigger] next[c] == count_in(updated, c as u32) by {
        let cu = c as u32;
        assert(cu as int == c);
        lemma_count_in_update(membership, i, to, cu);
        if c >= sizes.len() {
            assert forall|j: int| 0 <= j < membership.len() implies membership[j] != cu by {
                assert(membership[j] < sizes.len());
            }
            lemma_count_in_zero(membership, cu);
        } else {
            assert(sizes[c] == count_in(membership, cu));
        }
        if to != from && c == to {
            lemma_count_in_other(membership, i, to);
        }
    }
    assert forall|j: int| 0 <= j < updated.len() implies #[trigger] updated[j] < next.len() by {
        if j != i {
            assert(updated[j] == membership[j]);
        }
    }
}

proof fn lemma_count_in_zero(membership: Seq<u32>, c: u32)
    requires
        forall|j: int| 0 <= j < membership.len() ==> membership[j] != c,
    ensures
        count_in(membership, c) == 0,
    decreases membership.len(),
{
    if membership.len() > 0 {
        lemma_count_in_zero(membership.drop_last(), c);
    }
}

proof fn lemma_count_in_other(membership: Seq<u32>, i: int, c: u32)
    requires
        0 <= i < membership.len(),
        membership[i] != c,
    ensures
        count_in(membership, c) < membership.len(),
    decreases membership.len(),
{
    if i < membership.len() - 1 {
        lemma_count_in_other(membership.drop_last(), i, c);
    } else {
        lemma_count_in_bounded(membership.drop_last(), c);
    }
}

/// Debug counters of the neighbour-weight cache: hits, misses, invalidations,
/// full recomputations and incremental updates.
#[derive(Debug, Clone, Copy)]
pub struct CacheStatistics {
    /// Number of cache hits (clean cache on access).
    pub hits: u64,
    /// Number of cache misses (dirty cache, required rebuild).
    pub misses: u64,
    /// Number of cache invalidations (dirty marking).
    pub invalidations: u64,
    /// Number of full recomputation triggers.
    pub full_recomputes: u64,
    /// Number of incremental subtract-add updates.
    pub incremental_updates: u64,
}

impl CacheStatistics {
    /// Creates a new `CacheStatistics` with all counters zeroed.
    pub fn new() -> (s: Self)
        ensures
            s.hits == 0,
            s.misses == 0,
            s.invalidations == 0,
            s.full_recomputes == 0,
            s.incremental_updates == 0,
    {
        CacheStatistics {
            hits: 0,
            misses: 0,
            invalidations: 0,
            full_recomputes: 0,
            incremental_updates: 0,
        }
    }
}

impl Default for CacheStatistics {
    fn default() -> (s: Self)
        ensures
            s.hits == 0,
            s.misses == 0,
            s.invalidations == 0,
            s.full_recomputes == 0,
            s.incremental_updates == 0,
    {
        Self::new()
    }
}

} // verus!
