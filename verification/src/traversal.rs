use vstd::prelude::*;

use crate::graph_view::{adjacency_bounded, occurrences, symmetric_adjacency, GraphView};
use crate::id::NodeId;

verus! {

/// Step `i` of `path` follows an adjacency entry: `path[i + 1]` is a neighbour of `path[i]`.
pub open spec fn walk_step(adj: Seq<Seq<nat>>, path: Seq<nat>, i: int) -> bool {
    adj[path[i] as int].contains(path[i + 1])
}

/// `path` is a non-empty walk in `adj` that stays inside `allowed`.
pub open spec fn is_walk(adj: Seq<Seq<nat>>, allowed: Set<nat>, path: Seq<nat>) -> bool {
    &&& path.len() >= 1
    &&& forall|i: int|
        0 <= i < path.len() ==> #[trigger] allowed.contains(path[i]) && path[i] < adj.len()
    &&& forall|i: int| 0 <= i < path.len() - 1 ==> #[trigger] walk_step(adj, path, i)
}

/// Node `to` can be reached from node `from` by a walk that stays inside `allowed`.
pub open spec fn reachable_within(adj: Seq<Seq<nat>>, allowed: Set<nat>, from: nat, to: nat) -> bool {
    exists|path: Seq<nat>| #[trigger]
        is_walk(adj, allowed, path) && path[0] == from && path.last() == to
}

/// All (0-based) nodes of `adj`.
pub open spec fn all_nodes(adj: Seq<Seq<nat>>) -> Set<nat> {
    Set::new(|x: nat| x < adj.len())
}

/// Inside `allowed`, every neighbour of a node of `vis` is again in `vis`.
pub open spec fn closed_under(adj: Seq<Seq<nat>>, allowed: Set<nat>, vis: Set<nat>) -> bool {
    forall|u: nat, k: int|
        vis.contains(u) && u < adj.len() && 0 <= k < adj[u as int].len() && allowed.contains(
            adj[u as int][k],
        ) ==> vis.contains(#[trigger] adj[u as int][k])
}

/// Number of `true` entries.
pub open spec fn count_true(s: Seq<bool>) -> nat
    decreases s.len(),
{
    if s.len() == 0 {
        0
    } else {
        count_true(s.drop_last()) + if s.last() {
            1nat
        } else {
            0nat
        }
    }
}

/// The nodes marked in `marks`.
pub open spec fn marked(marks: Seq<bool>) -> Set<nat> {
    Set::new(|x: nat| x < marks.len() && marks[x as int])
}

/// At most every entry is `true`.
pub proof fn lemma_count_true_bounded(s: Seq<bool>)
    ensures
        count_true(s) <= s.len(),
    decreases s.len(),
{
    if s.len() > 0 {
        lemma_count_true_bounded(s.drop_last());
    }
}

/// Setting a `false` entry adds one `true` entry.
pub proof fn lemma_count_true_set(s: Seq<bool>, i: int)
    requires
        0 <= i < s.len(),
        !s[i],
    ensures
        count_true(s.update(i, true)) == count_true(s) + 1,
    decreases s.len(),
{
    if i < s.len() - 1 {
        assert(s.update(i, true).drop_last() =~= s.drop_last().update(i, true));
        lemma_count_true_set(s.drop_last(), i);
    } else {
        assert(s.update(i, true).drop_last() =~= s.drop_last());
    }
}

/// A sequence of `false` entries has no `true` entry.
pub proof fn lemma_count_true_all_false(n: nat)
    ensures
        count_true(Seq::new(n, |i: int| false)) == 0,
    decreases n,
{
    if n > 0 {
        assert(Seq::new(n, |i: int| false).drop_last() =~= Seq::new((n - 1) as nat, |i: int| false));
        lemma_count_true_all_false((n - 1) as nat);
    }
}

/// A one-node walk.
pub proof fn lemma_reach_self(adj: Seq<Seq<nat>>, allowed: Set<nat>, x: nat)
    requires
        allowed.contains(x),
        x < adj.len(),
    ensures
        reachable_within(adj, allowed, x, x),
{
    let path = seq![x];
    assert(is_walk(adj, allowed, path));
}

/// Extending a walk by one allowed neighbour.
pub proof fn lemma_reach_step(adj: Seq<Seq<nat>>, allowed: Set<nat>, from: nat, u: nat, k: int)
    requires
        reachable_within(adj, allowed, from, u),
        adjacency_bounded(adj),
        u < adj.len(),
        0 <= k < adj[u as int].len(),
        allowed.contains(adj[u as int][k]),
    ensures
        reachable_within(adj, allowed, from, adj[u as int][k]),
{
    let path = choose|path: Seq<nat>|
        #[trigger] is_walk(adj, allowed, path) && path[0] == from && path.last() == u;
    let w = adj[u as int][k];
    let ext = path.push(w);
    assert forall|i: int| 0 <= i < ext.len() - 1 implies #[trigger] walk_step(adj, ext, i) by {
        if i < path.len() - 1 {
            assert(walk_step(adj, path, i));
        } else {
            assert(adj[u as int][k] == w);
        }
    }
    assert forall|i: int| 0 <= i < ext.len() implies #[trigger] allowed.contains(ext[i]) && ext[i]
        < adj.len() by {
        if i < path.len() {
            assert(allowed.contains(path[i]));
        }
    }
    assert(is_walk(adj, allowed, ext));
}

/// A walk that starts inside a closed set never leaves it.
pub proof fn lemma_walk_stays_in(
    adj: Seq<Seq<nat>>,
    allowed: Set<nat>,
    vis: Set<nat>,
    path: Seq<nat>,
)
    requires
        is_walk(adj, allowed, path),
        vis.contains(path[0]),
        closed_under(adj, allowed, vis),
    ensures
        vis.contains(path.last()),
    decreases path.len(),
{
    if path.len() > 1 {
        let init = path.drop_last();
        assert forall|i: int| 0 <= i < init.len() - 1 implies #[trigger] walk_step(adj, init, i) by {
            assert(walk_step(adj, path, i));
        }
        assert forall|i: int| 0 <= i < init.len() implies #[trigger] allowed.contains(init[i])
            && init[i] < adj.len() by {
            assert(allowed.contains(path[i]));
        }
        lemma_walk_stays_in(adj, allowed, vis, init);
        let u = path[path.len() - 2];
        assert(init.last() == u);
        assert(allowed.contains(path[path.len() - 2]) && path[path.len() - 2] < adj.len());
        assert(walk_step(adj, path, path.len() - 2));
        let k = choose|k: int| 0 <= k < adj[u as int].len() && adj[u as int][k] == path.last();
        assert(allowed.contains(path[path.len() - 1]));
        assert(vis.contains(adj[u as int][k]));
    }
}

/// Everything reachable from a member of a closed set lies in the set.
pub proof fn lemma_closed_contains_reachable(
    adj: Seq<Seq<nat>>,
    allowed: Set<nat>,
    vis: Set<nat>,
    from: nat,
    to: nat,
)
    requires
        reachable_within(adj, allowed, from, to),
        vis.contains(from),
        closed_under(adj, allowed, vis),
    ensures
        vis.contains(to),
{
    let path = choose|path: Seq<nat>|
        #[trigger] is_walk(adj, allowed, path) && path[0] == from && path.last() == to;
    lemma_walk_stays_in(adj, allowed, vis, path);
}

/// Every edge goes both ways: `w` is a neighbour of `u` exactly when `u` is a
/// neighbour of `w`.
pub open spec fn undirected(adj: Seq<Seq<nat>>) -> bool {
    forall|u: int, w: nat|
        0 <= u < adj.len() && w < adj.len() && #[trigger] adj[u].contains(w) ==> adj[w as int].contains(
            u as nat,
        )
}

proof fn lemma_occurrences_contains(s: Seq<nat>, x: nat)
    ensures
        occurrences(s, x) > 0 <==> s.contains(x),
    decreases s.len(),
{
    if s.len() > 0 {
        lemma_occurrences_contains(s.drop_last(), x);
        if s.drop_last().contains(x) {
            let j = choose|j: int| 0 <= j < s.drop_last().len() && s.drop_last()[j] == x;
            assert(s[j] == x);
        }
        if s.contains(x) && s.last() != x {
            let j = choose|j: int| 0 <= j < s.len() && s[j] == x;
            assert(s.drop_last()[j] == x);
        }
    }
}

/// A graph whose adjacency lists name each pair of nodes equally often in both
/// directions (as every graph built from an edge list does) is undirected.
pub proof fn lemma_symmetric_is_undirected(adj: Seq<Seq<nat>>)
    requires
        symmetric_adjacency(adj),
    ensures
        undirected(adj),
{
    assert forall|u: int, w: nat|
        0 <= u < adj.len() && w < adj.len() && #[trigger] adj[u].contains(w) implies adj[w as int].contains(
        u as nat,
    ) by {
        let un = u as nat;
        lemma_occurrences_contains(adj[un as int], w);
        assert(occurrences(adj[un as int], w) == occurrences(adj[w as int], un));
        lemma_occurrences_contains(adj[w as int], un);
    }
}

/// A walk inside a set is also a walk inside any larger set.
pub proof fn lemma_reach_widen(adj: Seq<Seq<nat>>, s: Set<nat>, t: Set<nat>, a: nat, b: nat)
    requires
        reachable_within(adj, s, a, b),
        s.subset_of(t),
    ensures
        reachable_within(adj, t, a, b),
{
    let path = choose|path: Seq<nat>| #[trigger] is_walk(adj, s, path) && path[0] == a && path.last() == b;
    assert forall|i: int| 0 <= i < path.len() implies #[trigger] t.contains(path[i]) && path[i] < adj.len() by {
        assert(s.contains(path[i]));
    }
    assert forall|i: int| 0 <= i < path.len() - 1 implies #[trigger] walk_step(adj, path, i) by {}
    assert(is_walk(adj, t, path));
}

/// A node adjacent to another inside a set reaches it.
pub proof fn lemma_reach_edge(adj: Seq<Seq<nat>>, s: Set<nat>, a: nat, b: nat)
    requires
        s.contains(a),
        s.contains(b),
        a < adj.len(),
        b < adj.len(),
        adj[a as int].contains(b),
    ensures
        reachable_within(adj, s, a, b),
{
    let path = seq![a, b];
    assert(walk_step(adj, path, 0));
    assert(is_walk(adj, s, path));
}

/// In an undirected graph, a walk can be walked backwards.
pub proof fn lemma_reach_reverse(adj: Seq<Seq<nat>>, s: Set<nat>, a: nat, b: nat)
    requires
        reachable_within(adj, s, a, b),
        undirected(adj),
    ensures
        reachable_within(adj, s, b, a),
{
    let path = choose|path: Seq<nat>| #[trigger] is_walk(adj, s, path) && path[0] == a && path.last() == b;
    let n = path.len() as int;
    let rev = Seq::new(path.len(), |i: int| path[n - 1 - i]);
    assert forall|i: int| 0 <= i < rev.len() implies #[trigger] s.contains(rev[i]) && rev[i] < adj.len() by {
        assert(s.contains(path[n - 1 - i]));
    }
    assert forall|i: int| 0 <= i < rev.len() - 1 implies #[trigger] walk_step(adj, rev, i) by {
        let j = n - 2 - i;
        assert(walk_step(adj, path, j));
        assert(s.contains(path[j]) && path[j] < adj.len());
        assert(s.contains(path[j + 1]) && path[j + 1] < adj.len());
        assert(adj[path[j] as int].contains(path[j + 1]));
        assert(adj[path[j + 1] as int].contains(path[j]));
        assert(rev[i] == path[j + 1]);
        assert(rev[i + 1] == path[j]);
    }
    assert(is_walk(adj, s, rev));
    assert(rev[0] == b);
    assert(rev.last() == a);
}

/// Reachability inside a set is transitive.
pub proof fn lemma_reach_trans(adj: Seq<Seq<nat>>, s: Set<nat>, a: nat, b: nat, c: nat)
    requires
        reachable_within(adj, s, a, b),
        reachable_within(adj, s, b, c),
    ensures
        reachable_within(adj, s, a, c),
{
    let p = choose|path: Seq<nat>| #[trigger] is_walk(adj, s, path) && path[0] == a && path.last() == b;
    let q = choose|path: Seq<nat>| #[trigger] is_walk(adj, s, path) && path[0] == b && path.last() == c;
    let joined = p + q.drop_first();
    let m = p.len() as int;
    assert forall|i: int| 0 <= i < joined.len() implies #[trigger] s.contains(joined[i]) && joined[i]
        < adj.len() by {
        if i < m {
            assert(s.contains(p[i]));
        } else {
            assert(joined[i] == q[i - m + 1]);
            assert(s.contains(q[i - m + 1]));
        }
    }
    assert forall|i: int| 0 <= i < joined.len() - 1 implies #[trigger] walk_step(adj, joined, i) by {
        if i < m - 1 {
            assert(walk_step(adj, p, i));
        } else if i == m - 1 {
            assert(joined[i] == b);
            assert(joined[i + 1] == q[1]);
            assert(walk_step(adj, q, 0));
        } else {
            assert(joined[i] == q[i - m + 1]);
            assert(joined[i + 1] == q[i - m + 2]);
            assert(walk_step(adj, q, i - m + 1));
        }
    }
    assert(is_walk(adj, s, joined));
    if q.len() == 1 {
        assert(joined =~= p);
    } else {
        assert(joined.last() == q.last());
    }
}

/// `r` lists, once each and beginning with `start`, exactly the nodes that can
/// be reached from `start`.
pub open spec fn visits_reachable(adj: Seq<Seq<nat>>, start: NodeId, r: Seq<NodeId>) -> bool {
    &&& r.len() >= 1
    &&& r[0] == start
    &&& forall|i: int, j: int| 0 <= i < j < r.len() ==> r[i].value() != r[j].value()
    &&& forall|i: int|
        0 <= i < r.len() ==> 1 <= #[trigger] r[i].value() <= adj.len() && reachable_within(
            adj,
            all_nodes(adj),
            (start.value() - 1) as nat,
            (r[i].value() - 1) as nat,
        )
    &&& forall|x: nat|
        #[trigger] reachable_within(adj, all_nodes(adj), (start.value() - 1) as nat, x) ==> exists|
            i: int,
        | 0 <= i < r.len() && r[i].value() == x + 1
}

/// The (1-based) ids of the nodes that `r` lists.
pub open spec fn visited_ids(r: Seq<NodeId>) -> Set<nat> {
    r.map_values(|n: NodeId| n.value()).to_set()
}

proof fn lemma_visited_ids(adj: Seq<Seq<nat>>, start: NodeId, r: Seq<NodeId>)
    requires
        visits_reachable(adj, start, r),
    ensures
        visited_ids(r) == Set::new(
            |x: nat|
                x >= 1 && reachable_within(adj, all_nodes(adj), (start.value() - 1) as nat, (x - 1) as nat),
        ),
        r.map_values(|n: NodeId| n.value()).no_duplicates(),
{
    let v = r.map_values(|n: NodeId| n.value());
    let s = (start.value() - 1) as nat;
    let target = Set::new(
        |x: nat| x >= 1 && reachable_within(adj, all_nodes(adj), s, (x - 1) as nat),
    );
    assert forall|x: nat| v.to_set().contains(x) implies #[trigger] target.contains(x) by {
        let i = choose|i: int| 0 <= i < v.len() && v[i] == x;
        assert(r[i].value() == x);
    }
    assert forall|x: nat| #[trigger] target.contains(x) implies v.to_set().contains(x) by {
        assert(reachable_within(adj, all_nodes(adj), s, (x - 1) as nat));
        let i = choose|i: int| 0 <= i < r.len() && r[i].value() == (x - 1) as nat + 1;
        assert(v[i] == x);
    }
    assert(v.to_set() =~= target);
    assert forall|i: int, j: int| 0 <= i < v.len() && 0 <= j < v.len() && i != j implies v[i]
        != v[j] by {
        if i < j {
            assert(r[i].value() != r[j].value());
        } else {
            assert(r[j].value() != r[i].value());
        }
    }
}

/// Any two traversals that each visit the reachable nodes once (such as
/// [`bfs`] and [`dfs`] from the same start) list the same nodes, and as many.
pub proof fn lemma_traversals_agree(adj: Seq<Seq<nat>>, start: NodeId, a: Seq<NodeId>, b: Seq<NodeId>)
    requires
        visits_reachable(adj, start, a),
        visits_reachable(adj, start, b),
    ensures
        a.len() == b.len(),
        visited_ids(a) == visited_ids(b),
{
    lemma_visited_ids(adj, start, a);
    lemma_visited_ids(adj, start, b);
    a.map_values(|n: NodeId| n.value()).unique_seq_to_set();
    b.map_values(|n: NodeId| n.value()).unique_seq_to_set();
}

/// The 0-based node indices of the listed nodes.
pub open spec fn node_indices(r: Seq<NodeId>) -> Seq<nat> {
    r.map_values(|n: NodeId| (n.value() - 1) as nat)
}

/// `order` followed by those of `nbrs`, in their order, that are not yet
/// listed (each added at most once).
pub open spec fn append_unlisted(order: Seq<nat>, nbrs: Seq<nat>) -> Seq<nat>
    decreases nbrs.len(),
{
    if nbrs.len() == 0 {
        order
    } else {
        let prev = append_unlisted(order, nbrs.drop_last());
        if prev.contains(nbrs.last()) {
            prev
        } else {
            prev.push(nbrs.last())
        }
    }
}

/// Breadth-first expansion of `order` from position `p` on: the neighbours of
/// `order[p]` that are not yet listed are appended, in stored order, then
/// those of `order[p + 1]`, and so on until every listed node is expanded.
pub open spec fn bfs_expand(adj: Seq<Seq<nat>>, order: Seq<nat>, p: nat) -> Seq<nat>
    decreases adj.len() - p,
{
    if p >= order.len() || p >= adj.len() {
        order
    } else {
        bfs_expand(adj, append_unlisted(order, adj[order[p as int] as int]), p + 1)
    }
}

/// The breadth-first order from node `s`: `s`, then the not yet listed
/// neighbours of each listed node in turn.
pub open spec fn bfs_order(adj: Seq<Seq<nat>>, s: nat) -> Seq<nat> {
    bfs_expand(adj, seq![s], 0)
}

/// Those of `nbrs`, in their order, that `order` does not list.
pub open spec fn unlisted(nbrs: Seq<nat>, order: Seq<nat>) -> Seq<nat>
    decreases nbrs.len(),
{
    if nbrs.len() == 0 {
        Seq::empty()
    } else if order.contains(nbrs.last()) {
        unlisted(nbrs.drop_last(), order)
    } else {
        unlisted(nbrs.drop_last(), order).push(nbrs.last())
    }
}

/// Depth-first exploration with a stack (top last): the top is popped; a node
/// already listed is skipped; otherwise it is listed and its neighbours that
/// are not listed are pushed, in stored order.
pub open spec fn dfs_explore(adj: Seq<Seq<nat>>, stack: Seq<nat>, order: Seq<nat>) -> Seq<nat>
    decreases adj.len() - order.len(), stack.len(),
{
    if stack.len() == 0 || order.len() >= adj.len() {
        order
    } else {
        let x = stack.last();
        let rest = stack.drop_last();
        if order.contains(x) {
            dfs_explore(adj, rest, order)
        } else {
            let next = order.push(x);
            dfs_explore(adj, rest + unlisted(adj[x as int], next), next)
        }
    }
}

/// The depth-first order from node `s`.
pub open spec fn dfs_order(adj: Seq<Seq<nat>>, s: nat) -> Seq<nat> {
    dfs_explore(adj, seq![s], Seq::empty())
}

/// A node is listed exactly when it is marked visited, when every listed node
/// is marked and every marked node is listed.
proof fn lemma_listed_iff_visited(r: Seq<NodeId>, visited: Seq<bool>, x: nat)
    requires
        x < visited.len(),
        forall|i: int|
            0 <= i < r.len() ==> 1 <= #[trigger] r[i].value() <= visited.len() && visited[r[i].value() - 1],
        forall|y: int|
            0 <= y < visited.len() && #[trigger] visited[y] ==> exists|i: int|
                0 <= i < r.len() && r[i].value() == y + 1,
    ensures
        node_indices(r).contains(x) <==> visited[x as int],
{
    if visited[x as int] {
        let i = choose|i: int| 0 <= i < r.len() && r[i].value() == x + 1;
        assert(node_indices(r)[i] == x);
    }
    if node_indices(r).contains(x) {
        let i = choose|i: int| 0 <= i < node_indices(r).len() && node_indices(r)[i] == x;
        assert(visited[r[i].value() - 1]);
    }
}

/// BFS traversal returning all nodes reachable from the start node.
///
/// Performs a breadth-first search starting from `start`, visiting all reachable
/// nodes in breadth-first order; each node appears once.
#[verifier::spinoff_prover]
pub fn bfs<G: GraphView>(graph: &G, start: NodeId) -> (r: Vec<NodeId>)
    requires
        1 <= start.value() <= graph.adjacency().len(),
    ensures
        visits_reachable(graph.adjacency(), start, r@),
        node_indices(r@) == bfs_order(graph.adjacency(), (start.value() - 1) as nat),
{
    let ghost adj = graph.adjacency();
    let ghost all = all_nodes(adj);
    let n = graph.node_count();
    let s = start.index() - 1;
    let mut visited: Vec<bool> = vec![false; n];
    proof {
        assert(visited@ =~= Seq::new(n as nat, |i: int| false));
        lemma_count_true_all_false(n as nat);
        lemma_count_true_set(visited@, s as int);
        lemma_reach_self(adj, all, s as nat);
    }
    visited.set(s, true);
    let mut result: Vec<NodeId> = Vec::new();
    result.push(start);
    proof {
        assert forall|x: int|
            0 <= x < n && #[trigger] visited@[x] implies exists|i: int|
            0 <= i < result@.len() && result@[i].value() == x + 1 by {
            assert(x == s);
            assert(result@[0].value() == x + 1);
        }
    }
    let mut head: usize = 0;
    assert(node_indices(result@) =~= seq![s as nat]);
    while head < result.len()
        invariant
            bfs_expand(adj, node_indices(result@), head as nat) == bfs_order(adj, s as nat),
            adj == graph.adjacency(),
            all == all_nodes(adj),
            n == adj.len(),
            adjacency_bounded(adj),
            s == start.value() - 1,
            s < n,
            visited@.len() == n,
            head <= result@.len(),
            result@.len() <= n,
            count_true(visited@) == result@.len(),
            result@.len() >= 1,
            result@[0] == start,
            forall|i: int|
                0 <= i < result@.len() ==> 1 <= #[trigger] result@[i].value() <= n
                    && visited@[result@[i].value() - 1] && reachable_within(
                    adj,
                    all,
                    s as nat,
                    (result@[i].value() - 1) as nat,
                ),
            forall|x: int|
                0 <= x < n && #[trigger] visited@[x] ==> exists|i: int|
                    0 <= i < result@.len() && result@[i].value() == x + 1,
            forall|i: int, j: int|
                0 <= i < j < result@.len() ==> result@[i].value() != result@[j].value(),
            forall|i: int, k: int|
                0 <= i < head && 0 <= k < adj[result@[i].value() - 1].len() ==> visited@[#[trigger] adj[result@[i].value() - 1][k] as int],
        decreases n - head,
    {
        let node = result[head];
        let ghost u = (node.value() - 1) as nat;
        let ghost base = node_indices(result@);
        let ghost head_before = head as nat;
        assert(base[head as int] == u);
        let nbrs = graph.neighbors(node);
        let mut k: usize = 0;
        while k < nbrs.len()
            invariant
                node_indices(result@) == append_unlisted(base, adj[u as int].take(k as int)),
                bfs_expand(adj, base, head_before) == bfs_order(adj, s as nat),
                head_before == head,
                head < base.len(),
                base[head as int] == u,
                adj == graph.adjacency(),
                all == all_nodes(adj),
                n == adj.len(),
                adjacency_bounded(adj),
                s < n,
                visited@.len() == n,
                head < result@.len(),
                result@.len() <= n,
                count_true(visited@) == result@.len(),
                result@[0] == start,
                u == node.value() - 1,
                u < n,
                node == result@[head as int],
                nbrs@.len() == adj[u as int].len(),
                forall|kk: int|
                    0 <= kk < nbrs@.len() ==> #[trigger] nbrs@[kk].value() == adj[u as int][kk] + 1,
                forall|i: int|
                    0 <= i < result@.len() ==> 1 <= #[trigger] result@[i].value() <= n
                        && visited@[result@[i].value() - 1] && reachable_within(
                        adj,
                        all,
                        s as nat,
                        (result@[i].value() - 1) as nat,
                    ),
                forall|x: int|
                    0 <= x < n && #[trigger] visited@[x] ==> exists|i: int|
                        0 <= i < result@.len() && result@[i].value() == x + 1,
                forall|i: int, j: int|
                    0 <= i < j < result@.len() ==> result@[i].value() != result@[j].value(),
                forall|i: int, kk: int|
                    0 <= i < head && 0 <= kk < adj[result@[i].value() - 1].len() ==> visited@[#[trigger] adj[result@[i].value() - 1][kk] as int],
                forall|kk: int| 0 <= kk < k ==> visited@[#[trigger] adj[u as int][kk] as int],
                k <= nbrs@.len(),
            decreases nbrs@.len() - k,
        {
            let nb = nbrs[k];
            let x = nb.index() - 1;
            assert(adj[u as int][k as int] < n);
            let ghost listed = node_indices(result@);
            proof {
                assert(adj[u as int].take(k + 1).drop_last() =~= adj[u as int].take(k as int));
                assert(adj[u as int].take(k + 1).last() == x);
                lemma_listed_iff_visited(result@, visited@, x as nat);
            }
            if !visited[x] {
                let ghost old_res = result@;
                let ghost old_vis = visited@;
                proof {
                    lemma_count_true_set(visited@, x as int);
                    lemma_count_true_bounded(visited@.update(x as int, true));
                    lemma_reach_step(adj, all, s as nat, u, k as int);
                }
                visited.set(x, true);
                result.push(nb);
                proof {
                    assert forall|y: int|
                        0 <= y < n && #[trigger] visited@[y] implies exists|i: int|
                        0 <= i < result@.len() && result@[i].value() == y + 1 by {
                        if y != x {
                            assert(old_vis[y]);
                            let i = choose|i: int|
                                0 <= i < old_res.len() && old_res[i].value() == y + 1;
                            assert(result@[i] == old_res[i]);
                        } else {
                            assert(result@[result@.len() - 1].value() == y + 1);
                        }
                    }
                    assert(node_indices(result@) =~= listed.push(x as nat));
                }
            }
            k = k + 1;
        }
        proof {
            assert(adj[u as int].take(nbrs@.len() as int) =~= adj[u as int]);
            assert(head < adj.len());
        }
        head = head + 1;
    }
    proof {
        let vis = marked(visited@);
        assert forall|w: nat, kk: int|
            vis.contains(w) && w < adj.len() && 0 <= kk < adj[w as int].len() && all.contains(
                adj[w as int][kk],
            ) implies vis.contains(#[trigger] adj[w as int][kk]) by {
            let i = choose|i: int| 0 <= i < result@.len() && result@[i].value() == w + 1;
            assert(visited@[adj[result@[i].value() - 1][kk] as int]);
        }
        assert forall|x: nat|
            #[trigger] reachable_within(adj, all, s as nat, x) implies exists|i: int|
            0 <= i < result@.len() && result@[i].value() == x + 1 by {
            lemma_closed_contains_reachable(adj, all, vis, s as nat, x);
            assert(visited@[x as int]);
        }
    }
    result
}

/// DFS traversal returning all nodes reachable from the start node.
///
/// Performs a depth-first search starting from `start` (with an explicit
/// stack), visiting all reachable nodes in depth-first order; each node appears once.
#[verifier::spinoff_prover]
#[verifier::rlimit(40)]
pub fn dfs<G: GraphView>(graph: &G, start: NodeId) -> (r: Vec<NodeId>)
    requires
        1 <= start.value() <= graph.adjacency().len(),
    ensures
        visits_reachable(graph.adjacency(), start, r@),
        node_indices(r@) == dfs_order(graph.adjacency(), (start.value() - 1) as nat),
{
    let ghost adj = graph.adjacency();
    let ghost all = all_nodes(adj);
    let n = graph.node_count();
    let ghost s = (start.value() - 1) as nat;
    let mut visited: Vec<bool> = vec![false; n];
    proof {
        assert(visited@ =~= Seq::new(n as nat, |i: int| false));
        lemma_count_true_all_false(n as nat);
        lemma_reach_self(adj, all, s);
    }
    let mut stack: Vec<NodeId> = Vec::new();
    stack.push(start);
    let mut result: Vec<NodeId> = Vec::new();
    assert(node_indices(stack@) =~= seq![s]);
    assert(node_indices(result@) =~= Seq::<nat>::empty());
    while stack.len() > 0
        invariant
            dfs_explore(adj, node_indices(stack@), node_indices(result@)) == dfs_order(adj, s),
            adj == graph.adjacency(),
            all == all_nodes(adj),
            n == adj.len(),
            adjacency_bounded(adj),
            s == start.value() - 1,
            s < n,
            visited@.len() == n,
            count_true(visited@) == result@.len(),
            result@.len() <= n,
            result@.len() == 0 ==> stack@ == seq![start],
            result@.len() >= 1 ==> result@[0] == start,
            forall|i: int|
                0 <= i < stack@.len() ==> 1 <= #[trigger] stack@[i].value() <= n
                    && reachable_within(adj, all, s, (stack@[i].value() - 1) as nat),
            forall|i: int|
                0 <= i < result@.len() ==> 1 <= #[trigger] result@[i].value() <= n
                    && visited@[result@[i].value() - 1] && reachable_within(
                    adj,
                    all,
                    s,
                    (result@[i].value() - 1) as nat,
                ),
            forall|x: int|
                0 <= x < n && #[trigger] visited@[x] ==> exists|i: int|
                    0 <= i < result@.len() && result@[i].value() == x + 1,
            forall|i: int, j: int|
                0 <= i < j < result@.len() ==> result@[i].value() != result@[j].value(),
            forall|w: int, k: int|
                0 <= w < n && visited@[w] && 0 <= k < adj[w].len() ==> visited@[#[trigger] adj[w][k] as int]
                    || exists|i: int| 0 <= i < stack@.len() && stack@[i].value() == adj[w][k] + 1,
        decreases n - count_true(visited@), stack@.len(),
    {
        let ghost old_stack = stack@;
        let node = stack.pop().unwrap();
        let idx = node.index() - 1;
        let ghost rest_ids = node_indices(stack@);
        let ghost listed = node_indices(result@);
        proof {
            assert(old_stack[old_stack.len() - 1] == node);
            assert(rest_ids =~= node_indices(old_stack).drop_last());
            assert(node_indices(old_stack).last() == idx as nat);
            lemma_listed_iff_visited(result@, visited@, idx as nat);
        }
        if visited[idx] {
            proof {
                assert forall|w: int, k: int|
                    0 <= w < n && visited@[w] && 0 <= k < adj[w].len() implies visited@[#[trigger] adj[w][k] as int]
                    || exists|i: int| 0 <= i < stack@.len() && stack@[i].value() == adj[w][k] + 1 by {
                    if !visited@[adj[w][k] as int] {
                        let i = choose|i: int|
                            0 <= i < old_stack.len() && old_stack[i].value() == adj[w][k] + 1;
                        if i == old_stack.len() - 1 {
                            assert(old_stack[i] == node);
                        } else {
                            assert(stack@[i] == old_stack[i]);
                        }
                    }
                }
            }
            continue;
        }
        let ghost u = idx as nat;
        proof {
            assert(old_stack[old_stack.len() - 1] == node);
            lemma_count_true_set(visited@, idx as int);
            lemma_count_true_bounded(visited@.update(idx as int, true));
        }
        let ghost pre_res = result@;
        let ghost pre_vis = visited@;
        visited.set(idx, true);
        result.push(node);
        let ghost next_ids = node_indices(result@);
        proof {
            assert(next_ids =~= listed.push(u));
            assert(listed.len() < adj.len());
        }
        proof {
            assert forall|y: int|
                0 <= y < n && #[trigger] visited@[y] implies exists|i: int|
                0 <= i < result@.len() && result@[i].value() == y + 1 by {
                if y != idx {
                    assert(pre_vis[y]);
                    let i = choose|i: int| 0 <= i < pre_res.len() && pre_res[i].value() == y + 1;
                    assert(result@[i] == pre_res[i]);
                } else {
                    assert(result@[result@.len() - 1].value() == y + 1);
                }
            }
            assert forall|i: int, j: int|
                0 <= i < j < result@.len() implies result@[i].value() != result@[j].value() by {
                if j == result@.len() - 1 {
                    assert(pre_vis[result@[i].value() - 1]);
                }
            }
        }
        proof {
            assert forall|w: int, kk: int|
                0 <= w < n && visited@[w] && w != u && 0 <= kk < adj[w].len() implies visited@[#[trigger] adj[w][kk] as int]
                || exists|i: int| 0 <= i < stack@.len() && stack@[i].value() == adj[w][kk] + 1 by {
                assert(pre_vis[w]);
                if !pre_vis[adj[w][kk] as int] && adj[w][kk] != u {
                    let i = choose|i: int|
                        0 <= i < old_stack.len() && old_stack[i].value() == adj[w][kk] + 1;
                    if i == old_stack.len() - 1 {
                        assert(old_stack[i] == node);
                    } else {
                        assert(stack@[i] == old_stack[i]);
                    }
                }
            }
        }
        let nbrs = graph.neighbors(node);
        let mut k: usize = 0;
        assert(adj[u as int].take(0) =~= Seq::<nat>::empty());
        assert(node_indices(stack@) =~= rest_ids + unlisted(adj[u as int].take(0), next_ids));
        while k < nbrs.len()
            invariant
                node_indices(stack@) == rest_ids + unlisted(adj[u as int].take(k as int), next_ids),
                node_indices(result@) == next_ids,
                dfs_explore(adj, rest_ids + unlisted(adj[u as int], next_ids), next_ids) == dfs_order(
                    adj,
                    s,
                ),
                forall|i: int|
                    0 <= i < result@.len() ==> 1 <= #[trigger] result@[i].value() <= n
                        && visited@[result@[i].value() - 1],
                forall|y: int|
                    0 <= y < n && #[trigger] visited@[y] ==> exists|i: int|
                        0 <= i < result@.len() && result@[i].value() == y + 1,
                adj == graph.adjacency(),
                all == all_nodes(adj),
                n == adj.len(),
                adjacency_bounded(adj),
                u < n,
                visited@.len() == n,
                visited@[u as int],
                nbrs@.len() == adj[u as int].len(),
                forall|kk: int|
                    0 <= kk < nbrs@.len() ==> #[trigger] nbrs@[kk].value() == adj[u as int][kk] + 1,
                reachable_within(adj, all, s, u),
                forall|i: int|
                    0 <= i < stack@.len() ==> 1 <= #[trigger] stack@[i].value() <= n
                        && reachable_within(adj, all, s, (stack@[i].value() - 1) as nat),
                forall|w: int, kk: int|
                    0 <= w < n && visited@[w] && w != u && 0 <= kk < adj[w].len() ==> visited@[#[trigger] adj[w][kk] as int]
                        || exists|i: int| 0 <= i < stack@.len() && stack@[i].value() == adj[w][kk] + 1,
                forall|kk: int|
                    0 <= kk < k ==> visited@[#[trigger] adj[u as int][kk] as int] || exists|i: int|
                        0 <= i < stack@.len() && stack@[i].value() == adj[u as int][kk] + 1,
                k <= nbrs@.len(),
            decreases nbrs@.len() - k,
        {
            let nb = nbrs[k];
            let x = nb.index() - 1;
            assert(adj[u as int][k as int] < n);
            let ghost stack_ids = node_indices(stack@);
            proof {
                assert(adj[u as int].take(k + 1).drop_last() =~= adj[u as int].take(k as int));
                assert(adj[u as int].take(k + 1).last() == x);
                lemma_listed_iff_visited(result@, visited@, x as nat);
            }
            if !visited[x] {
                let ghost pre_stack = stack@;
                proof {
                    lemma_reach_step(adj, all, s, u, k as int);
                }
                stack.push(nb);
                proof {
                    assert(stack@[stack@.len() - 1].value() == adj[u as int][k as int] + 1);
                    assert forall|w: int, kk: int|
                        0 <= w < n && visited@[w] && w != u && 0 <= kk < adj[w].len() implies visited@[#[trigger] adj[w][kk] as int]
                        || exists|i: int| 0 <= i < stack@.len() && stack@[i].value() == adj[w][kk] + 1 by {
                        if !visited@[adj[w][kk] as int] {
                            let i = choose|i: int|
                                0 <= i < pre_stack.len() && pre_stack[i].value() == adj[w][kk] + 1;
                            assert(stack@[i] == pre_stack[i]);
                        }
                    }
                    assert forall|kk: int|
                        0 <= kk < k + 1 implies visited@[#[trigger] adj[u as int][kk] as int] || exists|i: int|
                        0 <= i < stack@.len() && stack@[i].value() == adj[u as int][kk] + 1 by {
                        if kk < k && !visited@[adj[u as int][kk] as int] {
                            let i = choose|i: int|
                                0 <= i < pre_stack.len() && pre_stack[i].value() == adj[u as int][kk]
                                    + 1;
                            assert(stack@[i] == pre_stack[i]);
                        }
                    }
                    assert(node_indices(stack@) =~= stack_ids.push(x as nat));
                }
            }
            k = k + 1;
        }
        assert(adj[u as int].take(nbrs@.len() as int) =~= adj[u as int]);
        proof {
            assert forall|w: int, kk: int|
                0 <= w < n && visited@[w] && 0 <= kk < adj[w].len() implies visited@[#[trigger] adj[w][kk] as int]
                || exists|i: int| 0 <= i < stack@.len() && stack@[i].value() == adj[w][kk] + 1 by {
                if w == u {
                    assert(visited@[adj[u as int][kk] as int] || exists|i: int|
                        0 <= i < stack@.len() && stack@[i].value() == adj[u as int][kk] + 1);
                }
            }
        }
    }
    proof {
        let vis = marked(visited@);
        assert forall|w: nat, kk: int|
            vis.contains(w) && w < adj.len() && 0 <= kk < adj[w as int].len() && all.contains(
                adj[w as int][kk],
            ) implies vis.contains(#[trigger] adj[w as int][kk]) by {
            assert(visited@[adj[w as int][kk] as int] || exists|i: int|
                0 <= i < stack@.len() && stack@[i].value() == adj[w as int][kk] + 1);
        }
        assert(visited@[s as int]);
        assert forall|x: nat|
            #[trigger] reachable_within(adj, all, s, x) implies exists|i: int|
            0 <= i < result@.len() && result@[i].value() == x + 1 by {
            lemma_closed_contains_reachable(adj, all, vis, s, x);
            assert(visited@[x as int]);
        }
    }
    result
}

} // verus!
