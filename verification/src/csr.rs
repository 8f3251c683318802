use vstd::prelude::*;

use crate::graph_view::{
    adjacency_bounded, adjacency_size, occurrences, private::Sealed, symmetric_adjacency, GraphView,
    MultilayerView,
};
use crate::id::NodeId;
use crate::traversal::{lemma_symmetric_is_undirected, undirected};

verus! {

/// The adjacency entries `(neighbour, weight)` of node `v` that building a graph
/// from `edges` produces, in order: scanning the edges, an edge `(from, to, w)`
/// adds `(to, w)` to `from`, and, when the graph is built with edges in both
/// directions (`both`) and the edge is not a self-loop, `(from, w)` to `to`.
pub open spec fn incident_entries<W>(edges: Seq<(u32, u32, W)>, v: nat, both: bool) -> Seq<(u32, W)>
    decreases edges.len(),
{
    if edges.len() == 0 {
        Seq::empty()
    } else {
        let prev = incident_entries(edges.drop_last(), v, both);
        let e = edges.last();
        let with_out = if e.0 == v {
            prev.push((e.1, e.2))
        } else {
            prev
        };
        if both && e.1 == v && e.0 != e.1 {
            with_out.push((e.0, e.2))
        } else {
            with_out
        }
    }
}

/// Number of directed adjacency entries that `edges` produce: one per edge
/// when only one direction is stored; otherwise one per self-loop and two per
/// other edge.
pub open spec fn directed_entry_count<W>(edges: Seq<(u32, u32, W)>, both: bool) -> nat
    decreases edges.len(),
{
    if edges.len() == 0 {
        0
    } else {
        directed_entry_count(edges.drop_last(), both) + if !both || edges.last().0 == edges.last().1 {
            1nat
        } else {
            2nat
        }
    }
}

/// How many entries of `s` lead to node `x`.
pub open spec fn entries_to<W>(s: Seq<(u32, W)>, x: nat) -> nat
    decreases s.len(),
{
    if s.len() == 0 {
        0
    } else {
        entries_to(s.drop_last(), x) + if s.last().0 == x {
            1nat
        } else {
            0nat
        }
    }
}

/// The neighbour indices of a list of adjacency entries.
pub open spec fn neighbour_indices<W>(s: Seq<(u32, W)>) -> Seq<nat> {
    s.map_values(|e: (u32, W)| e.0 as nat)
}

proof fn lemma_entries_to_push<W>(s: Seq<(u32, W)>, e: (u32, W), x: nat)
    ensures
        entries_to(s.push(e), x) == entries_to(s, x) + if e.0 == x {
            1nat
        } else {
            0nat
        },
{
    assert(s.push(e).drop_last() =~= s);
}

/// Building a graph from an edge list makes it undirected: for any two nodes
/// `u` and `v`, the entries of `u` lead to `v` exactly as often as the entries
/// of `v` lead to `u`.
pub proof fn lemma_incident_symmetric<W>(edges: Seq<(u32, u32, W)>, u: nat, v: nat)
    ensures
        entries_to(incident_entries(edges, u, true), v) == entries_to(incident_entries(edges, v, true), u),
    decreases edges.len(),
{
    if edges.len() > 0 {
        let init = edges.drop_last();
        let e = edges.last();
        lemma_incident_symmetric(init, u, v);
        let pu = incident_entries(init, u, true);
        let pv = incident_entries(init, v, true);
        let wu = if e.0 == u {
            pu.push((e.1, e.2))
        } else {
            pu
        };
        let wv = if e.0 == v {
            pv.push((e.1, e.2))
        } else {
            pv
        };
        if e.0 == u {
            lemma_entries_to_push(pu, (e.1, e.2), v);
        }
        if e.0 == v {
            lemma_entries_to_push(pv, (e.1, e.2), u);
        }
        if e.1 == u && e.0 != e.1 {
            lemma_entries_to_push(wu, (e.0, e.2), v);
        }
        if e.1 == v && e.0 != e.1 {
            lemma_entries_to_push(wv, (e.0, e.2), u);
        }
    }
}

proof fn lemma_occurrences_indices<W>(s: Seq<(u32, W)>, x: nat)
    ensures
        occurrences(neighbour_indices(s), x) == entries_to(s, x),
    decreases s.len(),
{
    if s.len() > 0 {
        lemma_occurrences_indices(s.drop_last(), x);
        assert(neighbour_indices(s).drop_last() =~= neighbour_indices(s.drop_last()));
    }
}

/// Every endpoint of every edge is a node index below `n`.
pub open spec fn endpoints_below<W>(edges: Seq<(u32, u32, W)>, n: nat) -> bool {
    forall|i: int| 0 <= i < edges.len() ==> #[trigger] edges[i].0 < n && edges[i].1 < n
}

/// Sum of the adjacency-list lengths of nodes `0..i`.
pub open spec fn degree_prefix_sum<W>(edges: Seq<(u32, u32, W)>, i: nat, both: bool) -> nat
    decreases i,
{
    if i == 0 {
        0
    } else {
        degree_prefix_sum(edges, (i - 1) as nat, both) + incident_entries(edges, (i - 1) as nat, both).len()
    }
}

/// The weight of the first entry of `s` that leads to `to`.
pub open spec fn first_weight<W>(s: Seq<(u32, W)>, to: nat) -> Option<W>
    decreases s.len(),
{
    if s.len() == 0 {
        None
    } else if s[0].0 == to {
        Some(s[0].1)
    } else {
        first_weight(s.drop_first(), to)
    }
}

proof fn lemma_first_weight_found<W>(s: Seq<(u32, W)>, to: nat, i: int)
    requires
        0 <= i < s.len(),
        s[i].0 == to,
        forall|j: int| 0 <= j < i ==> s[j].0 != to,
    ensures
        first_weight(s, to) == Some(s[i].1),
    decreases i,
{
    if i > 0 {
        lemma_first_weight_found(s.drop_first(), to, i - 1);
    }
}

proof fn lemma_first_weight_absent<W>(s: Seq<(u32, W)>, to: nat)
    requires
        forall|j: int| 0 <= j < s.len() ==> s[j].0 != to,
    ensures
        first_weight(s, to) is None,
    decreases s.len(),
{
    if s.len() > 0 {
        lemma_first_weight_absent(s.drop_first(), to);
    }
}

proof fn lemma_incident_prefix<W>(edges: Seq<(u32, u32, W)>, k: int, v: nat, both: bool)
    requires
        0 <= k <= edges.len(),
    ensures
        incident_entries(edges.take(k), v, both).len() <= incident_entries(edges, v, both).len(),
        incident_entries(edges.take(k), v, both) =~= incident_entries(edges, v, both).take(
            incident_entries(edges.take(k), v, both).len() as int,
        ),
    decreases edges.len(),
{
    if k < edges.len() {
        assert(edges.drop_last().take(k) =~= edges.take(k));
        lemma_incident_prefix(edges.drop_last(), k, v, both);
    } else {
        assert(edges.take(k) =~= edges);
    }
}

proof fn lemma_incident_bounded<W>(edges: Seq<(u32, u32, W)>, v: nat, both: bool)
    ensures
        incident_entries(edges, v, both).len() <= directed_entry_count(edges, both),
    decreases edges.len(),
{
    if edges.len() > 0 {
        lemma_incident_bounded(edges.drop_last(), v, both);
    }
}

proof fn lemma_endpoints_below_init<W>(edges: Seq<(u32, u32, W)>, n: nat)
    requires
        endpoints_below(edges, n),
        edges.len() > 0,
    ensures
        endpoints_below(edges.drop_last(), n),
        edges.last().0 < n,
        edges.last().1 < n,
{
    let init = edges.drop_last();
    assert forall|i: int| 0 <= i < init.len() implies #[trigger] init[i].0 < n && init[i].1 < n by {
        assert(init[i] == edges[i]);
        assert(edges[i].0 < n);
    }
    assert(edges[edges.len() - 1].0 < n);
}

proof fn lemma_incident_entries_below<W>(edges: Seq<(u32, u32, W)>, v: nat, n: nat, both: bool)
    requires
        endpoints_below(edges, n),
    ensures
        forall|j: int|
            0 <= j < incident_entries(edges, v, both).len() ==> #[trigger] incident_entries(
                edges,
                v,
                both,
            )[j].0 < n,
    decreases edges.len(),
{
    if edges.len() > 0 {
        lemma_endpoints_below_init(edges, n);
        lemma_incident_entries_below(edges.drop_last(), v, n, both);
        let prev = incident_entries(edges.drop_last(), v, both);
        assert forall|j: int| 0 <= j < incident_entries(edges, v, both).len() implies #[trigger] incident_entries(
            edges,
            v,
            both,
        )[j].0 < n by {
            if j < prev.len() {
                assert(prev[j].0 < n);
            }
        }
    }
}

proof fn lemma_degree_prefix_push<W>(edges: Seq<(u32, u32, W)>, e: (u32, u32, W), i: nat, both: bool)
    ensures
        degree_prefix_sum(edges.push(e), i, both) == degree_prefix_sum(edges, i, both) + (if e.0 < i {
            1nat
        } else {
            0nat
        }) + (if both && e.1 < i && e.0 != e.1 {
            1nat
        } else {
            0nat
        }),
    decreases i,
{
    assert(edges.push(e).drop_last() =~= edges);
    if i > 0 {
        lemma_degree_prefix_push(edges, e, (i - 1) as nat, both);
    }
}

proof fn lemma_degree_prefix_no_edges<W>(edges: Seq<(u32, u32, W)>, i: nat, both: bool)
    requires
        edges.len() == 0,
    ensures
        degree_prefix_sum(edges, i, both) == 0,
    decreases i,
{
    if i > 0 {
        lemma_degree_prefix_no_edges(edges, (i - 1) as nat, both);
    }
}

proof fn lemma_degree_prefix_total<W>(edges: Seq<(u32, u32, W)>, n: nat, both: bool)
    requires
        endpoints_below(edges, n),
    ensures
        degree_prefix_sum(edges, n, both) == directed_entry_count(edges, both),
    decreases edges.len(),
{
    if edges.len() == 0 {
        lemma_degree_prefix_no_edges(edges, n, both);
    } else {
        let init = edges.drop_last();
        let e = edges.last();
        lemma_endpoints_below_init(edges, n);
        lemma_degree_prefix_total(init, n, both);
        assert(init.push(e) =~= edges);
        lemma_degree_prefix_push(init, e, n, both);
        assert(e.0 < n);
        assert(e.1 < n);
        assert(directed_entry_count(edges, both) == directed_entry_count(init, both) + (if !both || e.0 == e.1 {
            1nat
        } else {
            2nat
        }));
        assert(degree_prefix_sum(edges, n, both) == degree_prefix_sum(init, n, both) + 1 + (if both && e.0 != e.1 {
            1nat
        } else {
            0nat
        }));
    }
}

proof fn lemma_degree_prefix_monotone<W>(edges: Seq<(u32, u32, W)>, i: nat, j: nat, both: bool)
    requires
        i <= j,
    ensures
        degree_prefix_sum(edges, i, both) <= degree_prefix_sum(edges, j, both),
    decreases j,
{
    if i < j {
        lemma_degree_prefix_monotone(edges, i, (j - 1) as nat, both);
    }
}

/// Locates the row segment `[rp[v], rp[v + 1])` that contains position `q`.
proof fn lemma_segment_of(rp: Seq<u32>, q: int, hi: int) -> (v: int)
    requires
        0 <= hi < rp.len(),
        rp[0] == 0,
        0 <= q < rp[hi],
    ensures
        0 <= v < hi,
        rp[v] <= q < rp[v + 1],
    decreases hi,
{
    if rp[hi - 1] <= q {
        hi - 1
    } else {
        lemma_segment_of(rp, q, hi - 1)
    }
}

/// Compressed Sparse Row (CSR) graph representation.
///
/// Stores the graph in three parallel arrays:
/// - `row_ptr[i]` points to the start of node `i`'s adjacency list in `col_idx`.
/// - `col_idx` contains the (0-based) neighbour node indices.
/// - `weights` contains the edge weights, parallel to `col_idx`.
#[derive(Debug)]
pub struct CsrGraph<W> {
    row_ptr: Vec<u32>,
    col_idx: Vec<u32>,
    weights: Vec<W>,
}

impl<W> CsrGraph<W> {
    #[verifier::type_invariant]
    spec fn well_formed(self) -> bool {
        &&& self.row_ptr.len() >= 1
        &&& self.row_ptr.len() - 1 <= u32::MAX
        &&& self.row_ptr[0] == 0
        &&& forall|i: int, j: int|
            0 <= i <= j < self.row_ptr.len() ==> #[trigger] self.row_ptr[i] <= #[trigger] self.row_ptr[j]
        &&& self.row_ptr[self.row_ptr.len() - 1] == self.col_idx.len()
        &&& self.col_idx.len() == self.weights.len()
        &&& forall|k: int|
            0 <= k < self.col_idx.len() ==> #[trigger] self.col_idx[k] < self.row_ptr.len() - 1
    }

    /// Number of nodes.
    pub closed spec fn spec_node_count(self) -> nat {
        (self.row_ptr.len() - 1) as nat
    }

    /// The adjacency entries `(neighbour, weight)` of every node, by 0-based index.
    pub closed spec fn entries(self) -> Seq<Seq<(u32, W)>> {
        Seq::new(
            self.spec_node_count(),
            |v: int|
                Seq::new(
                    (self.row_ptr[v + 1] - self.row_ptr[v]) as nat,
                    |j: int|
                        (
                            self.col_idx[self.row_ptr[v] + j],
                            self.weights[self.row_ptr[v] + j],
                        ),
                ),
        )
    }
}

impl<W: Copy> Clone for CsrGraph<W> {
    fn clone(&self) -> (r: Self)
        ensures
            r.entries() == self.entries(),
            r.adjacency() == self.adjacency(),
    {
        proof {
            use_type_invariant(self);
        }
        let mut weights: Vec<W> = Vec::new();
        let mut i: usize = 0;
        while i < self.weights.len()
            invariant
                i <= self.weights@.len(),
                weights@ == self.weights@.take(i as int),
            decreases self.weights@.len() - i,
        {
            weights.push(self.weights[i]);
            assert(weights@ =~= self.weights@.take(i + 1));
            i = i + 1;
        }
        assert(self.weights@.take(self.weights@.len() as int) =~= self.weights@);
        let r = CsrGraph { row_ptr: self.row_ptr.clone(), col_idx: self.col_idx.clone(), weights };
        assert(r.row_ptr@ =~= self.row_ptr@);
        assert(r.col_idx@ =~= self.col_idx@);
        assert(r.weights@ =~= self.weights@);
        assert forall|v: int| 0 <= v < self.entries().len() implies #[trigger] r.entries()[v]
            =~= self.entries()[v] by {}
        assert(r.entries() =~= self.entries());
        assert forall|v: int| 0 <= v < self.adjacency().len() implies #[trigger] r.adjacency()[v]
            =~= self.adjacency()[v] by {
            assert(r.entries()[v].len() == self.entries()[v].len());
            assert forall|k: int| 0 <= k < self.entries()[v].len() implies #[trigger] r.entries()[v][k].0
                == self.entries()[v][k].0 by {}
        }
        assert(r.adjacency() =~= self.adjacency());
        r
    }
}

impl<W: Copy> CsrGraph<W> {
    /// Creates a CSR graph from an edge list of `(from, to, weight)` tuples.
    ///
    /// Self-loops are added once; all other edges are added in both directions
    /// (undirected graph). Node indices in `edges` are 0-based.
    pub fn from_edges(edges: &[(u32, u32, W)], node_count: usize) -> (g: Self)
        requires
            endpoints_below(edges@, node_count as nat),
            directed_entry_count(edges@, true) <= u32::MAX,
            node_count <= u32::MAX,
            node_count < usize::MAX,
        ensures
            g.entries().len() == node_count,
            forall|v: int|
                0 <= v < node_count ==> #[trigger] g.entries()[v] == incident_entries(
                    edges@,
                    v as nat,
                    true,
                ),
            symmetric_adjacency(g.adjacency()),
            undirected(g.adjacency()),
            adjacency_size(g.adjacency()) == directed_entry_count(edges@, true),
    {
        Self::build(edges, node_count, true)
    }

    /// Creates a CSR graph from an edge list, storing every edge from its
    /// source to its target and, when `both` holds, also from its target to
    /// its source (self-loops once).
    #[verifier::spinoff_prover]
    pub(crate) fn build(edges: &[(u32, u32, W)], node_count: usize, both: bool) -> (g: Self)
        requires
            endpoints_below(edges@, node_count as nat),
            directed_entry_count(edges@, both) <= u32::MAX,
            node_count <= u32::MAX,
            node_count < usize::MAX,
        ensures
            g.entries().len() == node_count,
            forall|v: int|
                0 <= v < node_count ==> #[trigger] g.entries()[v] == incident_entries(
                    edges@,
                    v as nat,
                    both,
                ),
            both ==> symmetric_adjacency(g.adjacency()),
            both ==> undirected(g.adjacency()),
            adjacency_size(g.adjacency()) == directed_entry_count(edges@, both),
    {
        let n = node_count;
        let m = edges.len();
        // Degree of every node.
        let mut degrees: Vec<u32> = vec![0u32; n];
        let mut k: usize = 0;
        while k < m
            invariant
                k <= m,
                m == edges@.len(),
                degrees@.len() == n,
                endpoints_below(edges@, n as nat),
                directed_entry_count(edges@, both) <= u32::MAX,
                forall|v: int|
                    0 <= v < n ==> #[trigger] degrees@[v] == incident_entries(
                        edges@.take(k as int),
                        v as nat,
                        both,
                    ).len(),
            decreases m - k,
        {
            let (from, to, _) = edges[k];
            assert(edges@.take(k + 1).drop_last() =~= edges@.take(k as int));
            assert(edges@[k as int].0 < n && edges@[k as int].1 < n);
            proof {
                lemma_incident_prefix(edges@, k + 1, from as nat, both);
                lemma_incident_bounded(edges@, from as nat, both);
                lemma_incident_prefix(edges@, k + 1, to as nat, both);
                lemma_incident_bounded(edges@, to as nat, both);
            }
            let fi = from as usize;
            degrees.set(fi, degrees[fi] + 1);
            if both && from != to {
                let ti = to as usize;
                degrees.set(ti, degrees[ti] + 1);
            }
            k = k + 1;
        }
        assert(edges@.take(m as int) =~= edges@);

        // Prefix sums of the degrees.
        let mut row_ptr: Vec<u32> = vec![0u32; n + 1];
        proof {
            lemma_degree_prefix_total(edges@, n as nat, both);
        }
        let mut i: usize = 0;
        while i < n
            invariant
                i <= n,
                row_ptr@.len() == n + 1,
                degrees@.len() == n,
                forall|v: int|
                    0 <= v < n ==> #[trigger] degrees@[v] == incident_entries(edges@, v as nat, both).len(),
                forall|j: int| 0 <= j <= i ==> #[trigger] row_ptr@[j] == degree_prefix_sum(edges@, j as nat, both),
                degree_prefix_sum(edges@, n as nat, both) <= u32::MAX,
            decreases n - i,
        {
            proof {
                lemma_degree_prefix_monotone(edges@, (i + 1) as nat, n as nat, both);
            }
            let next = row_ptr[i] + degrees[i];
            row_ptr.set(i + 1, next);
            i = i + 1;
        }
        assert forall|a: int, b: int| 0 <= a <= b < row_ptr@.len() implies #[trigger] row_ptr@[a]
            <= #[trigger] row_ptr@[b] by {
            lemma_degree_prefix_monotone(edges@, a as nat, b as nat, both);
        }

        let total = row_ptr[n] as usize;
        let mut col_idx: Vec<u32> = vec![0u32; total];
        let mut origin: Vec<usize> = vec![0usize; total];
        let mut cursor: Vec<u32> = row_ptr.clone();
        assert(cursor@ =~= row_ptr@);

        let mut k: usize = 0;
        while k < m
            invariant
                k <= m,
                m == edges@.len(),
                endpoints_below(edges@, n as nat),
                row_ptr@.len() == n + 1,
                cursor@.len() == n + 1,
                col_idx@.len() == total,
                origin@.len() == total,
                total == row_ptr@[n as int],
                forall|j: int| 0 <= j <= n ==> #[trigger] row_ptr@[j] == degree_prefix_sum(edges@, j as nat, both),
                forall|a: int, b: int|
                    0 <= a <= b < row_ptr@.len() ==> #[trigger] row_ptr@[a] <= #[trigger] row_ptr@[b],
                forall|v: int|
                    0 <= v < n ==> #[trigger] cursor@[v] == row_ptr@[v] + incident_entries(
                        edges@.take(k as int),
                        v as nat,
                        both,
                    ).len(),
                forall|v: int, j: int|
                    0 <= v < n && 0 <= j < incident_entries(edges@.take(k as int), v as nat, both).len()
                        ==> {
                        let p = row_ptr@[v] + j;
                        let e = #[trigger] incident_entries(edges@.take(k as int), v as nat, both)[j];
                        &&& col_idx@[p] == e.0
                        &&& origin@[p] < m
                        &&& edges@[origin@[p] as int].2 == e.1
                    },
            decreases m - k,
        {
            let (from, to, _) = edges[k];
            let ghost prefix = edges@.take(k as int);
            let ghost next_prefix = edges@.take(k + 1);
            assert(next_prefix.drop_last() =~= prefix);
            assert(next_prefix.last() == edges@[k as int]);
            assert(edges@[k as int].0 < n && edges@[k as int].1 < n);
            proof {
                lemma_incident_prefix(edges@, k + 1, from as nat, both);
                lemma_incident_prefix(edges@, k + 1, to as nat, both);
                assert(row_ptr@[from as int + 1] == degree_prefix_sum(edges@, from as nat + 1, both));
                assert(row_ptr@[to as int + 1] == degree_prefix_sum(edges@, to as nat + 1, both));
            }
            let fi = from as usize;
            let pos = cursor[fi] as usize;
            col_idx.set(pos, to);
            origin.set(pos, k);
            cursor.set(fi, cursor[fi] + 1);
            if both && from != to {
                let ti = to as usize;
                let pos2 = cursor[ti] as usize;
                col_idx.set(pos2, from);
                origin.set(pos2, k);
                cursor.set(ti, cursor[ti] + 1);
            }
            proof {
                assert forall|v: int, j: int|
                    0 <= v < n && 0 <= j < incident_entries(next_prefix, v as nat, both).len() implies {
                    let p = row_ptr@[v] + j;
                    let e = #[trigger] incident_entries(next_prefix, v as nat, both)[j];
                    &&& col_idx@[p] == e.0
                    &&& origin@[p] < m
                    &&& edges@[origin@[p] as int].2 == e.1
                } by {
                    if j < incident_entries(prefix, v as nat, both).len() {
                        assert(incident_entries(next_prefix, v as nat, both)[j] == incident_entries(
                            prefix,
                            v as nat,
                            both,
                        )[j]);
                        lemma_incident_prefix(edges@, k + 1, v as nat, both);
                        lemma_incident_prefix(edges@, k as int, v as nat, both);
                        assert(edges@.take(k + 1) == next_prefix);
                        if v < from {
                            assert(row_ptr@[v + 1] <= row_ptr@[from as int]);
                        } else if v > from {
                            assert(row_ptr@[from as int + 1] <= row_ptr@[v]);
                        }
                        if v < to {
                            assert(row_ptr@[v + 1] <= row_ptr@[to as int]);
                        } else if v > to {
                            assert(row_ptr@[to as int + 1] <= row_ptr@[v]);
                        }
                        assert(row_ptr@[v + 1] == degree_prefix_sum(edges@, (v + 1) as nat, both));
                    }
                }
            }
            k = k + 1;
        }
        assert(edges@.take(m as int) =~= edges@);

        proof {
            assert forall|q: int|
                #![trigger col_idx@[q]]
                #![trigger origin@[q]]
                0 <= q < total implies col_idx@[q] < n && origin@[q] < m by {
                let v = lemma_segment_of(row_ptr@, q, n as int);
                lemma_incident_entries_below(edges@, v as nat, n as nat, both);
                assert(row_ptr@[v + 1] == degree_prefix_sum(edges@, (v + 1) as nat, both));
                let j = q - row_ptr@[v];
                assert(j < incident_entries(edges@.take(k as int), v as nat, both).len());
                let e = incident_entries(edges@.take(k as int), v as nat, both)[j];
                assert(row_ptr@[v] + j == q);
                assert(col_idx@[q] == e.0);
                assert(origin@[q] < m);
                assert(incident_entries(edges@, v as nat, both)[j].0 < n);
            }
        }
        // Weights, parallel to the neighbour indices.
        let mut weights: Vec<W> = Vec::new();
        let mut p: usize = 0;
        while p < total
            invariant
                p <= total,
                origin@.len() == total,
                m == edges@.len(),
                forall|q: int| 0 <= q < total ==> #[trigger] origin@[q] < m,
                weights@.len() == p,
                forall|q: int| 0 <= q < p ==> #[trigger] weights@[q] == edges@[origin@[q] as int].2,
            decreases total - p,
        {
            proof {
                assert(origin@[p as int] < m);
            }
            weights.push(edges[origin[p]].2);
            p = p + 1;
        }
        let g = CsrGraph { row_ptr, col_idx, weights };
        proof {
            assert forall|v: int| 0 <= v < n implies #[trigger] g.entries()[v] == incident_entries(
                edges@,
                v as nat,
                both,
            ) by {
                assert(g.entries()[v] =~= incident_entries(edges@, v as nat, both));
            }
            g.lemma_built_adjacency(edges@, both);
            if both {
                lemma_symmetric_is_undirected(g.adjacency());
            }
        }
        g
    }

    proof fn lemma_built_adjacency(self, edges: Seq<(u32, u32, W)>, both: bool)
        requires
            self.well_formed(),
            endpoints_below(edges, self.spec_node_count()),
            forall|v: int|
                0 <= v < self.spec_node_count() ==> #[trigger] self.entries()[v] == incident_entries(
                    edges,
                    v as nat,
                    both,
                ),
        ensures
            both ==> symmetric_adjacency(self.adjacency()),
            adjacency_size(self.adjacency()) == directed_entry_count(edges, both),
    {
        let adj = self.adjacency();
        if both {
            assert forall|u: nat, v: nat| u < adj.len() && v < adj.len() implies #[trigger] occurrences(
                adj[u as int],
                v,
            ) == #[trigger] occurrences(adj[v as int], u) by {
                lemma_occurrences_indices(self.entries()[u as int], v);
                lemma_occurrences_indices(self.entries()[v as int], u);
                lemma_incident_symmetric(edges, u, v);
            }
        }
        self.lemma_size_prefix(self.spec_node_count());
        assert(adj.take(adj.len() as int) =~= adj);
        assert forall|i: nat| i <= self.spec_node_count() implies #[trigger] degree_prefix_sum(edges, i, both)
            == self.row_ptr@[i as int] by {
            self.lemma_prefix_matches(edges, i, both);
        }
        lemma_degree_prefix_total(edges, self.spec_node_count(), both);
    }

    proof fn lemma_prefix_matches(self, edges: Seq<(u32, u32, W)>, i: nat, both: bool)
        requires
            self.well_formed(),
            i <= self.spec_node_count(),
            forall|v: int|
                0 <= v < self.spec_node_count() ==> #[trigger] self.entries()[v] == incident_entries(
                    edges,
                    v as nat,
                    both,
                ),
        ensures
            degree_prefix_sum(edges, i, both) == self.row_ptr@[i as int],
        decreases i,
    {
        if i > 0 {
            self.lemma_prefix_matches(edges, (i - 1) as nat, both);
            assert(self.row_ptr@[i - 1] <= self.row_ptr@[i as int]);
            assert(self.entries()[i - 1].len() == self.row_ptr@[i as int] - self.row_ptr@[i - 1]);
        }
    }
}

impl<W: Copy> GraphView for CsrGraph<W> {
    type Weight = W;

    open spec fn adjacency(&self) -> Seq<Seq<nat>> {
        self.entries().map_values(|s: Seq<(u32, W)>| neighbour_indices(s))
    }

    open spec fn weight_between(&self, from: nat, to: nat) -> Option<W> {
        first_weight(self.entries()[from as int], to)
    }

    fn node_count(&self) -> (n: usize) {
        proof {
            use_type_invariant(self);
            assert forall|v: int, k: int|
                0 <= v < self.adjacency().len() && 0 <= k < self.adjacency()[v].len() implies #[trigger] self.adjacency()[v][k]
                < self.adjacency().len() by {
                assert(self.row_ptr@[v] <= self.row_ptr@[v + 1]);
                assert(self.row_ptr@[v + 1] <= self.row_ptr@[self.row_ptr@.len() - 1]);
                assert(self.col_idx@[self.row_ptr@[v] + k] < self.row_ptr@.len() - 1);
            }
        }
        self.row_ptr.len() - 1
    }

    fn edge_count(&self) -> (n: usize) {
        proof {
            use_type_invariant(self);
            self.lemma_size_prefix((self.row_ptr@.len() - 1) as nat);
            assert(self.adjacency().take(self.adjacency().len() as int) =~= self.adjacency());
        }
        self.col_idx.len()
    }

    fn neighbors(&self, node: NodeId) -> (r: Vec<NodeId>) {
        proof {
            use_type_invariant(self);
        }
        let idx = node.index() - 1;
        let start = self.row_ptr[idx] as usize;
        let end = self.row_ptr[idx + 1] as usize;
        proof {
            assert(self.row_ptr@[idx as int] <= self.row_ptr@[idx + 1]);
            assert(self.row_ptr@[idx + 1] <= self.row_ptr@[self.row_ptr@.len() - 1]);
        }
        let mut result: Vec<NodeId> = Vec::new();
        let mut i = start;
        while i < end
            invariant
                start <= i <= end,
                end <= self.col_idx@.len(),
                start == self.row_ptr@[idx as int],
                end == self.row_ptr@[idx + 1],
                idx + 1 < self.row_ptr@.len(),
                self.row_ptr@.len() - 1 <= u32::MAX,
                forall|k: int| 0 <= k < self.col_idx@.len() ==> #[trigger] self.col_idx@[k] < self.row_ptr@.len() - 1,
                result@.len() == i - start,
                forall|k: int|
                    0 <= k < result@.len() ==> #[trigger] result@[k].value() == self.col_idx@[start
                        + k] + 1,
            decreases end - i,
        {
            let x = self.col_idx[i];
            assert(self.col_idx@[i as int] < self.row_ptr@.len() - 1);
            match NodeId::new(x + 1) {
                Some(id) => result.push(id),
                None => {},
            }
            i = i + 1;
        }
        result
    }

    fn edge_weight(&self, from: NodeId, to: NodeId) -> (r: Option<W>) {
        proof {
            use_type_invariant(self);
        }
        let idx = from.index() - 1;
        let start = self.row_ptr[idx] as usize;
        let end = self.row_ptr[idx + 1] as usize;
        let to_0based = to.index() - 1;
        proof {
            assert(self.row_ptr@[idx as int] <= self.row_ptr@[idx + 1]);
            assert(self.row_ptr@[idx + 1] <= self.row_ptr@[self.row_ptr@.len() - 1]);
        }
        let ghost s = self.entries()[idx as int];
        let mut i = start;
        while i < end
            invariant
                start <= i <= end,
                end <= self.col_idx@.len(),
                self.col_idx@.len() == self.weights@.len(),
                start == self.row_ptr@[idx as int],
                end == self.row_ptr@[idx + 1],
                idx + 1 < self.row_ptr@.len(),
                s == self.entries()[idx as int],
                to_0based < u32::MAX,
                idx == from.value() - 1,
                to_0based == to.value() - 1,
                forall|j: int| 0 <= j < i - start ==> (#[trigger] s[j]).0 != to_0based,
            decreases end - i,
        {
            assert(s[i - start] == (self.col_idx@[i as int], self.weights@[i as int]));
            if self.col_idx[i] == to_0based as u32 {
                proof {
                    assert(self.adjacency()[idx as int][i - start] == to_0based as nat);
                    lemma_first_weight_found(s, to_0based as nat, i - start);
                    assert(idx == from.value() - 1);
                    assert(to_0based == to.value() - 1);
                    assert(s == self.entries()[(from.value() - 1) as nat as int]);
                    assert(self.weight_between((from.value() - 1) as nat, (to.value() - 1) as nat) == Some(s[i - start].1));
                }
                return Some(self.weights[i]);
            }
            i = i + 1;
        }
        proof {
            lemma_first_weight_absent(s, to_0based as nat);
            assert forall|j: int| 0 <= j < self.adjacency()[idx as int].len() implies self.adjacency()[idx as int][j]
                != to_0based as nat by {
                assert(s[j].0 != to_0based);
            }
        }
        None
    }
}

impl<W: Copy> CsrGraph<W> {
    proof fn lemma_size_prefix(self, i: nat)
        requires
            self.well_formed(),
            i <= self.spec_node_count(),
        ensures
            adjacency_size(self.adjacency().take(i as int)) == self.row_ptr@[i as int],
        decreases i,
    {
        if i > 0 {
            self.lemma_size_prefix((i - 1) as nat);
            assert(self.adjacency().take(i as int).drop_last() =~= self.adjacency().take(
                (i - 1) as int,
            ));
            assert(self.row_ptr@[i - 1] <= self.row_ptr@[i as int]);
            assert(self.adjacency()[i - 1].len() == self.row_ptr@[i as int] - self.row_ptr@[i - 1]);
        }
    }
}

impl<W: Copy> CsrGraph<W> {
    /// Whether a graph of `node_count` nodes can be built from `edges`, with
    /// every edge stored in both directions (`both`, as
    /// [`CsrGraph::from_edges`] does) or only from source to target: every
    /// endpoint is a node of the graph, and the adjacency entries and the
    /// nodes can be counted in a `u32`.
    pub fn buildable(edges: &[(u32, u32, W)], node_count: usize, both: bool) -> (r: bool)
        ensures
            r == (endpoints_below(edges@, node_count as nat) && directed_entry_count(edges@, both)
                <= u32::MAX && node_count <= u32::MAX && node_count < usize::MAX),
    {
        if node_count > u32::MAX as usize || node_count == usize::MAX {
            return false;
        }
        let mut count: u64 = 0;
        let m = edges.len();
        let mut k: usize = 0;
        while k < m
            invariant
                k <= m,
                m == edges@.len(),
                count == directed_entry_count(edges@.take(k as int), both),
                count <= u32::MAX,
                endpoints_below(edges@.take(k as int), node_count as nat),
            decreases m - k,
        {
            let (from, to, _) = edges[k];
            assert(edges@.take(k + 1).drop_last() =~= edges@.take(k as int));
            if from as usize >= node_count || to as usize >= node_count {
                proof {
                    assert(!(edges@[k as int].0 < node_count && edges@[k as int].1 < node_count));
                }
                return false;
            }
            count = count + if !both || from == to {
                1
            } else {
                2
            };
            if count > u32::MAX as u64 {
                proof {
                    lemma_entry_count_prefix(edges@, k + 1, both);
                }
                return false;
            }
            proof {
                assert forall|i: int| 0 <= i < k + 1 implies #[trigger] edges@.take(k + 1)[i].0 < node_count
                    && edges@.take(k + 1)[i].1 < node_count by {
                    if i < k {
                        assert(edges@.take(k + 1)[i] == edges@.take(k as int)[i]);
                    }
                }
            }
            k = k + 1;
        }
        assert(edges@.take(m as int) =~= edges@);
        true
    }
}

proof fn lemma_entry_count_prefix<W>(edges: Seq<(u32, u32, W)>, k: int, both: bool)
    requires
        0 <= k <= edges.len(),
    ensures
        directed_entry_count(edges.take(k), both) <= directed_entry_count(edges, both),
    decreases edges.len() - k,
{
    if k < edges.len() {
        lemma_entry_count_prefix(edges.drop_last(), k, both);
        assert(edges.drop_last().take(k) =~= edges.take(k));
    } else {
        assert(edges.take(k) =~= edges);
    }
}

impl<W> Sealed for CsrGraph<W> {

}

impl<W: Copy> MultilayerView for CsrGraph<W> {

}

} // verus!
