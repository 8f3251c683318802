use vstd::prelude::*;

use crate::csr::{directed_entry_count, endpoints_below, incident_entries, CsrGraph};
use crate::error::GraphError;
use crate::graph_view::{adjacency_size, symmetric_adjacency, GraphView};
use crate::traversal::undirected;

verus! {

/// Validation is enabled and a negative edge was found among the edges.
pub open spec fn rejects_edge(validate: bool, first_negative: Option<usize>, edge_count: nat) -> bool {
    validate && first_negative is Some && first_negative->0 < edge_count
}

/// Builder for constructing graphs with configurable validation and direction.
///
/// Holds whether edge weights are validated (negative weights rejected) and
/// whether the graph is treated as undirected.
#[derive(Debug, Clone)]
pub struct GraphBuilder {
    validate: bool,
    undirected: bool,
}

impl GraphBuilder {
    /// Whether edge weights are validated before construction.
    pub closed spec fn spec_validate(&self) -> bool {
        self.validate
    }

    /// Whether the graph is treated as undirected.
    pub closed spec fn spec_undirected(&self) -> bool {
        self.undirected
    }

    /// Creates a new `GraphBuilder` with default settings: validation enabled
    /// and undirected graph construction.
    pub fn new() -> (b: Self)
        ensures
            b.spec_validate(),
            b.spec_undirected(),
    {
        GraphBuilder { validate: true, undirected: true }
    }

    /// Sets whether to validate edge weights before construction.
    ///
    /// When enabled (the default), negative weights make graph construction fail.
    pub fn validate(self, validate: bool) -> (b: Self)
        ensures
            b.spec_validate() == validate,
            b.spec_undirected() == self.spec_undirected(),
    {
        let mut b = self;
        b.validate = validate;
        b
    }

    /// Sets whether the graph should be treated as undirected.
    ///
    /// When enabled (the default), edges are added in both directions.
    pub fn undirected(self, undirected: bool) -> (b: Self)
        ensures
            b.spec_undirected() == undirected,
            b.spec_validate() == self.spec_validate(),
    {
        let mut b = self;
        b.undirected = undirected;
        b
    }

    /// Returns whether edge weights are validated before construction.
    pub fn validates(&self) -> (r: bool)
        ensures
            r == self.spec_validate(),
    {
        self.validate
    }

    /// Returns whether the graph is treated as undirected.
    pub fn is_undirected(&self) -> (r: bool)
        ensures
            r == self.spec_undirected(),
    {
        self.undirected
    }

    /// Constructs a [`CsrGraph`] from the given edge list.
    ///
    /// `first_negative` is the position of the first edge whose weight is
    /// negative, if there is one (weights are compared by the caller). With
    /// validation enabled, that edge is reported as
    /// [`GraphError::NegativeWeight`]. Otherwise the graph is built: every
    /// edge is stored from its source to its target and, when the builder is
    /// undirected, also from its target to its source (self-loops once), as
    /// [`CsrGraph::from_edges`] does.
    pub fn from_edges<W: Copy>(
        self,
        edges: &[(u32, u32, W)],
        node_count: usize,
        first_negative: Option<usize>,
    ) -> (r: Result<CsrGraph<W>, GraphError<W>>)
        requires
            !(rejects_edge(self.spec_validate(), first_negative, edges@.len())) ==> {
                &&& endpoints_below(edges@, node_count as nat)
                &&& directed_entry_count(edges@, self.spec_undirected()) <= u32::MAX
                &&& node_count <= u32::MAX
                &&& node_count < usize::MAX
            },
        ensures
            rejects_edge(self.spec_validate(), first_negative, edges@.len()) ==> r
                == Err::<CsrGraph<W>, GraphError<W>>(
                GraphError::NegativeWeight {
                    from: edges@[first_negative->0 as int].0,
                    to: edges@[first_negative->0 as int].1,
                    weight: edges@[first_negative->0 as int].2,
                },
            ),
            !(rejects_edge(self.spec_validate(), first_negative, edges@.len())) ==> (
            r matches Ok(g) && g.entries().len() == node_count && (forall|v: int|
                0 <= v < node_count ==> #[trigger] g.entries()[v] == incident_entries(
                    edges@,
                    v as nat,
                    self.spec_undirected(),
                )) && adjacency_size(g.adjacency()) == directed_entry_count(
                edges@,
                self.spec_undirected(),
            ) && (self.spec_undirected() ==> symmetric_adjacency(g.adjacency()) && undirected(
                g.adjacency(),
            ))),
    {
        if self.validate {
            if let Some(k) = first_negative {
                if k < edges.len() {
                    let (from, to, weight) = edges[k];
                    return Err(GraphError::NegativeWeight { from, to, weight });
                }
            }
        }
        Ok(CsrGraph::build(edges, node_count, self.undirected))
    }
}

impl Default for GraphBuilder {
    fn default() -> (b: Self)
        ensures
            b.spec_validate(),
            b.spec_undirected(),
    {
        Self::new()
    }
}

} // verus!
