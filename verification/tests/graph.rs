use communal::builder::GraphBuilder;
use communal::csr::CsrGraph;
use communal::error::GraphError;
use communal::graph_view::GraphView;
use communal::id::{CommunityId, NodeId};
use communal::io::serialize::graph_entries;
use communal::traversal::{bfs, dfs};

fn node(i: u32) -> NodeId {
    NodeId::new(i).unwrap()
}

fn ids(nodes: &[NodeId]) -> Vec<u32> {
    nodes.iter().map(|n| n.raw()).collect()
}

fn sample_graph() -> CsrGraph<f64> {
    CsrGraph::from_edges(&[(0, 1, 1.0), (1, 2, 2.0), (2, 2, 3.0)], 3)
}

#[test]
fn node_id_rejects_zero() {
    assert!(NodeId::new(0).is_none());
    assert!(CommunityId::new(0).is_none());
}

#[test]
fn node_id_keeps_its_value() {
    let n = node(7);
    assert_eq!(n.index(), 7);
    assert_eq!(n.raw(), 7);
    assert_eq!(CommunityId::new(9).unwrap().index(), 9);
    assert_eq!(NodeId::new(u32::MAX).unwrap().index(), u32::MAX as usize);
}

#[test]
fn csr_counts_nodes_and_entries() {
    let g = sample_graph();
    assert_eq!(g.node_count(), 3);
    // Two entries for each ordinary edge, one for the self-loop.
    assert_eq!(g.edge_count(), 5);
}

#[test]
fn csr_lists_neighbours_in_edge_order() {
    let g = sample_graph();
    assert_eq!(ids(&g.neighbors(node(1))), vec![2]);
    assert_eq!(ids(&g.neighbors(node(2))), vec![1, 3]);
    assert_eq!(ids(&g.neighbors(node(3))), vec![2, 3]);
}

#[test]
fn csr_edge_weights() {
    let g = sample_graph();
    assert_eq!(g.edge_weight(node(2), node(3)), Some(2.0));
    assert_eq!(g.edge_weight(node(3), node(2)), Some(2.0));
    assert_eq!(g.edge_weight(node(3), node(3)), Some(3.0));
    assert_eq!(g.edge_weight(node(1), node(3)), None);
    assert!(g.has_edge(node(1), node(2)));
    assert!(!g.has_edge(node(1), node(1)));
}

#[test]
fn csr_degrees() {
    let g = sample_graph();
    assert_eq!(g.degree(node(1)), 1);
    assert_eq!(g.degree(node(2)), 2);
    assert_eq!(g.neighbor_count(node(3)), 2);
}

#[test]
fn csr_first_parallel_edge_weight_wins() {
    let g = CsrGraph::from_edges(&[(0, 1, 4.0), (1, 0, 6.0)], 2);
    assert_eq!(ids(&g.neighbors(node(1))), vec![2, 2]);
    assert_eq!(g.edge_weight(node(1), node(2)), Some(4.0));
    assert_eq!(g.edge_weight(node(2), node(1)), Some(4.0));
}

#[test]
fn csr_is_symmetric() {
    let g = CsrGraph::from_edges(
        &[(0, 1, 1.0), (0, 2, 1.0), (1, 0, 1.0), (3, 3, 1.0), (2, 3, 1.0)],
        5,
    );
    for u in 1..=5u32 {
        for v in 1..=5u32 {
            let uv = g.neighbors(node(u)).iter().filter(|n| n.raw() == v).count();
            let vu = g.neighbors(node(v)).iter().filter(|n| n.raw() == u).count();
            assert_eq!(uv, vu, "entries between {u} and {v}");
        }
    }
}

#[test]
fn csr_empty_graph() {
    let g: CsrGraph<f64> = CsrGraph::from_edges(&[], 0);
    assert_eq!(g.node_count(), 0);
    assert_eq!(g.edge_count(), 0);
}

#[test]
fn csr_isolated_nodes() {
    let g: CsrGraph<f64> = CsrGraph::from_edges(&[], 4);
    assert_eq!(g.node_count(), 4);
    assert!(g.neighbors(node(4)).is_empty());
}

#[test]
fn csr_clone_keeps_structure() {
    let g = sample_graph();
    let h = g.clone();
    assert_eq!(ids(&h.neighbors(node(2))), vec![1, 3]);
    assert_eq!(h.edge_weight(node(3), node(3)), Some(3.0));
}

#[test]
fn csr_buildable_checks_endpoints() {
    assert!(CsrGraph::buildable(&[(0, 1, 1.0), (1, 2, 1.0)], 3, true));
    assert!(!CsrGraph::buildable(&[(0, 1, 1.0), (1, 3, 1.0)], 3, true));
    assert!(!CsrGraph::buildable(&[(5u32, 0u32, 1.0f64)], 5, false));
    assert!(CsrGraph::<f64>::buildable(&[], 0, true));
    assert!(CsrGraph::buildable(&[(0, 1, 1.0)], 2, false));
}

#[test]
fn builder_defaults() {
    let b = GraphBuilder::new();
    assert!(b.validates());
    assert!(b.is_undirected());
    let d = GraphBuilder::default();
    assert!(d.validates());
    assert!(d.is_undirected());
}

#[test]
fn builder_setters() {
    let b = GraphBuilder::new().validate(false).undirected(false);
    assert!(!b.validates());
    assert!(!b.is_undirected());
    let b = b.validate(true);
    assert!(b.validates());
    assert!(!b.is_undirected());
}

#[test]
fn builder_reports_negative_edge() {
    let edges = [(0, 1, 1.0), (1, 2, -0.5), (2, 0, -1.0)];
    let r = GraphBuilder::new().from_edges(&edges, 3, Some(1));
    match r {
        Err(GraphError::NegativeWeight { from, to, weight }) => {
            assert_eq!((from, to), (1, 2));
            assert_eq!(weight, -0.5);
        }
        other => panic!("expected a negative weight error, got {other:?}"),
    }
}

#[test]
fn builder_without_validation_builds() {
    let edges = [(0, 1, 1.0), (1, 2, -0.5)];
    let g = GraphBuilder::new().validate(false).from_edges(&edges, 3, Some(1)).unwrap();
    assert_eq!(g.edge_count(), 4);
    assert_eq!(g.edge_weight(node(2), node(3)), Some(-0.5));
}

#[test]
fn builder_builds_valid_edges() {
    let edges = vec![(0, 1, 1.0), (1, 2, 1.0)];
    let g = GraphBuilder::new().validate(true).undirected(true).from_edges(&edges, 3, None).unwrap();
    assert_eq!(g.node_count(), 3);
    assert_eq!(ids(&g.neighbors(node(2))), vec![1, 3]);
}

#[test]
fn bfs_visits_breadth_first() {
    let g = CsrGraph::from_edges(&[(0, 1, 1.0), (0, 2, 1.0), (1, 3, 1.0)], 5);
    assert_eq!(ids(&bfs(&g, node(1))), vec![1, 2, 3, 4]);
    assert_eq!(ids(&bfs(&g, node(4))), vec![4, 2, 1, 3]);
    assert_eq!(ids(&bfs(&g, node(5))), vec![5]);
}

#[test]
fn dfs_visits_depth_first() {
    let g = CsrGraph::from_edges(&[(0, 1, 1.0), (0, 2, 1.0), (1, 3, 1.0)], 5);
    assert_eq!(ids(&dfs(&g, node(1))), vec![1, 3, 2, 4]);
    assert_eq!(ids(&dfs(&g, node(4))), vec![4, 2, 1, 3]);
    assert_eq!(ids(&dfs(&g, node(5))), vec![5]);
}

#[test]
fn bfs_and_dfs_reach_the_same_nodes() {
    let g = CsrGraph::from_edges(
        &[(0, 1, 1.0), (1, 2, 1.0), (2, 0, 1.0), (2, 3, 1.0), (4, 5, 1.0)],
        6,
    );
    let mut a = ids(&bfs(&g, node(2)));
    let mut b = ids(&dfs(&g, node(2)));
    assert_eq!(a.len(), b.len());
    a.sort();
    b.sort();
    assert_eq!(a, vec![1, 2, 3, 4]);
    assert_eq!(a, b);
}

#[test]
fn traversal_handles_self_loops_and_parallel_edges() {
    let g = CsrGraph::from_edges(&[(0, 0, 1.0), (0, 1, 1.0), (0, 1, 2.0)], 2);
    assert_eq!(ids(&bfs(&g, node(1))), vec![1, 2]);
    assert_eq!(ids(&dfs(&g, node(2))), vec![2, 1]);
}

#[test]
fn graph_entries_list_every_directed_entry() {
    let g = sample_graph();
    assert_eq!(
        graph_entries(&g),
        vec![(0, 1, 1.0), (1, 0, 1.0), (1, 2, 2.0), (2, 1, 2.0), (2, 2, 3.0)]
    );
    let empty: CsrGraph<f64> = CsrGraph::from_edges(&[], 2);
    assert!(graph_entries(&empty).is_empty());
}

#[test]
fn graph_entries_count_matches_edge_count() {
    let g = CsrGraph::from_edges(&[(0, 1, 1.0), (1, 1, 2.0), (2, 0, 0.5), (0, 1, 3.0)], 4);
    assert_eq!(graph_entries(&g).len(), g.edge_count());
    assert_eq!(g.edge_count(), 7);
}

#[test]
fn directed_builder_stores_one_direction() {
    let g = GraphBuilder::new().undirected(false).from_edges(&[(0, 1, 1.0)], 2, None).unwrap();
    assert!(g.has_edge(node(1), node(2)));
    assert!(!g.has_edge(node(2), node(1)));
    assert_eq!(g.edge_count(), 1);
    let h = GraphBuilder::new()
        .undirected(false)
        .from_edges(&[(0, 1, 1.0), (1, 1, 2.0), (2, 0, 3.0)], 3, None)
        .unwrap();
    assert_eq!(h.edge_count(), 3);
    assert_eq!(ids(&h.neighbors(node(1))), vec![2]);
    assert_eq!(ids(&h.neighbors(node(2))), vec![2]);
    assert_eq!(ids(&h.neighbors(node(3))), vec![1]);
    assert_eq!(h.edge_weight(node(3), node(1)), Some(3.0));
    assert_eq!(h.edge_weight(node(1), node(3)), None);
}

#[test]
fn undirected_builder_stores_both_directions() {
    let g = GraphBuilder::new().undirected(true).from_edges(&[(0, 1, 1.0)], 2, None).unwrap();
    assert!(g.has_edge(node(1), node(2)));
    assert!(g.has_edge(node(2), node(1)));
    assert_eq!(g.edge_count(), 2);
}
