use std::collections::HashMap;

use communal::csr::CsrGraph;
use communal::error::AlgorithmError;
use communal::id::NodeId;
use communal::leiden::aggregation::{build_community_mapping, dense_membership};
use communal::leiden::config::check_iteration_settings;
use communal::leiden::connectivity::{move_allowed, move_node};
use communal::leiden::convergence::{ConvergenceCounters, IterationOutcome};
use communal::leiden::local_moving::{
    community_connected, community_sizes, move_member, would_remain_connected, CacheStatistics,
};
use communal::leiden::refinement::{
    community_size_map, count_members, refined_size_within_parent, snapshot_parent_and_reset,
    verify_communities_connected,
};
use communal::step::StepEvent;

fn node(i: u32) -> NodeId {
    NodeId::new(i).unwrap()
}

/// Path 0 - 1 - 2, and an isolated node 3.
fn path_and_isolated() -> CsrGraph<f64> {
    CsrGraph::from_edges(&[(0, 1, 1.0), (1, 2, 1.0)], 4)
}

fn quiet() -> IterationOutcome {
    IterationOutcome { window_stable: false, below_threshold: false, small_improvement: false }
}

#[test]
fn community_connected_detects_disconnected_member() {
    let g = path_and_isolated();
    assert!(!community_connected(&g, &[5, 5, 5, 5], 5, None));
    assert!(community_connected(&g, &[5, 5, 5, 7], 5, None));
    assert!(community_connected(&g, &[5, 5, 5, 7], 7, None));
}

#[test]
fn community_connected_skips_a_node() {
    let g = path_and_isolated();
    // Without node 1 the path falls apart.
    assert!(!community_connected(&g, &[5, 5, 5, 7], 5, Some(1)));
    // Without node 2 the rest of the path stays connected.
    assert!(community_connected(&g, &[5, 5, 5, 7], 5, Some(2)));
    // Without the isolated node, community 5 is connected.
    assert!(community_connected(&g, &[5, 5, 5, 5], 5, Some(3)));
}

#[test]
fn empty_and_single_communities_are_connected() {
    let g = path_and_isolated();
    assert!(community_connected(&g, &[1, 2, 3, 4], 9, None));
    assert!(community_connected(&g, &[1, 2, 3, 4], 4, None));
    assert!(community_connected(&g, &[], 1, None));
}

#[test]
fn would_remain_connected_after_removal() {
    let g = path_and_isolated();
    assert!(!would_remain_connected(&g, &[5, 5, 5, 7], node(2), 5));
    assert!(would_remain_connected(&g, &[5, 5, 5, 7], node(3), 5));
    assert!(would_remain_connected(&g, &[5, 5, 5, 7], node(1), 5));
}

#[test]
fn verify_communities_connected_checks_every_community() {
    let g = path_and_isolated();
    assert!(verify_communities_connected(&g, &[5, 5, 5, 7]));
    assert!(!verify_communities_connected(&g, &[5, 5, 7, 5]));
    assert!(verify_communities_connected(&g, &[1, 2, 3, 4]));
    assert!(verify_communities_connected(&g, &[]));
}

#[test]
fn snapshot_returns_parent_and_resets_to_singletons() {
    let mut membership = vec![3, 3, 9];
    let parent = snapshot_parent_and_reset(&mut membership);
    assert_eq!(parent, vec![3, 3, 9]);
    assert_eq!(membership, vec![1, 2, 3]);
}

#[test]
fn singleton_reset_gives_connected_communities() {
    let g = path_and_isolated();
    let mut membership = vec![5, 5, 7, 5];
    assert!(!verify_communities_connected(&g, &membership));
    let _ = snapshot_parent_and_reset(&mut membership);
    assert!(verify_communities_connected(&g, &membership));
}

#[test]
fn count_members_counts() {
    assert_eq!(count_members(&[3, 3, 9], 3), 2);
    assert_eq!(count_members(&[3, 3, 9], 9), 1);
    assert_eq!(count_members(&[3, 3, 9], 4), 0);
    assert_eq!(count_members(&[], 0), 0);
}

#[test]
fn community_size_map_counts_each_community() {
    let sizes = community_size_map(&[3, 3, 9]);
    let mut expected = HashMap::new();
    expected.insert(3u32, 2usize);
    expected.insert(9u32, 1usize);
    assert_eq!(sizes, expected);
    assert!(community_size_map(&[]).is_empty());
}

#[test]
fn community_sizes_by_id() {
    assert_eq!(community_sizes(&[2, 0, 2]), vec![1, 0, 2]);
    assert_eq!(community_sizes(&[]), vec![0]);
    assert_eq!(community_sizes(&[0, 0]), vec![2]);
}

#[test]
fn refined_size_within_parent_cases() {
    assert_eq!(refined_size_within_parent(&[1, 1, 2], &[4, 4, 4], 1, 4), Some(2));
    assert_eq!(refined_size_within_parent(&[1, 1, 2], &[4, 5, 4], 1, 4), None);
    assert_eq!(refined_size_within_parent(&[1, 1, 2], &[4, 5, 4], 7, 4), Some(0));
    // A node beyond the parent snapshot has no parent community.
    assert_eq!(refined_size_within_parent(&[1, 1], &[4], 1, 4), None);
}

#[test]
fn build_community_mapping_groups_nodes() {
    let mapping = build_community_mapping(&[2, 0, 2]);
    let mut expected = HashMap::new();
    expected.insert(2u32, vec![0u32, 2]);
    expected.insert(0u32, vec![1u32]);
    assert_eq!(mapping, expected);
    assert!(build_community_mapping(&[]).is_empty());
}

#[test]
fn mapping_lists_match_sizes() {
    let membership = [4, 1, 4, 4, 0, 1];
    let mapping = build_community_mapping(&membership);
    let sizes = community_size_map(&membership);
    assert_eq!(mapping.len(), sizes.len());
    for (c, nodes) in &mapping {
        assert_eq!(nodes.len(), sizes[c]);
        for &i in nodes {
            assert_eq!(membership[i as usize], *c);
        }
        assert!(nodes.windows(2).all(|w| w[0] < w[1]));
    }
}

#[test]
fn move_member_updates_sizes() {
    let mut sizes = vec![0, 2, 1];
    move_member(&mut sizes, 1, 4);
    assert_eq!(sizes, vec![0, 1, 1, 0, 1]);
    move_member(&mut sizes, 2, 2);
    assert_eq!(sizes, vec![0, 1, 1, 0, 1]);
    move_member(&mut sizes, 4, 0);
    assert_eq!(sizes, vec![1, 1, 1, 0, 0]);
}

#[test]
fn moves_keep_sizes_matching_membership() {
    let mut membership = vec![2, 0, 2, 1];
    let mut sizes = community_sizes(&membership);
    for (i, to) in [(0usize, 1u32), (3, 5), (1, 5), (2, 0)] {
        move_member(&mut sizes, membership[i], to);
        membership[i] = to;
        let fresh = community_sizes(&membership);
        for (c, &n) in sizes.iter().enumerate() {
            let expected = fresh.get(c).copied().unwrap_or(0);
            assert_eq!(n, expected, "community {c}");
        }
    }
}

#[test]
fn cache_statistics_start_at_zero() {
    for s in [CacheStatistics::new(), CacheStatistics::default()] {
        assert_eq!(s.hits, 0);
        assert_eq!(s.misses, 0);
        assert_eq!(s.invalidations, 0);
        assert_eq!(s.full_recomputes, 0);
        assert_eq!(s.incremental_updates, 0);
    }
}

#[test]
fn iteration_settings() {
    assert!(check_iteration_settings(10, 100).is_ok());
    match check_iteration_settings(0, 100) {
        Err(AlgorithmError::InvalidConfiguration { reason }) => {
            assert_eq!(reason, "max_iterations must be >= 1, got 0")
        }
        other => panic!("unexpected {other:?}"),
    }
    match check_iteration_settings(0, 0) {
        Err(AlgorithmError::InvalidConfiguration { reason }) => {
            assert_eq!(reason, "max_iterations must be >= 1, got 0")
        }
        other => panic!("unexpected {other:?}"),
    }
    match check_iteration_settings(3, 0) {
        Err(AlgorithmError::InvalidConfiguration { reason }) => {
            assert_eq!(reason, "recompute_interval must be >= 1, got 0")
        }
        other => panic!("unexpected {other:?}"),
    }
}

#[test]
fn convergence_counters_start_empty() {
    let c = ConvergenceCounters::new();
    assert_eq!(c.total_iterations, 0);
    assert_eq!(c.iterations_below_threshold, 0);
    assert_eq!(c.consecutive_zero_movement, 0);
    assert_eq!(c.nodes_moved, 0);
    assert!(!c.converged);
    assert!(!c.has_converged());
    assert_eq!(ConvergenceCounters::default(), c);
}

#[test]
fn convergence_counters_count_iterations() {
    let mut c = ConvergenceCounters::new();
    let events = c.record(0.25, 3, quiet());
    assert!(events.is_empty());
    assert_eq!(c.total_iterations, 1);
    assert_eq!(c.nodes_moved, 3);
    assert!(!c.has_converged());
    let events = c.record(0.5, 0, quiet());
    assert!(events.is_empty());
    assert_eq!(c.consecutive_zero_movement, 1);
    assert!(c.has_converged());
    let _ = c.record(0.5, 2, quiet());
    assert_eq!(c.consecutive_zero_movement, 0);
    assert!(!c.has_converged());
}

#[test]
fn convergence_events_in_order() {
    let mut c = ConvergenceCounters::new();
    let _ = c.record(0.1, 4, quiet());
    let outcome =
        IterationOutcome { window_stable: true, below_threshold: true, small_improvement: true };
    let events = c.record(0.75, 4, outcome);
    assert_eq!(events.len(), 3);
    assert!(matches!(
        events[0],
        StepEvent::ConvergenceDetected { total_iterations: 2, final_quality } if final_quality == 0.75
    ));
    assert!(matches!(
        events[1],
        StepEvent::ConvergencePlateau { iterations_below_threshold: 1 }
    ));
    assert!(matches!(
        events[2],
        StepEvent::ConvergenceDetected { total_iterations: 2, final_quality } if final_quality == 0.75
    ));
    assert!(c.converged);
    assert!(c.has_converged());
}

#[test]
fn no_plateau_event_on_first_iteration() {
    let mut c = ConvergenceCounters::new();
    let outcome =
        IterationOutcome { window_stable: false, below_threshold: false, small_improvement: true };
    assert!(c.record(1.0, 1, outcome).is_empty());
    let events = c.record(1.0, 1, outcome);
    assert_eq!(events.len(), 1);
    assert!(matches!(
        events[0],
        StepEvent::ConvergencePlateau { iterations_below_threshold: 0 }
    ));
}

#[test]
fn below_threshold_iterations_accumulate() {
    let mut c = ConvergenceCounters::new();
    let below =
        IterationOutcome { window_stable: false, below_threshold: true, small_improvement: false };
    let events = c.record(2.0, 5, below);
    assert_eq!(c.iterations_below_threshold, 1);
    assert!(c.has_converged());
    assert!(matches!(events.last(), Some(StepEvent::ConvergenceDetected { total_iterations: 1, .. })));
    let _ = c.record(2.0, 5, below);
    assert_eq!(c.iterations_below_threshold, 2);
    let _ = c.record(3.0, 5, quiet());
    assert_eq!(c.iterations_below_threshold, 0);
}

#[test]
fn set_converged_only_sets_flag() {
    let mut c = ConvergenceCounters::new();
    let _ = c.record(1.0, 2, quiet());
    let before = c;
    c.set_converged();
    assert!(c.converged);
    assert_eq!(c.total_iterations, before.total_iterations);
    assert_eq!(c.nodes_moved, before.nodes_moved);
    assert!(c.has_converged());
}

#[test]
fn dense_membership_numbers_by_first_appearance() {
    assert_eq!(dense_membership(&[7, 3, 7, 9, 3]), (vec![0, 1, 0, 2, 1], 3));
    assert_eq!(dense_membership(&[]), (vec![], 0));
    assert_eq!(dense_membership(&[4, 4, 4]), (vec![0, 0, 0], 1));
}

#[test]
fn moving_into_a_neighbouring_community_keeps_communities_connected() {
    // Path 0 - 1 - 2 - 3 - 4.
    let g = CsrGraph::from_edges(&[(0, 1, 1.0), (1, 2, 1.0), (2, 3, 1.0), (3, 4, 1.0)], 5);
    let mut membership = vec![0, 0, 1, 1, 2];
    assert!(verify_communities_connected(&g, &membership));
    // Node 1 leaves {0, 1} (node 0 stays connected) for its neighbour 2's community.
    assert!(would_remain_connected(&g, &membership, node(2), 0));
    membership[1] = 1;
    assert!(verify_communities_connected(&g, &membership));
    // Node 4 is alone; it joins its neighbour 3's community.
    membership[4] = 1;
    assert!(verify_communities_connected(&g, &membership));
    // Moving node 2 out of the middle would break its community apart.
    assert!(!would_remain_connected(&g, &membership, node(3), 1));
}

fn refines(refined: &[u32], parent: &[u32]) -> bool {
    refined.len() == parent.len()
        && (0..refined.len()).all(|i| {
            (0..refined.len()).all(|j| refined[i] != refined[j] || parent[i] == parent[j])
        })
}

#[test]
fn refinement_moves_stay_inside_parent_communities() {
    let mut membership = vec![7, 7, 7, 8, 8];
    let parent = snapshot_parent_and_reset(&mut membership);
    assert!(refines(&membership, &parent));
    // Node 1 may join node 0's refined community: both lie in parent 7.
    assert_eq!(refined_size_within_parent(&membership, &parent, membership[0], parent[1]), Some(1));
    membership[1] = membership[0];
    assert!(refines(&membership, &parent));
    // Node 3's parent is 8, so community of node 0 (parent 7) is refused.
    assert_eq!(refined_size_within_parent(&membership, &parent, membership[0], parent[3]), None);
    // Node 4 may join node 3's refined community.
    assert_eq!(refined_size_within_parent(&membership, &parent, membership[3], parent[4]), Some(1));
    membership[4] = membership[3];
    assert!(refines(&membership, &parent));
    assert_eq!(membership, vec![1, 1, 3, 4, 4]);
}

#[test]
fn memberships_longer_than_the_graph() {
    // Two nodes joined by an edge; the membership also names a third node.
    let g = CsrGraph::from_edges(&[(0, 1, 1.0)], 2);
    // The search starts at node 0 and cannot reach node 2.
    assert!(!community_connected(&g, &[5, 5, 5], 5, None));
    assert!(community_connected(&g, &[5, 5, 7], 5, None));
    assert!(community_connected(&g, &[5, 6, 7], 7, None));
    assert!(!would_remain_connected(&g, &[5, 5, 5], node(1), 5));
    assert!(would_remain_connected(&g, &[5, 5, 5], node(3), 5));
    assert!(!verify_communities_connected(&g, &[5, 5, 5]));
    assert!(verify_communities_connected(&g, &[5, 5, 7]));
}

#[test]
fn move_allowed_needs_a_neighbour_and_a_connected_rest() {
    // Path 0 - 1 - 2 - 3.
    let g = CsrGraph::from_edges(&[(0, 1, 1.0), (1, 2, 1.0), (2, 3, 1.0)], 4);
    let membership = [0, 0, 1, 1];
    // Node 1 may join community 1: node 2 is its neighbour, node 0 stays connected.
    assert!(move_allowed(&g, &membership, node(2), 1));
    // Node 0 has no neighbour in community 1.
    assert!(!move_allowed(&g, &membership, node(1), 1));
    // Node 2 may leave {0, 1, 2} for its neighbour 3's community.
    let joined = [0, 0, 0, 1];
    assert!(move_allowed(&g, &joined, node(3), 1));
    // In the star 1 - {0, 2, 3}, node 1 holds {0, 1, 2} together.
    let star = CsrGraph::from_edges(&[(0, 1, 1.0), (1, 2, 1.0), (1, 3, 1.0)], 4);
    assert!(!move_allowed(&star, &joined, node(2), 1));
    let mut moved = membership;
    move_node(&g, &mut moved, node(2), 1);
    assert_eq!(moved, [0, 1, 1, 1]);
    assert!(verify_communities_connected(&g, &moved));
}
