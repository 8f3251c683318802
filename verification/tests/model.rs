use communal::csr::CsrGraph;
use communal::detector::{baseline_partition, identity_membership};
use communal::dynamic::error::DynamicOperationError;
use communal::dynamic::hierarchy::HierarchicalTree;
use communal::dynamic::update::IncrementalUpdate;
use communal::error::PartitionError;
use communal::fluid::{Fluid, FluidConfig};
use communal::id::{CommunityId, NodeId};
use communal::louvain::{Louvain, LouvainConfig};
use communal::lpa::{Lpa, LpaConfig, LpaUpdateMode};
use communal::partition::Partition;
use communal::quality::QualityFunction;
use communal::step::{AlgorithmPhase, StepEvent};
use communal::stepping::iterator::StepIterator;
use communal::subscribe::Subscription;
use communal::tie_breaking::break_tie;

fn node(i: u32) -> NodeId {
    NodeId::new(i).unwrap()
}

#[test]
fn partition_accessors() {
    let p = Partition::new(vec![4, 4, 1], 0.25, 7, false);
    assert_eq!(p.membership_vec(), &[4, 4, 1]);
    assert_eq!(p.quality_score(), 0.25);
    assert_eq!(p.iterations(), 7);
    assert!(!p.converged());
    assert_eq!(p.iterations, 7);
}

#[test]
fn partition_community_of_uses_one_based_nodes() {
    let p = Partition::new(vec![4, 4, 1], 0.0, 0, true);
    assert_eq!(p.community_of(node(1)), Some(&4));
    assert_eq!(p.community_of(node(3)), Some(&1));
    assert_eq!(p.community_of(node(4)), None);
}

#[test]
fn partition_counts_distinct_communities() {
    assert_eq!(Partition::new(vec![4, 4, 1, 9, 1], 0.0, 0, true).community_count(), 3);
    assert_eq!(Partition::new(vec![], 0.0, 0, true).community_count(), 0);
    assert_eq!(Partition::new(vec![0, 1, 2, 3], 0.0, 0, true).community_count(), 4);
}

#[test]
fn hierarchy_levels() {
    let fine = Partition::new(vec![0, 1, 2], 0.1, 1, true);
    let coarse = Partition::new(vec![0, 0, 1], 0.3, 2, true);
    let tree = HierarchicalTree::new(vec![fine, coarse]);
    assert_eq!(tree.level_count(), 2);
    assert_eq!(tree.levels().len(), 2);
    assert_eq!(tree.at_level(1).unwrap().membership_vec(), &[0, 0, 1]);
    match tree.at_level(2) {
        Err(PartitionError::InvalidLevel { level }) => assert_eq!(level, 2),
        other => panic!("unexpected {other:?}"),
    }
    let empty: HierarchicalTree<f64> = HierarchicalTree::new(vec![]);
    assert!(matches!(empty.at_level(0), Err(PartitionError::InvalidLevel { level: 0 })));
}

#[test]
fn dynamic_errors_become_partition_errors() {
    let e: PartitionError = DynamicOperationError::InvalidLevel { level: 5 }.into();
    assert!(matches!(e, PartitionError::InvalidLevel { level: 5 }));
    let e = PartitionError::from(DynamicOperationError::ComplexityExceeded);
    assert!(matches!(e, PartitionError::InvalidNodeId { index: 0 }));
    let e = PartitionError::from(DynamicOperationError::SplitFailure { reason: "x".to_string() });
    assert!(matches!(e, PartitionError::InvalidNodeId { index: 0 }));
    let e = PartitionError::from(DynamicOperationError::MutationError { reason: "y".to_string() });
    assert!(matches!(e, PartitionError::InvalidNodeId { index: 0 }));
}

#[test]
fn incremental_update_leaves_partition_unchanged() {
    let g = CsrGraph::from_edges(&[(0, 1, 1.0)], 2);
    let mut p = Partition::new(vec![0, 1], 0.5, 3, true);
    let u = IncrementalUpdate::new();
    assert!(u.apply_local(&g, &mut p, &[1]).is_ok());
    assert_eq!(p.membership_vec(), &[0, 1]);
    assert_eq!(p.quality_score(), 0.5);
    assert!(IncrementalUpdate::default().apply_local(&g, &mut p, &[]).is_ok());
}

#[test]
fn step_iterator_yields_in_order() {
    let events: Vec<StepEvent<f64>> = vec![
        StepEvent::LocalMovingStart { iteration: 0 },
        StepEvent::IterationBoundary { phase: AlgorithmPhase::Refinement, iteration: 0 },
        StepEvent::ConvergenceDetected { total_iterations: 1, final_quality: 0.5 },
    ];
    let mut it = StepIterator::new(events);
    assert_eq!(it.position(), 0);
    assert!(it.has_next());
    assert!(matches!(it.next(), Some(StepEvent::LocalMovingStart { iteration: 0 })));
    assert!(matches!(
        it.next(),
        Some(StepEvent::IterationBoundary { phase: AlgorithmPhase::Refinement, iteration: 0 })
    ));
    assert_eq!(it.position(), 2);
    assert!(matches!(it.next(), Some(StepEvent::ConvergenceDetected { total_iterations: 1, .. })));
    assert!(!it.has_next());
    assert!(it.next().is_none());
    assert_eq!(it.position(), 3);
}

#[test]
fn step_events_carry_ids() {
    let e: StepEvent<f64> = StepEvent::CommunitySplit {
        from: CommunityId::new(3).unwrap(),
        into: vec![CommunityId::new(4).unwrap(), CommunityId::new(5).unwrap()],
    };
    match e.clone() {
        StepEvent::CommunitySplit { from, into } => {
            assert_eq!(from.index(), 3);
            assert_eq!(into.len(), 2);
        }
        _ => panic!("wrong variant"),
    }
}

#[test]
fn subscription_is_active() {
    assert!(Subscription::new().is_active());
    assert!(Subscription::default().is_active());
}

#[test]
fn configuration_defaults() {
    let l = LouvainConfig::default();
    assert_eq!(l.max_iterations, 1000);
    assert_eq!(l.seed, None);
    let p = LpaConfig::default();
    assert_eq!(p.update_mode, LpaUpdateMode::Asynchronous);
    assert_eq!(p.max_iterations, 1000);
    assert_eq!(p.seed, None);
    let f = FluidConfig::default();
    assert_eq!(f.target_communities, 2);
    assert_eq!(f.max_iterations, 1000);
    assert_eq!(f.seed, None);
}

#[test]
fn detectors_keep_their_configuration() {
    let l = Louvain::new(LouvainConfig { max_iterations: 5, seed: Some(1) });
    assert_eq!(l.config().max_iterations, 5);
    let p = Lpa::new(LpaConfig {
        update_mode: LpaUpdateMode::SemiSynchronous,
        max_iterations: 6,
        seed: None,
    });
    assert_eq!(p.config().update_mode, LpaUpdateMode::SemiSynchronous);
    let f = Fluid::new(FluidConfig { target_communities: 3, max_iterations: 7, seed: Some(2) });
    assert_eq!(f.config().target_communities, 3);
    assert_eq!(f.config().seed, Some(2));
}

#[test]
fn baseline_detectors_put_every_node_alone() {
    let g = CsrGraph::from_edges(&[(0, 1, 1.0), (1, 2, 1.0)], 4);
    for p in [
        Louvain::new(LouvainConfig::default()).detect(&g, 0.0),
        Lpa::new(LpaConfig::default()).detect(&g, 0.0),
        Fluid::new(FluidConfig::default()).detect(&g, 0.0),
        baseline_partition(&g, 0.0),
    ] {
        assert_eq!(p.membership_vec(), &[0, 1, 2, 3]);
        assert_eq!(p.quality_score(), 0.0);
        assert_eq!(p.iterations(), 0);
        assert!(p.converged());
        assert_eq!(p.community_count(), 4);
    }
    let empty: CsrGraph<f64> = CsrGraph::from_edges(&[], 0);
    let p = Louvain::new(LouvainConfig::default()).detect(&empty, 0.0);
    assert!(p.membership_vec().is_empty());
}

#[test]
fn identity_membership_numbers_nodes() {
    assert_eq!(identity_membership(0), Vec::<u32>::new());
    assert_eq!(identity_membership(3), vec![0, 1, 2]);
}

#[test]
fn break_tie_without_seed_takes_minimum() {
    assert_eq!(break_tie(&[node(5), node(2), node(9)], None), Some(node(2)));
    assert_eq!(break_tie(&[node(3)], None), Some(node(3)));
    assert_eq!(break_tie(&[], None), None);
    assert_eq!(break_tie(&[], Some(7)), None);
}

#[test]
fn break_tie_with_seed_picks_a_candidate_deterministically() {
    let nodes = [node(5), node(2), node(9), node(4)];
    let a = break_tie(&nodes, Some(42)).unwrap();
    assert!(nodes.contains(&a));
    assert_eq!(break_tie(&nodes, Some(42)), Some(a));
    assert_eq!(break_tie(&[node(8)], Some(1)), Some(node(8)));
}

#[test]
fn quality_function_and_phase_variants() {
    assert_ne!(QualityFunction::Modularity, QualityFunction::Cpm);
    assert_eq!(QualityFunction::MapEquation, QualityFunction::MapEquation);
    assert_ne!(AlgorithmPhase::LocalMoving, AlgorithmPhase::Aggregation);
}
