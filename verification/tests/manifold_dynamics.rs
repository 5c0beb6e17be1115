use lau_differential_topology::agent_dynamics::{classify_flow, connected_clusters, DynamicsType};
use lau_differential_topology::smooth_manifold::{transitions_between, Chart};
use lau_differential_topology::tangent::TangentBundle;
use lau_differential_topology::vector_field::{
    classify_eigenvalue_signs, EigenvalueSign, EquilibriumType,
};

#[test]
fn chart_keeps_dimension_and_name() {
    let c = Chart::new(3, "stereographic_north");
    assert_eq!(c.dimension, 3);
    assert_eq!(c.name, "stereographic_north");
}

#[test]
fn tangent_bundle_has_twice_the_dimension() {
    let tb = TangentBundle::new(2);
    assert_eq!(tb.base_dimension, 2);
    assert_eq!(tb.total_dimension, 4);
    assert_eq!(TangentBundle::new(0).total_dimension, 0);
}

#[test]
fn classify_from_eigenvalue_signs() {
    assert_eq!(classify_eigenvalue_signs(&[EigenvalueSign::Negative, EigenvalueSign::Negative]), EquilibriumType::Stable);
    assert_eq!(classify_eigenvalue_signs(&[EigenvalueSign::Positive, EigenvalueSign::Positive]), EquilibriumType::Unstable);
    assert_eq!(classify_eigenvalue_signs(&[EigenvalueSign::Positive, EigenvalueSign::Negative]), EquilibriumType::Saddle);
    assert_eq!(classify_eigenvalue_signs(&[EigenvalueSign::NearZero, EigenvalueSign::NearZero]), EquilibriumType::Center);
    assert_eq!(classify_eigenvalue_signs(&[EigenvalueSign::NearZero, EigenvalueSign::Negative]), EquilibriumType::Degenerate);
    assert_eq!(classify_eigenvalue_signs(&[EigenvalueSign::Boundary, EigenvalueSign::Boundary]), EquilibriumType::Degenerate);
    assert_eq!(classify_eigenvalue_signs(&[EigenvalueSign::Positive, EigenvalueSign::Boundary, EigenvalueSign::Negative]), EquilibriumType::Saddle);
    assert_eq!(classify_eigenvalue_signs(&[]), EquilibriumType::Stable);
}

#[test]
fn classify_flow_cases() {
    assert_eq!(classify_flow(0, &[]), DynamicsType::Divergent);
    assert_eq!(classify_flow(1, &[EquilibriumType::Center]), DynamicsType::Oscillatory);
    assert_eq!(classify_flow(2, &[EquilibriumType::Stable, EquilibriumType::Degenerate]), DynamicsType::Convergent);
    assert_eq!(classify_flow(1, &[EquilibriumType::Unstable]), DynamicsType::Divergent);
    assert_eq!(classify_flow(2, &[EquilibriumType::Unstable, EquilibriumType::Saddle]), DynamicsType::Divergent);
    assert_eq!(classify_flow(2, &[EquilibriumType::Stable, EquilibriumType::Saddle]), DynamicsType::Mixed);
    assert_eq!(classify_flow(1, &[EquilibriumType::Degenerate]), DynamicsType::Mixed);
    assert_eq!(classify_flow(2, &[EquilibriumType::Center, EquilibriumType::Stable]), DynamicsType::Convergent);
}

fn closeness(n: usize, edges: &[(usize, usize)]) -> Vec<Vec<bool>> {
    let mut m = vec![vec![false; n]; n];
    for &(a, b) in edges {
        m[a][b] = true;
        m[b][a] = true;
    }
    for i in 0..n {
        m[i][i] = true;
    }
    m
}

#[test]
fn clusters_of_three_agents() {
    // agents 0 and 1 are close, agent 2 is far away
    let close = closeness(3, &[(0, 1)]);
    let clusters = connected_clusters(&close);
    assert_eq!(clusters.len(), 2);
    assert_eq!(clusters[0], vec![0, 1]);
    assert_eq!(clusters[1], vec![2]);
}

#[test]
fn clusters_follow_chains() {
    // 0 - 3 - 1 is one chain, 2 and 4 are together, 5 is alone
    let close = closeness(6, &[(0, 3), (3, 1), (2, 4)]);
    let clusters = connected_clusters(&close);
    assert_eq!(clusters.len(), 3);
    let mut first = clusters[0].clone();
    first.sort();
    assert_eq!(first, vec![0, 1, 3]);
    assert_eq!(clusters[0][0], 0);
    let mut second = clusters[1].clone();
    second.sort();
    assert_eq!(second, vec![2, 4]);
    assert_eq!(clusters[2], vec![5]);
}

#[test]
fn clusters_of_nobody() {
    let close: Vec<Vec<bool>> = Vec::new();
    assert!(connected_clusters(&close).is_empty());
}

#[test]
fn clusters_list_members_depth_first() {
    // all close: from 0 the search pushes 1 then 2, and explores 2 first
    let close = closeness(3, &[(0, 1), (0, 2), (1, 2)]);
    assert_eq!(connected_clusters(&close), vec![vec![0, 2, 1]]);
    // a path 0 - 1 - 2 - 3 is walked in order
    let close = closeness(4, &[(0, 1), (1, 2), (2, 3)]);
    assert_eq!(connected_clusters(&close), vec![vec![0, 1, 2, 3]]);
    // a star around 0, searched from its largest leaf down
    let close = closeness(4, &[(0, 1), (0, 2), (0, 3)]);
    assert_eq!(connected_clusters(&close), vec![vec![0, 3, 2, 1]]);
}

#[test]
fn transitions_between_charts_in_order() {
    let edges = [(0, 1), (1, 0), (0, 2), (0, 1), (2, 2)];
    assert_eq!(transitions_between(&edges, 0, 1), vec![0, 3]);
    assert_eq!(transitions_between(&edges, 1, 0), vec![1]);
    assert_eq!(transitions_between(&edges, 2, 2), vec![4]);
    assert!(transitions_between(&edges, 1, 2).is_empty());
    assert!(transitions_between(&[], 0, 0).is_empty());
}
