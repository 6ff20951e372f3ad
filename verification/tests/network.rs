use s2mflow::utils::endpoints_listed;
use s2mflow::get_adjacency_mapping;
use s2mflow::utils::get_incidence_mapping;
use std::collections::BTreeMap;

#[test]
fn maps_in_and_out_neighbours() {
    let (incoming, outgoing) =
        get_incidence_mapping(vec![1, 2, 3], vec![(1, 2), (1, 3), (2, 3)]);
    assert_eq!(incoming, BTreeMap::from([(1, vec![]), (2, vec![1]), (3, vec![1, 2])]));
    assert_eq!(outgoing, BTreeMap::from([(1, vec![2, 3]), (2, vec![3]), (3, vec![])]));
}

#[test]
fn keeps_parallel_edges_and_loops() {
    let (incoming, outgoing) = get_adjacency_mapping(vec![5, 7], vec![(5, 7), (5, 7), (7, 7)]);
    assert_eq!(incoming, BTreeMap::from([(5, vec![]), (7, vec![5, 5, 7])]));
    assert_eq!(outgoing, BTreeMap::from([(5, vec![7, 7]), (7, vec![7])]));
}

#[test]
fn isolated_nodes_get_empty_lists() {
    let (incoming, outgoing) = get_adjacency_mapping(vec![4, 2, 4], vec![]);
    assert_eq!(incoming, BTreeMap::from([(2, vec![]), (4, vec![])]));
    assert_eq!(outgoing, BTreeMap::from([(2, vec![]), (4, vec![])]));
}

#[test]
fn checks_that_endpoints_are_listed() {
    assert!(endpoints_listed(&vec![1, 2], &vec![(1, 2), (2, 1)]));
    assert!(!endpoints_listed(&vec![1, 2], &vec![(1, 3)]));
    assert!(!endpoints_listed(&vec![], &vec![(0, 0)]));
    assert!(endpoints_listed(&vec![], &vec![]));
}
