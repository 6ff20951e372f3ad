use s2mflow::logic::assembly::assemble_multi_commodity_data;
use s2mflow::logic::generator::split_supply_and_demand_uniform;
use s2mflow::models::{Edge, MultiCommodityData, NetworkInstance, ParseError};
use s2mflow::utils::{can_export, export_to_dimacs, parse_min, parse_multi_min};
use std::collections::BTreeMap;

const QUICK_START: &str = "c a two-node network\np min 2 1\nn 1 10\nn 2 -10\na 1 2 0 10 9\n";

fn quick_start_network() -> NetworkInstance {
    parse_min(QUICK_START).unwrap()
}

fn uniform_data(network: &NetworkInstance, k: usize) -> MultiCommodityData {
    let partition = split_supply_and_demand_uniform(&network.supplies, k);
    assemble_multi_commodity_data(network, k, 1, partition, false, &vec![], false, &vec![], 42)
}

#[test]
fn reads_the_quick_start_network() {
    let network = quick_start_network();
    assert_eq!(network.num_nodes, 2);
    assert_eq!(network.num_arcs, 1);
    assert_eq!(network.nodes, vec![1, 2]);
    assert_eq!(network.edges, vec![Edge { tail: 1, head: 2, low: 0, up: 10, cost: 9 }]);
    assert_eq!(network.supplies, BTreeMap::from([(1, 10), (2, -10)]));
    assert_eq!(network.arcs, vec![(1, 2)]);
    assert_eq!(network.capacities, vec![10]);
    assert_eq!(network.weights, vec![9]);
}

#[test]
fn lists_nodes_in_order_of_first_appearance() {
    let text = "p min 4 2\na 3 1 0 5 2\nn 2 4\na 2 3 0 7 1\n\n n 9 9\nx 8 8\n";
    let network = parse_min(text).unwrap();
    assert_eq!(network.nodes, vec![3, 1, 2]);
    assert_eq!(network.supplies, BTreeMap::from([(2, 4)]));
    assert_eq!(network.capacities, vec![5, 7]);
    assert_eq!(network.weights, vec![2, 1]);
}

#[test]
fn reads_windows_line_ends() {
    let network = parse_min("p min 1 0\r\nn 1 0\r\n").unwrap();
    assert_eq!(network.num_nodes, 1);
    assert_eq!(network.supplies, BTreeMap::from([(1, 0)]));
}

#[test]
fn refuses_a_malformed_number() {
    assert_eq!(parse_min("p min 2 1\nn 1 1x\n").err(), Some(ParseError::InvalidNumber));
    assert_eq!(parse_min("n 1 99999999999999999999\n").err(), Some(ParseError::InvalidNumber));
}

#[test]
fn refuses_a_short_line() {
    assert_eq!(parse_min("p min 2\n").err(), Some(ParseError::MissingField));
    assert_eq!(parse_min("a 1 2 0 10\n").err(), Some(ParseError::MissingField));
}

#[test]
fn refuses_a_negative_arc_count() {
    assert_eq!(parse_min("p min 2 -1\n").err(), Some(ParseError::NegativeArcCount));
}

#[test]
fn assembles_uniform_data_without_randomization() {
    let network = quick_start_network();
    let data = uniform_data(&network, 3);
    assert_eq!(data.supply_partition, BTreeMap::from([(1, vec![3, 4, 3]), (2, vec![-3, -4, -3])]));
    assert!(data.is_uniform);
    assert_eq!(data.commodity_edges, vec![(0, 1, 2), (1, 1, 2), (2, 1, 2)]);
    assert_eq!(data.capacities, vec![10, 10, 10]);
    assert_eq!(data.weight, vec![vec![9], vec![9], vec![9]]);
    assert_eq!(data.weights_by_arc, BTreeMap::from([(0, vec![9, 9, 9])]));
    assert_eq!(data.capacities_by_arc, BTreeMap::from([(0, vec![10, 10, 10])]));
    assert_eq!(data.commodity_weights, BTreeMap::from([((1, 2), vec![9, 9, 9])]));
    assert_eq!(data.commodity_capacities, BTreeMap::from([((1, 2), vec![10, 10, 10])]));
    assert_eq!(data.num_commodities, 3);
    assert!(!data.randomized_capacities && !data.randomized_weights);
    assert_eq!(data.seed, 42);
}

#[test]
fn assembles_drawn_capacities_and_costs_with_floors() {
    let text = "p min 3 2\na 1 2 0 10 9\na 2 3 0 4 0\n";
    let network = parse_min(text).unwrap();
    let partition = BTreeMap::new();
    let caps = vec![vec![0, 12], vec![-3, 5]];
    let costs = vec![vec![-7, 11], vec![-2, 3]];
    let data = assemble_multi_commodity_data(&network, 2, 0, partition, true, &caps, true, &costs, 5);
    assert!(!data.is_uniform);
    assert_eq!(data.capacities_by_arc, BTreeMap::from([(0, vec![1, 12]), (1, vec![1, 5])]));
    assert_eq!(data.weights_by_arc, BTreeMap::from([(0, vec![1, 11]), (1, vec![0, 3])]));
    assert_eq!(data.weight, vec![vec![1, 0], vec![11, 3]]);
    assert_eq!(
        data.commodity_edges,
        vec![(0, 1, 2), (1, 1, 2), (0, 2, 3), (1, 2, 3)]
    );
    assert_eq!(data.capacities, vec![10, 10, 4, 4]);
    assert_eq!(
        data.commodity_capacities,
        BTreeMap::from([((1, 2), vec![1, 12]), ((2, 3), vec![1, 5])])
    );
}

#[test]
fn a_repeated_arc_keeps_the_last_values_by_endpoints() {
    let text = "p min 2 2\na 1 2 0 10 9\na 1 2 0 6 4\n";
    let network = parse_min(text).unwrap();
    let data = assemble_multi_commodity_data(&network, 1, 1, BTreeMap::new(), false, &vec![], false, &vec![], 0);
    assert_eq!(data.commodity_capacities, BTreeMap::from([((1, 2), vec![6])]));
    assert_eq!(data.commodity_weights, BTreeMap::from([((1, 2), vec![4])]));
    assert_eq!(data.capacities_by_arc, BTreeMap::from([(0, vec![10]), (1, vec![6])]));
}

#[test]
fn writes_the_compact_format() {
    let network = quick_start_network();
    let data = uniform_data(&network, 3);
    let text = export_to_dimacs(&network, &data);
    assert_eq!(
        text,
        "c Multicommodity flow generated by s2mflow\n\
         p min 2 1 3 0 0 1 0\n\
         n 1 10 3 4 3\n\
         n 2 -10 -3 -4 -3\n\
         a 1 2 0 10 10 9\n"
    );
}

#[test]
fn writes_expanded_capacities_and_the_seed() {
    let network = quick_start_network();
    let partition = split_supply_and_demand_uniform(&network.supplies, 2);
    let data = assemble_multi_commodity_data(&network, 2, 1, partition, true, &vec![vec![8, 11]], false, &vec![], 512);
    let text = export_to_dimacs(&network, &data);
    assert_eq!(
        text,
        "c Multicommodity flow generated by s2mflow\n\
         p min 2 1 2 1 0 1 512\n\
         n 1 10 5 5\n\
         n 2 -10 -5 -5\n\
         a 1 2 0 10 8 11 9\n"
    );
}

#[test]
fn reads_back_what_was_written() {
    let network = quick_start_network();
    let partition = split_supply_and_demand_uniform(&network.supplies, 3);
    let data = assemble_multi_commodity_data(
        &network,
        3,
        0,
        partition,
        true,
        &vec![vec![9, 10, 12]],
        true,
        &vec![vec![8, 9, 10]],
        42,
    );
    let text = export_to_dimacs(&network, &data);
    let parsed = parse_multi_min(&text).unwrap();
    assert_eq!(parsed.num_nodes, 2);
    assert_eq!(parsed.num_arcs, 1);
    assert_eq!(parsed.num_commodities, 3);
    assert!(parsed.randomized_capacities && parsed.randomized_weights);
    assert!(!parsed.is_uniform);
    assert_eq!(parsed.seed, 42);
    assert_eq!(parsed.nodes, vec![1, 2]);
    assert_eq!(parsed.edges, vec![(1, 2)]);
    assert_eq!(parsed.supplies, network.supplies);
    assert_eq!(parsed.commodity_supply_demand_data, data.supply_partition);
    assert_eq!(parsed.capacities, vec![10]);
    assert_eq!(parsed.commodity_capacities, data.commodity_capacities);
    assert_eq!(parsed.commodity_weights, data.commodity_weights);
    assert_eq!(parsed.commodity_edges, vec![(0, 1, 2), (1, 1, 2), (2, 1, 2)]);
    assert_eq!(parsed.start_nodes, vec![1]);
    assert_eq!(parsed.end_nodes, vec![2]);
}

#[test]
fn reads_back_compact_values_for_every_commodity() {
    let network = quick_start_network();
    let data = uniform_data(&network, 3);
    let parsed = parse_multi_min(&export_to_dimacs(&network, &data)).unwrap();
    assert_eq!(parsed.commodity_capacities, BTreeMap::from([((1, 2), vec![10, 10, 10])]));
    assert_eq!(parsed.commodity_weights, BTreeMap::from([((1, 2), vec![9, 9, 9])]));
    assert_eq!(parsed.seed, 0);
}

#[test]
fn multi_reader_lists_commodity_edges_by_commodity() {
    let text = "p min 3 2 2 0 0 1 0\na 1 2 0 5 5 1\na 2 3 0 6 6 2\n";
    let parsed = parse_multi_min(text).unwrap();
    assert_eq!(parsed.commodity_edges, vec![(0, 1, 2), (0, 2, 3), (1, 1, 2), (1, 2, 3)]);
    assert_eq!(parsed.commodity_weights, BTreeMap::from([((1, 2), vec![1, 1]), ((2, 3), vec![2, 2])]));
}

#[test]
fn multi_reader_refuses_bad_lines() {
    assert_eq!(parse_multi_min("p min 2 1 2 0 0 1\n").err(), Some(ParseError::MissingField));
    assert_eq!(parse_multi_min("p min 2 1 2 0 0 1 x\n").err(), Some(ParseError::InvalidNumber));
    assert_eq!(parse_multi_min("p min 2 -1 2 0 0 1 0\n").err(), Some(ParseError::NegativeArcCount));
    assert_eq!(
        parse_multi_min("p min 2 1 2 1 0 1 0\na 1 2 0 10 3 9\n").err(),
        Some(ParseError::MissingField)
    );
}

#[test]
fn multi_reader_takes_node_values_after_the_total() {
    let parsed = parse_multi_min("p min 1 0 2 0 0 1 0\nn 1 x 3 -3\n").unwrap();
    assert_eq!(parsed.commodity_supply_demand_data, BTreeMap::from([(1, vec![3, -3])]));
    assert!(parsed.supplies.is_empty());
    let parsed = parse_multi_min("p min 1 0 2 0 0 1 0\nn 1 7 3 4\n").unwrap();
    assert_eq!(parsed.commodity_supply_demand_data, BTreeMap::from([(1, vec![3, 4])]));
    assert_eq!(parsed.supplies, BTreeMap::from([(1, 7)]));
}

#[test]
fn multi_reader_refuses_a_node_line_without_total() {
    assert_eq!(parse_multi_min("p min 1 0 2 0 0 1 0\nn 1\n").err(), Some(ParseError::MissingField));
    assert_eq!(parse_multi_min("p min 1 0 2 0 0 1 0\nn x 3\n").err(), Some(ParseError::InvalidNumber));
}

#[test]
fn reads_back_the_last_arc_of_repeated_endpoints() {
    let network = parse_min("p min 2 2\nn 1 4\nn 2 -4\na 1 2 0 10 9\na 1 2 0 6 4\n").unwrap();
    let partition = split_supply_and_demand_uniform(&network.supplies, 2);
    let data = assemble_multi_commodity_data(
        &network,
        2,
        0,
        partition,
        true,
        &vec![vec![11, 12], vec![5, 7]],
        false,
        &vec![],
        9,
    );
    let parsed = parse_multi_min(&export_to_dimacs(&network, &data)).unwrap();
    assert_eq!(parsed.commodity_capacities, BTreeMap::from([((1, 2), vec![5, 7])]));
    assert_eq!(parsed.commodity_weights, BTreeMap::from([((1, 2), vec![4, 4])]));
    assert_eq!(parsed.capacities, vec![10, 6]);
    assert_eq!(parsed.edges, vec![(1, 2), (1, 2)]);
}

#[test]
fn checks_what_can_be_written() {
    let network = quick_start_network();
    let data = uniform_data(&network, 2);
    assert!(can_export(&network, &data));

    let mut missing = data.clone();
    missing.capacities_by_arc.clear();
    assert!(!can_export(&network, &missing));

    let mut empty_costs = data.clone();
    empty_costs.weights_by_arc.insert(0, vec![]);
    assert!(!can_export(&network, &empty_costs));

    let mut overflowing = data.clone();
    overflowing.supply_partition.insert(3, vec![i64::MAX, 1, -5]);
    assert!(!can_export(&network, &overflowing));

    let mut fine = data;
    fine.supply_partition.insert(3, vec![i64::MAX, -1, 1]);
    assert!(can_export(&network, &fine));
}

#[test]
fn writes_the_four_node_example_evenly() {
    let text = "c Base single-commodity instance (input.min)\np min 4 5\nn 1 17\nn 4 -17\n\
                a 1 2 0 10 10\na 1 3 0 15 5\na 2 4 0 10 10\na 3 2 0 5 20\na 3 4 0 15 4\n";
    let network = parse_min(text).unwrap();
    let data = uniform_data(&network, 4);
    assert_eq!(
        export_to_dimacs(&network, &data),
        "c Multicommodity flow generated by s2mflow\n\
         p min 4 5 4 0 0 1 0\n\
         n 1 17 4 5 4 4\n\
         n 4 -17 -4 -5 -4 -4\n\
         a 1 2 0 10 10 10\n\
         a 1 3 0 15 15 5\n\
         a 2 4 0 10 10 10\n\
         a 3 2 0 5 5 20\n\
         a 3 4 0 15 15 4\n"
    );
}

#[test]
fn reads_back_extreme_values() {
    let network = parse_min("p min 2 1\nn -9223372036854775808 0\na 1 2 -5 9223372036854775807 3\n").unwrap();
    let partition = BTreeMap::from([(i64::MIN, vec![i64::MAX, -i64::MAX])]);
    let data = assemble_multi_commodity_data(
        &network,
        2,
        0,
        partition,
        true,
        &vec![vec![i64::MAX, i64::MIN]],
        true,
        &vec![vec![i64::MIN, i64::MAX]],
        u64::MAX,
    );
    let text = export_to_dimacs(&network, &data);
    let parsed = parse_multi_min(&text).unwrap();
    assert_eq!(parsed.seed, u64::MAX);
    assert_eq!(parsed.commodity_supply_demand_data, data.supply_partition);
    assert_eq!(parsed.supplies, BTreeMap::from([(i64::MIN, 0)]));
    assert_eq!(parsed.commodity_capacities, BTreeMap::from([((1, 2), vec![i64::MAX, 1])]));
    assert_eq!(parsed.commodity_weights, BTreeMap::from([((1, 2), vec![1, i64::MAX])]));
    assert_eq!(parsed.capacities, vec![i64::MAX]);
}
