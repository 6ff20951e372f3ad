use rand::rngs::StdRng;
use rand::{Rng, SeedableRng};
use rand_distr::{Beta, Binomial, Distribution};
use s2mflow::logic::generator::{
    balance_commodities, partition_from_cuts, partition_from_draws,
    split_supply_and_demand_spread, split_supply_and_demand_uniform,
};
use s2mflow::{split_supplies_spread, split_supplies_uniform};
use std::collections::BTreeMap;

/// One Beta-Binomial(n, alpha, beta) draw, as the Python bindings make it.
fn sample_beta_binomial(rng: &mut StdRng, n: i64, alpha: f64, beta: f64) -> i64 {
    if n == 0 {
        return 0;
    }
    let p: f64 = Beta::new(alpha, beta).unwrap().sample(rng);
    Binomial::new(n as u64, p).unwrap().sample(rng) as i64
}

/// The Beta-Binomial split, built from the library's row and balancing routines.
fn split_beta_binomial(
    data: &BTreeMap<i64, i64>,
    num_commodities: usize,
    concentration_param: f64,
    seed: u64,
) -> BTreeMap<i64, Vec<i64>> {
    let mut rng = StdRng::seed_from_u64(seed);
    let mut partition = BTreeMap::new();
    for (&node, &demand) in data {
        if demand == 0 {
            continue;
        }
        let mut remaining = demand.abs();
        let mut draws = Vec::new();
        for j in 0..(num_commodities - 1) {
            let x = sample_beta_binomial(
                &mut rng,
                remaining,
                concentration_param,
                concentration_param * (num_commodities - j - 1) as f64,
            );
            draws.push(x);
            remaining -= x;
        }
        partition.insert(node, partition_from_draws(demand, &draws).unwrap());
    }
    balance_commodities(&mut partition, data, num_commodities, Some(&mut rng));
    partition
}

fn assert_sign_consistent(node: i64, original_val: i64, partition: &[i64]) {
    for &val in partition {
        if original_val > 0 {
            assert!(val >= 0, "Node {} is supply (>0) but has negative commodity value {}", node, val);
        } else if original_val < 0 {
            assert!(val <= 0, "Node {} is demand (<0) but has positive commodity value {}", node, val);
        }
    }
}

#[test]
fn test_local_partitioning() {
    let mut supplies = BTreeMap::new();
    supplies.insert(1, 25);
    supplies.insert(2, -25);

    let num_commodities = 3;
    let seed = 42;

    let res_uniform = split_supply_and_demand_uniform(&supplies, num_commodities);
    for (&node, &original_val) in &supplies {
        let partition = &res_uniform[&node];
        let partition_sum: i64 = partition.iter().sum();
        assert_eq!(partition_sum, original_val, "Uniform split sum mismatch at node {}", node);
        assert_sign_consistent(node, original_val, partition);
    }

    let res_spread = split_supply_and_demand_spread(&supplies, num_commodities, seed);
    for (&node, &original_val) in &supplies {
        let partition = &res_spread[&node];
        let partition_sum: i64 = partition.iter().sum();
        assert_eq!(partition_sum, original_val, "Spread split sum mismatch at node {}", node);
        assert_sign_consistent(node, original_val, partition);
    }

    let concentration_param = 3.0;
    let res_beta_binomial = split_beta_binomial(&supplies, num_commodities, concentration_param, seed);
    for (&node, &original_val) in &supplies {
        let partition = &res_beta_binomial[&node];
        let partition_sum: i64 = partition.iter().sum();
        assert_eq!(partition_sum, original_val);
        assert_sign_consistent(node, original_val, partition);
    }
}

#[test]
fn test_balance_commodities() {
    let mut commodity_data = BTreeMap::new();
    commodity_data.insert(1, vec![3, 8, 2]);
    commodity_data.insert(2, vec![0, 1, 1]);
    commodity_data.insert(3, vec![2, 0, 3]);
    commodity_data.insert(4, vec![-1, -4, -1]);
    commodity_data.insert(5, vec![-2, -9, -3]);

    let original_data = BTreeMap::from([(1, 13), (2, 2), (3, 5), (4, -6), (5, -14)]);
    let num_commodities = 3;

    balance_commodities(&mut commodity_data, &original_data, num_commodities, None);

    for k in 0..num_commodities {
        let global_sum: i64 = commodity_data.values().map(|v| v[k]).sum();
        assert_eq!(global_sum, 0, "Global balance failed for commodity {}", k);
    }

    for (&node, &original_val) in &original_data {
        let partition = &commodity_data[&node];
        let local_sum: i64 = partition.iter().sum();
        assert_eq!(local_sum, original_val, "Local balance failed at node {} after global balancing", node);
        for &val in partition {
            if original_val > 0 {
                assert!(val >= 0, "Balancing pushed node {} (supply) to negative value {}", node, val);
            } else if original_val < 0 {
                assert!(val <= 0, "Balanving pushed node {} (demand) to positive value {}", node, val);
            }
        }
    }
}

#[test]
fn uniform_split_of_the_quick_start_example() {
    let data = BTreeMap::from([(1, 126), (2, -126)]);
    let res = split_supplies_uniform(data, 5);
    assert_eq!(res[&1], vec![25, 26, 25, 25, 25]);
    assert_eq!(res[&2], vec![-25, -26, -25, -25, -25]);
}

#[test]
fn uniform_split_hands_remainders_round_robin() {
    // Node 1: 7 = 2+2+2 with one unit left for commodity 0; node 2 continues at
    // commodity 1 with its two remainder units.
    let data = BTreeMap::from([(1, 7), (2, 8), (3, -15)]);
    let res = split_supply_and_demand_uniform(&data, 3);
    for (node, total) in &data {
        assert_eq!(res[node].iter().sum::<i64>(), *total);
    }
    for k in 0..3 {
        assert_eq!(res.values().map(|v| v[k]).sum::<i64>(), 0);
    }
    assert_eq!(res[&1], vec![3, 2, 2]);
    assert_eq!(res[&2], vec![2, 3, 3]);
    assert_eq!(res[&3], vec![-5, -5, -5]);
}

#[test]
fn uniform_split_keeps_zero_supplies() {
    let data = BTreeMap::from([(4, 0), (9, 6), (11, -6)]);
    let res = split_supply_and_demand_uniform(&data, 2);
    assert_eq!(res[&4], vec![0, 0]);
    assert_eq!(res[&9], vec![3, 3]);
    assert_eq!(res[&11], vec![-3, -3]);
}

#[test]
fn uniform_split_of_nothing() {
    let res = split_supply_and_demand_uniform(&BTreeMap::new(), 0);
    assert!(res.is_empty());
}

#[test]
fn spread_split_leaves_out_zero_supplies() {
    let data = BTreeMap::from([(1, 40), (2, 0), (3, -40)]);
    let res = split_supplies_spread(data.clone(), 4, 7);
    assert_eq!(res.len(), 2);
    assert!(!res.contains_key(&2));
    for node in [1, 3] {
        assert_eq!(res[&node].len(), 4);
        assert_eq!(res[&node].iter().sum::<i64>(), data[&node]);
        assert_sign_consistent(node, data[&node], &res[&node]);
    }
    for k in 0..4 {
        assert_eq!(res.values().map(|v| v[k]).sum::<i64>(), 0);
    }
}

#[test]
fn spread_split_is_reproducible_for_a_seed() {
    let data = BTreeMap::from([(1, 126), (2, -126)]);
    let a = split_supplies_spread(data.clone(), 5, 512);
    let b = split_supplies_spread(data, 5, 512);
    assert_eq!(a, b);
}

#[test]
fn spread_split_of_the_quick_start_example() {
    let data = BTreeMap::from([(1, 126), (2, -126)]);
    let res = split_supplies_spread(data, 5, 512);
    assert_eq!(res[&1], vec![6, 24, 23, 12, 61]);
    assert_eq!(res[&2], vec![-6, -24, -23, -12, -61]);
}

#[test]
fn spread_split_with_one_commodity_keeps_the_supply() {
    let data = BTreeMap::from([(1, 9), (2, -9)]);
    let res = split_supply_and_demand_spread(&data, 1, 3);
    assert_eq!(res[&1], vec![9]);
    assert_eq!(res[&2], vec![-9]);
}

#[test]
fn cuts_give_the_gaps() {
    assert_eq!(partition_from_cuts(10, &vec![2, 2, 7]), vec![2, 0, 5, 3]);
    assert_eq!(partition_from_cuts(-10, &vec![0, 10]), vec![0, -10, 0]);
    assert_eq!(partition_from_cuts(5, &vec![]), vec![5]);
}

#[test]
fn draws_take_from_what_is_left() {
    assert_eq!(partition_from_draws(10, &vec![4, 3]), Some(vec![4, 3, 3]));
    assert_eq!(partition_from_draws(-6, &vec![6, 0]), Some(vec![-6, 0, 0]));
    assert_eq!(partition_from_draws(10, &vec![4, 7]), None);
    assert_eq!(partition_from_draws(10, &vec![-1, 3]), None);
}

#[test]
fn balancing_a_settled_partition_changes_nothing() {
    let mut data = BTreeMap::from([(1, vec![2, 1]), (2, vec![-2, -1])]);
    let before = data.clone();
    let totals = BTreeMap::from([(1, 3), (2, -3)]);
    balance_commodities(&mut data, &totals, 2, None);
    assert_eq!(data, before);
}

#[test]
fn balancing_moves_units_at_supply_nodes() {
    // Commodity 0 has a surplus of 2, commodity 1 a deficit of 2.
    let mut data = BTreeMap::from([(1, vec![4, 0]), (2, vec![-2, -2])]);
    let totals = BTreeMap::from([(1, 4), (2, -4)]);
    balance_commodities(&mut data, &totals, 2, None);
    // Without a generator a node gives only from a larger share to a smaller one:
    // the supply node gives twice, the demand node never.
    assert_eq!(data[&1], vec![2, 2]);
    assert_eq!(data[&2], vec![-2, -2]);
}

#[test]
fn balancing_with_a_generator_settles_the_balances() {
    let mut data = BTreeMap::from([(1, vec![5, 0, 0]), (2, vec![0, -3, -2])]);
    let totals = BTreeMap::from([(1, 5), (2, -5)]);
    let mut rng = StdRng::seed_from_u64(11);
    balance_commodities(&mut data, &totals, 3, Some(&mut rng));
    for k in 0..3 {
        assert_eq!(data.values().map(|v| v[k]).sum::<i64>(), 0);
    }
    assert_eq!(data[&1].iter().sum::<i64>(), 5);
    assert!(data[&1].iter().all(|&v| v >= 0));
    assert_eq!(data[&2].iter().sum::<i64>(), -5);
    assert!(data[&2].iter().all(|&v| v <= 0));
}

#[test]
fn unbalanced_totals_settle_one_side() {
    // The totals add up to 2, so not every commodity can reach zero; no commodity
    // is left with a negative balance.
    let mut data = BTreeMap::from([(1, vec![3, 1]), (2, vec![0, -2])]);
    let totals = BTreeMap::from([(1, 4), (2, -2)]);
    balance_commodities(&mut data, &totals, 2, None);
    let b0: i64 = data.values().map(|v| v[0]).sum();
    let b1: i64 = data.values().map(|v| v[1]).sum();
    assert!(b0 >= 0 && b1 >= 0);
    assert_eq!(b0 + b1, 2);
    assert_eq!(data[&1].iter().sum::<i64>(), 4);
}

#[test]
fn uniform_shares_differ_by_at_most_one_unit() {
    let data = BTreeMap::from([(1, 17), (2, -17)]);
    let res = split_supply_and_demand_uniform(&data, 5);
    for v in &res[&1] {
        assert!(*v == 3 || *v == 4);
    }
    for v in &res[&2] {
        assert!(*v == -3 || *v == -4);
    }
}

#[test]
fn balancing_without_a_generator_is_repeatable() {
    let start = BTreeMap::from([
        (1, vec![5, 0, 2]),
        (2, vec![0, 3, 0]),
        (3, vec![-1, -1, -4]),
        (4, vec![-2, -2, 0]),
    ]);
    let totals = BTreeMap::from([(1, 7), (2, 3), (3, -6), (4, -4)]);
    let mut a = start.clone();
    let mut b = start;
    balance_commodities(&mut a, &totals, 3, None);
    balance_commodities(&mut b, &totals, 3, None);
    assert_eq!(a, b);
    for k in 0..3 {
        assert_eq!(a.values().map(|v| v[k]).sum::<i64>(), 0);
    }
}

#[test]
fn uniform_split_keeps_every_share_even() {
    let data = BTreeMap::from([(1, 3), (2, 1), (3, -1), (4, 1), (5, -1), (6, -3)]);
    let res = split_supply_and_demand_uniform(&data, 2);
    assert_eq!(res[&1], vec![2, 1]);
    assert_eq!(res[&2], vec![1, 0]);
    assert_eq!(res[&3], vec![-1, 0]);
    assert_eq!(res[&4], vec![0, 1]);
    assert_eq!(res[&5], vec![-1, 0]);
    assert_eq!(res[&6], vec![-1, -2]);
    for (node, total) in &data {
        let floor = total.abs() / 2;
        let ceil = (total.abs() + 1) / 2;
        for v in &res[node] {
            assert!(floor <= v.abs() && v.abs() <= ceil);
        }
    }
    for k in 0..2 {
        assert_eq!(res.values().map(|v| v[k]).sum::<i64>(), 0);
    }
}

#[test]
fn splits_supplies_whose_absolute_sum_exceeds_i64() {
    let data = BTreeMap::from([(1, i64::MAX), (2, i64::MAX), (3, -i64::MAX), (4, -i64::MAX)]);
    let uniform = split_supplies_uniform(data.clone(), 1);
    let spread = split_supplies_spread(data.clone(), 1, 5);
    for node in 1..=4 {
        assert_eq!(uniform[&node], vec![data[&node]]);
        assert_eq!(spread[&node], vec![data[&node]]);
    }
}

#[test]
fn uniform_split_takes_the_smallest_supply() {
    let data = BTreeMap::from([(1, i64::MIN), (2, i64::MAX), (3, 1)]);
    let res = split_supply_and_demand_uniform(&data, 2);
    assert_eq!(res[&1], vec![-(1i64 << 62), -(1i64 << 62)]);
    assert_eq!(res[&2], vec![1i64 << 62, (1i64 << 62) - 1]);
    assert_eq!(res[&3], vec![0, 1]);
}

#[test]
fn balances_rows_whose_absolute_sum_exceeds_i64() {
    let mut data = BTreeMap::from([
        (1, vec![i64::MAX]),
        (2, vec![i64::MAX]),
        (3, vec![-i64::MAX]),
        (4, vec![-i64::MAX]),
    ]);
    let before = data.clone();
    let totals = BTreeMap::from([(1, i64::MAX), (2, i64::MAX), (3, -i64::MAX), (4, -i64::MAX)]);
    balance_commodities(&mut data, &totals, 1, None);
    assert_eq!(data, before);
}

#[test]
fn balancing_a_settled_partition_draws_nothing() {
    let mut data = BTreeMap::from([(1, vec![2, 1]), (2, vec![-2, -1])]);
    let totals = BTreeMap::from([(1, 3), (2, -3)]);
    let mut rng = StdRng::seed_from_u64(3);
    let mut twin = StdRng::seed_from_u64(3);
    balance_commodities(&mut data, &totals, 2, Some(&mut rng));
    assert_eq!(rng.random_range(0..1_000_000u64), twin.random_range(0..1_000_000u64));
}

#[test]
fn balancing_twice_changes_nothing() {
    let mut data = BTreeMap::from([(1, vec![5, 0, 0]), (2, vec![0, -3, -2])]);
    let totals = BTreeMap::from([(1, 5), (2, -5)]);
    let mut rng = StdRng::seed_from_u64(21);
    balance_commodities(&mut data, &totals, 3, Some(&mut rng));
    let once = data.clone();
    balance_commodities(&mut data, &totals, 3, Some(&mut rng));
    assert_eq!(data, once);
    balance_commodities(&mut data, &totals, 3, None);
    assert_eq!(data, once);
}
