//! s2mflow: lifting single-commodity network flow instances into
//! multi-commodity flow instances.

pub mod format_laws;
pub mod keys;
pub mod logic;
pub mod models;
pub mod random;
pub mod roundtrip;
pub mod stdlib;
pub mod text;
pub mod utils;

use crate::logic::generator::{
    commodity_balance, is_balancing, is_balancing_run, is_spread_partition, is_uniform_split,
    nonzero_nodes, partition_view, rows_of, totals_of, total_supply,
};
use crate::logic::sums::row_sum;
use std::collections::BTreeMap;
use vstd::prelude::*;

verus! {

/// Builds the incoming and outgoing adjacency lists of a directed graph.
///
/// Every edge endpoint must be one of `nodes`.
pub fn get_adjacency_mapping(nodes: Vec<i64>, edges: Vec<(i64, i64)>) -> (res: (
    BTreeMap<i64, Vec<i64>>,
    BTreeMap<i64, Vec<i64>>,
))
    requires
        utils::endpoints_are_nodes(nodes@, edges@),
    ensures
        utils::is_incidence_mapping(nodes@, edges@, res.0@, res.1@),
{
    utils::get_incidence_mapping(nodes, edges)
}

/// Partitions the supply of every node of `data` evenly over `num_commodities`
/// commodities; see `split_supply_and_demand_uniform`.
pub fn split_supplies_uniform(data: BTreeMap<i64, i64>, num_commodities: usize) -> (res: BTreeMap<
    i64,
    Vec<i64>,
>)
    requires
        num_commodities > 0 || data@.dom().len() == 0,
        num_commodities <= i64::MAX,
    ensures
        is_uniform_split(data@, num_commodities as int, partition_view(res@)),
        forall|n: i64| #[trigger] res@.contains_key(n) ==> row_sum(res@[n]@) == data@[n],
        total_supply(data@) == 0 ==> forall|k: int|
            0 <= k < num_commodities ==> #[trigger] commodity_balance(partition_view(res@), k)
                == 0,
{
    logic::generator::split_supply_and_demand_uniform(&data, num_commodities)
}

/// Partitions the supply of every node of `data` at random cut points over
/// `num_commodities` commodities, drawn from a generator seeded with `seed`; see
/// `split_supply_and_demand_spread`.
pub fn split_supplies_spread(data: BTreeMap<i64, i64>, num_commodities: usize, seed: u64) -> (res:
    BTreeMap<i64, Vec<i64>>)
    requires
        num_commodities > 0 || forall|n: i64| #[trigger] data@.contains_key(n) ==> data@[n] == 0,
        forall|n: i64| #[trigger] data@.contains_key(n) ==> data@[n] > i64::MIN,
    ensures
        exists|pre: Map<i64, Seq<i64>>|
            is_spread_partition(data@, num_commodities as int, pre) && is_balancing(
                pre,
                partition_view(res@),
                data@,
                num_commodities as int,
            ) && is_balancing_run(
                rows_of(pre),
                totals_of(pre, data@),
                num_commodities as int,
                rows_of(partition_view(res@)),
                false,
            ),
        res@.dom() == nonzero_nodes(data@),
        forall|n: i64| #[trigger] res@.contains_key(n) ==> row_sum(res@[n]@) == data@[n],
        total_supply(data@) == 0 ==> forall|k: int|
            0 <= k < num_commodities ==> #[trigger] commodity_balance(partition_view(res@), k)
                == 0,
{
    logic::generator::split_supply_and_demand_spread(&data, num_commodities, seed)
}

} // verus!
