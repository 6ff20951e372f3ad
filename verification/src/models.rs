//! The data of single- and multi-commodity flow instances.

use std::collections::BTreeMap;
use vstd::prelude::*;

verus! {

/// An arc of a network: from `tail` to `head`, with flow bounds `low..=up` and a unit cost.
#[derive(Clone, Copy, Debug, PartialEq, Eq, Structural)]
pub struct Edge {
    pub tail: i64,
    pub head: i64,
    pub low: i64,
    pub up: i64,
    pub cost: i64,
}

/// A single-commodity minimum-cost flow instance.
#[derive(Clone, Debug)]
pub struct NetworkInstance {
    pub num_nodes: i64,
    pub num_arcs: i64,
    pub nodes: Vec<i64>,
    pub edges: Vec<Edge>,
    pub supplies: BTreeMap<i64, i64>,
    pub arcs: Vec<(i64, i64)>,
    pub capacities: Vec<i64>,
    pub weights: Vec<i64>,
}

/// A partition of nodal supplies across commodities.
#[derive(Clone, Debug)]
pub struct MultiCommoditySupplies {
    pub partition: BTreeMap<i64, Vec<i64>>,
}

/// The multi-commodity data generated from a single-commodity instance.
#[derive(Clone, Debug)]
pub struct MultiCommodityData {
    pub supply_partition: BTreeMap<i64, Vec<i64>>,
    pub is_uniform: bool,
    pub commodity_edges: Vec<(usize, i64, i64)>,
    pub capacities: Vec<i64>,
    pub weight: Vec<Vec<i64>>,
    pub weights_by_arc: BTreeMap<usize, Vec<i64>>,
    pub capacities_by_arc: BTreeMap<usize, Vec<i64>>,
    pub commodity_capacities: BTreeMap<(i64, i64), Vec<i64>>,
    pub commodity_weights: BTreeMap<(i64, i64), Vec<i64>>,
    pub num_commodities: usize,
    pub randomized_capacities: bool,
    pub randomized_weights: bool,
    pub seed: u64,
}

/// A multi-commodity instance read back from its text form.
#[derive(Clone, Debug)]
pub struct ParsedMulticommodityInstance {
    pub num_nodes: i64,
    pub num_arcs: i64,
    pub num_commodities: usize,
    pub randomized_capacities: bool,
    pub randomized_weights: bool,
    pub nodes: Vec<i64>,
    pub edges: Vec<(i64, i64)>,
    pub supplies: BTreeMap<i64, i64>,
    pub commodity_supply_demand_data: BTreeMap<i64, Vec<i64>>,
    pub capacities: Vec<i64>,
    pub commodity_capacities: BTreeMap<(i64, i64), Vec<i64>>,
    pub commodity_weights: BTreeMap<(i64, i64), Vec<i64>>,
    pub commodity_edges: Vec<(usize, i64, i64)>,
    pub start_nodes: Vec<i64>,
    pub end_nodes: Vec<i64>,
    pub is_uniform: bool,
    pub seed: u64,
}

/// Why an instance text could not be read.
#[derive(Clone, Copy, Debug, PartialEq, Eq, Structural)]
pub enum ParseError {
    /// A field is not a decimal integer of the expected range.
    InvalidNumber,
    /// A line ends before a field that its kind requires.
    MissingField,
    /// A problem line declares a negative number of arcs.
    NegativeArcCount,
}

/// Per-vector views of a map whose values are vectors.
pub open spec fn map_view<K>(m: Map<K, Vec<i64>>) -> Map<K, Seq<i64>> {
    m.map_values(|v: Vec<i64>| v@)
}

} // verus!
