//! Assembling the multi-commodity data of an instance from its supply partition and
//! the per-commodity capacities and costs of its arcs.

use crate::logic::sums::rows_view;
use crate::models::{map_view, Edge, MultiCommodityData, NetworkInstance};
use crate::roundtrip::{arc_rows_agree, indexed_rows, tables_consistent};
use crate::utils::repeat;
use std::collections::BTreeMap;
use vstd::prelude::*;

verus! {

/// The cost of one commodity on arc `e`: when costs are randomized, the drawn cost
/// raised to at least 1 (to at least 0 on an arc that costs nothing); else the
/// arc's own cost.
pub open spec fn commodity_cost(e: Edge, randomized: bool, drawn: i64) -> i64 {
    if randomized {
        let floor: i64 = if e.cost == 0 {
            0
        } else {
            1
        };
        if drawn < floor {
            floor
        } else {
            drawn
        }
    } else {
        e.cost
    }
}

/// The capacity of one commodity on arc `e`: when capacities are randomized, the
/// drawn capacity raised to at least 1; else the arc's upper bound.
pub open spec fn commodity_capacity(e: Edge, randomized: bool, drawn: i64) -> i64 {
    if randomized {
        if drawn < 1 {
            1
        } else {
            drawn
        }
    } else {
        e.up
    }
}

/// The per-commodity costs of every arc, arc by arc.
pub open spec fn cost_rows(edges: Seq<Edge>, randomized: bool, drawn: Seq<Seq<i64>>, num: nat) -> Seq<
    Seq<i64>,
> {
    Seq::new(
        edges.len(),
        |i: int| Seq::new(num, |k: int| commodity_cost(edges[i], randomized, drawn[i][k])),
    )
}

/// The per-commodity capacities of every arc, arc by arc.
pub open spec fn capacity_rows(
    edges: Seq<Edge>,
    randomized: bool,
    drawn: Seq<Seq<i64>>,
    num: nat,
) -> Seq<Seq<i64>> {
    Seq::new(
        edges.len(),
        |i: int| Seq::new(num, |k: int| commodity_capacity(edges[i], randomized, drawn[i][k])),
    )
}

/// `rows` keyed by arc index.
pub open spec fn by_index(rows: Seq<Seq<i64>>) -> Map<usize, Seq<i64>> {
    Map::new(|i: usize| i < rows.len(), |i: usize| rows[i as int])
}

/// The first `n` of `rows` keyed by the endpoints of their arcs; an arc with the
/// same endpoints as an earlier one replaces its entry.
pub open spec fn by_endpoints(edges: Seq<Edge>, rows: Seq<Seq<i64>>, n: nat) -> Map<
    (i64, i64),
    Seq<i64>,
>
    decreases n,
{
    if n == 0 {
        Map::empty()
    } else {
        by_endpoints(edges, rows, (n - 1) as nat).insert(
            (edges[n - 1].tail, edges[n - 1].head),
            rows[n - 1],
        )
    }
}

/// The arc-by-arc `rows` read commodity by commodity: row `k` holds commodity `k`'s
/// value on every arc.
pub open spec fn by_commodity(rows: Seq<Seq<i64>>, num: nat) -> Seq<Seq<i64>> {
    Seq::new(num, |k: int| Seq::new(rows.len(), |i: int| rows[i][k]))
}

/// `(k, tail, head)` for every arc and, within it, every commodity `k < num`.
pub open spec fn arc_commodity_edges(edges: Seq<Edge>, num: nat) -> Seq<(usize, i64, i64)>
    decreases edges.len(),
{
    if edges.len() == 0 {
        Seq::empty()
    } else {
        let e = edges.last();
        arc_commodity_edges(edges.drop_last(), num) + Seq::new(
            num,
            |k: int| (k as usize, e.tail, e.head),
        )
    }
}

/// The upper bound of every arc, once per commodity.
pub open spec fn repeated_capacities(edges: Seq<Edge>, num: nat) -> Seq<i64>
    decreases edges.len(),
{
    if edges.len() == 0 {
        Seq::empty()
    } else {
        repeated_capacities(edges.drop_last(), num) + Seq::new(num, |k: int| edges.last().up)
    }
}

/// No arc after arc `i` among the first `n` has the same endpoints.
pub open spec fn last_with_endpoints(edges: Seq<Edge>, n: nat, i: int) -> bool {
    forall|j: int|
        i < j < n ==> !((#[trigger] edges[j]).tail == edges[i].tail && edges[j].head
            == edges[i].head)
}

/// The entry of an arc's endpoints holds the row of the last arc with those
/// endpoints.
pub proof fn lemma_by_endpoints_last(edges: Seq<Edge>, rows: Seq<Seq<i64>>, n: nat, i: int)
    requires
        0 <= i < n,
        last_with_endpoints(edges, n, i),
    ensures
        by_endpoints(edges, rows, n).contains_key((edges[i].tail, edges[i].head)),
        by_endpoints(edges, rows, n)[(edges[i].tail, edges[i].head)] == rows[i],
    decreases n,
{
    if i < n - 1 {
        assert(!(edges[n - 1].tail == edges[i].tail && edges[n - 1].head == edges[i].head));
        lemma_by_endpoints_last(edges, rows, (n - 1) as nat, i);
    }
}

/// `drawn` holds one value per commodity for each of `arcs` arcs.
pub open spec fn draws_shaped(drawn: Seq<Seq<i64>>, arcs: nat, num: nat) -> bool {
    &&& drawn.len() == arcs
    &&& forall|i: int| 0 <= i < arcs ==> (#[trigger] drawn[i]).len() == num
}

/// Assembles the multi-commodity data of `instance` split into `num_commodities`
/// commodities. The supplies come split as `supply_partition`; `method` names the
/// split (`1` for the even one). Every arc is copied once per commodity with its
/// upper bound. Each commodity's cost and capacity on an arc are the drawn ones (in
/// `drawn_costs[arc][k]` and `drawn_caps[arc][k]`, raised to their floors) where
/// that quantity is randomized, else the arc's own. They are recorded by arc index,
/// by arc endpoints and, for the costs, commodity by commodity.
pub fn assemble_multi_commodity_data(
    instance: &NetworkInstance,
    num_commodities: usize,
    method: i64,
    supply_partition: BTreeMap<i64, Vec<i64>>,
    randomize_caps: bool,
    drawn_caps: &Vec<Vec<i64>>,
    randomize_costs: bool,
    drawn_costs: &Vec<Vec<i64>>,
    seed: u64,
) -> (data: MultiCommodityData)
    requires
        randomize_caps ==> draws_shaped(
            rows_view(drawn_caps@),
            instance.edges@.len(),
            num_commodities as nat,
        ),
        randomize_costs ==> draws_shaped(
            rows_view(drawn_costs@),
            instance.edges@.len(),
            num_commodities as nat,
        ),
    ensures
        ({
            let edges = instance.edges@;
            let num = num_commodities as nat;
            let costs = cost_rows(edges, randomize_costs, rows_view(drawn_costs@), num);
            let caps = capacity_rows(edges, randomize_caps, rows_view(drawn_caps@), num);
            &&& data.supply_partition@ == supply_partition@
            &&& data.is_uniform == (method == 1)
            &&& data.commodity_edges@ == arc_commodity_edges(edges, num)
            &&& data.capacities@ == repeated_capacities(edges, num)
            &&& map_view(data.weights_by_arc@) == by_index(costs)
            &&& map_view(data.capacities_by_arc@) == by_index(caps)
            &&& map_view(data.commodity_weights@) == by_endpoints(edges, costs, edges.len())
            &&& map_view(data.commodity_capacities@) == by_endpoints(edges, caps, edges.len())
            &&& rows_view(data.weight@) == by_commodity(costs, num)
            &&& data.num_commodities == num_commodities
            &&& data.randomized_capacities == randomize_caps
            &&& data.randomized_weights == randomize_costs
            &&& data.seed == seed
        }),
        tables_consistent(*instance, data),
{
    let ghost edges = instance.edges@;
    let ghost num = num_commodities as nat;
    let ghost costs = cost_rows(edges, randomize_costs, rows_view(drawn_costs@), num);
    let ghost caps = capacity_rows(edges, randomize_caps, rows_view(drawn_caps@), num);
    let num_arcs = instance.edges.len();
    let mut weights_by_arc: BTreeMap<usize, Vec<i64>> = BTreeMap::new();
    let mut capacities_by_arc: BTreeMap<usize, Vec<i64>> = BTreeMap::new();
    let mut commodity_weights: BTreeMap<(i64, i64), Vec<i64>> = BTreeMap::new();
    let mut commodity_capacities: BTreeMap<(i64, i64), Vec<i64>> = BTreeMap::new();
    let mut commodity_edges: Vec<(usize, i64, i64)> = Vec::new();
    let mut base_capacities: Vec<i64> = Vec::new();
    let mut i: usize = 0;
    while i < num_arcs
        invariant
            num_arcs == edges.len(),
            edges == instance.edges@,
            num == num_commodities,
            costs == cost_rows(edges, randomize_costs, rows_view(drawn_costs@), num),
            caps == capacity_rows(edges, randomize_caps, rows_view(drawn_caps@), num),
            randomize_caps ==> draws_shaped(rows_view(drawn_caps@), edges.len(), num),
            randomize_costs ==> draws_shaped(rows_view(drawn_costs@), edges.len(), num),
            i <= num_arcs,
            commodity_edges@ == arc_commodity_edges(edges.take(i as int), num),
            base_capacities@ == repeated_capacities(edges.take(i as int), num),
            map_view(weights_by_arc@) == by_index(costs.take(i as int)),
            map_view(capacities_by_arc@) == by_index(caps.take(i as int)),
            map_view(commodity_weights@) == by_endpoints(edges, costs, i as nat),
            map_view(commodity_capacities@) == by_endpoints(edges, caps, i as nat),
        decreases num_arcs - i,
    {
        let e = instance.edges[i];
        let ghost ce0 = commodity_edges@;
        let ghost bc0 = base_capacities@;
        let mut arc_costs: Vec<i64> = Vec::new();
        let mut arc_caps: Vec<i64> = Vec::new();
        let mut k: usize = 0;
        while k < num_commodities
            invariant
                i < num_arcs,
                num_arcs == edges.len(),
                e == edges[i as int],
                num == num_commodities,
                costs == cost_rows(edges, randomize_costs, rows_view(drawn_costs@), num),
                caps == capacity_rows(edges, randomize_caps, rows_view(drawn_caps@), num),
                randomize_caps ==> draws_shaped(rows_view(drawn_caps@), edges.len(), num),
                randomize_costs ==> draws_shaped(rows_view(drawn_costs@), edges.len(), num),
                k <= num_commodities,
                commodity_edges@ == ce0 + Seq::new(k as nat, |j: int| (j as usize, e.tail, e.head)),
                base_capacities@ == bc0 + Seq::new(k as nat, |j: int| e.up),
                arc_costs@ == costs[i as int].take(k as int),
                arc_caps@ == caps[i as int].take(k as int),
            decreases num_commodities - k,
        {
            commodity_edges.push((k, e.tail, e.head));
            base_capacities.push(e.up);
            let cost = if randomize_costs {
                proof {
                    assert(rows_view(drawn_costs@)[i as int] == drawn_costs@[i as int]@);
                }
                let raw = drawn_costs[i][k];
                let floor: i64 = if e.cost == 0 {
                    0
                } else {
                    1
                };
                if raw < floor {
                    floor
                } else {
                    raw
                }
            } else {
                e.cost
            };
            let cap = if randomize_caps {
                proof {
                    assert(rows_view(drawn_caps@)[i as int] == drawn_caps@[i as int]@);
                }
                let raw = drawn_caps[i][k];
                if raw < 1 {
                    1
                } else {
                    raw
                }
            } else {
                e.up
            };
            arc_costs.push(cost);
            arc_caps.push(cap);
            proof {
                assert(commodity_edges@ =~= ce0 + Seq::new(
                    (k + 1) as nat,
                    |j: int| (j as usize, e.tail, e.head),
                ));
                assert(base_capacities@ =~= bc0 + Seq::new((k + 1) as nat, |j: int| e.up));
                assert(arc_costs@ =~= costs[i as int].take(k + 1));
                assert(arc_caps@ =~= caps[i as int].take(k + 1));
            }
            k = k + 1;
        }
        proof {
            assert(edges.take(i + 1).drop_last() =~= edges.take(i as int));
            assert(edges.take(i + 1).last() == e);
            assert(costs[i as int].take(num as int) =~= costs[i as int]);
            assert(caps[i as int].take(num as int) =~= caps[i as int]);
        }
        let ghost wba0 = weights_by_arc@;
        let ghost cba0 = capacities_by_arc@;
        let ghost cw0 = commodity_weights@;
        let ghost cc0 = commodity_capacities@;
        let costs_a = arc_costs.clone();
        let costs_b = arc_costs.clone();
        let caps_a = arc_caps.clone();
        proof {
            assert(costs_a@ =~= arc_costs@);
            assert(costs_b@ =~= arc_costs@);
            assert(caps_a@ =~= arc_caps@);
        }
        weights_by_arc.insert(i, costs_a);
        capacities_by_arc.insert(i, caps_a);
        commodity_weights.insert((e.tail, e.head), costs_b);
        commodity_capacities.insert((e.tail, e.head), arc_caps);
        proof {
            lemma_by_index_insert(wba0, costs, i, costs_a);
            lemma_by_index_insert(cba0, caps, i, caps_a);
            lemma_map_view_insert(cw0, (e.tail, e.head), costs_b);
            lemma_map_view_insert(cc0, (e.tail, e.head), arc_caps);
        }
        i = i + 1;
    }
    proof {
        assert(edges.take(num_arcs as int) =~= edges);
        assert(costs.take(num_arcs as int) =~= costs);
        assert(caps.take(num_arcs as int) =~= caps);
    }
    let mut weight: Vec<Vec<i64>> = Vec::new();
    let mut k: usize = 0;
    while k < num_commodities
        invariant
            num_arcs == edges.len(),
            num == num_commodities,
            costs.len() == num_arcs,
            forall|a: int| 0 <= a < num_arcs ==> (#[trigger] costs[a]).len() == num,
            map_view(weights_by_arc@) == by_index(costs),
            k <= num_commodities,
            rows_view(weight@) == by_commodity(costs, num).take(k as int),
        decreases num_commodities - k,
    {
        let mut w: Vec<i64> = Vec::new();
        let mut a: usize = 0;
        while a < num_arcs
            invariant
                num_arcs == costs.len(),
                k < num_commodities,
                num == num_commodities,
                forall|b: int| 0 <= b < num_arcs ==> (#[trigger] costs[b]).len() == num,
                map_view(weights_by_arc@) == by_index(costs),
                a <= num_arcs,
                w@ == by_commodity(costs, num)[k as int].take(a as int),
            decreases num_arcs - a,
        {
            proof {
                assert(by_index(costs).contains_key(a));
                assert(map_view(weights_by_arc@).contains_key(a));
                assert(map_view(weights_by_arc@)[a] == weights_by_arc@[a]@);
                assert(weights_by_arc@[a]@ == costs[a as int]);
            }
            let row = weights_by_arc.get(&a).unwrap();
            w.push(row[k]);
            proof {
                assert(w@ =~= by_commodity(costs, num)[k as int].take(a + 1));
            }
            a = a + 1;
        }
        proof {
            assert(w@ =~= by_commodity(costs, num)[k as int]);
        }
        let ghost weight0 = weight@;
        weight.push(w);
        proof {
            assert(rows_view(weight@).drop_last() =~= rows_view(weight0));
            assert(rows_view(weight@) =~= by_commodity(costs, num).take(k + 1));
        }
        k = k + 1;
    }
    proof {
        assert(rows_view(weight@) =~= by_commodity(costs, num));
    }
    let data = MultiCommodityData {
        supply_partition,
        is_uniform: method == 1,
        commodity_edges,
        capacities: base_capacities,
        weight,
        weights_by_arc,
        capacities_by_arc,
        commodity_capacities,
        commodity_weights,
        num_commodities,
        randomized_capacities: randomize_caps,
        randomized_weights: randomize_costs,
        seed,
    };
    proof {
        let m = edges.len();
        assert(indexed_rows(data.weights_by_arc@, m) =~= costs) by {
            assert forall|a: int| 0 <= a < m implies #[trigger] indexed_rows(data.weights_by_arc@, m)[a]
                == costs[a] by {
                assert(by_index(costs).contains_key(a as usize));
                assert(map_view(data.weights_by_arc@)[a as usize] == data.weights_by_arc@[a as usize]@);
            }
        }
        assert(indexed_rows(data.capacities_by_arc@, m) =~= caps) by {
            assert forall|a: int| 0 <= a < m implies #[trigger] indexed_rows(data.capacities_by_arc@, m)[a]
                == caps[a] by {
                assert(by_index(caps).contains_key(a as usize));
                assert(map_view(data.capacities_by_arc@)[a as usize] == data.capacities_by_arc@[a as usize]@);
            }
        }
        assert(map_view(data.weights_by_arc@).dom() =~= data.weights_by_arc@.dom());
        assert(map_view(data.capacities_by_arc@).dom() =~= data.capacities_by_arc@.dom());
        assert forall|a: int| 0 <= a < m implies #[trigger] arc_rows_agree(data, m, a) by {
            assert(by_index(caps).contains_key(a as usize));
            assert(by_index(costs).contains_key(a as usize));
            assert(map_view(data.weights_by_arc@).contains_key(a as usize));
            assert(map_view(data.capacities_by_arc@).contains_key(a as usize));
            assert(indexed_rows(data.capacities_by_arc@, m)[a] == caps[a]);
            assert(indexed_rows(data.weights_by_arc@, m)[a] == costs[a]);
            if !randomize_caps {
                assert(caps[a] =~= repeat(caps[a][0], num));
            }
            if !randomize_costs {
                assert(costs[a] =~= repeat(costs[a][0], num));
            }
        }
    }
    data
}

/// Inserting row `i` by its index extends the rows recorded by index by one.
proof fn lemma_by_index_insert(m: Map<usize, Vec<i64>>, rows: Seq<Seq<i64>>, i: usize, w: Vec<i64>)
    requires
        i < rows.len(),
        map_view(m) == by_index(rows.take(i as int)),
        w@ == rows[i as int],
    ensures
        map_view(m.insert(i, w)) == by_index(rows.take(i + 1)),
{
    let mv = map_view(m.insert(i, w));
    let tgt = by_index(rows.take(i + 1));
    assert forall|j: usize| mv.contains_key(j) <==> tgt.contains_key(j) by {
        if j != i {
            assert(map_view(m).contains_key(j) == by_index(rows.take(i as int)).contains_key(j));
        }
    }
    assert forall|j: usize| mv.contains_key(j) implies mv[j] == tgt[j] by {
        if j != i {
            assert(map_view(m)[j] == by_index(rows.take(i as int))[j]);
        }
    }
    assert(mv =~= tgt);
}

/// Viewing a map after an insertion is inserting the view of the new value.
proof fn lemma_map_view_insert<K>(m: Map<K, Vec<i64>>, key: K, v: Vec<i64>)
    ensures
        map_view(m.insert(key, v)) == map_view(m).insert(key, v@),
{
    assert(map_view(m.insert(key, v)) =~= map_view(m).insert(key, v@));
}

} // verus!
