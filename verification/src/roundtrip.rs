//! What reading back the text of a multi-commodity instance gives.

use crate::keys::{lemma_sorted_keys_exist, sorted_keys};
use crate::logic::assembly::{by_endpoints, last_with_endpoints, lemma_by_endpoints_last};
use crate::logic::sums::{row_sum, same_signed};
use crate::models::{Edge, MultiCommodityData, NetworkInstance, ParseError, map_view};
use crate::text::{
    is_word, join_words, lemma_lines_join, lemma_print_parse_int, lemma_words_join,
    lemma_words_join_words, lemma_words_of_word, is_line, is_ws, is_digit, print_int,
    words_of, words_of_all, leading_ws, leading_word, lemma_leading_bounds, lines_of,
};
use crate::utils::{
    MultiAcc, add_node, arc_line, commodity_values, export_lines, export_ready, export_text,
    flag_field, flag_num, header_text, i64_fields, int_field, multi_fold, multi_start, multi_step,
    node_line, printed, problem_line, repeat, shown, spec_parse_multi, sums_fit, written_seed,
};
use vstd::prelude::*;

verus! {

/// The capacities or costs of an arc as read back: the written values when
/// expanded, else the first one for each of the `k` commodities.
pub open spec fn read_back(vals: Seq<i64>, expanded: bool, k: nat) -> Seq<i64> {
    if expanded {
        vals
    } else {
        repeat(vals[0], k)
    }
}

/// `inst` with `data` can be written and read back: it can be written, declares no
/// negative number of arcs, and every expanded list of capacities or costs has one
/// value per commodity.
pub open spec fn round_trip_ready(inst: NetworkInstance, data: MultiCommodityData) -> bool {
    &&& export_ready(inst, data)
    &&& inst.num_arcs >= 0
    &&& forall|i: int|
        0 <= i < inst.edges@.len() ==> {
            &&& (data.randomized_capacities ==> (#[trigger] data.capacities_by_arc@[i as usize])@.len()
                == data.num_commodities)
            &&& (data.randomized_weights ==> data.weights_by_arc@[i as usize]@.len()
                == data.num_commodities)
        }
}

/// The reader's state right after the problem line.
pub open spec fn acc_after_problem(inst: NetworkInstance, data: MultiCommodityData) -> MultiAcc {
    MultiAcc {
        num_nodes: inst.num_nodes,
        num_arcs: inst.num_arcs,
        num_commodities: data.num_commodities,
        rand_caps: data.randomized_capacities,
        rand_costs: data.randomized_weights,
        is_uniform: data.is_uniform,
        seed: written_seed(data),
        ..multi_start()
    }
}

/// The reader's state after the node lines of `keys`.
pub open spec fn acc_after_nodes(acc: MultiAcc, keys: Seq<i64>, part: Map<i64, Seq<i64>>) -> MultiAcc
    decreases keys.len(),
{
    if keys.len() == 0 {
        acc
    } else {
        let a = acc_after_nodes(acc, keys.drop_last(), part);
        let n = keys.last();
        MultiAcc {
            supplies: a.supplies.insert(n, row_sum(part[n]) as i64),
            partition: a.partition.insert(n, part[n]),
            nodes: add_node(a.nodes, n),
            ..a
        }
    }
}

/// The reader's state after the first `m` arc lines.
pub open spec fn acc_after_arcs(
    acc: MultiAcc,
    inst: NetworkInstance,
    data: MultiCommodityData,
    m: nat,
) -> MultiAcc
    decreases m,
{
    if m == 0 {
        acc
    } else {
        let a = acc_after_arcs(acc, inst, data, (m - 1) as nat);
        let e = inst.edges@[m - 1];
        let k = data.num_commodities as nat;
        MultiAcc {
            edges: a.edges.push((e.tail, e.head)),
            capacities: a.capacities.push(e.up),
            commodity_capacities: a.commodity_capacities.insert(
                (e.tail, e.head),
                read_back(data.capacities_by_arc@[(m - 1) as usize]@, data.randomized_capacities, k),
            ),
            commodity_weights: a.commodity_weights.insert(
                (e.tail, e.head),
                read_back(data.weights_by_arc@[(m - 1) as usize]@, data.randomized_weights, k),
            ),
            nodes: add_node(add_node(a.nodes, e.tail), e.head),
            ..a
        }
    }
}

/// What reading back the text of `inst` with `data` gives.
pub open spec fn export_acc(inst: NetworkInstance, data: MultiCommodityData) -> MultiAcc {
    acc_after_arcs(
        acc_after_nodes(
            acc_after_problem(inst, data),
            sorted_keys(data.supply_partition@.dom()),
            map_view(data.supply_partition@),
        ),
        inst,
        data,
        inst.edges@.len(),
    )
}

/// An integer written in decimal is one word.
pub proof fn lemma_print_is_word(v: int)
    ensures
        is_word(print_int(v)),
{
    lemma_print_parse_int(v, true, v, v);
    assert forall|i: int| 0 <= i < print_int(v).len() implies !is_ws(#[trigger] print_int(v)[i]) by {
        assert(print_int(v)[i] == '-' || is_digit(print_int(v)[i]));
    }
}

proof fn lemma_printed_words(vals: Seq<i64>)
    ensures
        forall|i: int| 0 <= i < printed(vals).len() ==> is_word(#[trigger] printed(vals)[i]),
        words_of(join_words(printed(vals))) == printed(vals),
{
    assert forall|i: int| 0 <= i < printed(vals).len() implies is_word(#[trigger] printed(vals)[i]) by {
        lemma_print_is_word(vals[i] as int);
    }
    lemma_words_join_words(printed(vals));
}

/// Words that print `vals` read back as `vals`.
pub proof fn lemma_i64_fields_printed(ws: Seq<Seq<char>>, start: int, vals: Seq<i64>)
    requires
        0 <= start,
        start + vals.len() <= ws.len(),
        ws.subrange(start, start + vals.len()) == printed(vals),
    ensures
        i64_fields(ws, start, vals.len()) == Ok::<Seq<i64>, ParseError>(vals),
    decreases vals.len(),
{
    if vals.len() > 0 {
        assert(ws[start] == printed(vals)[0]);
        lemma_print_parse_int(vals[0] as int, true, i64::MIN as int, i64::MAX as int);
        let rest = vals.drop_first();
        assert(ws.subrange(start + 1, start + 1 + rest.len()) =~= printed(rest)) by {
            assert forall|i: int| 0 <= i < rest.len() implies ws.subrange(
                start + 1,
                start + 1 + rest.len(),
            )[i] == printed(rest)[i] by {
                assert(ws[start + 1 + i] == printed(vals)[i + 1]);
            }
        }
        lemma_i64_fields_printed(ws, start + 1, rest);
        assert(seq![vals[0]] + rest =~= vals);
    } else {
        assert(vals =~= Seq::<i64>::empty());
    }
}

/// The comment line changes nothing.
proof fn lemma_header_step(acc: MultiAcc)
    ensures
        multi_step(acc, header_text()) == Ok::<MultiAcc, ParseError>(acc),
        is_line(header_text()),
{
    reveal_strlit("c Multicommodity flow generated by s2mflow");
    let h = header_text();
    assert(h[0] == 'c');
    let ws = words_of(h);
    lemma_leading_bounds(h);
    assert(leading_ws(h) == 0);
    assert(h.skip(0) =~= h);
    if ws.len() > 0 {
        assert(ws[0] == h.take(leading_word(h)));
        assert(ws[0][0] == 'c');
        assert(ws[0] != seq!['p']);
        assert(ws[0] != seq!['n']);
        assert(ws[0] != seq!['a']);
    }
}

proof fn lemma_problem_step(inst: NetworkInstance, data: MultiCommodityData)
    requires
        inst.num_arcs >= 0,
    ensures
        multi_step(
            multi_start(),
            problem_line(
                inst.num_nodes,
                inst.num_arcs,
                data.num_commodities,
                data.randomized_capacities,
                data.randomized_weights,
                data.is_uniform,
                written_seed(data),
            ),
        ) == Ok::<MultiAcc, ParseError>(acc_after_problem(inst, data)),
{
    let parts = seq![
        seq!['p'],
        seq!['m', 'i', 'n'],
        print_int(inst.num_nodes as int),
        print_int(inst.num_arcs as int),
        print_int(data.num_commodities as int),
        print_int(flag_num(data.randomized_capacities)),
        print_int(flag_num(data.randomized_weights)),
        print_int(flag_num(data.is_uniform)),
        print_int(written_seed(data) as int),
    ];
    assert forall|i: int| 0 <= i < parts.len() implies is_word(#[trigger] parts[i]) by {
        if i >= 2 {
            lemma_print_is_word(
                if i == 2 {
                    inst.num_nodes as int
                } else if i == 3 {
                    inst.num_arcs as int
                } else if i == 4 {
                    data.num_commodities as int
                } else if i == 5 {
                    flag_num(data.randomized_capacities)
                } else if i == 6 {
                    flag_num(data.randomized_weights)
                } else if i == 7 {
                    flag_num(data.is_uniform)
                } else {
                    written_seed(data) as int
                },
            );
        }
    }
    lemma_words_join_words(parts);
    let ws = words_of(join_words(parts));
    assert(ws == parts);
    lemma_print_parse_int(inst.num_nodes as int, true, i64::MIN as int, i64::MAX as int);
    lemma_print_parse_int(inst.num_arcs as int, true, i64::MIN as int, i64::MAX as int);
    lemma_print_parse_int(data.num_commodities as int, false, 0, usize::MAX as int);
    lemma_print_parse_int(written_seed(data) as int, false, 0, u64::MAX as int);
    lemma_print_parse_int(flag_num(data.randomized_capacities), true, i32::MIN as int, i32::MAX as int);
    lemma_print_parse_int(flag_num(data.randomized_weights), true, i32::MIN as int, i32::MAX as int);
    lemma_print_parse_int(flag_num(data.is_uniform), true, i32::MIN as int, i32::MAX as int);
    assert(ws[0] == seq!['p']);
    assert(int_field(ws, 2, true, i64::MIN as int, i64::MAX as int) == Ok::<int, ParseError>(inst.num_nodes as int));
    assert(int_field(ws, 3, true, i64::MIN as int, i64::MAX as int) == Ok::<int, ParseError>(inst.num_arcs as int));
    assert(int_field(ws, 4, false, 0, usize::MAX as int) == Ok::<int, ParseError>(data.num_commodities as int));
    assert(int_field(ws, 8, false, 0, u64::MAX as int) == Ok::<int, ParseError>(written_seed(data) as int));
    assert(flag_field(ws, 5) == Ok::<bool, ParseError>(data.randomized_capacities));
    assert(flag_field(ws, 6) == Ok::<bool, ParseError>(data.randomized_weights));
    assert(flag_field(ws, 7) == Ok::<bool, ParseError>(data.is_uniform));
}


proof fn lemma_four_parts(a: Seq<char>, b: Seq<char>, c: Seq<char>, rest: Seq<char>)
    ensures
        words_of_all(seq![a, b, c, rest]) == words_of(a) + words_of(b) + words_of(c) + words_of(
            rest,
        ),
{
    reveal_with_fuel(words_of_all, 5);
    let ps = seq![a, b, c, rest];
    assert(ps.drop_first() =~= seq![b, c, rest]);
    assert(ps.drop_first().drop_first() =~= seq![c, rest]);
    assert(ps.drop_first().drop_first().drop_first() =~= seq![rest]);
    assert(ps.drop_first().drop_first().drop_first().drop_first() =~= Seq::<Seq<char>>::empty());
    assert(words_of_all(seq![rest]) =~= words_of(rest));
    assert(words_of_all(seq![c, rest]) =~= words_of(c) + words_of(rest));
    assert(words_of_all(seq![b, c, rest]) =~= words_of(b) + words_of(c) + words_of(rest));
}

/// The words of a node line: `n`, the node, the sum of its values, its values.
proof fn lemma_node_words(n: i64, vals: Seq<i64>)
    ensures
        words_of(node_line(n, vals)) == seq![
            seq!['n'],
            print_int(n as int),
            print_int(row_sum(vals)),
        ] + printed(vals),
{
    let pn = print_int(n as int);
    let pt = print_int(row_sum(vals));
    let rest = join_words(printed(vals));
    let parts = seq![seq!['n'], pn, pt, rest];
    lemma_words_join(parts);
    lemma_four_parts(seq!['n'], pn, pt, rest);
    lemma_print_is_word(n as int);
    lemma_print_is_word(row_sum(vals));
    assert(is_word(seq!['n']));
    lemma_words_of_word(seq!['n']);
    lemma_words_of_word(pn);
    lemma_words_of_word(pt);
    lemma_printed_words(vals);
}

/// A node line adds the node's total, its values and the node.
proof fn lemma_node_step(acc: MultiAcc, n: i64, vals: Seq<i64>)
    requires
        sums_fit(vals),
    ensures
        multi_step(acc, node_line(n, vals)) == Ok::<MultiAcc, ParseError>(
            MultiAcc {
                supplies: acc.supplies.insert(n, row_sum(vals) as i64),
                partition: acc.partition.insert(n, vals),
                nodes: add_node(acc.nodes, n),
                ..acc
            },
        ),
{
    assert(vals.take(vals.len() as int) =~= vals);
    let total = row_sum(vals);
    assert(i64::MIN <= total <= i64::MAX);
    let pn = print_int(n as int);
    let pt = print_int(total);
    lemma_node_words(n, vals);
    let ws = words_of(node_line(n, vals));
    assert(ws == seq![seq!['n'], pn, pt] + printed(vals));
    assert(ws[0] == seq!['n']);
    assert(ws.subrange(1, 3) =~= printed(seq![n, total as i64]));
    lemma_i64_fields_printed(ws, 1, seq![n, total as i64]);
    assert(int_field(ws, 1, true, i64::MIN as int, i64::MAX as int) == Ok::<int, ParseError>(
        n as int,
    ));
    assert(i64_fields(ws, 2, 1) == Ok::<Seq<i64>, ParseError>(seq![total as i64])) by {
        assert(seq![n, total as i64].drop_first() =~= seq![total as i64]);
    }
    assert(int_field(ws, 2, true, i64::MIN as int, i64::MAX as int) == Ok::<int, ParseError>(
        total,
    ));
    assert(ws.len() - 3 == vals.len());
    assert(ws.subrange(3, 3 + vals.len() as int) =~= printed(vals));
    lemma_i64_fields_printed(ws, 3, vals);
}

pub open spec fn arc_head_words(e: Edge) -> Seq<Seq<char>> {
    seq![
        seq!['a'],
        print_int(e.tail as int),
        print_int(e.head as int),
        print_int(e.low as int),
        print_int(e.up as int),
    ]
}

proof fn lemma_arc_words(e: Edge, sc: Seq<i64>, sw: Seq<i64>)
    ensures
        words_of(arc_line(e, sc, sw)) == arc_head_words(e) + printed(sc) + printed(sw),
{
    let head_words = arc_head_words(e);
    let tail_parts = seq![join_words(printed(sc)), join_words(printed(sw))];
    let parts = head_words + tail_parts;
    assert(parts =~= seq![
        seq!['a'],
        print_int(e.tail as int),
        print_int(e.head as int),
        print_int(e.low as int),
        print_int(e.up as int),
        join_words(printed(sc)),
        join_words(printed(sw)),
    ]);
    lemma_words_join(parts);
    lemma_words_all_split(head_words, tail_parts);
    assert(is_word(seq!['a']));
    lemma_print_is_word(e.tail as int);
    lemma_print_is_word(e.head as int);
    lemma_print_is_word(e.low as int);
    lemma_print_is_word(e.up as int);
    assert forall|i: int| 0 <= i < head_words.len() implies is_word(#[trigger] head_words[i]) by {}
    lemma_words_join_words(head_words);
    lemma_printed_words(sc);
    lemma_printed_words(sw);
    assert(tail_parts =~= seq![join_words(printed(sc))] + seq![join_words(printed(sw))]);
    lemma_words_all_split(seq![join_words(printed(sc))], seq![join_words(printed(sw))]);
    lemma_single_part(join_words(printed(sc)));
    lemma_single_part(join_words(printed(sw)));
}

proof fn lemma_single_part(p: Seq<char>)
    ensures
        words_of_all(seq![p]) == words_of(p),
{
    assert(seq![p].drop_first() =~= Seq::<Seq<char>>::empty());
    assert(words_of_all(seq![p].drop_first()) =~= Seq::<Seq<char>>::empty());
    assert(words_of_all(seq![p]) =~= words_of(p));
}

/// Capacities or costs written from word `at` on read back as `read_back`.
proof fn lemma_commodity_values_printed(
    ws: Seq<Seq<char>>,
    at: int,
    vals: Seq<i64>,
    expanded: bool,
    k: nat,
)
    requires
        0 <= at,
        at + shown(vals, expanded).len() <= ws.len(),
        ws.subrange(at, at + shown(vals, expanded).len()) == printed(shown(vals, expanded)),
        expanded ==> vals.len() == k,
        !expanded ==> vals.len() >= 1,
    ensures
        commodity_values(ws, at, k, expanded) == Ok::<(Seq<i64>, int), ParseError>(
            (read_back(vals, expanded, k), at + shown(vals, expanded).len()),
        ),
{
    if expanded {
        lemma_i64_fields_printed(ws, at, vals);
    } else {
        assert(ws[at] == ws.subrange(at, at + 1)[0]);
        assert(ws[at] == print_int(vals[0] as int));
        lemma_print_parse_int(vals[0] as int, true, i64::MIN as int, i64::MAX as int);
    }
}

/// An arc line adds the arc, its bound and its capacities and costs as read back.
proof fn lemma_arc_step(acc: MultiAcc, e: Edge, caps: Seq<i64>, costs: Seq<i64>)
    requires
        acc.rand_caps ==> caps.len() == acc.num_commodities,
        !acc.rand_caps ==> caps.len() >= 1,
        acc.rand_costs ==> costs.len() == acc.num_commodities,
        !acc.rand_costs ==> costs.len() >= 1,
    ensures
        multi_step(acc, arc_line(e, shown(caps, acc.rand_caps), shown(costs, acc.rand_costs)))
            == Ok::<MultiAcc, ParseError>(
            MultiAcc {
                edges: acc.edges.push((e.tail, e.head)),
                capacities: acc.capacities.push(e.up),
                commodity_capacities: acc.commodity_capacities.insert(
                    (e.tail, e.head),
                    read_back(caps, acc.rand_caps, acc.num_commodities as nat),
                ),
                commodity_weights: acc.commodity_weights.insert(
                    (e.tail, e.head),
                    read_back(costs, acc.rand_costs, acc.num_commodities as nat),
                ),
                nodes: add_node(add_node(acc.nodes, e.tail), e.head),
                ..acc
            },
        ),
{
    let k = acc.num_commodities as nat;
    let sc = shown(caps, acc.rand_caps);
    let sw = shown(costs, acc.rand_costs);
    lemma_arc_words(e, sc, sw);
    let ws = words_of(arc_line(e, sc, sw));
    let hw = arc_head_words(e);
    assert(ws == hw + printed(sc) + printed(sw));
    assert(ws[0] == seq!['a']);
    assert(ws.subrange(1, 3) =~= printed(seq![e.tail, e.head]));
    lemma_i64_fields_printed(ws, 1, seq![e.tail, e.head]);
    lemma_print_parse_int(e.up as int, true, i64::MIN as int, i64::MAX as int);
    assert(ws[4] == print_int(e.up as int));
    let next: int = 5 + sc.len() as int;
    assert(ws.subrange(5, next) =~= printed(sc));
    lemma_commodity_values_printed(ws, 5, caps, acc.rand_caps, k);
    assert(ws.subrange(next, next + sw.len() as int) =~= printed(sw));
    lemma_commodity_values_printed(ws, next, costs, acc.rand_costs, k);
}

proof fn lemma_words_all_split(a: Seq<Seq<char>>, b: Seq<Seq<char>>)
    ensures
        words_of_all(a + b) == words_of_all(a) + words_of_all(b),
    decreases a.len(),
{
    if a.len() == 0 {
        assert(a + b =~= b);
        assert(words_of_all(a) =~= Seq::<Seq<char>>::empty());
    } else {
        assert((a + b).drop_first() =~= a.drop_first() + b);
        lemma_words_all_split(a.drop_first(), b);
        assert(words_of_all(a + b) =~= words_of_all(a) + words_of_all(b));
    }
}


proof fn lemma_nodes_keep_header(acc: MultiAcc, keys: Seq<i64>, part: Map<i64, Seq<i64>>)
    ensures
        ({
            let a = acc_after_nodes(acc, keys, part);
            &&& a.num_nodes == acc.num_nodes
            &&& a.num_arcs == acc.num_arcs
            &&& a.num_commodities == acc.num_commodities
            &&& a.rand_caps == acc.rand_caps
            &&& a.rand_costs == acc.rand_costs
            &&& a.is_uniform == acc.is_uniform
            &&& a.seed == acc.seed
            &&& a.edges == acc.edges
            &&& a.capacities == acc.capacities
            &&& a.commodity_capacities == acc.commodity_capacities
            &&& a.commodity_weights == acc.commodity_weights
        }),
    decreases keys.len(),
{
    if keys.len() > 0 {
        lemma_nodes_keep_header(acc, keys.drop_last(), part);
    }
}

proof fn lemma_arcs_keep_header(
    acc: MultiAcc,
    inst: NetworkInstance,
    data: MultiCommodityData,
    m: nat,
)
    ensures
        ({
            let a = acc_after_arcs(acc, inst, data, m);
            &&& a.num_nodes == acc.num_nodes
            &&& a.num_arcs == acc.num_arcs
            &&& a.num_commodities == acc.num_commodities
            &&& a.rand_caps == acc.rand_caps
            &&& a.rand_costs == acc.rand_costs
            &&& a.is_uniform == acc.is_uniform
            &&& a.seed == acc.seed
            &&& a.supplies == acc.supplies
            &&& a.partition == acc.partition
        }),
    decreases m,
{
    if m > 0 {
        lemma_arcs_keep_header(acc, inst, data, (m - 1) as nat);
    }
}

/// The reader's state after the first `j` lines of the text.
pub open spec fn acc_at(inst: NetworkInstance, data: MultiCommodityData, j: int) -> MultiAcc {
    let keys = sorted_keys(data.supply_partition@.dom());
    let part = map_view(data.supply_partition@);
    if j <= 1 {
        multi_start()
    } else if j <= 2 + keys.len() {
        acc_after_nodes(acc_after_problem(inst, data), keys.take(j - 2), part)
    } else {
        acc_after_arcs(
            acc_after_nodes(acc_after_problem(inst, data), keys, part),
            inst,
            data,
            (j - 2 - keys.len()) as nat,
        )
    }
}

proof fn lemma_fold_prefix(inst: NetworkInstance, data: MultiCommodityData, j: int)
    requires
        round_trip_ready(inst, data),
        0 <= j <= export_lines(inst, data).len(),
    ensures
        multi_fold(export_lines(inst, data).take(j)) == Ok::<MultiAcc, ParseError>(
            acc_at(inst, data, j),
        ),
    decreases j,
{
    let ls = export_lines(inst, data);
    let keys = sorted_keys(data.supply_partition@.dom());
    let part = map_view(data.supply_partition@);
    let nk = keys.len() as int;
    if j == 0 {
        assert(ls.take(0) =~= Seq::<Seq<char>>::empty());
    } else {
        lemma_fold_prefix(inst, data, j - 1);
        assert(ls.take(j).drop_last() =~= ls.take(j - 1));
        assert(ls.take(j).last() == ls[j - 1]);
        let prev = acc_at(inst, data, j - 1);
        if j == 1 {
            assert(ls[0] == header_text());
            lemma_header_step(prev);
        } else if j == 2 {
            assert(ls[1] == problem_line(
                inst.num_nodes,
                inst.num_arcs,
                data.num_commodities,
                data.randomized_capacities,
                data.randomized_weights,
                data.is_uniform,
                written_seed(data),
            ));
            lemma_problem_step(inst, data);
            assert(keys.take(0) =~= Seq::<i64>::empty());
        } else if j <= 2 + nk {
            let n = keys[j - 3];
            lemma_sorted_keys_exist(data.supply_partition@.dom());
            assert(keys.to_set().contains(n));
            assert(data.supply_partition@.contains_key(n));
            assert(ls[j - 1] == node_line(n, data.supply_partition@[n]@));
            assert(part[n] == data.supply_partition@[n]@);
            lemma_node_step(prev, n, data.supply_partition@[n]@);
            assert(keys.take(j - 2).drop_last() =~= keys.take(j - 3));
            assert(keys.take(j - 2).last() == n);
            if j == 3 {
                assert(keys.take(0) =~= Seq::<i64>::empty());
            }
        } else {
            let i = j - 3 - nk;
            let base = acc_after_nodes(acc_after_problem(inst, data), keys, part);
            if j - 1 == 2 + nk {
                assert(keys.take(nk) =~= keys);
            }
            assert(prev == acc_after_arcs(base, inst, data, i as nat));
            lemma_nodes_keep_header(acc_after_problem(inst, data), keys, part);
            lemma_arcs_keep_header(base, inst, data, i as nat);
            let e = inst.edges@[i];
            let caps = data.capacities_by_arc@[i as usize]@;
            let costs = data.weights_by_arc@[i as usize]@;
            assert(data.capacities_by_arc@.contains_key(i as usize));
            assert(ls[j - 1] == arc_line(
                e,
                shown(caps, data.randomized_capacities),
                shown(costs, data.randomized_weights),
            ));
            lemma_arc_step(prev, e, caps, costs);
        }
    }
}

/// Writing an instance and reading the text back gives `export_acc`.
pub proof fn lemma_export_parse(inst: NetworkInstance, data: MultiCommodityData)
    requires
        round_trip_ready(inst, data),
    ensures
        spec_parse_multi(export_text(inst, data)) == Ok::<MultiAcc, ParseError>(
            export_acc(inst, data),
        ),
{
    let ls = export_lines(inst, data);
    let keys = sorted_keys(data.supply_partition@.dom());
    lemma_fold_prefix(inst, data, ls.len() as int);
    assert(ls.take(ls.len() as int) =~= ls);
    assert forall|i: int| 0 <= i < ls.len() implies is_line(#[trigger] ls[i]) by {
        lemma_export_line_is_line(inst, data, i);
    }
    lemma_lines_join(ls);
    let nk = keys.len() as int;
    if ls.len() == 2 + nk {
        assert(keys.take(nk) =~= keys);
    }
}

/// No line feed or carriage return.
pub open spec fn clean(s: Seq<char>) -> bool {
    forall|i: int| 0 <= i < s.len() ==> #[trigger] s[i] != '\n' && s[i] != '\r'
}

proof fn lemma_clean_join(ws: Seq<Seq<char>>)
    requires
        forall|i: int| 0 <= i < ws.len() ==> clean(#[trigger] ws[i]),
    ensures
        clean(join_words(ws)),
    decreases ws.len(),
{
    if ws.len() > 1 {
        let d = ws.drop_first();
        assert forall|i: int| 0 <= i < d.len() implies clean(#[trigger] d[i]) by {
            assert(d[i] == ws[i + 1]);
        }
        lemma_clean_join(d);
        let j = join_words(ws);
        assert(j == ws[0] + seq![' '] + join_words(d));
        assert(clean(ws[0]));
        assert forall|i: int| 0 <= i < j.len() implies #[trigger] j[i] != '\n' && j[i] != '\r' by {
            if i < ws[0].len() {
                assert(j[i] == ws[0][i]);
            } else if i > ws[0].len() {
                assert(j[i] == join_words(d)[i - ws[0].len() - 1]);
            }
        }
    } else if ws.len() == 1 {
        assert(clean(ws[0]));
    }
}

proof fn lemma_clean_print(v: int)
    ensures
        clean(print_int(v)),
{
    lemma_print_parse_int(v, true, v, v);
    assert forall|i: int| 0 <= i < print_int(v).len() implies #[trigger] print_int(v)[i] != '\n'
        && print_int(v)[i] != '\r' by {
        assert(print_int(v)[i] == '-' || is_digit(print_int(v)[i]));
    }
}

proof fn lemma_clean_printed(vals: Seq<i64>)
    ensures
        clean(join_words(printed(vals))),
{
    assert forall|i: int| 0 <= i < printed(vals).len() implies clean(#[trigger] printed(vals)[i]) by {
        lemma_clean_print(vals[i] as int);
    }
    lemma_clean_join(printed(vals));
}

proof fn lemma_clean_is_line(s: Seq<char>)
    requires
        clean(s),
    ensures
        is_line(s),
{
    if s.len() > 0 {
        assert(s[s.len() - 1] != '\r');
    }
}

pub proof fn lemma_export_line_is_line(inst: NetworkInstance, data: MultiCommodityData, i: int)
    requires
        0 <= i < export_lines(inst, data).len(),
    ensures
        is_line(export_lines(inst, data)[i]),
{
    let ls = export_lines(inst, data);
    let keys = sorted_keys(data.supply_partition@.dom());
    let nk = keys.len() as int;
    let l = ls[i];
    if i == 0 {
        reveal_strlit("c Multicommodity flow generated by s2mflow");
        assert(l == header_text());
        assert(clean(l));
    } else if i == 1 {
        let parts = seq![
            seq!['p'],
            seq!['m', 'i', 'n'],
            print_int(inst.num_nodes as int),
            print_int(inst.num_arcs as int),
            print_int(data.num_commodities as int),
            print_int(flag_num(data.randomized_capacities)),
            print_int(flag_num(data.randomized_weights)),
            print_int(flag_num(data.is_uniform)),
            print_int(written_seed(data) as int),
        ];
        lemma_clean_print(inst.num_nodes as int);
        lemma_clean_print(inst.num_arcs as int);
        lemma_clean_print(data.num_commodities as int);
        lemma_clean_print(flag_num(data.randomized_capacities));
        lemma_clean_print(flag_num(data.randomized_weights));
        lemma_clean_print(flag_num(data.is_uniform));
        lemma_clean_print(written_seed(data) as int);
        assert forall|j: int| 0 <= j < parts.len() implies clean(#[trigger] parts[j]) by {}
        lemma_clean_join(parts);
    } else if i < 2 + nk {
        let n = keys[i - 2];
        let vals = data.supply_partition@[n]@;
        let parts = seq![
            seq!['n'],
            print_int(n as int),
            print_int(row_sum(vals)),
            join_words(printed(vals)),
        ];
        lemma_clean_print(n as int);
        lemma_clean_print(row_sum(vals));
        lemma_clean_printed(vals);
        assert forall|j: int| 0 <= j < parts.len() implies clean(#[trigger] parts[j]) by {}
        lemma_clean_join(parts);
    } else {
        let k = i - 2 - nk;
        let e = inst.edges@[k];
        let sc = shown(data.capacities_by_arc@[k as usize]@, data.randomized_capacities);
        let sw = shown(data.weights_by_arc@[k as usize]@, data.randomized_weights);
        let parts = seq![
            seq!['a'],
            print_int(e.tail as int),
            print_int(e.head as int),
            print_int(e.low as int),
            print_int(e.up as int),
            join_words(printed(sc)),
            join_words(printed(sw)),
        ];
        lemma_clean_print(e.tail as int);
        lemma_clean_print(e.head as int);
        lemma_clean_print(e.low as int);
        lemma_clean_print(e.up as int);
        lemma_clean_printed(sc);
        lemma_clean_printed(sw);
        assert forall|j: int| 0 <= j < parts.len() implies clean(#[trigger] parts[j]) by {}
        lemma_clean_join(parts);
    }
    lemma_clean_is_line(l);
}

/// The rows that a table by arc index holds for the first `m` arcs.
pub open spec fn indexed_rows(t: Map<usize, Vec<i64>>, m: nat) -> Seq<Seq<i64>> {
    Seq::new(m, |i: int| t[i as usize]@)
}

/// The per-commodity values of the first `m` arcs as the reader rebuilds them.
pub open spec fn read_back_rows(t: Map<usize, Vec<i64>>, expanded: bool, k: nat, m: nat) -> Seq<
    Seq<i64>,
> {
    Seq::new(m, |i: int| read_back(t[i as usize]@, expanded, k))
}

/// Arc `i` has one capacity and one cost per commodity in the tables by arc index,
/// and where only the first value is written, all its values are equal.
pub open spec fn arc_rows_agree(data: MultiCommodityData, m: nat, i: int) -> bool {
    let k = data.num_commodities as nat;
    let caps = indexed_rows(data.capacities_by_arc@, m)[i];
    let costs = indexed_rows(data.weights_by_arc@, m)[i];
    &&& data.capacities_by_arc@.contains_key(i as usize)
    &&& data.weights_by_arc@.contains_key(i as usize)
    &&& caps.len() == k
    &&& costs.len() == k
    &&& !data.randomized_capacities ==> caps == repeat(caps[0], k)
    &&& !data.randomized_weights ==> costs == repeat(costs[0], k)
}

/// The tables of `data` agree with each other for the arcs of `inst`: every arc's
/// rows agree (see `arc_rows_agree`), and the tables by arc endpoints hold the rows
/// of the tables by arc index, a later arc replacing an earlier one with the same
/// endpoints.
pub open spec fn tables_consistent(inst: NetworkInstance, data: MultiCommodityData) -> bool {
    let m = inst.edges@.len();
    &&& forall|i: int| 0 <= i < m ==> #[trigger] arc_rows_agree(data, m, i)
    &&& map_view(data.commodity_capacities@) == by_endpoints(
        inst.edges@,
        indexed_rows(data.capacities_by_arc@, m),
        m,
    )
    &&& map_view(data.commodity_weights@) == by_endpoints(
        inst.edges@,
        indexed_rows(data.weights_by_arc@, m),
        m,
    )
}

proof fn lemma_nodes_fill(acc: MultiAcc, keys: Seq<i64>, part: Map<i64, Seq<i64>>)
    requires
        acc.partition == Map::<i64, Seq<i64>>::empty(),
        acc.supplies == Map::<i64, i64>::empty(),
    ensures
        acc_after_nodes(acc, keys, part).partition == Map::new(
            |n: i64| keys.contains(n),
            |n: i64| part[n],
        ),
        acc_after_nodes(acc, keys, part).supplies == Map::new(
            |n: i64| keys.contains(n),
            |n: i64| row_sum(part[n]) as i64,
        ),
    decreases keys.len(),
{
    if keys.len() == 0 {
        assert(acc_after_nodes(acc, keys, part).partition =~= Map::new(
            |n: i64| keys.contains(n),
            |n: i64| part[n],
        ));
        assert(acc_after_nodes(acc, keys, part).supplies =~= Map::new(
            |n: i64| keys.contains(n),
            |n: i64| row_sum(part[n]) as i64,
        ));
    } else {
        let d = keys.drop_last();
        lemma_nodes_fill(acc, d, part);
        assert forall|n: i64| keys.contains(n) <==> (d.contains(n) || n == keys.last()) by {
            if keys.contains(n) {
                let i = choose|i: int| 0 <= i < keys.len() && keys[i] == n;
                if i < keys.len() - 1 {
                    assert(d[i] == n);
                }
            }
            if d.contains(n) {
                let i = choose|i: int| 0 <= i < d.len() && d[i] == n;
                assert(keys[i] == n);
            }
            if n == keys.last() {
                assert(keys[keys.len() - 1] == n);
            }
        }
        assert(acc_after_nodes(acc, keys, part).partition =~= Map::new(
            |n: i64| keys.contains(n),
            |n: i64| part[n],
        ));
        assert(acc_after_nodes(acc, keys, part).supplies =~= Map::new(
            |n: i64| keys.contains(n),
            |n: i64| row_sum(part[n]) as i64,
        ));
    }
}

proof fn lemma_arcs_fill(acc: MultiAcc, inst: NetworkInstance, data: MultiCommodityData, m: nat)
    requires
        m <= inst.edges@.len(),
        acc.edges == Seq::<(i64, i64)>::empty(),
        acc.capacities == Seq::<i64>::empty(),
        acc.commodity_capacities == Map::<(i64, i64), Seq<i64>>::empty(),
        acc.commodity_weights == Map::<(i64, i64), Seq<i64>>::empty(),
    ensures
        ({
            let a = acc_after_arcs(acc, inst, data, m);
            let edges = inst.edges@;
            let k = data.num_commodities as nat;
            let len = edges.len();
            &&& a.edges == edges.take(m as int).map_values(|e: Edge| (e.tail, e.head))
            &&& a.capacities == edges.take(m as int).map_values(|e: Edge| e.up)
            &&& a.commodity_capacities == by_endpoints(
                edges,
                read_back_rows(data.capacities_by_arc@, data.randomized_capacities, k, len),
                m,
            )
            &&& a.commodity_weights == by_endpoints(
                edges,
                read_back_rows(data.weights_by_arc@, data.randomized_weights, k, len),
                m,
            )
        }),
    decreases m,
{
    let edges = inst.edges@;
    if m == 0 {
        assert(edges.take(0).map_values(|e: Edge| (e.tail, e.head)) =~= Seq::<(i64, i64)>::empty());
        assert(edges.take(0).map_values(|e: Edge| e.up) =~= Seq::<i64>::empty());
    } else {
        lemma_arcs_fill(acc, inst, data, (m - 1) as nat);
        assert(edges.take(m as int).map_values(|e: Edge| (e.tail, e.head)) =~= edges.take(
            m - 1,
        ).map_values(|e: Edge| (e.tail, e.head)).push((edges[m - 1].tail, edges[m - 1].head)));
        assert(edges.take(m as int).map_values(|e: Edge| e.up) =~= edges.take(m - 1).map_values(
            |e: Edge| e.up,
        ).push(edges[m - 1].up));
    }
}

/// Writing an instance and reading the text back gives back what was written: the
/// header (with the seed that the text records), every node's per-commodity values
/// and their total, the arcs with their upper bounds in order, and, by arc
/// endpoints, the capacities and costs of every commodity.
pub proof fn lemma_read_back_written(inst: NetworkInstance, data: MultiCommodityData)
    requires
        round_trip_ready(inst, data),
        tables_consistent(inst, data),
    ensures
        spec_parse_multi(export_text(inst, data)) matches Ok(acc) && {
            &&& acc.num_nodes == inst.num_nodes
            &&& acc.num_arcs == inst.num_arcs
            &&& acc.num_commodities == data.num_commodities
            &&& acc.rand_caps == data.randomized_capacities
            &&& acc.rand_costs == data.randomized_weights
            &&& acc.is_uniform == data.is_uniform
            &&& acc.seed == (if data.is_uniform && !data.randomized_capacities
                && !data.randomized_weights {
                0
            } else {
                data.seed
            })
            &&& acc.partition == map_view(data.supply_partition@)
            &&& acc.supplies == data.supply_partition@.map_values(|v: Vec<i64>| row_sum(v@) as i64)
            &&& acc.edges == inst.edges@.map_values(|e: Edge| (e.tail, e.head))
            &&& acc.capacities == inst.edges@.map_values(|e: Edge| e.up)
            &&& acc.commodity_capacities == map_view(data.commodity_capacities@)
            &&& acc.commodity_weights == map_view(data.commodity_weights@)
        },
{
    lemma_export_parse(inst, data);
    let keys = sorted_keys(data.supply_partition@.dom());
    let part = map_view(data.supply_partition@);
    let start = acc_after_problem(inst, data);
    let mid = acc_after_nodes(start, keys, part);
    let edges = inst.edges@;
    let m = edges.len();
    let k = data.num_commodities as nat;
    lemma_nodes_keep_header(start, keys, part);
    lemma_nodes_fill(start, keys, part);
    lemma_arcs_keep_header(mid, inst, data, m);
    lemma_arcs_fill(mid, inst, data, m);
    lemma_sorted_keys_exist(data.supply_partition@.dom());
    assert(keys.to_set() == data.supply_partition@.dom());
    let acc = export_acc(inst, data);
    assert(acc.partition =~= part) by {
        assert forall|n: i64| keys.contains(n) <==> part.contains_key(n) by {
            assert(keys.to_set().contains(n) == keys.contains(n));
        }
    }
    assert(acc.supplies =~= data.supply_partition@.map_values(|v: Vec<i64>| row_sum(v@) as i64))
        by {
        assert forall|n: i64| keys.contains(n) <==> part.contains_key(n) by {
            assert(keys.to_set().contains(n) == keys.contains(n));
        }
    }
    assert(edges.take(m as int) =~= edges);
    assert(read_back_rows(data.capacities_by_arc@, data.randomized_capacities, k, m) =~= indexed_rows(
        data.capacities_by_arc@,
        m,
    )) by {
        assert forall|i: int| 0 <= i < m implies read_back(
            data.capacities_by_arc@[i as usize]@,
            data.randomized_capacities,
            k,
        ) == #[trigger] indexed_rows(data.capacities_by_arc@, m)[i] by {
            assert(arc_rows_agree(data, m, i));
        }
    }
    assert(read_back_rows(data.weights_by_arc@, data.randomized_weights, k, m) =~= indexed_rows(
        data.weights_by_arc@,
        m,
    )) by {
        assert forall|i: int| 0 <= i < m implies read_back(
            data.weights_by_arc@[i as usize]@,
            data.randomized_weights,
            k,
        ) == #[trigger] indexed_rows(data.weights_by_arc@, m)[i] by {
            assert(arc_rows_agree(data, m, i));
        }
    }
}

/// Reading back the written text gives every arc its own capacities and costs for
/// each commodity, unless a later arc has the same endpoints and replaces them.
pub proof fn lemma_read_back_arc(inst: NetworkInstance, data: MultiCommodityData, i: int)
    requires
        round_trip_ready(inst, data),
        tables_consistent(inst, data),
        0 <= i < inst.edges@.len(),
        last_with_endpoints(inst.edges@, inst.edges@.len(), i),
    ensures
        spec_parse_multi(export_text(inst, data)) matches Ok(acc) && {
            let key = (inst.edges@[i].tail, inst.edges@[i].head);
            &&& acc.commodity_capacities.contains_key(key)
            &&& acc.commodity_capacities[key] == data.capacities_by_arc@[i as usize]@
            &&& acc.commodity_weights.contains_key(key)
            &&& acc.commodity_weights[key] == data.weights_by_arc@[i as usize]@
        },
{
    lemma_read_back_written(inst, data);
    let m = inst.edges@.len();
    lemma_by_endpoints_last(inst.edges@, indexed_rows(data.capacities_by_arc@, m), m, i);
    lemma_by_endpoints_last(inst.edges@, indexed_rows(data.weights_by_arc@, m), m, i);
}

/// The running sums of a row whose values share a sign lie between zero and the row's
/// sum.
proof fn lemma_same_signed_prefixes(row: Seq<i64>, j: int)
    requires
        same_signed(row),
        0 <= j <= row.len(),
    ensures
        (forall|k: int| 0 <= k < row.len() ==> #[trigger] row[k] >= 0) ==> 0 <= row_sum(row.take(j))
            <= row_sum(row),
        (forall|k: int| 0 <= k < row.len() ==> #[trigger] row[k] <= 0) ==> row_sum(row) <= row_sum(
            row.take(j),
        ) <= 0,
    decreases row.len() - j,
{
    if j == row.len() {
        assert(row.take(j) =~= row);
        lemma_same_signed_prefixes_from_start(row, j);
    } else {
        lemma_same_signed_prefixes(row, j + 1);
        assert(row.take(j + 1).drop_last() =~= row.take(j));
        lemma_same_signed_prefixes_from_start(row, j);
    }
}

proof fn lemma_same_signed_prefixes_from_start(row: Seq<i64>, j: int)
    requires
        0 <= j <= row.len(),
    ensures
        (forall|k: int| 0 <= k < row.len() ==> #[trigger] row[k] >= 0) ==> 0 <= row_sum(row.take(j)),
        (forall|k: int| 0 <= k < row.len() ==> #[trigger] row[k] <= 0) ==> row_sum(row.take(j)) <= 0,
    decreases j,
{
    if j > 0 {
        lemma_same_signed_prefixes_from_start(row, j - 1);
        assert(row.take(j).drop_last() =~= row.take(j - 1));
        assert(row.take(j).last() == row[j - 1]);
    } else {
        assert(row.take(0) =~= Seq::<i64>::empty());
    }
}

proof fn lemma_consistent_arc_ready(inst: NetworkInstance, data: MultiCommodityData, i: int)
    requires
        tables_consistent(inst, data),
        0 <= i < inst.edges@.len(),
    ensures
        data.capacities_by_arc@.contains_key(i as usize),
        data.weights_by_arc@.contains_key(i as usize),
        data.capacities_by_arc@[i as usize]@.len() == data.num_commodities,
        data.weights_by_arc@[i as usize]@.len() == data.num_commodities,
{
    let m = inst.edges@.len();
    assert(arc_rows_agree(data, m, i));
    assert(indexed_rows(data.capacities_by_arc@, m)[i] == data.capacities_by_arc@[i as usize]@);
    assert(indexed_rows(data.weights_by_arc@, m)[i] == data.weights_by_arc@[i as usize]@);
}

proof fn lemma_signed_rows_ready(data: MultiCommodityData)
    requires
        forall|n: i64| #[trigger]
            data.supply_partition@.contains_key(n) ==> same_signed(data.supply_partition@[n]@)
                && i64::MIN <= row_sum(data.supply_partition@[n]@) <= i64::MAX,
    ensures
        forall|n: i64| #[trigger]
            data.supply_partition@.contains_key(n) ==> sums_fit(data.supply_partition@[n]@),
{
    assert forall|n: i64| #[trigger] data.supply_partition@.contains_key(n) implies sums_fit(
        data.supply_partition@[n]@,
    ) by {
        let row = data.supply_partition@[n]@;
        assert forall|j: int| 0 <= j <= row.len() implies i64::MIN <= #[trigger] row_sum(row.take(j))
            <= i64::MAX by {
            lemma_same_signed_prefixes(row, j);
        }
    }
}

/// Both tables by arc index hold a row for arc `i`, with one value per commodity.
pub open spec fn arc_tables_full(data: MultiCommodityData, i: int) -> bool {
    &&& data.capacities_by_arc@.contains_key(i as usize)
    &&& data.weights_by_arc@.contains_key(i as usize)
    &&& data.capacities_by_arc@[i as usize]@.len() == data.num_commodities
    &&& data.weights_by_arc@[i as usize]@.len() == data.num_commodities
}

/// Full tables for every arc, with at least one commodity, make the data ready for a
/// round trip.
#[verifier::spinoff_prover]
proof fn lemma_ready_from_full_tables(inst: NetworkInstance, data: MultiCommodityData)
    requires
        forall|i: int| 0 <= i < inst.edges@.len() ==> #[trigger] arc_tables_full(data, i),
        data.num_commodities >= 1,
        inst.num_arcs >= 0,
        forall|n: i64| #[trigger]
            data.supply_partition@.contains_key(n) ==> sums_fit(data.supply_partition@[n]@),
    ensures
        round_trip_ready(inst, data),
{
    assert forall|i: int| 0 <= i < inst.edges@.len() implies {
        &&& #[trigger] data.capacities_by_arc@.contains_key(i as usize)
        &&& data.weights_by_arc@.contains_key(i as usize)
        &&& !data.randomized_capacities ==> data.capacities_by_arc@[i as usize]@.len() >= 1
        &&& !data.randomized_weights ==> data.weights_by_arc@[i as usize]@.len() >= 1
    } by {
        assert(arc_tables_full(data, i));
    }
    assert(export_ready(inst, data));
    assert forall|i: int| 0 <= i < inst.edges@.len() && data.randomized_capacities implies (
    #[trigger] data.capacities_by_arc@[i as usize])@.len() == data.num_commodities by {
        assert(arc_tables_full(data, i));
    }
    assert forall|i: int| 0 <= i < inst.edges@.len() && data.randomized_weights implies (
    #[trigger] data.weights_by_arc@[i as usize])@.len() == data.num_commodities by {
        assert(arc_tables_full(data, i));
    }
    assert(round_trip_ready(inst, data));
}

/// Data whose tables agree (as `assemble_multi_commodity_data` gives them), with at
/// least one commodity, for an instance that declares no negative number of arcs,
/// and whose nodes' values share a sign and sum to an `i64` (as the splits give them),
/// can be written and read back: `lemma_read_back_written` applies to it.
pub proof fn lemma_generated_data_round_trips(inst: NetworkInstance, data: MultiCommodityData)
    requires
        tables_consistent(inst, data),
        data.num_commodities >= 1,
        inst.num_arcs >= 0,
        forall|n: i64| #[trigger]
            data.supply_partition@.contains_key(n) ==> same_signed(data.supply_partition@[n]@)
                && i64::MIN <= row_sum(data.supply_partition@[n]@) <= i64::MAX,
    ensures
        round_trip_ready(inst, data),
{
    lemma_signed_rows_ready(data);
    assert forall|i: int| 0 <= i < inst.edges@.len() implies #[trigger] arc_tables_full(data, i) by {
        lemma_consistent_arc_ready(inst, data, i);
    }
    lemma_ready_from_full_tables(inst, data);
}

/// The second line of a written instance is its problem line
/// `p min <nodes> <arcs> <commodities> <rand_caps> <rand_costs> <is_uniform> <seed>`,
/// the flags written as `1` or `0`. The seed is the data's own seed whenever the data
/// is not uniform or its capacities or costs are randomized; only uniform data with
/// neither randomized records `0`.
pub proof fn lemma_export_problem_line(inst: NetworkInstance, data: MultiCommodityData)
    ensures
        lines_of(export_text(inst, data)).len() >= 2,
        words_of(lines_of(export_text(inst, data))[1]) == seq![
            seq!['p'],
            seq!['m', 'i', 'n'],
            print_int(inst.num_nodes as int),
            print_int(inst.num_arcs as int),
            print_int(data.num_commodities as int),
            print_int(if data.randomized_capacities { 1 } else { 0 }),
            print_int(if data.randomized_weights { 1 } else { 0 }),
            print_int(if data.is_uniform { 1 } else { 0 }),
            print_int(
                if data.is_uniform && !data.randomized_capacities && !data.randomized_weights {
                    0
                } else {
                    data.seed as int
                },
            ),
        ],
{
    let ls = export_lines(inst, data);
    assert forall|i: int| 0 <= i < ls.len() implies is_line(#[trigger] ls[i]) by {
        lemma_export_line_is_line(inst, data, i);
    }
    lemma_lines_join(ls);
    let ws = seq![
        seq!['p'],
        seq!['m', 'i', 'n'],
        print_int(inst.num_nodes as int),
        print_int(inst.num_arcs as int),
        print_int(data.num_commodities as int),
        print_int(flag_num(data.randomized_capacities)),
        print_int(flag_num(data.randomized_weights)),
        print_int(flag_num(data.is_uniform)),
        print_int(written_seed(data) as int),
    ];
    lemma_print_is_word(inst.num_nodes as int);
    lemma_print_is_word(inst.num_arcs as int);
    lemma_print_is_word(data.num_commodities as int);
    lemma_print_is_word(flag_num(data.randomized_capacities));
    lemma_print_is_word(flag_num(data.randomized_weights));
    lemma_print_is_word(flag_num(data.is_uniform));
    lemma_print_is_word(written_seed(data) as int);
    assert(is_word(seq!['p']));
    assert(is_word(seq!['m', 'i', 'n']));
    assert forall|i: int| 0 <= i < ws.len() implies is_word(#[trigger] ws[i]) by {
        if i == 0 {
        } else if i == 1 {
        } else if i == 2 {
        } else if i == 3 {
        } else if i == 4 {
        } else if i == 5 {
        } else if i == 6 {
        } else if i == 7 {
        } else {
        }
    }
    lemma_words_join_words(ws);
    assert(ls[1] == join_words(ws));
}

/// Reading back a written instance gives the seed that its problem line records: the
/// data's own seed unless the data is uniform with neither capacities nor costs
/// randomized, in which case `0`.
pub proof fn lemma_read_back_seed(inst: NetworkInstance, data: MultiCommodityData)
    requires
        round_trip_ready(inst, data),
    ensures
        spec_parse_multi(export_text(inst, data)) matches Ok(acc) && {
            &&& acc.is_uniform == data.is_uniform
            &&& acc.rand_caps == data.randomized_capacities
            &&& acc.rand_costs == data.randomized_weights
            &&& acc.seed == (if data.is_uniform && !data.randomized_capacities
                && !data.randomized_weights {
                0
            } else {
                data.seed
            })
        },
{
    lemma_export_parse(inst, data);
    let keys = sorted_keys(data.supply_partition@.dom());
    let part = map_view(data.supply_partition@);
    let start = acc_after_problem(inst, data);
    lemma_nodes_keep_header(start, keys, part);
    lemma_arcs_keep_header(acc_after_nodes(start, keys, part), inst, data, inst.edges@.len());
}

/// The lines of a written instance: the comment, the problem line, one node line per
/// partitioned node in increasing order of node, then one arc line per edge in order.
/// A node line holds `n`, the node, the sum of the node's values and the values; an
/// arc line holds `a`, the tail, head, lower and upper bound, then the capacities and
/// then the costs of the commodities, all of them where randomized, else only the
/// first.
pub proof fn lemma_export_body_lines(inst: NetworkInstance, data: MultiCommodityData)
    ensures
        ({
            let lines = lines_of(export_text(inst, data));
            let keys = sorted_keys(data.supply_partition@.dom());
            let nk = keys.len() as int;
            let m = inst.edges@.len() as int;
            &&& lines.len() == 2 + nk + m
            &&& forall|j: int|
                0 <= j < nk ==> words_of(#[trigger] lines[2 + j]) == seq![
                    seq!['n'],
                    print_int(keys[j] as int),
                    print_int(row_sum(data.supply_partition@[keys[j]]@)),
                ] + printed(data.supply_partition@[keys[j]]@)
            &&& forall|i: int|
                0 <= i < m ==> {
                    let e = inst.edges@[i];
                    let caps = data.capacities_by_arc@[i as usize]@;
                    let costs = data.weights_by_arc@[i as usize]@;
                    words_of(#[trigger] lines[2 + nk + i]) == seq![
                        seq!['a'],
                        print_int(e.tail as int),
                        print_int(e.head as int),
                        print_int(e.low as int),
                        print_int(e.up as int),
                    ] + printed(
                        if data.randomized_capacities {
                            caps
                        } else {
                            caps.take(1)
                        },
                    ) + printed(
                        if data.randomized_weights {
                            costs
                        } else {
                            costs.take(1)
                        },
                    )
                }
        }),
{
    let ls = export_lines(inst, data);
    assert forall|i: int| 0 <= i < ls.len() implies is_line(#[trigger] ls[i]) by {
        lemma_export_line_is_line(inst, data, i);
    }
    lemma_lines_join(ls);
    let keys = sorted_keys(data.supply_partition@.dom());
    let nk = keys.len() as int;
    let m = inst.edges@.len() as int;
    assert forall|j: int| 0 <= j < nk implies words_of(#[trigger] ls[2 + j]) == seq![
        seq!['n'],
        print_int(keys[j] as int),
        print_int(row_sum(data.supply_partition@[keys[j]]@)),
    ] + printed(data.supply_partition@[keys[j]]@) by {
        assert(ls[2 + j] == node_line(keys[j], data.supply_partition@[keys[j]]@));
        lemma_node_words(keys[j], data.supply_partition@[keys[j]]@);
    }
    assert forall|i: int| 0 <= i < m implies {
        let e = inst.edges@[i];
        let caps = data.capacities_by_arc@[i as usize]@;
        let costs = data.weights_by_arc@[i as usize]@;
        words_of(#[trigger] ls[2 + nk + i]) == seq![
            seq!['a'],
            print_int(e.tail as int),
            print_int(e.head as int),
            print_int(e.low as int),
            print_int(e.up as int),
        ] + printed(
            if data.randomized_capacities {
                caps
            } else {
                caps.take(1)
            },
        ) + printed(
            if data.randomized_weights {
                costs
            } else {
                costs.take(1)
            },
        )
    } by {
        let e = inst.edges@[i];
        let sc = shown(data.capacities_by_arc@[i as usize]@, data.randomized_capacities);
        let sw = shown(data.weights_by_arc@[i as usize]@, data.randomized_weights);
        assert(ls[2 + nk + i] == arc_line(e, sc, sw));
        lemma_arc_words(e, sc, sw);
    }
}

/// A node line of a multi-commodity text `n <id> <total> <v_1> .. <v_K>`, its
/// numbers written in decimal, gives node `id` the total and the values `v_1 .. v_K`
/// and adds the node; nothing else changes.
pub proof fn lemma_multi_node_line_reads(
    acc: MultiAcc,
    line: Seq<char>,
    id: i64,
    total: i64,
    vals: Seq<i64>,
)
    requires
        words_of(line) == seq![seq!['n'], print_int(id as int), print_int(total as int)] + printed(
            vals,
        ),
    ensures
        multi_step(acc, line) == Ok::<MultiAcc, ParseError>(
            MultiAcc {
                supplies: acc.supplies.insert(id, total),
                partition: acc.partition.insert(id, vals),
                nodes: add_node(acc.nodes, id),
                ..acc
            },
        ),
{
    let ws = words_of(line);
    assert(ws[0] == seq!['n']);
    assert(ws[0] != seq!['p']) by {
        assert(ws[0][0] == 'n');
    }
    assert(ws.len() == 3 + vals.len());
    lemma_print_parse_int(id as int, true, i64::MIN as int, i64::MAX as int);
    lemma_print_parse_int(total as int, true, i64::MIN as int, i64::MAX as int);
    assert(ws[1] == print_int(id as int));
    assert(ws[2] == print_int(total as int));
    assert(int_field(ws, 1, true, i64::MIN as int, i64::MAX as int) == Ok::<int, ParseError>(
        id as int,
    ));
    assert(int_field(ws, 2, true, i64::MIN as int, i64::MAX as int) == Ok::<int, ParseError>(
        total as int,
    ));
    assert(ws.subrange(3, 3 + vals.len() as int) =~= printed(vals));
    lemma_i64_fields_printed(ws, 3, vals);
    assert((ws.len() - 3) as nat == vals.len());
}

/// An arc line of a multi-commodity text
/// `a <tail> <head> <low> <up> <caps..> <costs..>`, its numbers written in decimal,
/// with `K` capacities where the header says they are randomized and one otherwise
/// (and likewise for the costs), adds the arc from tail to head and its upper bound,
/// and gives the arc its capacities and costs: the `K` written ones, or the one
/// written value for every commodity.
pub proof fn lemma_multi_arc_line_reads(
    acc: MultiAcc,
    line: Seq<char>,
    e: Edge,
    caps: Seq<i64>,
    costs: Seq<i64>,
)
    requires
        caps.len() == (if acc.rand_caps { acc.num_commodities as int } else { 1 }),
        costs.len() == (if acc.rand_costs { acc.num_commodities as int } else { 1 }),
        words_of(line) == seq![
            seq!['a'],
            print_int(e.tail as int),
            print_int(e.head as int),
            print_int(e.low as int),
            print_int(e.up as int),
        ] + printed(caps) + printed(costs),
    ensures
        multi_step(acc, line) == Ok::<MultiAcc, ParseError>(
            MultiAcc {
                edges: acc.edges.push((e.tail, e.head)),
                capacities: acc.capacities.push(e.up),
                commodity_capacities: acc.commodity_capacities.insert(
                    (e.tail, e.head),
                    if acc.rand_caps {
                        caps
                    } else {
                        Seq::new(acc.num_commodities as nat, |j: int| caps[0])
                    },
                ),
                commodity_weights: acc.commodity_weights.insert(
                    (e.tail, e.head),
                    if acc.rand_costs {
                        costs
                    } else {
                        Seq::new(acc.num_commodities as nat, |j: int| costs[0])
                    },
                ),
                nodes: add_node(add_node(acc.nodes, e.tail), e.head),
                ..acc
            },
        ),
{
    let k = acc.num_commodities as nat;
    assert(shown(caps, acc.rand_caps) =~= caps);
    assert(shown(costs, acc.rand_costs) =~= costs);
    lemma_arc_words(e, caps, costs);
    lemma_arc_step(acc, e, caps, costs);
    let written = arc_line(e, caps, costs);
    assert(words_of(written) == words_of(line));
    assert(multi_step(acc, line) == multi_step(acc, written));
    assert(read_back(caps, acc.rand_caps, k) =~= (if acc.rand_caps {
        caps
    } else {
        Seq::new(k, |j: int| caps[0])
    }));
    assert(read_back(costs, acc.rand_costs, k) =~= (if acc.rand_costs {
        costs
    } else {
        Seq::new(k, |j: int| costs[0])
    }));
}

} // verus!
