//! Graph helpers and the text formats of single- and multi-commodity instances.

use crate::keys::{key_vec, sorted_keys};
use crate::logic::sums::row_sum;
use crate::models::{
    Edge, MultiCommodityData, NetworkInstance, ParseError, ParsedMulticommodityInstance, map_view,
};
use crate::stdlib::push_char;
use crate::text::{join_lines, join_words, lemma_join_lines_push, lemma_join_words_push, print_int, push_int};
use crate::text::{
    chars_of, parse_int, parse_integer, split_lines, split_words, texts_view, lines_of, words_of,
};
use std::collections::{BTreeMap, BTreeSet};
use vstd::prelude::*;

verus! {

/// Tails of the edges that enter `v`, in edge order.
pub open spec fn tails_into(edges: Seq<(i64, i64)>, v: i64) -> Seq<i64>
    decreases edges.len(),
{
    if edges.len() == 0 {
        seq![]
    } else {
        let prev = tails_into(edges.drop_last(), v);
        if edges.last().1 == v {
            prev.push(edges.last().0)
        } else {
            prev
        }
    }
}

/// Heads of the edges that leave `v`, in edge order.
pub open spec fn heads_from(edges: Seq<(i64, i64)>, v: i64) -> Seq<i64>
    decreases edges.len(),
{
    if edges.len() == 0 {
        seq![]
    } else {
        let prev = heads_from(edges.drop_last(), v);
        if edges.last().0 == v {
            prev.push(edges.last().1)
        } else {
            prev
        }
    }
}

/// Both endpoints of every edge are listed nodes.
pub open spec fn endpoints_are_nodes(nodes: Seq<i64>, edges: Seq<(i64, i64)>) -> bool {
    forall|i: int|
        0 <= i < edges.len() ==> nodes.contains(#[trigger] edges[i].0) && nodes.contains(
            edges[i].1,
        )
}

/// `incoming` and `outgoing` map exactly the listed nodes to their in- and out-neighbours.
pub open spec fn is_incidence_mapping(
    nodes: Seq<i64>,
    edges: Seq<(i64, i64)>,
    incoming: Map<i64, Vec<i64>>,
    outgoing: Map<i64, Vec<i64>>,
) -> bool {
    &&& incoming.dom() == nodes.to_set()
    &&& outgoing.dom() == nodes.to_set()
    &&& forall|v: i64| #[trigger]
        incoming.contains_key(v) ==> incoming[v]@ == tails_into(edges, v)
    &&& forall|v: i64| #[trigger]
        outgoing.contains_key(v) ==> outgoing[v]@ == heads_from(edges, v)
}

// ---------------------------------------------------------------------------
// Fields of a line
// ---------------------------------------------------------------------------

/// Field `i` of a line's words read as an integer in `lo..=hi`: missing when the
/// line has no such word, invalid when the word is no such integer.
pub open spec fn int_field(ws: Seq<Seq<char>>, i: int, signed: bool, lo: int, hi: int) -> Result<
    int,
    ParseError,
> {
    if i >= ws.len() {
        Err(ParseError::MissingField)
    } else {
        match parse_int(ws[i], signed, lo, hi) {
            Some(v) => Ok(v),
            None => Err(ParseError::InvalidNumber),
        }
    }
}

/// Fields `start .. start + count` read as `i64`s, left to right; the first
/// failure is the result.
pub open spec fn i64_fields(ws: Seq<Seq<char>>, start: int, count: nat) -> Result<
    Seq<i64>,
    ParseError,
>
    decreases count,
{
    if count == 0 {
        Ok(Seq::empty())
    } else {
        match int_field(ws, start, true, i64::MIN as int, i64::MAX as int) {
            Err(e) => Err(e),
            Ok(v) => match i64_fields(ws, start + 1, (count - 1) as nat) {
                Err(e) => Err(e),
                Ok(rest) => Ok(seq![v as i64] + rest),
            },
        }
    }
}

/// Reads an integer field (see `int_field`).
pub fn read_int_field(ws: &Vec<Vec<char>>, i: usize, signed: bool, lo: i128, hi: i128) -> (r:
    Result<i128, ParseError>)
    requires
        -0x1_0000_0000_0000_0000 <= lo <= 0,
        0 <= hi <= 0x1_0000_0000_0000_0000,
    ensures
        match (r, int_field(texts_view(ws@), i as int, signed, lo as int, hi as int)) {
            (Ok(a), Ok(b)) => a == b,
            (Err(a), Err(b)) => a == b,
            _ => false,
        },
        r is Ok ==> i < ws.len(),
{
    if i >= ws.len() {
        return Err(ParseError::MissingField);
    }
    proof {
        assert(texts_view(ws@)[i as int] == ws@[i as int]@);
    }
    match parse_integer(&ws[i], signed, lo, hi) {
        Some(v) => Ok(v),
        None => Err(ParseError::InvalidNumber),
    }
}

/// Reads fields `start .. start + count` as `i64`s (see `i64_fields`).
pub fn read_i64_fields(ws: &Vec<Vec<char>>, start: usize, count: usize) -> (r: Result<
    Vec<i64>,
    ParseError,
>)
    requires
        start + count <= usize::MAX,
    ensures
        match (r, i64_fields(texts_view(ws@), start as int, count as nat)) {
            (Ok(a), Ok(b)) => a@ == b,
            (Err(a), Err(b)) => a == b,
            _ => false,
        },
        r matches Ok(v) ==> v@.len() == count,
        r is Ok ==> count == 0 || start + count <= ws.len(),
{
    let ghost wv = texts_view(ws@);
    let mut vals: Vec<i64> = Vec::new();
    let mut j: usize = 0;
    while j < count
        invariant
            j <= count,
            vals@.len() == j,
            j > 0 ==> start + j <= ws.len(),
            start + count <= usize::MAX,
            wv == texts_view(ws@),
            i64_fields(wv, start as int, count as nat) == (match i64_fields(
                wv,
                start + j,
                (count - j) as nat,
            ) {
                Err(e) => Err(e),
                Ok(rest) => Ok(vals@ + rest),
            }),
        decreases count - j,
    {
        let v = read_int_field(ws, start + j, true, i64::MIN as i128, i64::MAX as i128);
        match v {
            Err(e) => {
                return Err(e);
            },
            Ok(x) => {
                proof {
                    assert(vals@.push(x as i64) + Seq::<i64>::empty() =~= vals@.push(x as i64));
                    assert forall|rest: Seq<i64>| #[trigger] (vals@ + (seq![x as i64] + rest))
                        == vals@.push(x as i64) + rest by {
                        assert(vals@ + (seq![x as i64] + rest) =~= vals@.push(x as i64) + rest);
                    }
                }
                vals.push(x as i64);
                j = j + 1;
            },
        }
    }
    proof {
        assert(vals@ + Seq::<i64>::empty() =~= vals@);
    }
    Ok(vals)
}

/// `w` is the one-character word `c`.
pub fn word_is(w: &Vec<char>, c: char) -> (r: bool)
    ensures
        r == (w@ == seq![c]),
{
    let r = w.len() == 1 && w[0] == c;
    proof {
        if w.len() == 1 && w[0] == c {
            assert(w@ =~= seq![c]);
        }
    }
    r
}

// ---------------------------------------------------------------------------
// The single-commodity text format
// ---------------------------------------------------------------------------

/// What one line of a single-commodity text declares.
pub enum MinLine {
    Skip,
    Problem(i64, i64),
    Node(i64, i64),
    Arc(Edge),
}

/// The meaning of one line: empty lines and lines starting with `c` or a space are
/// skipped; `p min <nodes> <arcs>`, `n <id> <supply>` and
/// `a <tail> <head> <low> <up> <cost>` declare the problem size, a supply and an
/// arc; other lines are ignored.
pub open spec fn min_line(line: Seq<char>) -> Result<MinLine, ParseError> {
    let ws = words_of(line);
    if line.len() == 0 || line[0] == 'c' || line[0] == ' ' || ws.len() == 0 {
        Ok(MinLine::Skip)
    } else if ws[0] == seq!['p'] {
        match i64_fields(ws, 2, 2) {
            Err(e) => Err(e),
            Ok(f) => if f[1] < 0 {
                Err(ParseError::NegativeArcCount)
            } else {
                Ok(MinLine::Problem(f[0], f[1]))
            },
        }
    } else if ws[0] == seq!['n'] {
        match i64_fields(ws, 1, 2) {
            Err(e) => Err(e),
            Ok(f) => Ok(MinLine::Node(f[0], f[1])),
        }
    } else if ws[0] == seq!['a'] {
        match i64_fields(ws, 1, 5) {
            Err(e) => Err(e),
            Ok(f) => Ok(MinLine::Arc(Edge { tail: f[0], head: f[1], low: f[2], up: f[3], cost: f[4] })),
        }
    } else {
        Ok(MinLine::Skip)
    }
}

/// What a single-commodity text has declared so far.
pub struct MinAcc {
    pub num_nodes: i64,
    pub num_arcs: i64,
    pub nodes: Seq<i64>,
    pub edges: Seq<Edge>,
    pub supplies: Map<i64, i64>,
}

/// `ns` with `n` appended unless already present.
pub open spec fn add_node(ns: Seq<i64>, n: i64) -> Seq<i64> {
    if ns.contains(n) {
        ns
    } else {
        ns.push(n)
    }
}

pub open spec fn min_apply(acc: MinAcc, l: MinLine) -> MinAcc {
    match l {
        MinLine::Skip => acc,
        MinLine::Problem(nn, na) => MinAcc { num_nodes: nn, num_arcs: na, ..acc },
        MinLine::Node(id, v) => MinAcc {
            supplies: acc.supplies.insert(id, v),
            nodes: add_node(acc.nodes, id),
            ..acc
        },
        MinLine::Arc(e) => MinAcc {
            edges: acc.edges.push(e),
            nodes: add_node(add_node(acc.nodes, e.tail), e.head),
            ..acc
        },
    }
}

pub open spec fn min_start() -> MinAcc {
    MinAcc {
        num_nodes: 0,
        num_arcs: 0,
        nodes: Seq::empty(),
        edges: Seq::empty(),
        supplies: Map::empty(),
    }
}

/// The lines read in order; the first failing line decides the error.
pub open spec fn min_fold(lines: Seq<Seq<char>>) -> Result<MinAcc, ParseError>
    decreases lines.len(),
{
    if lines.len() == 0 {
        Ok(min_start())
    } else {
        match min_fold(lines.drop_last()) {
            Err(e) => Err(e),
            Ok(acc) => match min_line(lines.last()) {
                Err(e) => Err(e),
                Ok(l) => Ok(min_apply(acc, l)),
            },
        }
    }
}

/// The meaning of a single-commodity text.
pub open spec fn spec_parse_min(text: Seq<char>) -> Result<MinAcc, ParseError> {
    min_fold(lines_of(text))
}

/// `inst` holds exactly what `acc` declares: arcs, capacities and weights are the
/// edges' endpoints, upper bounds and costs.
pub open spec fn instance_holds(inst: NetworkInstance, acc: MinAcc) -> bool {
    &&& inst.num_nodes == acc.num_nodes
    &&& inst.num_arcs == acc.num_arcs
    &&& inst.nodes@ == acc.nodes
    &&& inst.edges@ == acc.edges
    &&& inst.supplies@ == acc.supplies
    &&& inst.arcs@ == acc.edges.map_values(|e: Edge| (e.tail, e.head))
    &&& inst.capacities@ == acc.edges.map_values(|e: Edge| e.up)
    &&& inst.weights@ == acc.edges.map_values(|e: Edge| e.cost)
}

/// Reads one line of a single-commodity text (see `min_line`).
fn read_min_line(line: &Vec<char>) -> (r: Result<MinLine, ParseError>)
    ensures
        r == min_line(line@),
{
    let words = split_words(line);
    let ghost ws = texts_view(words@);
    if line.len() == 0 || line[0] == 'c' || line[0] == ' ' || words.len() == 0 {
        return Ok(MinLine::Skip);
    }
    proof {
        assert(ws[0] == words@[0]@);
    }
    if word_is(&words[0], 'p') {
        match read_i64_fields(&words, 2, 2) {
            Err(e) => Err(e),
            Ok(f) => {
                if f[1] < 0 {
                    Err(ParseError::NegativeArcCount)
                } else {
                    Ok(MinLine::Problem(f[0], f[1]))
                }
            },
        }
    } else if word_is(&words[0], 'n') {
        match read_i64_fields(&words, 1, 2) {
            Err(e) => Err(e),
            Ok(f) => Ok(MinLine::Node(f[0], f[1])),
        }
    } else if word_is(&words[0], 'a') {
        match read_i64_fields(&words, 1, 5) {
            Err(e) => Err(e),
            Ok(f) => Ok(MinLine::Arc(Edge { tail: f[0], head: f[1], low: f[2], up: f[3], cost: f[4] })),
        }
    } else {
        Ok(MinLine::Skip)
    }
}

/// Appends `n` to `nodes` unless `seen` (the set of `nodes`) holds it.
fn note_node(nodes: &mut Vec<i64>, seen: &mut BTreeSet<i64>, n: i64)
    requires
        old(seen)@ == old(nodes)@.to_set(),
    ensures
        final(seen)@ == final(nodes)@.to_set(),
        final(nodes)@ == add_node(old(nodes)@, n),
{
    if seen.insert(n) {
        nodes.push(n);
        proof {
            old(nodes)@.lemma_push_to_set_commute(n);
            assert(!old(nodes)@.to_set().contains(n));
        }
    } else {
        proof {
            assert(old(nodes)@.to_set().contains(n));
        }
    }
}

/// Reads a single-commodity instance from its text: the problem line gives the
/// numbers of nodes and arcs, node lines give supplies, arc lines give arcs; nodes
/// are listed in the order in which they first appear.
pub fn parse_min(text: &str) -> (r: Result<NetworkInstance, ParseError>)
    ensures
        match (r, spec_parse_min(text@)) {
            (Ok(inst), Ok(acc)) => instance_holds(inst, acc),
            (Err(a), Err(b)) => a == b,
            _ => false,
        },
        r matches Ok(inst) ==> {
            &&& inst.arcs@.len() == inst.edges@.len()
            &&& inst.capacities@.len() == inst.edges@.len()
            &&& inst.weights@.len() == inst.edges@.len()
            &&& forall|i: int|
                0 <= i < inst.edges@.len() ==> {
                    &&& #[trigger] inst.arcs@[i] == (inst.edges@[i].tail, inst.edges@[i].head)
                    &&& inst.capacities@[i] == inst.edges@[i].up
                    &&& inst.weights@[i] == inst.edges@[i].cost
                }
        },
{
    let chars = chars_of(text);
    let lines = split_lines(&chars);
    let ghost ls = texts_view(lines@);
    let mut num_nodes: i64 = 0;
    let mut num_arcs: i64 = 0;
    let mut nodes: Vec<i64> = Vec::new();
    let mut seen: BTreeSet<i64> = BTreeSet::new();
    let mut edges: Vec<Edge> = Vec::new();
    let mut supplies: BTreeMap<i64, i64> = BTreeMap::new();
    let mut arcs: Vec<(i64, i64)> = Vec::new();
    let mut capacities: Vec<i64> = Vec::new();
    let mut weights: Vec<i64> = Vec::new();
    let mut i: usize = 0;
    proof {
        assert(nodes@.to_set() =~= seen@);
    }
    while i < lines.len()
        invariant
            ls == texts_view(lines@),
            ls == lines_of(text@),
            i <= lines.len(),
            seen@ == nodes@.to_set(),
            min_fold(ls.take(i as int)) == Ok::<MinAcc, ParseError>(
                MinAcc {
                    num_nodes,
                    num_arcs,
                    nodes: nodes@,
                    edges: edges@,
                    supplies: supplies@,
                },
            ),
            arcs@ == edges@.map_values(|e: Edge| (e.tail, e.head)),
            capacities@ == edges@.map_values(|e: Edge| e.up),
            weights@ == edges@.map_values(|e: Edge| e.cost),
        decreases lines.len() - i,
    {
        proof {
            assert(ls.take(i + 1).drop_last() =~= ls.take(i as int));
            assert(ls.take(i + 1).last() == lines@[i as int]@);
        }
        match read_min_line(&lines[i]) {
            Err(e) => {
                proof {
                    lemma_min_fold_error(ls, i as int + 1);
                }
                return Err(e);
            },
            Ok(MinLine::Skip) => {},
            Ok(MinLine::Problem(nn, na)) => {
                num_nodes = nn;
                num_arcs = na;
            },
            Ok(MinLine::Node(id, v)) => {
                supplies.insert(id, v);
                note_node(&mut nodes, &mut seen, id);
            },
            Ok(MinLine::Arc(e)) => {
                edges.push(e);
                arcs.push((e.tail, e.head));
                capacities.push(e.up);
                weights.push(e.cost);
                note_node(&mut nodes, &mut seen, e.tail);
                note_node(&mut nodes, &mut seen, e.head);
                proof {
                    assert(arcs@ =~= edges@.map_values(|e: Edge| (e.tail, e.head)));
                    assert(capacities@ =~= edges@.map_values(|e: Edge| e.up));
                    assert(weights@ =~= edges@.map_values(|e: Edge| e.cost));
                }
            },
        }
        i = i + 1;
    }
    proof {
        assert(ls.take(lines.len() as int) =~= ls);
    }
    Ok(NetworkInstance { num_nodes, num_arcs, nodes, edges, supplies, arcs, capacities, weights })
}

/// Once a line fails, so does every longer prefix of the text.
proof fn lemma_min_fold_error(ls: Seq<Seq<char>>, k: int)
    requires
        0 < k <= ls.len(),
        min_fold(ls.take(k - 1)) is Ok,
        min_line(ls[k - 1]) is Err,
    ensures
        min_fold(ls) == Err::<MinAcc, ParseError>(min_line(ls[k - 1])->Err_0),
    decreases ls.len(),
{
    if k == ls.len() {
        assert(ls.take(k - 1) =~= ls.drop_last());
    } else {
        assert(ls.drop_last().take(k - 1) =~= ls.take(k - 1));
        assert(ls.drop_last()[k - 1] == ls[k - 1]);
        lemma_min_fold_error(ls.drop_last(), k);
    }
}

// ---------------------------------------------------------------------------
// The multi-commodity text format
// ---------------------------------------------------------------------------

/// A flag field: absent means off, otherwise an `i32` that is on unless zero.
pub open spec fn flag_field(ws: Seq<Seq<char>>, i: int) -> Result<bool, ParseError> {
    if i >= ws.len() {
        Ok(false)
    } else {
        match parse_int(ws[i], true, i32::MIN as int, i32::MAX as int) {
            Some(v) => Ok(v != 0),
            None => Err(ParseError::InvalidNumber),
        }
    }
}

/// What a multi-commodity text has declared so far.
pub struct MultiAcc {
    pub num_nodes: i64,
    pub num_arcs: i64,
    pub num_commodities: usize,
    pub rand_caps: bool,
    pub rand_costs: bool,
    pub is_uniform: bool,
    pub seed: u64,
    pub nodes: Seq<i64>,
    pub edges: Seq<(i64, i64)>,
    pub supplies: Map<i64, i64>,
    pub partition: Map<i64, Seq<i64>>,
    pub capacities: Seq<i64>,
    pub commodity_capacities: Map<(i64, i64), Seq<i64>>,
    pub commodity_weights: Map<(i64, i64), Seq<i64>>,
}

pub open spec fn multi_start() -> MultiAcc {
    MultiAcc {
        num_nodes: 0,
        num_arcs: 0,
        num_commodities: 0,
        rand_caps: false,
        rand_costs: false,
        is_uniform: false,
        seed: 0,
        nodes: Seq::empty(),
        edges: Seq::empty(),
        supplies: Map::empty(),
        partition: Map::empty(),
        capacities: Seq::empty(),
        commodity_capacities: Map::empty(),
        commodity_weights: Map::empty(),
    }
}

pub open spec fn repeat(v: i64, k: nat) -> Seq<i64> {
    Seq::new(k, |i: int| v)
}

/// The per-commodity values of an arc line from word `at` on: `k` words when
/// `expanded`, else one word standing for all `k`. Also gives where the next
/// values start.
pub open spec fn commodity_values(ws: Seq<Seq<char>>, at: int, k: nat, expanded: bool) -> Result<
    (Seq<i64>, int),
    ParseError,
> {
    if expanded {
        if at + k > ws.len() {
            Err(ParseError::MissingField)
        } else {
            match i64_fields(ws, at, k) {
                Err(e) => Err(e),
                Ok(vals) => Ok((vals, at + k)),
            }
        }
    } else {
        match int_field(ws, at, true, i64::MIN as int, i64::MAX as int) {
            Err(e) => Err(e),
            Ok(v) => Ok((repeat(v as i64, k), at + 1)),
        }
    }
}

/// The effect of one line of a multi-commodity text. Lines without words are
/// skipped, and so is any line whose first word is not `p`, `n` or `a`.
/// `p min <nodes> <arcs> <commodities> <rand_caps> <rand_costs> <is_uniform> <seed>`
/// sets the header; `n <id> <total> <v_1> .. <v_K>` gives a node's per-commodity
/// values and, where the total is an integer, its total (a total that is not leaves the
/// node without one; it is not checked against the values);
/// `a <tail> <head> <low> <up> <caps..> <costs..>` gives an arc,
/// whose capacities and costs are `K` words each when randomized, else one.
pub open spec fn multi_step(acc: MultiAcc, line: Seq<char>) -> Result<MultiAcc, ParseError> {
    let ws = words_of(line);
    if ws.len() == 0 {
        Ok(acc)
    } else if ws[0] == seq!['p'] {
        match (
            int_field(ws, 2, true, i64::MIN as int, i64::MAX as int),
            int_field(ws, 3, true, i64::MIN as int, i64::MAX as int),
            int_field(ws, 4, false, 0, usize::MAX as int),
            int_field(ws, 8, false, 0, u64::MAX as int),
        ) {
            (Err(e), _, _, _) => Err(e),
            (Ok(_), Err(e), _, _) => Err(e),
            (Ok(_), Ok(_), Err(e), _) => Err(e),
            (Ok(_), Ok(_), Ok(_), Err(e)) => Err(e),
            (Ok(nn), Ok(na), Ok(k), Ok(seed)) => match (
                flag_field(ws, 5),
                flag_field(ws, 6),
                flag_field(ws, 7),
            ) {
                (Err(e), _, _) => Err(e),
                (Ok(_), Err(e), _) => Err(e),
                (Ok(_), Ok(_), Err(e)) => Err(e),
                (Ok(rc), Ok(rw), Ok(uni)) => if na < 0 {
                    Err(ParseError::NegativeArcCount)
                } else {
                    Ok(
                        MultiAcc {
                            num_nodes: nn as i64,
                            num_arcs: na as i64,
                            num_commodities: k as usize,
                            seed: seed as u64,
                            rand_caps: rc,
                            rand_costs: rw,
                            is_uniform: uni,
                            ..acc
                        },
                    )
                },
            },
        }
    } else if ws[0] == seq!['n'] {
        match int_field(ws, 1, true, i64::MIN as int, i64::MAX as int) {
            Err(e) => Err(e),
            Ok(id) => if ws.len() < 3 {
                Err(ParseError::MissingField)
            } else {
                match i64_fields(ws, 3, (ws.len() - 3) as nat) {
                    Err(e) => Err(e),
                    Ok(vals) => Ok(
                        MultiAcc {
                            supplies: match int_field(ws, 2, true, i64::MIN as int, i64::MAX as int) {
                                Ok(t) => acc.supplies.insert(id as i64, t as i64),
                                Err(_) => acc.supplies.remove(id as i64),
                            },
                            partition: acc.partition.insert(id as i64, vals),
                            nodes: add_node(acc.nodes, id as i64),
                            ..acc
                        },
                    ),
                }
            },
        }
    } else if ws[0] == seq!['a'] {
        match (i64_fields(ws, 1, 2), int_field(ws, 4, true, i64::MIN as int, i64::MAX as int)) {
            (Err(e), _) => Err(e),
            (Ok(_), Err(e)) => Err(e),
            (Ok(f), Ok(up)) => match commodity_values(
                ws,
                5,
                acc.num_commodities as nat,
                acc.rand_caps,
            ) {
                Err(e) => Err(e),
                Ok((caps, next)) => match commodity_values(
                    ws,
                    next,
                    acc.num_commodities as nat,
                    acc.rand_costs,
                ) {
                    Err(e) => Err(e),
                    Ok((costs, _)) => Ok(
                        MultiAcc {
                            edges: acc.edges.push((f[0], f[1])),
                            capacities: acc.capacities.push(up as i64),
                            commodity_capacities: acc.commodity_capacities.insert(
                                (f[0], f[1]),
                                caps,
                            ),
                            commodity_weights: acc.commodity_weights.insert((f[0], f[1]), costs),
                            nodes: add_node(add_node(acc.nodes, f[0]), f[1]),
                            ..acc
                        },
                    ),
                },
            },
        }
    } else {
        Ok(acc)
    }
}

/// The lines read in order; the first failing line decides the error.
pub open spec fn multi_fold(lines: Seq<Seq<char>>) -> Result<MultiAcc, ParseError>
    decreases lines.len(),
{
    if lines.len() == 0 {
        Ok(multi_start())
    } else {
        match multi_fold(lines.drop_last()) {
            Err(e) => Err(e),
            Ok(acc) => multi_step(acc, lines.last()),
        }
    }
}

/// The meaning of a multi-commodity text.
pub open spec fn spec_parse_multi(text: Seq<char>) -> Result<MultiAcc, ParseError> {
    multi_fold(lines_of(text))
}

/// `(k, tail, head)` for every commodity `k < num` and, within it, every edge.
pub open spec fn commodity_edge_list(edges: Seq<(i64, i64)>, num: nat) -> Seq<(usize, i64, i64)>
    decreases num,
{
    if num == 0 {
        Seq::empty()
    } else {
        commodity_edge_list(edges, (num - 1) as nat) + edges.map_values(
            |e: (i64, i64)| ((num - 1) as usize, e.0, e.1),
        )
    }
}

/// `p` holds exactly what `acc` declares.
pub open spec fn parsed_holds(p: ParsedMulticommodityInstance, acc: MultiAcc) -> bool {
    &&& p.num_nodes == acc.num_nodes
    &&& p.num_arcs == acc.num_arcs
    &&& p.num_commodities == acc.num_commodities
    &&& p.randomized_capacities == acc.rand_caps
    &&& p.randomized_weights == acc.rand_costs
    &&& p.is_uniform == acc.is_uniform
    &&& p.seed == acc.seed
    &&& p.nodes@ == acc.nodes
    &&& p.edges@ == acc.edges
    &&& p.supplies@ == acc.supplies
    &&& map_view(p.commodity_supply_demand_data@) == acc.partition
    &&& p.capacities@ == acc.capacities
    &&& map_view(p.commodity_capacities@) == acc.commodity_capacities
    &&& map_view(p.commodity_weights@) == acc.commodity_weights
    &&& p.commodity_edges@ == commodity_edge_list(acc.edges, acc.num_commodities as nat)
    &&& p.start_nodes@ == acc.edges.map_values(|e: (i64, i64)| e.0)
    &&& p.end_nodes@ == acc.edges.map_values(|e: (i64, i64)| e.1)
}

/// The accumulators of the multi-commodity reader.
struct MultiState {
    num_nodes: i64,
    num_arcs: i64,
    num_commodities: usize,
    rand_caps: bool,
    rand_costs: bool,
    is_uniform: bool,
    seed: u64,
    nodes: Vec<i64>,
    seen: BTreeSet<i64>,
    edges: Vec<(i64, i64)>,
    supplies: BTreeMap<i64, i64>,
    partition: BTreeMap<i64, Vec<i64>>,
    capacities: Vec<i64>,
    commodity_capacities: BTreeMap<(i64, i64), Vec<i64>>,
    commodity_weights: BTreeMap<(i64, i64), Vec<i64>>,
}

spec fn state_view(s: MultiState) -> MultiAcc {
    MultiAcc {
        num_nodes: s.num_nodes,
        num_arcs: s.num_arcs,
        num_commodities: s.num_commodities,
        rand_caps: s.rand_caps,
        rand_costs: s.rand_costs,
        is_uniform: s.is_uniform,
        seed: s.seed,
        nodes: s.nodes@,
        edges: s.edges@,
        supplies: s.supplies@,
        partition: map_view(s.partition@),
        capacities: s.capacities@,
        commodity_capacities: map_view(s.commodity_capacities@),
        commodity_weights: map_view(s.commodity_weights@),
    }
}

fn read_flag(ws: &Vec<Vec<char>>, i: usize) -> (r: Result<bool, ParseError>)
    ensures
        r == flag_field(texts_view(ws@), i as int),
{
    if i >= ws.len() {
        return Ok(false);
    }
    match read_int_field(ws, i, true, i32::MIN as i128, i32::MAX as i128) {
        Ok(v) => Ok(v != 0),
        Err(e) => Err(e),
    }
}

fn read_commodity_values(ws: &Vec<Vec<char>>, at: usize, k: usize, expanded: bool) -> (r: Result<
    (Vec<i64>, usize),
    ParseError,
>)
    ensures
        match (r, commodity_values(texts_view(ws@), at as int, k as nat, expanded)) {
            (Ok((a, n)), Ok((b, m))) => a@ == b && n == m,
            (Err(a), Err(b)) => a == b,
            _ => false,
        },
{
    if expanded {
        if at > ws.len() || k > ws.len() - at {
            return Err(ParseError::MissingField);
        }
        match read_i64_fields(ws, at, k) {
            Err(e) => Err(e),
            Ok(vals) => Ok((vals, at + k)),
        }
    } else {
        match read_int_field(ws, at, true, i64::MIN as i128, i64::MAX as i128) {
            Err(e) => Err(e),
            Ok(v) => {
                let vals = vec![v as i64; k];
                proof {
                    assert(vals@ =~= repeat(v as i64, k as nat));
                }
                Ok((vals, at + 1))
            },
        }
    }
}

/// Applies one line of a multi-commodity text (see `multi_step`).
fn apply_multi_line(st: &mut MultiState, line: &Vec<char>) -> (r: Result<(), ParseError>)
    requires
        old(st).seen@ == old(st).nodes@.to_set(),
    ensures
        final(st).seen@ == final(st).nodes@.to_set(),
        match multi_step(state_view(*old(st)), line@) {
            Ok(acc) => r is Ok && state_view(*final(st)) == acc,
            Err(e) => r == Err::<(), ParseError>(e),
        },
{
    let words = split_words(line);
    let ghost ws = texts_view(words@);
    if words.len() == 0 {
        return Ok(());
    }
    proof {
        assert(ws[0] == words@[0]@);
    }
    if word_is(&words[0], 'p') {
        let nn = read_int_field(&words, 2, true, i64::MIN as i128, i64::MAX as i128)?;
        let na = read_int_field(&words, 3, true, i64::MIN as i128, i64::MAX as i128)?;
        let k = read_int_field(&words, 4, false, 0, usize::MAX as i128)?;
        let seed = read_int_field(&words, 8, false, 0, u64::MAX as i128)?;
        let rc = read_flag(&words, 5)?;
        let rw = read_flag(&words, 6)?;
        let uni = read_flag(&words, 7)?;
        if na < 0 {
            return Err(ParseError::NegativeArcCount);
        }
        st.num_nodes = nn as i64;
        st.num_arcs = na as i64;
        st.num_commodities = k as usize;
        st.seed = seed as u64;
        st.rand_caps = rc;
        st.rand_costs = rw;
        st.is_uniform = uni;
        Ok(())
    } else if word_is(&words[0], 'n') {
        let id = read_int_field(&words, 1, true, i64::MIN as i128, i64::MAX as i128)? as i64;
        if words.len() < 3 {
            return Err(ParseError::MissingField);
        }
        let vals = read_i64_fields(&words, 3, words.len() - 3)?;
        match read_int_field(&words, 2, true, i64::MIN as i128, i64::MAX as i128) {
            Ok(total) => {
                st.supplies.insert(id, total as i64);
            },
            Err(_) => {
                st.supplies.remove(&id);
            },
        }
        st.partition.insert(id, vals);
        note_node(&mut st.nodes, &mut st.seen, id);
        proof {
            assert(map_view(st.partition@) =~= map_view(old(st).partition@).insert(id, vals@));
        }
        Ok(())
    } else if word_is(&words[0], 'a') {
        let f = read_i64_fields(&words, 1, 2)?;
        let up = read_int_field(&words, 4, true, i64::MIN as i128, i64::MAX as i128)?;
        let k = st.num_commodities;
        let (caps, next) = read_commodity_values(&words, 5, k, st.rand_caps)?;
        let (costs, _) = read_commodity_values(&words, next, k, st.rand_costs)?;
        let (u, v) = (f[0], f[1]);
        st.edges.push((u, v));
        st.capacities.push(up as i64);
        st.commodity_capacities.insert((u, v), caps);
        st.commodity_weights.insert((u, v), costs);
        note_node(&mut st.nodes, &mut st.seen, u);
        note_node(&mut st.nodes, &mut st.seen, v);
        proof {
            assert(map_view(st.commodity_capacities@) =~= map_view(
                old(st).commodity_capacities@,
            ).insert((u, v), caps@));
            assert(map_view(st.commodity_weights@) =~= map_view(old(st).commodity_weights@).insert(
                (u, v),
                costs@,
            ));
        }
        Ok(())
    } else {
        Ok(())
    }
}

/// Once a line fails, so does every longer prefix of the text.
proof fn lemma_multi_fold_error(ls: Seq<Seq<char>>, k: int, acc: MultiAcc)
    requires
        0 < k <= ls.len(),
        multi_fold(ls.take(k - 1)) == Ok::<MultiAcc, ParseError>(acc),
        multi_step(acc, ls[k - 1]) is Err,
    ensures
        multi_fold(ls) == Err::<MultiAcc, ParseError>(multi_step(acc, ls[k - 1])->Err_0),
    decreases ls.len(),
{
    if k == ls.len() {
        assert(ls.take(k - 1) =~= ls.drop_last());
    } else {
        assert(ls.drop_last().take(k - 1) =~= ls.take(k - 1));
        assert(ls.drop_last()[k - 1] == ls[k - 1]);
        lemma_multi_fold_error(ls.drop_last(), k, acc);
    }
}

/// Reads a multi-commodity instance from its text (see `multi_step`); the
/// commodity edges list every edge once per commodity, commodity by commodity.
pub fn parse_multi_min(text: &str) -> (r: Result<ParsedMulticommodityInstance, ParseError>)
    ensures
        match (r, spec_parse_multi(text@)) {
            (Ok(p), Ok(acc)) => parsed_holds(p, acc),
            (Err(a), Err(b)) => a == b,
            _ => false,
        },
{
    let chars = chars_of(text);
    let lines = split_lines(&chars);
    let ghost ls = texts_view(lines@);
    let mut st = MultiState {
        num_nodes: 0,
        num_arcs: 0,
        num_commodities: 0,
        rand_caps: false,
        rand_costs: false,
        is_uniform: false,
        seed: 0,
        nodes: Vec::new(),
        seen: BTreeSet::new(),
        edges: Vec::new(),
        supplies: BTreeMap::new(),
        partition: BTreeMap::new(),
        capacities: Vec::new(),
        commodity_capacities: BTreeMap::new(),
        commodity_weights: BTreeMap::new(),
    };
    proof {
        assert(st.nodes@.to_set() =~= st.seen@);
        assert(map_view(st.partition@) =~= Map::<i64, Seq<i64>>::empty());
        assert(map_view(st.commodity_capacities@) =~= Map::<(i64, i64), Seq<i64>>::empty());
        assert(map_view(st.commodity_weights@) =~= Map::<(i64, i64), Seq<i64>>::empty());
        assert(state_view(st) == multi_start());
    }
    let mut i: usize = 0;
    while i < lines.len()
        invariant
            ls == texts_view(lines@),
            ls == lines_of(text@),
            i <= lines.len(),
            st.seen@ == st.nodes@.to_set(),
            multi_fold(ls.take(i as int)) == Ok::<MultiAcc, ParseError>(state_view(st)),
        decreases lines.len() - i,
    {
        proof {
            assert(ls.take(i + 1).drop_last() =~= ls.take(i as int));
            assert(ls.take(i + 1).last() == lines@[i as int]@);
        }
        let ghost before = state_view(st);
        match apply_multi_line(&mut st, &lines[i]) {
            Err(e) => {
                proof {
                    lemma_multi_fold_error(ls, i as int + 1, before);
                }
                return Err(e);
            },
            Ok(()) => {},
        }
        i = i + 1;
    }
    proof {
        assert(ls.take(lines.len() as int) =~= ls);
    }
    let ghost acc = state_view(st);
    let mut commodity_edges: Vec<(usize, i64, i64)> = Vec::new();
    let mut c: usize = 0;
    while c < st.num_commodities
        invariant
            c <= st.num_commodities,
            acc == state_view(st),
            commodity_edges@ == commodity_edge_list(st.edges@, c as nat),
        decreases st.num_commodities - c,
    {
        let ghost before = commodity_edges@;
        let mut j: usize = 0;
        while j < st.edges.len()
            invariant
                c < st.num_commodities,
                j <= st.edges.len(),
                acc == state_view(st),
                commodity_edges@ == before + st.edges@.take(j as int).map_values(
                    |e: (i64, i64)| (c, e.0, e.1),
                ),
            decreases st.edges.len() - j,
        {
            let (u, v) = st.edges[j];
            commodity_edges.push((c, u, v));
            proof {
                assert(st.edges@.take(j + 1).map_values(|e: (i64, i64)| (c, e.0, e.1))
                    =~= st.edges@.take(j as int).map_values(|e: (i64, i64)| (c, e.0, e.1)).push(
                    (c, u, v),
                ));
            }
            j = j + 1;
        }
        proof {
            assert(st.edges@.take(st.edges.len() as int) =~= st.edges@);
            assert(commodity_edge_list(st.edges@, (c + 1) as nat) =~= before + st.edges@.map_values(
                |e: (i64, i64)| (c, e.0, e.1),
            ));
        }
        c = c + 1;
    }
    let mut start_nodes: Vec<i64> = Vec::new();
    let mut end_nodes: Vec<i64> = Vec::new();
    let mut j: usize = 0;
    while j < st.edges.len()
        invariant
            j <= st.edges.len(),
            acc == state_view(st),
            start_nodes@ == st.edges@.take(j as int).map_values(|e: (i64, i64)| e.0),
            end_nodes@ == st.edges@.take(j as int).map_values(|e: (i64, i64)| e.1),
        decreases st.edges.len() - j,
    {
        let (u, v) = st.edges[j];
        start_nodes.push(u);
        end_nodes.push(v);
        proof {
            assert(start_nodes@ =~= st.edges@.take(j + 1).map_values(|e: (i64, i64)| e.0));
            assert(end_nodes@ =~= st.edges@.take(j + 1).map_values(|e: (i64, i64)| e.1));
        }
        j = j + 1;
    }
    proof {
        assert(st.edges@.take(st.edges.len() as int) =~= st.edges@);
    }
    Ok(
        ParsedMulticommodityInstance {
            num_nodes: st.num_nodes,
            num_arcs: st.num_arcs,
            num_commodities: st.num_commodities,
            randomized_capacities: st.rand_caps,
            randomized_weights: st.rand_costs,
            nodes: st.nodes,
            edges: st.edges,
            supplies: st.supplies,
            commodity_supply_demand_data: st.partition,
            capacities: st.capacities,
            commodity_capacities: st.commodity_capacities,
            commodity_weights: st.commodity_weights,
            commodity_edges,
            start_nodes,
            end_nodes,
            is_uniform: st.is_uniform,
            seed: st.seed,
        },
    )
}

// ---------------------------------------------------------------------------
// Writing the multi-commodity text
// ---------------------------------------------------------------------------

/// The comment line that opens a written instance.
pub open spec fn header_text() -> Seq<char> {
    "c Multicommodity flow generated by s2mflow"@
}

pub open spec fn flag_num(b: bool) -> int {
    if b {
        1
    } else {
        0
    }
}

/// Integers written in decimal, one word each.
pub open spec fn printed(vals: Seq<i64>) -> Seq<Seq<char>> {
    vals.map_values(|v: i64| print_int(v as int))
}

/// `p min <nodes> <arcs> <commodities> <rand_caps> <rand_costs> <is_uniform> <seed>`
pub open spec fn problem_line(
    nn: i64,
    na: i64,
    k: usize,
    rc: bool,
    rw: bool,
    uni: bool,
    seed: u64,
) -> Seq<char> {
    join_words(
        seq![
            seq!['p'],
            seq!['m', 'i', 'n'],
            print_int(nn as int),
            print_int(na as int),
            print_int(k as int),
            print_int(flag_num(rc)),
            print_int(flag_num(rw)),
            print_int(flag_num(uni)),
            print_int(seed as int),
        ],
    )
}

/// `n <id> <total> <v_1> .. <v_K>`, where the total is the sum of the values.
pub open spec fn node_line(n: i64, vals: Seq<i64>) -> Seq<char> {
    join_words(
        seq![seq!['n'], print_int(n as int), print_int(row_sum(vals)), join_words(printed(vals))],
    )
}

/// `a <tail> <head> <low> <up> <caps..> <costs..>`
pub open spec fn arc_line(e: Edge, caps: Seq<i64>, costs: Seq<i64>) -> Seq<char> {
    join_words(
        seq![
            seq!['a'],
            print_int(e.tail as int),
            print_int(e.head as int),
            print_int(e.low as int),
            print_int(e.up as int),
            join_words(printed(caps)),
            join_words(printed(costs)),
        ],
    )
}

/// All values when `expanded`, else only the first.
pub open spec fn shown(vals: Seq<i64>, expanded: bool) -> Seq<i64> {
    if expanded {
        vals
    } else {
        vals.take(1)
    }
}

/// The seed that the problem line records: zero when nothing random went into the data.
pub open spec fn written_seed(data: MultiCommodityData) -> u64 {
    if data.is_uniform && !data.randomized_capacities && !data.randomized_weights {
        0
    } else {
        data.seed
    }
}

/// The lines of the text of `inst` with `data`: the comment, the problem line, one
/// node line per partitioned node in increasing order, one arc line per edge.
pub open spec fn export_lines(inst: NetworkInstance, data: MultiCommodityData) -> Seq<Seq<char>> {
    let keys = sorted_keys(data.supply_partition@.dom());
    seq![
        header_text(),
        problem_line(
            inst.num_nodes,
            inst.num_arcs,
            data.num_commodities,
            data.randomized_capacities,
            data.randomized_weights,
            data.is_uniform,
            written_seed(data),
        ),
    ] + keys.map_values(|n: i64| node_line(n, data.supply_partition@[n]@)) + Seq::new(
        inst.edges@.len(),
        |i: int|
            arc_line(
                inst.edges@[i],
                shown(data.capacities_by_arc@[i as usize]@, data.randomized_capacities),
                shown(data.weights_by_arc@[i as usize]@, data.randomized_weights),
            ),
    )
}

/// The text of `inst` with `data`.
pub open spec fn export_text(inst: NetworkInstance, data: MultiCommodityData) -> Seq<char> {
    join_lines(export_lines(inst, data))
}

/// Every running sum of `vals` fits in an `i64`.
pub open spec fn sums_fit(vals: Seq<i64>) -> bool {
    forall|j: int| 0 <= j <= vals.len() ==> i64::MIN <= #[trigger] row_sum(vals.take(j)) <= i64::MAX
}

/// `inst` and `data` can be written: every edge has capacities and costs (at least
/// one each where only the first is written) and every node's values can be summed.
pub open spec fn export_ready(inst: NetworkInstance, data: MultiCommodityData) -> bool {
    &&& forall|i: int|
        0 <= i < inst.edges@.len() ==> {
            &&& #[trigger] data.capacities_by_arc@.contains_key(i as usize)
            &&& data.weights_by_arc@.contains_key(i as usize)
            &&& !data.randomized_capacities ==> data.capacities_by_arc@[i as usize]@.len() >= 1
            &&& !data.randomized_weights ==> data.weights_by_arc@[i as usize]@.len() >= 1
        }
    &&& forall|n: i64| #[trigger]
        data.supply_partition@.contains_key(n) ==> sums_fit(data.supply_partition@[n]@)
}

/// Whether every running sum of `vals` fits in an `i64`.
fn running_sums_fit(vals: &Vec<i64>) -> (r: bool)
    ensures
        r == sums_fit(vals@),
{
    let mut acc: i128 = 0;
    let mut j: usize = 0;
    proof {
        assert(vals@.take(0) =~= Seq::<i64>::empty());
    }
    while j < vals.len()
        invariant
            j <= vals.len(),
            acc == row_sum(vals@.take(j as int)),
            i64::MIN <= acc <= i64::MAX,
            forall|i: int| 0 <= i <= j ==> i64::MIN <= #[trigger] row_sum(vals@.take(i)) <= i64::MAX,
        decreases vals.len() - j,
    {
        proof {
            assert(vals@.take(j + 1).drop_last() =~= vals@.take(j as int));
        }
        acc = acc + vals[j] as i128;
        if acc > i64::MAX as i128 || acc < i64::MIN as i128 {
            proof {
                assert(!(i64::MIN <= row_sum(vals@.take(j + 1)) <= i64::MAX));
            }
            return false;
        }
        j = j + 1;
    }
    true
}

/// Whether `instance` with `data` can be written (see `export_ready`).
pub fn can_export(instance: &NetworkInstance, data: &MultiCommodityData) -> (r: bool)
    ensures
        r == export_ready(*instance, *data),
{
    let m = instance.edges.len();
    let mut i: usize = 0;
    while i < m
        invariant
            m == instance.edges@.len(),
            i <= m,
            forall|j: int|
                0 <= j < i ==> {
                    &&& #[trigger] data.capacities_by_arc@.contains_key(j as usize)
                    &&& data.weights_by_arc@.contains_key(j as usize)
                    &&& !data.randomized_capacities ==> data.capacities_by_arc@[j as usize]@.len()
                        >= 1
                    &&& !data.randomized_weights ==> data.weights_by_arc@[j as usize]@.len() >= 1
                },
        decreases m - i,
    {
        match data.capacities_by_arc.get(&i) {
            None => {
                proof {
                    assert(!data.capacities_by_arc@.contains_key((i as int) as usize));
                }
                return false;
            },
            Some(caps) => {
                if !data.randomized_capacities && caps.len() == 0 {
                    proof {
                        assert(data.capacities_by_arc@[(i as int) as usize]@.len() == 0);
                    }
                    return false;
                }
            },
        }
        match data.weights_by_arc.get(&i) {
            None => {
                proof {
                    assert(!data.weights_by_arc@.contains_key((i as int) as usize));
                    assert(data.capacities_by_arc@.contains_key((i as int) as usize));
                }
                return false;
            },
            Some(costs) => {
                if !data.randomized_weights && costs.len() == 0 {
                    proof {
                        assert(data.weights_by_arc@[(i as int) as usize]@.len() == 0);
                        assert(data.capacities_by_arc@.contains_key((i as int) as usize));
                    }
                    return false;
                }
            },
        }
        proof {
            let j = i as int;
            assert(data.capacities_by_arc@.contains_key(j as usize));
            assert(data.weights_by_arc@.contains_key(j as usize));
            assert(!data.randomized_capacities ==> data.capacities_by_arc@[j as usize]@.len() >= 1);
            assert(!data.randomized_weights ==> data.weights_by_arc@[j as usize]@.len() >= 1);
            assert forall|j2: int| 0 <= j2 < i + 1 implies {
                &&& #[trigger] data.capacities_by_arc@.contains_key(j2 as usize)
                &&& data.weights_by_arc@.contains_key(j2 as usize)
                &&& !data.randomized_capacities ==> data.capacities_by_arc@[j2 as usize]@.len() >= 1
                &&& !data.randomized_weights ==> data.weights_by_arc@[j2 as usize]@.len() >= 1
            } by {
                if j2 < i {
                    assert(data.capacities_by_arc@.contains_key(j2 as usize));
                }
            }
        }
        i = i + 1;
    }
    let keys = key_vec(&data.supply_partition);
    let mut t: usize = 0;
    while t < keys.len()
        invariant
            keys@.to_set() == data.supply_partition@.dom(),
            t <= keys.len(),
            forall|j: int| 0 <= j < t ==> sums_fit(data.supply_partition@[#[trigger] keys@[j]]@),
        decreases keys.len() - t,
    {
        proof {
            assert(keys@.to_set().contains(keys@[t as int]));
        }
        let row = data.supply_partition.get(&keys[t]).unwrap();
        if !running_sums_fit(row) {
            return false;
        }
        t = t + 1;
    }
    proof {
        assert forall|n: i64| #[trigger] data.supply_partition@.contains_key(n) implies sums_fit(
            data.supply_partition@[n]@,
        ) by {
            assert(keys@.to_set().contains(n));
            let j = choose|j: int| 0 <= j < keys@.len() && keys@[j] == n;
        }
    }
    true
}

/// Writes the first `count` values in decimal, separated by spaces.
fn push_ints(out: &mut String, vals: &Vec<i64>, count: usize)
    requires
        count <= vals.len(),
    ensures
        final(out)@ == old(out)@ + join_words(printed(vals@.take(count as int))),
{
    let ghost start = out@;
    let mut j: usize = 0;
    proof {
        assert(printed(vals@.take(0)) =~= Seq::<Seq<char>>::empty());
        assert(out@ =~= start + join_words(printed(vals@.take(0))));
    }
    while j < count
        invariant
            j <= count <= vals.len(),
            out@ == start + join_words(printed(vals@.take(j as int))),
        decreases count - j,
    {
        let ghost before = out@;
        if j > 0 {
            push_char(out, ' ');
        }
        push_int(out, vals[j] as i128);
        proof {
            let ws = printed(vals@.take(j as int));
            assert(printed(vals@.take(j + 1)) =~= ws.push(print_int(vals@[j as int] as int)));
            lemma_join_words_push(ws, print_int(vals@[j as int] as int));
            if j > 0 {
                assert(out@ =~= start + (join_words(ws) + seq![' '] + print_int(vals@[j as int] as int)));
            } else {
                assert(out@ =~= start + print_int(vals@[j as int] as int));
            }
        }
        j = j + 1;
    }
}

/// Sums a node's values.
fn node_total(vals: &Vec<i64>) -> (total: i64)
    requires
        sums_fit(vals@),
    ensures
        total == row_sum(vals@),
{
    let mut total: i64 = 0;
    let mut j: usize = 0;
    while j < vals.len()
        invariant
            j <= vals.len(),
            sums_fit(vals@),
            total == row_sum(vals@.take(j as int)),
        decreases vals.len() - j,
    {
        proof {
            assert(vals@.take(j + 1).drop_last() =~= vals@.take(j as int));
            assert(i64::MIN <= row_sum(vals@.take(j + 1)) <= i64::MAX);
        }
        total = total + vals[j];
        j = j + 1;
    }
    proof {
        assert(vals@.take(vals.len() as int) =~= vals@);
    }
    total
}

/// Appends the words of `parts` pushed so far plus one more word.
proof fn lemma_push_part(text: Seq<char>, parts: Seq<Seq<char>>, w: Seq<char>)
    requires
        parts.len() > 0,
    ensures
        text + join_words(parts) + seq![' '] + w == text + join_words(parts.push(w)),
{
    lemma_join_words_push(parts, w);
    assert(text + join_words(parts) + seq![' '] + w =~= text + (join_words(parts) + seq![' '] + w));
}

/// Writes a space and then `v`.
fn push_sep_int(out: &mut String, v: i128)
    requires
        v > i128::MIN,
    ensures
        final(out)@ == old(out)@ + seq![' '] + print_int(v as int),
{
    push_char(out, ' ');
    push_int(out, v);
    proof {
        assert(final(out)@ =~= old(out)@ + seq![' '] + print_int(v as int));
    }
}

/// Writes an arc line showing the first `ncaps` capacities and `ncosts` costs.
fn push_arc_line(out: &mut String, e: Edge, caps: &Vec<i64>, ncaps: usize, costs: &Vec<i64>, ncosts: usize)
    requires
        ncaps <= caps.len(),
        ncosts <= costs.len(),
    ensures
        final(out)@ == old(out)@ + arc_line(e, caps@.take(ncaps as int), costs@.take(ncosts as int))
            + seq!['\n'],
{
    let ghost before = out@;
    push_char(out, 'a');
    let ghost mut ap: Seq<Seq<char>> = seq![seq!['a']];
    proof {
        assert(out@ =~= before + join_words(ap));
    }
    push_sep_int(out, e.tail as i128);
    proof { lemma_push_part(before, ap, print_int(e.tail as int)); ap = ap.push(print_int(e.tail as int)); }
    push_sep_int(out, e.head as i128);
    proof { lemma_push_part(before, ap, print_int(e.head as int)); ap = ap.push(print_int(e.head as int)); }
    push_sep_int(out, e.low as i128);
    proof { lemma_push_part(before, ap, print_int(e.low as int)); ap = ap.push(print_int(e.low as int)); }
    push_sep_int(out, e.up as i128);
    proof { lemma_push_part(before, ap, print_int(e.up as int)); ap = ap.push(print_int(e.up as int)); }
    push_char(out, ' ');
    push_ints(out, caps, ncaps);
    proof {
        let w = join_words(printed(caps@.take(ncaps as int)));
        assert(out@ =~= before + join_words(ap) + seq![' '] + w);
        lemma_push_part(before, ap, w);
        ap = ap.push(w);
    }
    push_char(out, ' ');
    push_ints(out, costs, ncosts);
    proof {
        let w = join_words(printed(costs@.take(ncosts as int)));
        assert(out@ =~= before + join_words(ap) + seq![' '] + w);
        lemma_push_part(before, ap, w);
        ap = ap.push(w);
        assert(ap =~= seq![
            seq!['a'],
            print_int(e.tail as int),
            print_int(e.head as int),
            print_int(e.low as int),
            print_int(e.up as int),
            join_words(printed(caps@.take(ncaps as int))),
            join_words(printed(costs@.take(ncosts as int))),
        ]);
    }
    push_char(out, '\n');
    proof {
        assert(final(out)@ =~= before + arc_line(e, caps@.take(ncaps as int), costs@.take(ncosts as int)) + seq!['\n']);
    }
}

/// Writes the text of a multi-commodity instance (see `export_lines`).
#[verifier::spinoff_prover]
#[verifier::rlimit(30)]
pub fn export_to_dimacs(instance: &NetworkInstance, multi_data: &MultiCommodityData) -> (text: String)
    requires
        export_ready(*instance, *multi_data),
    ensures
        text@ == export_text(*instance, *multi_data),
{
    let ghost lines = export_lines(*instance, *multi_data);
    let mut out = String::new();
    out.append("c Multicommodity flow generated by s2mflow");
    push_char(&mut out, '\n');
    proof {
        assert(lines.take(1) =~= seq![header_text()]);
        lemma_join_lines_push(Seq::empty(), header_text());
        assert(join_lines(Seq::<Seq<char>>::empty()) =~= Seq::<char>::empty());
        assert(seq![header_text()] =~= Seq::<Seq<char>>::empty().push(header_text()));
        assert(out@ =~= join_lines(lines.take(1)));
    }
    let is_uniform = multi_data.is_uniform;
    let rc = multi_data.randomized_capacities;
    let rw = multi_data.randomized_weights;
    let seed = if is_uniform && !rc && !rw {
        0
    } else {
        multi_data.seed
    };
    let ghost before_p = out@;
    push_char(&mut out, 'p');
    push_char(&mut out, ' ');
    push_char(&mut out, 'm');
    push_char(&mut out, 'i');
    push_char(&mut out, 'n');
    proof {
        reveal_with_fuel(join_words, 3);
        assert(out@ =~= before_p + join_words(seq![seq!['p'], seq!['m', 'i', 'n']]));
    }
    let ghost mut parts: Seq<Seq<char>> = seq![seq!['p'], seq!['m', 'i', 'n']];
    push_sep_int(&mut out, instance.num_nodes as i128);
    proof { lemma_push_part(before_p, parts, print_int(instance.num_nodes as int)); parts = parts.push(print_int(instance.num_nodes as int)); }
    push_sep_int(&mut out, instance.num_arcs as i128);
    proof { lemma_push_part(before_p, parts, print_int(instance.num_arcs as int)); parts = parts.push(print_int(instance.num_arcs as int)); }
    push_sep_int(&mut out, multi_data.num_commodities as i128);
    proof { lemma_push_part(before_p, parts, print_int(multi_data.num_commodities as int)); parts = parts.push(print_int(multi_data.num_commodities as int)); }
    push_sep_int(&mut out, if rc { 1 } else { 0 });
    proof { lemma_push_part(before_p, parts, print_int(flag_num(rc))); parts = parts.push(print_int(flag_num(rc))); }
    push_sep_int(&mut out, if rw { 1 } else { 0 });
    proof { lemma_push_part(before_p, parts, print_int(flag_num(rw))); parts = parts.push(print_int(flag_num(rw))); }
    push_sep_int(&mut out, if is_uniform { 1 } else { 0 });
    proof { lemma_push_part(before_p, parts, print_int(flag_num(is_uniform))); parts = parts.push(print_int(flag_num(is_uniform))); }
    push_sep_int(&mut out, seed as i128);
    proof {
        lemma_push_part(before_p, parts, print_int(seed as int));
        parts = parts.push(print_int(seed as int));
        assert(parts =~= seq![
            seq!['p'],
            seq!['m', 'i', 'n'],
            print_int(instance.num_nodes as int),
            print_int(instance.num_arcs as int),
            print_int(multi_data.num_commodities as int),
            print_int(flag_num(rc)),
            print_int(flag_num(rw)),
            print_int(flag_num(is_uniform)),
            print_int(seed as int),
        ]);
    }
    push_char(&mut out, '\n');
    proof {
        assert(lines[1] == join_words(parts));
        assert(lines.take(2) =~= lines.take(1).push(lines[1]));
        lemma_join_lines_push(lines.take(1), lines[1]);
        assert(out@ =~= join_lines(lines.take(2)));
    }
    let keys = key_vec(&multi_data.supply_partition);
    let ghost ks = keys@;
    let mut t: usize = 0;
    while t < keys.len()
        invariant
            lines == export_lines(*instance, *multi_data),
            export_ready(*instance, *multi_data),
            keys@ == ks,
            ks == sorted_keys(multi_data.supply_partition@.dom()),
            ks.to_set() == multi_data.supply_partition@.dom(),
            t <= keys.len(),
            out@ == join_lines(lines.take(2 + t)),
        decreases keys.len() - t,
    {
        let node = keys[t];
        proof {
            assert(ks.to_set().contains(node));
        }
        let vals = multi_data.supply_partition.get(&node).unwrap();
        let total = node_total(vals);
        let ghost before = out@;
        push_char(&mut out, 'n');
        let ghost mut np: Seq<Seq<char>> = seq![seq!['n']];
        proof {
            assert(out@ =~= before + join_words(np));
        }
        push_sep_int(&mut out, node as i128);
        proof { lemma_push_part(before, np, print_int(node as int)); np = np.push(print_int(node as int)); }
        push_sep_int(&mut out, total as i128);
        proof { lemma_push_part(before, np, print_int(total as int)); np = np.push(print_int(total as int)); }
        push_char(&mut out, ' ');
        push_ints(&mut out, vals, vals.len());
        proof {
            assert(vals@.take(vals.len() as int) =~= vals@);
            let w = join_words(printed(vals@));
            assert(out@ =~= before + join_words(np) + seq![' '] + w);
            lemma_push_part(before, np, w);
            np = np.push(w);
            assert(np =~= seq![seq!['n'], print_int(node as int), print_int(row_sum(vals@)), w]);
            assert(lines[2 + t] == node_line(node, vals@));
        }
        push_char(&mut out, '\n');
        proof {
            assert(lines.take(2 + t + 1) =~= lines.take(2 + t).push(lines[2 + t]));
            lemma_join_lines_push(lines.take(2 + t), lines[2 + t]);
        }
        t = t + 1;
    }
    let ghost nk = keys.len() as int;
    let mut i: usize = 0;
    while i < instance.edges.len()
        invariant
            lines == export_lines(*instance, *multi_data),
            export_ready(*instance, *multi_data),
            nk == sorted_keys(multi_data.supply_partition@.dom()).len(),
            rc == multi_data.randomized_capacities,
            rw == multi_data.randomized_weights,
            i <= instance.edges.len(),
            out@ == join_lines(lines.take(2 + nk + i)),
        decreases instance.edges.len() - i,
    {
        let e = instance.edges[i];
        proof {
            assert(multi_data.capacities_by_arc@.contains_key(i as usize));
        }
        let caps = multi_data.capacities_by_arc.get(&i).unwrap();
        let costs = multi_data.weights_by_arc.get(&i).unwrap();
        let ncaps = if rc {
            caps.len()
        } else {
            1
        };
        let ncosts = if rw {
            costs.len()
        } else {
            1
        };
        push_arc_line(&mut out, e, caps, ncaps, costs, ncosts);
        proof {
            assert(caps@.take(ncaps as int) =~= shown(caps@, rc));
            assert(costs@.take(ncosts as int) =~= shown(costs@, rw));
            assert(lines[2 + nk + i] == arc_line(e, shown(caps@, rc), shown(costs@, rw)));
        }
        proof {
            assert(lines.take(2 + nk + i + 1) =~= lines.take(2 + nk + i).push(lines[2 + nk + i]));
            lemma_join_lines_push(lines.take(2 + nk + i), lines[2 + nk + i]);
        }
        i = i + 1;
    }
    proof {
        assert(lines.take(2 + nk + instance.edges.len()) =~= lines);
    }
    out
}

/// Whether both endpoints of every edge are among `nodes`.
pub fn endpoints_listed(nodes: &Vec<i64>, edges: &Vec<(i64, i64)>) -> (r: bool)
    ensures
        r == endpoints_are_nodes(nodes@, edges@),
{
    let mut listed: BTreeSet<i64> = BTreeSet::new();
    let mut j: usize = 0;
    while j < nodes.len()
        invariant
            j <= nodes.len(),
            listed@ == nodes@.take(j as int).to_set(),
        decreases nodes.len() - j,
    {
        proof {
            assert(nodes@.take(j + 1) =~= nodes@.take(j as int).push(nodes@[j as int]));
            nodes@.take(j as int).lemma_push_to_set_commute(nodes@[j as int]);
        }
        listed.insert(nodes[j]);
        j = j + 1;
    }
    proof {
        assert(nodes@.take(nodes.len() as int) =~= nodes@);
    }
    let mut i: usize = 0;
    while i < edges.len()
        invariant
            listed@ == nodes@.to_set(),
            i <= edges.len(),
            forall|k: int|
                0 <= k < i ==> nodes@.contains(#[trigger] edges@[k].0) && nodes@.contains(
                    edges@[k].1,
                ),
        decreases edges.len() - i,
    {
        let (tail, head) = edges[i];
        if !listed.contains(&tail) || !listed.contains(&head) {
            proof {
                assert(edges@[i as int].0 == tail);
            }
            return false;
        }
        proof {
            assert(nodes@.to_set().contains(tail) && nodes@.to_set().contains(head));
            assert(nodes@.contains(tail));
            assert(nodes@.contains(head));
            assert(edges@[i as int].0 == tail && edges@[i as int].1 == head);
        }
        i = i + 1;
    }
    true
}

/// Builds, for every node, the list of tails of its incoming edges and the
/// list of heads of its outgoing edges.
pub fn get_incidence_mapping(nodes: Vec<i64>, edges: Vec<(i64, i64)>) -> (res: (
    BTreeMap<i64, Vec<i64>>,
    BTreeMap<i64, Vec<i64>>,
))
    requires
        endpoints_are_nodes(nodes@, edges@),
    ensures
        is_incidence_mapping(nodes@, edges@, res.0@, res.1@),
{
    let mut incoming: BTreeMap<i64, Vec<i64>> = BTreeMap::new();
    let mut outgoing: BTreeMap<i64, Vec<i64>> = BTreeMap::new();
    let mut i: usize = 0;
    while i < nodes.len()
        invariant
            i <= nodes.len(),
            incoming@.dom() == nodes@.take(i as int).to_set(),
            outgoing@.dom() == nodes@.take(i as int).to_set(),
            forall|v: i64| #[trigger] incoming@.contains_key(v) ==> incoming@[v]@ == Seq::<i64>::empty(),
            forall|v: i64| #[trigger] outgoing@.contains_key(v) ==> outgoing@[v]@ == Seq::<i64>::empty(),
        decreases nodes.len() - i,
    {
        let node = nodes[i];
        incoming.insert(node, Vec::new());
        outgoing.insert(node, Vec::new());
        assert(nodes@.take(i + 1) == nodes@.take(i as int).push(node));
        proof { nodes@.take(i as int).lemma_push_to_set_commute(node); }
        i = i + 1;
    }
    assert(nodes@.take(nodes.len() as int) == nodes@);
    let mut j: usize = 0;
    while j < edges.len()
        invariant
            j <= edges.len(),
            endpoints_are_nodes(nodes@, edges@),
            incoming@.dom() == nodes@.to_set(),
            outgoing@.dom() == nodes@.to_set(),
            forall|v: i64| #[trigger]
                incoming@.contains_key(v) ==> incoming@[v]@ == tails_into(edges@.take(j as int), v),
            forall|v: i64| #[trigger]
                outgoing@.contains_key(v) ==> outgoing@[v]@ == heads_from(edges@.take(j as int), v),
        decreases edges.len() - j,
    {
        let (tail, head) = edges[j];
        assert(nodes@.contains(edges@[j as int].0) && nodes@.contains(edges@[j as int].1));
        let ghost prefix = edges@.take(j + 1);
        assert(prefix.drop_last() == edges@.take(j as int));
        assert(prefix.last() == (tail, head));
        let mut ins = incoming.remove(&head).unwrap();
        ins.push(tail);
        incoming.insert(head, ins);
        let mut outs = outgoing.remove(&tail).unwrap();
        outs.push(head);
        outgoing.insert(tail, outs);
        j = j + 1;
    }
    assert(edges@.take(edges.len() as int) == edges@);
    (incoming, outgoing)
}

} // verus!
