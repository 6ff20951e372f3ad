//! Partitioning of nodal supplies across commodities.

use crate::logic::sums::{
    abs, column_sum, columns_settled, lemma_column_gap_has_row, lemma_column_sum_bounds,
    lemma_column_sum_update, lemma_columns_total_is_sum_of_rows, lemma_entry_within_row_sum,
    lemma_row_sum_constant, lemma_row_sum_update, lemma_row_sums_agree, lemma_rows_with_sums,
    lemma_settled_zero_total, lemma_sign_consistent_same_signed, lemma_sum_of_rows_update,
    lemma_two_entries_within_row_sum, lemma_wide_abs_total_nonneg, lemma_wide_abs_total_update,
    row_sum, rows_view, sign_consistent, sum_of_rows, wide_abs_total,
};
use crate::keys::{
    key_vec, lemma_sorted_keys_exist, sorted_keys, strictly_increasing,
};
use crate::random::{random_i64_inclusive, random_index, rng_from_seed};
use crate::stdlib::{ascending, sort_ascending};
use std::collections::BTreeMap;
use rand::rngs::StdRng;
use vstd::prelude::*;

verus! {

/// The rows have `num` entries each, agree in sign with their totals, and each
/// sums to an `i64`.
pub open spec fn rows_ready(rows: Seq<Seq<i64>>, totals: Seq<i64>, num: int) -> bool {
    &&& rows.len() == totals.len()
    &&& forall|r: int| 0 <= r < rows.len() ==> (#[trigger] rows[r]).len() == num
    &&& forall|r: int| 0 <= r < rows.len() ==> sign_consistent(#[trigger] rows[r], totals[r])
    &&& forall|r: int| 0 <= r < rows.len() ==> i64::MIN <= row_sum(#[trigger] rows[r]) <= i64::MAX
}

/// `|v|` lies between `|total| / num` and `|total| / num` rounded up: the share of an
/// even split.
pub open spec fn within_share(v: i64, total: i64, num: int) -> bool {
    let a = abs(total as int);
    a / num <= abs(v as int) <= (a + num - 1) / num
}

/// Every entry of `row` is an even share of `total`.
pub open spec fn row_within(row: Seq<i64>, total: i64, num: int) -> bool {
    forall|k: int| 0 <= k < row.len() ==> within_share(#[trigger] row[k], total, num)
}

/// Every row is made of even shares of its total.
pub open spec fn rows_within(rows: Seq<Seq<i64>>, totals: Seq<i64>, num: int) -> bool {
    forall|r: int| 0 <= r < rows.len() ==> row_within(#[trigger] rows[r], totals[r], num)
}

/// Whether a node with values `row` and supply `total` can move a unit of commodity
/// `sk` to commodity `dk`: when `even`, only if it holds more of `sk` than of `dk`;
/// else at a supply node that holds some `sk`, or a demand node that holds some `dk`.
pub open spec fn can_give(row: Seq<i64>, total: i64, sk: int, dk: int, even: bool) -> bool {
    if even {
        row[sk] > row[dk]
    } else {
        (total > 0 && row[sk] > 0) || (total < 0 && row[dk] < 0)
    }
}

/// `bal` holds the first `num` column sums of `rows`.
pub open spec fn holds_balances(bal: Seq<i128>, rows: Seq<Seq<i64>>, num: int) -> bool {
    &&& bal.len() == num
    &&& forall|k: int| 0 <= k < num ==> #[trigger] bal[k] == column_sum(rows, k)
}

/// The balance of every commodity `k < num`: its values summed over all rows.
pub open spec fn balances_of(rows: Seq<Seq<i64>>, num: int) -> Seq<int> {
    Seq::new(num as nat, |k: int| column_sum(rows, k))
}

/// The commodities `k < m` with a positive balance (`surplus`) or a negative one,
/// in increasing order.
pub open spec fn signed_commodities(bal: Seq<int>, m: int, surplus: bool) -> Seq<int>
    decreases m,
{
    if m <= 0 {
        Seq::empty()
    } else {
        let prev = signed_commodities(bal, m - 1, surplus);
        if (surplus && bal[m - 1] > 0) || (!surplus && bal[m - 1] < 0) {
            prev.push(m - 1)
        } else {
            prev
        }
    }
}

/// `row` after one unit of commodity `sk` became a unit of commodity `dk`.
pub open spec fn moved_row(row: Seq<i64>, sk: int, dk: int) -> Seq<i64> {
    row.update(sk, (row[sk] - 1) as i64).update(dk, (row[dk] + 1) as i64)
}

/// At a node with values `row` and supply `total`, tries at most `left` deficit
/// commodities of `dks`, cyclically from position `dp`: the first one to which the
/// node can give a unit of `sk` (see `can_give`), and the position after the last
/// one tried.
pub open spec fn deficit_try(
    row: Seq<i64>,
    total: i64,
    sk: int,
    dks: Seq<int>,
    dp: int,
    left: nat,
    even: bool,
) -> (Option<int>, int)
    decreases left,
{
    if left == 0 {
        (None, dp)
    } else {
        let dk = dks[dp];
        let next = (dp + 1) % (dks.len() as int);
        if can_give(row, total, sk, dk, even) {
            (Some(dk), next)
        } else {
            deficit_try(row, total, sk, dks, next, (left - 1) as nat, even)
        }
    }
}

/// Visits at most `left` nodes cyclically from node `np`, moving at each one unit of
/// `sk` to the first deficit commodity that can take it, until the balance of `sk`
/// reaches zero. Gives the rows, the next node and the next deficit position.
pub open spec fn node_sweep(
    rows: Seq<Seq<i64>>,
    totals: Seq<i64>,
    sk: int,
    dks: Seq<int>,
    np: int,
    dp: int,
    left: nat,
    even: bool,
) -> (Seq<Seq<i64>>, int, int)
    decreases left,
{
    if left == 0 {
        (rows, np, dp)
    } else {
        let (m, dp2) = deficit_try(rows[np], totals[np], sk, dks, dp, dks.len(), even);
        let rows2 = match m {
            Some(dk) => rows.update(np, moved_row(rows[np], sk, dk)),
            None => rows,
        };
        let np2 = (np + 1) % (rows.len() as int);
        if column_sum(rows2, sk) == 0 {
            (rows2, np2, dp2)
        } else {
            node_sweep(rows2, totals, sk, dks, np2, dp2, (left - 1) as nat, even)
        }
    }
}

/// The rows being balanced, the node at which the next sweep starts and the
/// position of the deficit commodity to try first.
pub struct BalanceState {
    pub rows: Seq<Seq<i64>>,
    pub node_ptr: int,
    pub deficit_ptr: int,
}

/// One round of balancing in which commodity `sk` gives units: one sweep over the
/// nodes, trying the commodities with a negative balance at its start; `even` as in
/// `can_give`.
pub open spec fn balance_round(
    s: BalanceState,
    totals: Seq<i64>,
    num: int,
    sk: int,
    even: bool,
) -> BalanceState {
    let dks = signed_commodities(balances_of(s.rows, num), num, false);
    let dp = if s.deficit_ptr >= dks.len() {
        0
    } else {
        s.deficit_ptr
    };
    let (rows, np, dp2) = node_sweep(s.rows, totals, sk, dks, s.node_ptr, dp, s.rows.len(), even);
    BalanceState { rows, node_ptr: np, deficit_ptr: dp2 }
}

/// The rounds in which the commodities `picks` give units, in turn.
pub open spec fn balance_rounds(
    s: BalanceState,
    totals: Seq<i64>,
    num: int,
    picks: Seq<int>,
    even: bool,
) -> BalanceState
    decreases picks.len(),
{
    if picks.len() == 0 {
        s
    } else {
        balance_round(
            balance_rounds(s, totals, num, picks.drop_last(), even),
            totals,
            num,
            picks.last(),
            even,
        )
    }
}

/// Every round of `picks` starts while some commodity has a positive balance and
/// another a negative one, and lets one with a positive balance give units: the
/// first such commodity when `first`, which also moves units as `can_give` does when
/// `even`.
pub open spec fn picks_valid(
    s: BalanceState,
    totals: Seq<i64>,
    num: int,
    picks: Seq<int>,
    first: bool,
) -> bool
    decreases picks.len(),
{
    picks.len() == 0 || {
        let before = balance_rounds(s, totals, num, picks.drop_last(), first);
        let bal = balances_of(before.rows, num);
        let surplus = signed_commodities(bal, num, true);
        &&& picks_valid(s, totals, num, picks.drop_last(), first)
        &&& surplus.contains(picks.last())
        &&& signed_commodities(bal, num, false).len() > 0
        &&& (first ==> picks.last() == surplus[0])
    }
}

/// The balancing of `rows` from the first node: rounds as long as some commodity
/// has a positive balance and another a negative one, each with a commodity of
/// positive balance giving units. When `first`, it is always the first such
/// commodity, and a node gives a unit only of a commodity it holds more of
/// (`can_give` with `even`).
pub open spec fn is_balancing_run(
    rows: Seq<Seq<i64>>,
    totals: Seq<i64>,
    num: int,
    result: Seq<Seq<i64>>,
    first: bool,
) -> bool {
    exists|picks: Seq<int>|
        #![trigger balance_rounds(BalanceState { rows, node_ptr: 0, deficit_ptr: 0 }, totals, num, picks, first)]
        picks_valid(BalanceState { rows, node_ptr: 0, deficit_ptr: 0 }, totals, num, picks, first)
            && balance_rounds(BalanceState { rows, node_ptr: 0, deficit_ptr: 0 }, totals, num, picks, first).rows
            == result
}

proof fn lemma_signed_members(bal: Seq<int>, m: int, surplus: bool, x: int)
    requires
        signed_commodities(bal, m, surplus).contains(x),
    ensures
        0 <= x < m,
        surplus ==> bal[x] > 0,
        !surplus ==> bal[x] < 0,
    decreases m,
{
    if m > 0 {
        let prev = signed_commodities(bal, m - 1, surplus);
        if prev.contains(x) {
            lemma_signed_members(bal, m - 1, surplus, x);
        } else {
            let s = signed_commodities(bal, m, surplus);
            let i = choose|i: int| 0 <= i < s.len() && s[i] == x;
            if i < prev.len() {
                assert(prev[i] == x);
            }
        }
    }
}

proof fn lemma_picks_prefix(
    s: BalanceState,
    totals: Seq<i64>,
    num: int,
    picks: Seq<int>,
    first: bool,
    i: int,
)
    requires
        picks_valid(s, totals, num, picks, first),
        0 <= i <= picks.len(),
    ensures
        picks_valid(s, totals, num, picks.take(i), first),
    decreases picks.len() - i,
{
    if i < picks.len() {
        lemma_picks_prefix(s, totals, num, picks, first, i + 1);
        assert(picks.take(i + 1).drop_last() =~= picks.take(i));
    } else {
        assert(picks.take(i) =~= picks);
    }
}

/// A run that always lets the first commodity with a positive balance give units
/// ends in one outcome: two settled results of such runs from the same rows are equal.
pub proof fn lemma_first_surplus_run_unique(
    rows: Seq<Seq<i64>>,
    totals: Seq<i64>,
    num: int,
    r1: Seq<Seq<i64>>,
    r2: Seq<Seq<i64>>,
)
    requires
        is_balancing_run(rows, totals, num, r1, true),
        is_balancing_run(rows, totals, num, r2, true),
        columns_settled(r1, num),
        columns_settled(r2, num),
    ensures
        r1 == r2,
{
    let s = BalanceState { rows, node_ptr: 0, deficit_ptr: 0 };
    let p1 = choose|p: Seq<int>|
        #![trigger balance_rounds(s, totals, num, p, true)]
        picks_valid(s, totals, num, p, true) && balance_rounds(s, totals, num, p, true).rows == r1;
    let p2 = choose|p: Seq<int>|
        #![trigger balance_rounds(s, totals, num, p, true)]
        picks_valid(s, totals, num, p, true) && balance_rounds(s, totals, num, p, true).rows == r2;
    if p1.len() <= p2.len() {
        lemma_first_picks_agree(s, totals, num, p1, p2);
        if p1.len() < p2.len() {
            lemma_settled_stops(s, totals, num, p2, p1.len() as int);
        } else {
            assert(p2 =~= p1);
        }
    } else {
        lemma_first_picks_agree(s, totals, num, p2, p1);
        lemma_settled_stops(s, totals, num, p1, p2.len() as int);
    }
}

/// Two first-surplus runs agree on their common prefix.
proof fn lemma_first_picks_agree(
    s: BalanceState,
    totals: Seq<i64>,
    num: int,
    p1: Seq<int>,
    p2: Seq<int>,
)
    requires
        picks_valid(s, totals, num, p1, true),
        picks_valid(s, totals, num, p2, true),
        p1.len() <= p2.len(),
    ensures
        p2.take(p1.len() as int) == p1,
{
    assert forall|i: int| 0 <= i <= p1.len() implies #[trigger] p2.take(i) == p1.take(i) by {
        lemma_first_picks_agree_upto(s, totals, num, p1, p2, i);
    }
    assert(p1.take(p1.len() as int) =~= p1);
}

proof fn lemma_first_picks_agree_upto(
    s: BalanceState,
    totals: Seq<i64>,
    num: int,
    p1: Seq<int>,
    p2: Seq<int>,
    i: int,
)
    requires
        picks_valid(s, totals, num, p1, true),
        picks_valid(s, totals, num, p2, true),
        0 <= i <= p1.len(),
        p1.len() <= p2.len(),
    ensures
        p2.take(i) == p1.take(i),
    decreases i,
{
    if i == 0 {
        assert(p2.take(0) =~= p1.take(0));
    } else {
        lemma_first_picks_agree_upto(s, totals, num, p1, p2, i - 1);
        lemma_picks_prefix(s, totals, num, p1, true, i);
        lemma_picks_prefix(s, totals, num, p2, true, i);
        assert(p1.take(i).drop_last() =~= p1.take(i - 1));
        assert(p2.take(i).drop_last() =~= p2.take(i - 1));
        assert(p1.take(i).last() == p1[i - 1]);
        assert(p2.take(i).last() == p2[i - 1]);
        assert(p2.take(i) =~= p1.take(i));
    }
}

/// A valid round starts only from a state whose commodities are not settled.
proof fn lemma_settled_stops(s: BalanceState, totals: Seq<i64>, num: int, picks: Seq<int>, i: int)
    requires
        picks_valid(s, totals, num, picks, true),
        0 <= i < picks.len(),
    ensures
        !columns_settled(balance_rounds(s, totals, num, picks.take(i), true).rows, num),
{
    lemma_picks_prefix(s, totals, num, picks, true, i + 1);
    let q = picks.take(i + 1);
    assert(q.drop_last() =~= picks.take(i));
    let before = balance_rounds(s, totals, num, picks.take(i), true);
    let bal = balances_of(before.rows, num);
    let dks = signed_commodities(bal, num, false);
    lemma_signed_members(bal, num, true, q.last());
    assert(dks.contains(dks[0]));
    lemma_signed_members(bal, num, false, dks[0]);
    assert(column_sum(before.rows, q.last()) > 0);
    assert(column_sum(before.rows, dks[0]) < 0);
}

/// The entries of `v` as integers.
pub open spec fn as_ints(v: Seq<usize>) -> Seq<int> {
    v.map_values(|x: usize| x as int)
}

/// Picks the commodity that gives away a unit: at random when a generator is
/// given, else the first one.
fn pick_surplus(rng: &mut Option<&mut StdRng>, surplus: &Vec<usize>) -> (sk: usize)
    requires
        surplus.len() > 0,
    ensures
        surplus@.contains(sk),
        *old(rng) is None ==> sk == surplus[0],
        (*final(rng) is None) == (*old(rng) is None),
{
    match rng {
        Some(g) => {
            let i = random_index(g, surplus.len());
            surplus[i]
        },
        None => surplus[0],
    }
}

/// Moves one unit at row `idx` from commodity `sk` to commodity `dk`.
fn move_unit(
    rows: &mut Vec<Vec<i64>>,
    balances: &mut Vec<i128>,
    totals: &Vec<i64>,
    idx: usize,
    sk: usize,
    dk: usize,
    num_commodities: usize,
)
    requires
        rows_ready(rows_view(old(rows)@), totals@, num_commodities as int),
        holds_balances(old(balances)@, rows_view(old(rows)@), num_commodities as int),
        idx < old(rows).len(),
        sk < num_commodities,
        dk < num_commodities,
        sk != dk,
        old(balances)[sk as int] > 0,
        (totals[idx as int] > 0 && old(rows)[idx as int][sk as int] > 0) || (totals[idx as int] < 0
            && old(rows)[idx as int][dk as int] < 0),
    ensures
        rows_ready(rows_view(final(rows)@), totals@, num_commodities as int),
        holds_balances(final(balances)@, rows_view(final(rows)@), num_commodities as int),
        final(rows).len() == old(rows).len(),
        forall|r: int|
            0 <= r < final(rows).len() ==> row_sum(#[trigger] final(rows)[r]@) == row_sum(
                old(rows)[r]@,
            ),
        final(balances)[sk as int] == old(balances)[sk as int] - 1,
        rows_view(final(rows)@) == rows_view(old(rows)@).update(
            idx as int,
            moved_row(rows_view(old(rows)@)[idx as int], sk as int, dk as int),
        ),
        wide_abs_total(final(balances)@) <= wide_abs_total(old(balances)@),
        old(balances)[dk as int] < 0 ==> wide_abs_total(final(balances)@) == wide_abs_total(
            old(balances)@,
        ) - 2,
{
    let ghost rows0 = rows_view(rows@);
    let ghost bal0 = balances@;
    let ghost row0 = rows0[idx as int];
    proof {
        lemma_sign_consistent_same_signed(row0, totals[idx as int]);
        lemma_two_entries_within_row_sum(row0, sk as int, dk as int);
        lemma_entry_within_row_sum(row0, sk as int);
        lemma_entry_within_row_sum(row0, dk as int);
        assert(row0.len() == num_commodities);
        assert(row0 == rows@[idx as int]@);
        assert(i64::MIN <= row_sum(row0) <= i64::MAX);
    }
    let a = rows[idx][sk];
    let b = rows[idx][dk];
    rows[idx].set(sk, a - 1);
    rows[idx].set(dk, b + 1);
    let ghost new_row = row0.update(sk as int, (a - 1) as i64).update(dk as int, (b + 1) as i64);
    proof {
        assert(rows_view(rows@) =~= rows0.update(idx as int, new_row));
        lemma_row_sum_update(row0, sk as int, (a - 1) as i64);
        lemma_row_sum_update(row0.update(sk as int, (a - 1) as i64), dk as int, (b + 1) as i64);
        lemma_sum_of_rows_update(rows0, idx as int, new_row);
        assert forall|r: int| 0 <= r < rows.len() implies sign_consistent(
            #[trigger] rows_view(rows@)[r],
            totals[r],
        ) by {
            if r == idx {
            } else {
                assert(rows_view(rows@)[r] == rows0[r]);
            }
        }
        assert forall|k: int| 0 <= k < num_commodities implies column_sum(rows_view(rows@), k)
            == bal0[k] - (if k == sk {
            1int
        } else {
            0int
        }) + (if k == dk {
            1int
        } else {
            0int
        }) by {
            lemma_column_sum_update(rows0, idx as int, new_row, k);
        }
        assert forall|r: int| 0 <= r < rows.len() implies same_signed_fact(
            rows_view(rows@),
            totals@,
            r,
        ) by {
            lemma_sign_consistent_same_signed(rows_view(rows@)[r], totals[r]);
        }
        assert forall|r: int| 0 <= r < rows_view(rows@).len() implies (dk as int) < (
        #[trigger] rows_view(rows@)[r]).len() && (sk as int) < rows_view(rows@)[r].len() by {
            if r != idx {
                assert(rows_view(rows@)[r] == rows0[r]);
            }
        }
        lemma_column_sum_bounds(rows_view(rows@), dk as int);
        lemma_column_sum_bounds(rows_view(rows@), sk as int);
    }
    let s = balances[sk];
    let d = balances[dk];
    balances.set(sk, s - 1);
    balances.set(dk, d + 1);
    proof {
        lemma_wide_abs_total_update(bal0, sk as int, (s - 1) as i128);
        lemma_wide_abs_total_update(bal0.update(sk as int, (s - 1) as i128), dk as int, (d + 1) as i128);
        assert forall|r: int| 0 <= r < rows.len() implies row_sum(#[trigger] rows[r]@) == row_sum(
            rows0[r],
        ) by {
            if r != idx {
                assert(rows_view(rows@)[r] == rows0[r]);
            }
        }
    }
}

/// Visiting `n` consecutive positions from `start`, cyclically, reaches every position.
proof fn lemma_cyclic_visit_covers(start: int, n: int, idx: int)
    requires
        0 <= start < n,
        0 <= idx < n,
    ensures
        exists|t: int| 0 <= t < n && #[trigger] ((start + t) % n) == idx,
{
    if idx >= start {
        let t = idx - start;
        vstd::arithmetic::div_mod::lemma_small_mod(idx as nat, n as nat);
        assert((start + t) % n == idx);
    } else {
        let t = idx + n - start;
        vstd::arithmetic::div_mod::lemma_mod_multiples_vanish(1, idx, n);
        vstd::arithmetic::div_mod::lemma_small_mod(idx as nat, n as nat);
        assert(start + t == n * 1 + idx);
        assert((start + t) % n == idx);
    }
}

/// A node that can give a unit moves one the way `move_unit` allows.
proof fn lemma_can_give_moves(row: Seq<i64>, total: i64, sk: int, dk: int, even: bool)
    requires
        sign_consistent(row, total),
        0 <= sk < row.len(),
        0 <= dk < row.len(),
        can_give(row, total, sk, dk, even),
    ensures
        (total > 0 && row[sk] > 0) || (total < 0 && row[dk] < 0),
{
    assert(total > 0 ==> row[dk] >= 0);
    assert(total < 0 ==> row[sk] <= 0);
    assert(total == 0 ==> row[sk] == 0 && row[dk] == 0);
}

/// A node holding more of `sk` than of `dk` can give `dk` a unit of `sk`, with or
/// without `even`.
proof fn lemma_gap_can_give(row: Seq<i64>, total: i64, sk: int, dk: int, even: bool)
    requires
        sign_consistent(row, total),
        0 <= sk < row.len(),
        0 <= dk < row.len(),
        row[sk] > row[dk],
    ensures
        can_give(row, total, sk, dk, even),
{
    assert(total > 0 ==> row[dk] >= 0);
    assert(total < 0 ==> row[sk] <= 0);
    assert(total == 0 ==> row[sk] == 0 && row[dk] == 0);
}

/// Moving a unit from a larger to a smaller entry keeps a row of even shares even.
proof fn lemma_move_within(row: Seq<i64>, total: i64, sk: int, dk: int, num: int)
    requires
        row_within(row, total, num),
        sign_consistent(row, total),
        0 <= sk < row.len(),
        0 <= dk < row.len(),
        sk != dk,
        row[sk] > row[dk],
    ensures
        row_within(moved_row(row, sk, dk), total, num),
{
    let m = moved_row(row, sk, dk);
    assert(within_share(row[sk], total, num) && within_share(row[dk], total, num));
    assert(total > 0 ==> row[dk] >= 0);
    assert(total < 0 ==> row[sk] <= 0);
    assert forall|k: int| 0 <= k < m.len() implies within_share(#[trigger] m[k], total, num) by {
        if k != sk && k != dk {
            assert(m[k] == row[k]);
        }
    }
}

/// Shifts units between commodities until no commodity has a positive balance
/// or none has a negative one. Each row keeps its sum and its sign.
fn balance_rows(
    rows: &mut Vec<Vec<i64>>,
    totals: &Vec<i64>,
    num_commodities: usize,
    rng: Option<&mut StdRng>,
)
    requires
        rows_ready(rows_view(old(rows)@), totals@, num_commodities as int),
    ensures
        rows_ready(rows_view(final(rows)@), totals@, num_commodities as int),
        final(rows).len() == old(rows).len(),
        forall|r: int|
            0 <= r < final(rows).len() ==> row_sum(#[trigger] final(rows)[r]@) == row_sum(
                old(rows)[r]@,
            ),
        columns_settled(rows_view(final(rows)@), num_commodities as int),
        columns_settled(rows_view(old(rows)@), num_commodities as int) ==> rows_view(final(rows)@)
            == rows_view(old(rows)@),
        is_balancing_run(
            rows_view(old(rows)@),
            totals@,
            num_commodities as int,
            rows_view(final(rows)@),
            rng is None,
        ),
        rng is None && rows_within(rows_view(old(rows)@), totals@, num_commodities as int)
            ==> rows_within(rows_view(final(rows)@), totals@, num_commodities as int),
        columns_settled(rows_view(old(rows)@), num_commodities as int) ==> (rng matches Some(g)
            ==> *final(g) == *g),
{
    let ghost rows0 = rows_view(rows@);
    let n = rows.len();
    let mut balances: Vec<i128> = vec![0i128; num_commodities];
    let mut r: usize = 0;
    while r < n
        invariant
            n == rows.len(),
            rows_view(rows@) == rows0,
            rows_ready(rows0, totals@, num_commodities as int),
            r <= n,
            balances.len() == num_commodities,
            forall|k: int|
                0 <= k < num_commodities ==> #[trigger] balances[k] == column_sum(
                    rows0.take(r as int),
                    k,
                ),
        decreases n - r,
    {
        let mut k: usize = 0;
        while k < num_commodities
            invariant
                n == rows.len(),
                rows_view(rows@) == rows0,
                rows_ready(rows0, totals@, num_commodities as int),
                r < n,
                k <= num_commodities,
                balances.len() == num_commodities,
                forall|j: int|
                    0 <= j < k ==> #[trigger] balances[j] == column_sum(
                        rows0.take(r + 1),
                        j,
                    ),
                forall|j: int|
                    k <= j < num_commodities ==> #[trigger] balances[j] == column_sum(
                        rows0.take(r as int),
                        j,
                    ),
            decreases num_commodities - k,
        {
            proof {
                let pre = rows0.take(r + 1);
                assert(pre.drop_last() =~= rows0.take(r as int));
                assert(pre.last() == rows0[r as int]);
                assert(rows0[r as int] == rows@[r as int]@);
                assert forall|i: int| 0 <= i < pre.len() implies k < (#[trigger] pre[i]).len() by {}
                lemma_column_sum_bounds(pre, k as int);
                assert(n as int <= 0xffff_ffff_ffff_ffff);
            }
            let v = balances[k] + rows[r][k] as i128;
            balances.set(k, v);
            k = k + 1;
        }
        r = r + 1;
    }
    assert(rows0.take(n as int) =~= rows0);
    let mut node_ptr: usize = 0;
    let mut deficit_ptr: usize = 0;
    let ghost first = rng is None;
    let even = rng.is_none();
    let ghost num = num_commodities as int;
    let ghost init = BalanceState { rows: rows0, node_ptr: 0, deficit_ptr: 0 };
    let ghost mut picks: Seq<int> = Seq::empty();
    let ghost rng0 = rng;
    let mut rng = rng;
    loop
        invariant
            n == rows.len(),
            num == num_commodities,
            rows_ready(rows_view(rows@), totals@, num_commodities as int),
            holds_balances(balances@, rows_view(rows@), num_commodities as int),
            forall|i: int|
                0 <= i < rows.len() ==> row_sum(#[trigger] rows[i]@) == row_sum(rows0[i]),
            n > 0 ==> node_ptr < n,
            columns_settled(rows0, num_commodities as int) ==> rows_view(rows@) == rows0,
            (rng is None) == first,
            columns_settled(rows0, num) ==> picks.len() == 0 && rng == rng0,
            even == first,
            even && rows_within(rows0, totals@, num) ==> rows_within(rows_view(rows@), totals@, num),
            init == (BalanceState { rows: rows0, node_ptr: 0, deficit_ptr: 0 }),
            picks_valid(init, totals@, num, picks, first),
            balance_rounds(init, totals@, num, picks, first) == (BalanceState {
                rows: rows_view(rows@),
                node_ptr: node_ptr as int,
                deficit_ptr: deficit_ptr as int,
            }),
        ensures
            n == rows.len(),
            rows_ready(rows_view(rows@), totals@, num_commodities as int),
            forall|i: int|
                0 <= i < rows.len() ==> row_sum(#[trigger] rows[i]@) == row_sum(rows0[i]),
            columns_settled(rows_view(rows@), num_commodities as int),
            columns_settled(rows0, num_commodities as int) ==> rows_view(rows@) == rows0,
            is_balancing_run(rows0, totals@, num_commodities as int, rows_view(rows@), first),
            even && rows_within(rows0, totals@, num) ==> rows_within(rows_view(rows@), totals@, num),
        decreases wide_abs_total(balances@),
    {
        let mut surplus: Vec<usize> = Vec::new();
        let mut deficit: Vec<usize> = Vec::new();
        let mut k: usize = 0;
        while k < num_commodities
            invariant
                k <= num_commodities,
                balances.len() == num_commodities,
                forall|i: int|
                    0 <= i < surplus.len() ==> #[trigger] surplus[i] < k && balances[surplus[i] as int]
                        > 0,
                forall|i: int|
                    0 <= i < deficit.len() ==> #[trigger] deficit[i] < k && balances[deficit[i] as int]
                        < 0,
                forall|j: int| 0 <= j < k && balances[j] > 0 ==> #[trigger] surplus@.contains(j as usize),
                forall|j: int| 0 <= j < k && balances[j] < 0 ==> #[trigger] deficit@.contains(j as usize),
                num == num_commodities,
                holds_balances(balances@, rows_view(rows@), num),
                as_ints(surplus@) == signed_commodities(balances_of(rows_view(rows@), num), k as int, true),
                as_ints(deficit@) == signed_commodities(balances_of(rows_view(rows@), num), k as int, false),
            decreases num_commodities - k,
        {
            let ghost old_surplus = surplus@;
            let ghost old_deficit = deficit@;
            if balances[k] > 0 {
                surplus.push(k);
            } else if balances[k] < 0 {
                deficit.push(k);
            }
            proof {
                assert forall|j: int| 0 <= j < k && old_surplus.contains(j as usize) implies #[trigger] surplus@.contains(j as usize) by {
                    let i = choose|i: int| 0 <= i < old_surplus.len() && old_surplus[i] == j as usize;
                    assert(surplus@[i] == j as usize);
                }
                assert forall|j: int| 0 <= j < k && old_deficit.contains(j as usize) implies #[trigger] deficit@.contains(j as usize) by {
                    let i = choose|i: int| 0 <= i < old_deficit.len() && old_deficit[i] == j as usize;
                    assert(deficit@[i] == j as usize);
                }
                if balances[k as int] > 0 {
                    assert(surplus@[surplus.len() - 1] == k);
                    assert(surplus@.contains(k));
                }
                if balances[k as int] < 0 {
                    assert(deficit@[deficit.len() - 1] == k);
                    assert(deficit@.contains(k));
                }
                assert(balances_of(rows_view(rows@), num)[k as int] == balances[k as int]);
                assert(as_ints(surplus@) =~= signed_commodities(
                    balances_of(rows_view(rows@), num),
                    k + 1,
                    true,
                ));
                assert(as_ints(deficit@) =~= signed_commodities(
                    balances_of(rows_view(rows@), num),
                    k + 1,
                    false,
                ));
            }
            k = k + 1;
        }
        if surplus.len() == 0 || deficit.len() == 0 {
            proof {
                let rv = rows_view(rows@);
                if surplus.len() == 0 {
                    assert forall|j: int| 0 <= j < num_commodities implies #[trigger] column_sum(rv, j)
                        <= 0 by {
                        assert(balances[j] == column_sum(rv, j));
                        if balances[j] > 0 {
                            assert(surplus@.contains(j as usize));
                        }
                    }
                } else {
                    assert forall|j: int| 0 <= j < num_commodities implies #[trigger] column_sum(rv, j)
                        >= 0 by {
                        assert(balances[j] == column_sum(rv, j));
                        if balances[j] < 0 {
                            assert(deficit@.contains(j as usize));
                        }
                    }
                }
                assert(balance_rounds(init, totals@, num, picks, first).rows == rv);
            }
            break;
        }
        proof {
            let rv = rows_view(rows@);
            if columns_settled(rows0, num_commodities as int) {
                assert(rv == rows0);
                let a = surplus[0] as int;
                let b = deficit[0] as int;
                assert(column_sum(rv, a) > 0);
                assert(column_sum(rv, b) < 0);
                assert(false);
            }
        }
        let ghost surplus_before = surplus@;
        let sk = pick_surplus(&mut rng, &surplus);
        let ghost state_before = BalanceState {
            rows: rows_view(rows@),
            node_ptr: node_ptr as int,
            deficit_ptr: deficit_ptr as int,
        };
        let ghost dks = as_ints(deficit@);
        if deficit_ptr >= deficit.len() {
            deficit_ptr = 0;
        }
        let ghost dp0 = deficit_ptr as int;
        let ghost start_total = wide_abs_total(balances@);
        let ghost bal_start = balances@;
        let ghost rows_start = rows_view(rows@);
        let ghost p0 = node_ptr as int;
        let ghost mut swapped = false;
        proof {
            let i = choose|i: int| 0 <= i < surplus.len() && surplus[i] == sk;
            assert(balances[sk as int] > 0);
            if n == 0 {
                assert(column_sum(rows_view(rows@), sk as int) == 0);
            }
            vstd::arithmetic::div_mod::lemma_small_mod(p0 as nat, n as nat);
        }
        let mut t: usize = 0;
        while t < n
            invariant_except_break
                balances[sk as int] > 0,
                node_sweep(rows_start, totals@, sk as int, dks, p0, dp0, n as nat, even) == node_sweep(
                    rows_view(rows@),
                    totals@,
                    sk as int,
                    dks,
                    node_ptr as int,
                    deficit_ptr as int,
                    (n - t) as nat,
                    even,
                ),
            invariant
                n == rows.len(),
                n > 0,
                0 <= p0 < n,
                t <= n,
                dks == as_ints(deficit@),
                dks.len() == deficit.len(),
                rows_ready(rows_view(rows@), totals@, num_commodities as int),
                holds_balances(balances@, rows_view(rows@), num_commodities as int),
                forall|i: int|
                    0 <= i < rows.len() ==> row_sum(#[trigger] rows[i]@) == row_sum(rows0[i]),
                !columns_settled(rows0, num_commodities as int),
                sk < num_commodities,
                bal_start.len() == num_commodities,
                bal_start[sk as int] > 0,
                start_total == wide_abs_total(bal_start),
                even == first,
                num == num_commodities,
                even && rows_within(rows0, totals@, num) ==> rows_within(
                    rows_view(rows@),
                    totals@,
                    num,
                ),
                deficit.len() > 0,
                deficit_ptr < deficit.len(),
                forall|i: int|
                    0 <= i < deficit.len() ==> #[trigger] deficit[i] < num_commodities
                        && bal_start[deficit[i] as int] < 0,
                node_ptr == (p0 + t) % (n as int),
                !swapped ==> rows_view(rows@) == rows_start && balances@ == bal_start,
                !swapped ==> forall|u: int, i: int|
                    0 <= u < t && 0 <= i < deficit.len() ==> !can_give(
                        rows_start[#[trigger] ((p0 + u) % (n as int))],
                        totals[(p0 + u) % (n as int)],
                        sk as int,
                        #[trigger] deficit[i] as int,
                        even,
                    ),
                swapped ==> wide_abs_total(balances@) <= start_total - 2,
            ensures
                n == rows.len(),
                n > 0,
                node_ptr < n,
                rows_ready(rows_view(rows@), totals@, num_commodities as int),
                holds_balances(balances@, rows_view(rows@), num_commodities as int),
                forall|i: int|
                    0 <= i < rows.len() ==> row_sum(#[trigger] rows[i]@) == row_sum(rows0[i]),
                !columns_settled(rows0, num_commodities as int),
                swapped || forall|u: int, i: int|
                    0 <= u < n && 0 <= i < deficit.len() ==> !can_give(
                        rows_start[#[trigger] ((p0 + u) % (n as int))],
                        totals[(p0 + u) % (n as int)],
                        sk as int,
                        #[trigger] deficit[i] as int,
                        even,
                    ),
                swapped ==> wide_abs_total(balances@) <= start_total - 2,
                even && rows_within(rows0, totals@, num) ==> rows_within(
                    rows_view(rows@),
                    totals@,
                    num,
                ),
                node_sweep(rows_start, totals@, sk as int, dks, p0, dp0, n as nat, even) == (
                rows_view(rows@),
                node_ptr as int,
                deficit_ptr as int,
                ),
            decreases n - t,
        {
            let idx = node_ptr;
            let mut j: usize = 0;
            let mut moved = false;
            let ghost bal_node = balances@;
            let ghost rows_node = rows_view(rows@);
            let ghost dp_node = deficit_ptr as int;
            let ghost len = deficit.len() as nat;
            let ghost mut moved_dk: int = 0;
            proof {
                vstd::arithmetic::div_mod::lemma_small_mod(dp_node as nat, len);
            }
            while j < deficit.len()
                invariant_except_break
                    !moved,
                    deficit_try(
                        rows_node[idx as int],
                        totals[idx as int],
                        sk as int,
                        dks,
                        dp_node,
                        len,
                        even,
                    ) == deficit_try(
                        rows_node[idx as int],
                        totals[idx as int],
                        sk as int,
                        dks,
                        deficit_ptr as int,
                        (len - j) as nat,
                        even,
                    ),
                    deficit_ptr == (dp_node + j) % (len as int),
                    forall|jj: int|
                        0 <= jj < j ==> !can_give(
                            rows_node[idx as int],
                            totals[idx as int],
                            sk as int,
                            deficit[#[trigger] ((dp_node + jj) % (len as int))] as int,
                            even,
                        ),
                invariant
                    0 <= dp_node < len,
                    even == first,
                    num == num_commodities,
                    rows_node.len() == n,
                    even && rows_within(rows0, totals@, num) ==> rows_within(
                        rows_view(rows@),
                        totals@,
                        num,
                    ),
                    !moved ==> even && rows_within(rows0, totals@, num) ==> rows_within(
                        rows_node,
                        totals@,
                        num,
                    ),
                    n == rows.len(),
                    idx < n,
                    dks == as_ints(deficit@),
                    len == deficit.len(),
                    rows_node.len() == n,
                    j <= deficit.len(),
                    deficit_ptr < deficit.len(),
                    rows_ready(rows_view(rows@), totals@, num_commodities as int),
                    holds_balances(balances@, rows_view(rows@), num_commodities as int),
                    forall|i: int|
                        0 <= i < rows.len() ==> row_sum(#[trigger] rows[i]@) == row_sum(rows0[i]),
                    sk < num_commodities,
                    balances[sk as int] > 0 || moved,
                    balances[sk as int] >= 0,
                    moved ==> balances[sk as int] == bal_node[sk as int] - 1,
                    bal_node[sk as int] > 0,
                    forall|i: int|
                        0 <= i < deficit.len() ==> #[trigger] deficit[i] < num_commodities
                            && bal_start[deficit[i] as int] < 0,
                    bal_start[sk as int] > 0,
                    !moved ==> rows_view(rows@) == rows_node && balances@ == bal_node,
                    moved ==> wide_abs_total(balances@) <= wide_abs_total(bal_node),
                    moved && bal_node == bal_start ==> wide_abs_total(balances@) <= wide_abs_total(
                        bal_node,
                    ) - 2,
                ensures
                    n == rows.len(),
                    deficit_ptr < deficit.len(),
                    rows_ready(rows_view(rows@), totals@, num_commodities as int),
                    holds_balances(balances@, rows_view(rows@), num_commodities as int),
                    forall|i: int|
                        0 <= i < rows.len() ==> row_sum(#[trigger] rows[i]@) == row_sum(rows0[i]),
                    !moved ==> rows_view(rows@) == rows_node && balances@ == bal_node,
                    !moved ==> forall|jj: int|
                        0 <= jj < len ==> !can_give(
                            rows_node[idx as int],
                            totals[idx as int],
                            sk as int,
                            deficit[#[trigger] ((dp_node + jj) % (len as int))] as int,
                            even,
                        ),
                    balances[sk as int] >= 0,
                    moved ==> balances[sk as int] == bal_node[sk as int] - 1,
                    moved ==> wide_abs_total(balances@) <= wide_abs_total(bal_node),
                    moved && bal_node == bal_start ==> wide_abs_total(balances@) <= wide_abs_total(
                        bal_node,
                    ) - 2,
                    even && rows_within(rows0, totals@, num) ==> rows_within(
                        rows_view(rows@),
                        totals@,
                        num,
                    ),
                    moved ==> deficit_try(
                        rows_node[idx as int],
                        totals[idx as int],
                        sk as int,
                        dks,
                        dp_node,
                        len,
                        even,
                    ) == (Some(moved_dk), deficit_ptr as int) && rows_view(rows@) == rows_node.update(
                        idx as int,
                        moved_row(rows_node[idx as int], sk as int, moved_dk),
                    ),
                    !moved ==> deficit_try(
                        rows_node[idx as int],
                        totals[idx as int],
                        sk as int,
                        dks,
                        dp_node,
                        len,
                        even,
                    ) == (None::<int>, deficit_ptr as int),
                decreases deficit.len() - j,
            {
                let dk = deficit[deficit_ptr];
                proof {
                    assert(rows_view(rows@)[idx as int] == rows@[idx as int]@);
                }
                let can_swap = if even {
                    rows[idx][sk] > rows[idx][dk]
                } else {
                    (totals[idx] > 0 && rows[idx][sk] > 0) || (totals[idx] < 0 && rows[idx][dk] < 0)
                };
                proof {
                    assert(can_swap == can_give(
                        rows_node[idx as int],
                        totals[idx as int],
                        sk as int,
                        dk as int,
                        even,
                    ));
                }
                let ghost dp_here = deficit_ptr as int;
                deficit_ptr = (deficit_ptr + 1) % deficit.len();
                if can_swap {
                    proof {
                        assert(bal_start[dk as int] < 0);
                        assert(dk != sk);
                        assert(rows_view(rows@)[idx as int] == rows@[idx as int]@);
                        assert(balances@ == bal_node);
                        assert(balances[sk as int] == bal_node[sk as int]);
                        lemma_can_give_moves(
                            rows_node[idx as int],
                            totals[idx as int],
                            sk as int,
                            dk as int,
                            even,
                        );
                    }
                    move_unit(rows, &mut balances, totals, idx, sk, dk, num_commodities);
                    moved = true;
                    proof {
                        moved_dk = dk as int;
                        if even && rows_within(rows0, totals@, num) {
                            lemma_move_within(
                                rows_node[idx as int],
                                totals[idx as int],
                                sk as int,
                                dk as int,
                                num,
                            );
                            assert forall|r: int| 0 <= r < rows_view(rows@).len() implies row_within(
                                #[trigger] rows_view(rows@)[r],
                                totals[r],
                                num,
                            ) by {
                                if r != idx {
                                    assert(rows_view(rows@)[r] == rows_node[r]);
                                }
                            }
                        }
                    }
                    break;
                }
                proof {
                    assert(rows_view(rows@)[idx as int] == rows@[idx as int]@);
                    assert(dp_here == (dp_node + j) % (len as int));
                    assert(deficit_ptr == (dp_node + j + 1) % (len as int)) by {
                        vstd::arithmetic::div_mod::lemma_add_mod_noop(dp_node + j, 1, len as int);
                        vstd::arithmetic::div_mod::lemma_mod_twice(dp_node + j, len as int);
                        vstd::arithmetic::div_mod::lemma_add_mod_noop((dp_node + j) % (len as int), 1, len as int);
                    }
                }
                j = j + 1;
            }
            proof {
                if moved && !swapped {
                    assert(bal_node == bal_start);
                    assert(wide_abs_total(bal_node) == start_total);
                }
                if moved && swapped {
                    assert(wide_abs_total(bal_node) <= start_total - 2);
                }
                if !moved && !swapped {
                    assert forall|i: int| 0 <= i < deficit.len() implies !can_give(
                        rows_start[idx as int],
                        totals[idx as int],
                        sk as int,
                        #[trigger] deficit[i] as int,
                        even,
                    ) by {
                        lemma_cyclic_visit_covers(dp_node, len as int, i);
                        let jj = choose|jj: int|
                            0 <= jj < len && #[trigger] ((dp_node + jj) % (len as int)) == i;
                        assert(rows_node == rows_start);
                    }
                }
                if moved {
                    swapped = true;
                }
            }
            node_ptr = (node_ptr + 1) % n;
            proof {
                vstd::arithmetic::div_mod::lemma_add_mod_noop(p0 + t, 1, n as int);
                assert((p0 + t + 1) % (n as int) == ((p0 + t) % (n as int) + 1) % (n as int)) by {
                    vstd::arithmetic::div_mod::lemma_add_mod_noop(p0 + t, 1, n as int);
                    vstd::arithmetic::div_mod::lemma_mod_twice(p0 + t + 1, n as int);
                    vstd::arithmetic::div_mod::lemma_add_mod_noop((p0 + t) % (n as int), 1, n as int);
                    vstd::arithmetic::div_mod::lemma_mod_twice(p0 + t, n as int);
                }
            }
            t = t + 1;
            if balances[sk] == 0 {
                break;
            }
        }
        proof {
            if !swapped {
                let rv = rows_view(rows@);
                assert(rv == rows_start);
                let d0 = deficit[0] as int;
                assert(column_sum(rv, sk as int) > 0);
                assert(column_sum(rv, d0) < 0);
                lemma_column_gap_has_row(rv, sk as int, d0);
                let r = choose|r: int| 0 <= r < rv.len() && #[trigger] rv[r][sk as int] > rv[r][d0];
                lemma_gap_can_give(rv[r], totals[r], sk as int, d0, even);
                lemma_cyclic_visit_covers(p0, n as int, r);
                let u = choose|u: int| 0 <= u < n && #[trigger] ((p0 + u) % (n as int)) == r;
                assert(!can_give(rows_start[(p0 + u) % (n as int)], totals[(p0 + u) % (n as int)], sk as int, deficit[0] as int, even));
                assert(false);
            }
            lemma_wide_abs_total_nonneg(balances@);
            let new_picks = picks.push(sk as int);
            assert(new_picks.drop_last() =~= picks);
            assert(balance_round(state_before, totals@, num, sk as int, first) == (BalanceState {
                rows: rows_view(rows@),
                node_ptr: node_ptr as int,
                deficit_ptr: deficit_ptr as int,
            }));
            assert(as_ints(surplus_before).contains(sk as int)) by {
                let i = choose|i: int| 0 <= i < surplus_before.len() && surplus_before[i] == sk;
                assert(as_ints(surplus_before)[i] == sk as int);
            }
            picks = new_picks;
        }
    }
}

/// A partition as a map from node to its per-commodity values.
pub open spec fn partition_view(m: Map<i64, Vec<i64>>) -> Map<i64, Seq<i64>> {
    m.map_values(|v: Vec<i64>| v@)
}

/// The rows of a partition, by increasing node.
pub open spec fn rows_of(p: Map<i64, Seq<i64>>) -> Seq<Seq<i64>> {
    sorted_keys(p.dom()).map_values(|n: i64| p[n])
}

/// The balance of commodity `k`: its values summed over all nodes.
pub open spec fn commodity_balance(p: Map<i64, Seq<i64>>, k: int) -> int {
    column_sum(rows_of(p), k)
}

/// Every node of `p` has a total in `totals` and `num` values that agree in sign
/// with that total and sum to an `i64`.
pub open spec fn partition_ready(p: Map<i64, Seq<i64>>, totals: Map<i64, i64>, num: int) -> bool {
    &&& forall|n: i64| #[trigger] p.contains_key(n) ==> totals.contains_key(n)
    &&& forall|n: i64| #[trigger] p.contains_key(n) ==> p[n].len() == num
    &&& forall|n: i64| #[trigger] p.contains_key(n) ==> sign_consistent(p[n], totals[n])
    &&& forall|n: i64| #[trigger] p.contains_key(n) ==> i64::MIN <= row_sum(p[n]) <= i64::MAX
}

/// Every node's values in `p` are even shares of its supply in `totals`.
pub open spec fn partition_within(p: Map<i64, Seq<i64>>, totals: Map<i64, i64>, num: int) -> bool {
    forall|n: i64| #[trigger] p.contains_key(n) ==> row_within(p[n], totals[n], num)
}

/// The supplies in `totals` of the nodes of `p`, by increasing node.
pub open spec fn totals_of(p: Map<i64, Seq<i64>>, totals: Map<i64, i64>) -> Seq<i64> {
    sorted_keys(p.dom()).map_values(|n: i64| totals[n])
}

/// `post` comes from `pre` by moving units between commodities within nodes:
/// the nodes, the node sums and the signs stay, and afterwards no commodity has a
/// positive balance or none has a negative one. A settled `pre` stays as it is.
pub open spec fn is_balancing(
    pre: Map<i64, Seq<i64>>,
    post: Map<i64, Seq<i64>>,
    totals: Map<i64, i64>,
    num: int,
) -> bool {
    &&& post.dom() == pre.dom()
    &&& forall|n: i64| #[trigger] post.contains_key(n) ==> post[n].len() == num
    &&& forall|n: i64| #[trigger] post.contains_key(n) ==> row_sum(post[n]) == row_sum(pre[n])
    &&& forall|n: i64| #[trigger] post.contains_key(n) ==> sign_consistent(post[n], totals[n])
    &&& columns_settled(rows_of(post), num)
    &&& columns_settled(rows_of(pre), num) ==> post == pre
}

/// Balances a partition across commodities: while some commodity has a positive
/// balance and another a negative one, units move from a surplus commodity to deficit
/// commodities, at nodes visited round-robin. With `rng`, the surplus commodity is
/// picked at random and a supply node gives from any commodity it holds, a demand
/// node to any it holds. Without, the first surplus commodity gives, and a node gives
/// a unit only of a commodity it holds more of than of the deficit one, which keeps
/// even shares even. A partition that is already settled is left alone, and nothing
/// is drawn from `rng`.
pub fn balance_commodities(
    commodity_data: &mut BTreeMap<i64, Vec<i64>>,
    original_data: &BTreeMap<i64, i64>,
    num_commodities: usize,
    rng: Option<&mut StdRng>,
)
    requires
        partition_ready(partition_view(old(commodity_data)@), original_data@, num_commodities as int),
    ensures
        is_balancing(
            partition_view(old(commodity_data)@),
            partition_view(final(commodity_data)@),
            original_data@,
            num_commodities as int,
        ),
        is_balancing_run(
            rows_of(partition_view(old(commodity_data)@)),
            totals_of(partition_view(old(commodity_data)@), original_data@),
            num_commodities as int,
            rows_of(partition_view(final(commodity_data)@)),
            rng is None,
        ),
        rng is None && partition_within(
            partition_view(old(commodity_data)@),
            original_data@,
            num_commodities as int,
        ) ==> partition_within(
            partition_view(final(commodity_data)@),
            original_data@,
            num_commodities as int,
        ),
        columns_settled(rows_of(partition_view(old(commodity_data)@)), num_commodities as int) ==> (
        rng matches Some(g) ==> *final(g) == *g),
{
    let ghost pre = partition_view(commodity_data@);
    let keys = key_vec(commodity_data);
    let ghost ks = keys@;
    assert(pre.dom() =~= commodity_data@.dom());
    let mut rows: Vec<Vec<i64>> = Vec::new();
    let mut totals: Vec<i64> = Vec::new();
    let mut i: usize = 0;
    while i < keys.len()
        invariant
            keys@ == ks,
            ks == sorted_keys(pre.dom()),
            pre == partition_view(commodity_data@),
            ks.to_set() == pre.dom(),
            partition_ready(pre, original_data@, num_commodities as int),
            i <= keys.len(),
            rows.len() == i,
            totals.len() == i,
            forall|j: int| 0 <= j < i ==> #[trigger] rows[j]@ == pre[ks[j]],
            forall|j: int| 0 <= j < i ==> #[trigger] totals[j] == original_data@[ks[j]],
        decreases keys.len() - i,
    {
        let k = keys[i];
        proof {
            assert(pre.dom().contains(k)) by {
                assert(ks.to_set().contains(ks[i as int]));
            }
        }
        let row = commodity_data.get(&k).unwrap().clone();
        let total = *original_data.get(&k).unwrap();
        proof {
            assert(row@ =~= pre[k]);
        }
        rows.push(row);
        totals.push(total);
        i = i + 1;
    }
    proof {
        assert(rows_view(rows@) =~= rows_of(pre));
        assert forall|r: int| 0 <= r < rows.len() implies sign_consistent(
            #[trigger] rows_view(rows@)[r],
            totals[r],
        ) && rows_view(rows@)[r].len() == num_commodities && i64::MIN <= row_sum(
            rows_view(rows@)[r],
        ) <= i64::MAX by {
            assert(ks.to_set().contains(ks[r]));
            assert(rows_view(rows@)[r] == rows[r]@);
        }
    }
    let ghost first = rng is None;
    proof {
        assert(totals@ =~= totals_of(pre, original_data@));
        if partition_within(pre, original_data@, num_commodities as int) {
            assert forall|r: int| 0 <= r < rows.len() implies row_within(
                #[trigger] rows_view(rows@)[r],
                totals[r],
                num_commodities as int,
            ) by {
                assert(ks.to_set().contains(ks[r]));
                assert(rows_view(rows@)[r] == rows[r]@);
            }
        }
    }
    balance_rows(&mut rows, &totals, num_commodities, rng);
    let ghost post_rows = rows_view(rows@);
    let mut j: usize = 0;
    while j < keys.len()
        invariant
            keys@ == ks,
            ks == sorted_keys(pre.dom()),
            j <= keys.len(),
            rows.len() == keys.len(),
            rows_view(rows@) == post_rows,
            commodity_data@.dom() == pre.dom(),
            ks.to_set() == pre.dom(),
            forall|i2: int| 0 <= i2 < j ==> #[trigger] commodity_data@[ks[i2]]@ == post_rows[i2],
            forall|i2: int| j <= i2 < keys.len() ==> #[trigger] commodity_data@[ks[i2]]@ == pre[ks[i2]],
            crate::keys::strictly_increasing(ks),
        decreases keys.len() - j,
    {
        let k = keys[j];
        let row = rows[j].clone();
        proof {
            assert(row@ =~= rows[j as int]@);
            assert(ks.to_set().contains(ks[j as int]));
        }
        commodity_data.insert(k, row);
        proof {
            assert forall|i2: int| 0 <= i2 < keys.len() && i2 != j implies ks[i2] != k by {}
        }
        j = j + 1;
    }
    proof {
        let post = partition_view(commodity_data@);
        assert(post.dom() == pre.dom());
        assert(rows_of(post) =~= post_rows) by {
            assert forall|r: int| 0 <= r < ks.len() implies rows_of(post)[r] == post_rows[r] by {
                assert(commodity_data@[ks[r]]@ == post_rows[r]);
            }
        }
        assert forall|n: i64| #[trigger] post.contains_key(n) implies post[n].len()
            == num_commodities && row_sum(post[n]) == row_sum(pre[n]) && sign_consistent(
            post[n],
            original_data@[n],
        ) by {
            assert(ks.to_set().contains(n));
            let r = choose|r: int| 0 <= r < ks.len() && ks[r] == n;
            assert(post[n] == post_rows[r]);
            assert(pre[n] == rows_of(pre)[r]);
        }
        if first && partition_within(pre, original_data@, num_commodities as int) {
            assert forall|n: i64| #[trigger] post.contains_key(n) implies row_within(
                post[n],
                original_data@[n],
                num_commodities as int,
            ) by {
                assert(ks.to_set().contains(n));
                let r = choose|r: int| 0 <= r < ks.len() && ks[r] == n;
                assert(post[n] == post_rows[r]);
                assert(totals[r] == original_data@[n]);
            }
        }
        if crate::logic::sums::columns_settled(rows_of(pre), num_commodities as int) {
            assert(post =~= pre) by {
                assert forall|n: i64| #[trigger] post.contains_key(n) implies post[n] == pre[n] by {
                    assert(ks.to_set().contains(n));
                    let r = choose|r: int| 0 <= r < ks.len() && ks[r] == n;
                    assert(post[n] == post_rows[r]);
                    assert(pre[n] == rows_of(pre)[r]);
                }
            }
        }
    }
}

/// Balancing a balanced partition again changes nothing: the result of a balancing
/// is ready to be balanced again, is settled, and a second balancing leaves it as it
/// is (and, by `balance_commodities`, draws nothing from a generator).
pub proof fn lemma_balancing_twice(
    pre: Map<i64, Seq<i64>>,
    mid: Map<i64, Seq<i64>>,
    post: Map<i64, Seq<i64>>,
    totals: Map<i64, i64>,
    num: int,
)
    requires
        partition_ready(pre, totals, num),
        is_balancing(pre, mid, totals, num),
        is_balancing(mid, post, totals, num),
    ensures
        partition_ready(mid, totals, num),
        columns_settled(rows_of(mid), num),
        post == mid,
{
    assert forall|n: i64| #[trigger] mid.contains_key(n) implies totals.contains_key(n)
        && i64::MIN <= row_sum(mid[n]) <= i64::MAX by {
        assert(pre.contains_key(n));
    }
}

/// If a partition's node sums add up to zero, balancing leaves every commodity
/// with a zero balance.
pub proof fn lemma_zero_total_balances_to_zero(
    pre: Map<i64, Seq<i64>>,
    post: Map<i64, Seq<i64>>,
    totals: Map<i64, i64>,
    num: nat,
)
    requires
        is_balancing(pre, post, totals, num as int),
        pre.dom().finite(),
        sum_of_rows(rows_of(pre)) == 0,
    ensures
        forall|k: int| 0 <= k < num ==> #[trigger] commodity_balance(post, k) == 0,
{
    let ks = sorted_keys(pre.dom());
    assert(post.dom() == pre.dom());
    let (a, b) = (rows_of(post), rows_of(pre));
    assert forall|r: int| 0 <= r < a.len() implies row_sum(#[trigger] a[r]) == row_sum(b[r])
        && a[r].len() == num by {
        lemma_sorted_keys_members(pre.dom(), r);
        assert(post.contains_key(ks[r]));
    }
    lemma_row_sums_agree(a, b);
    lemma_columns_total_is_sum_of_rows(a, num);
    lemma_settled_zero_total(a, num);
}

/// Members of a finite set of nodes are exactly the entries of its sorted enumeration.
pub proof fn lemma_sorted_keys_members(keys: Set<i64>, r: int)
    requires
        keys.finite(),
        0 <= r < sorted_keys(keys).len(),
    ensures
        keys.contains(sorted_keys(keys)[r]),
        strictly_increasing(sorted_keys(keys)),
        sorted_keys(keys).to_set() == keys,
{
    crate::keys::lemma_sorted_keys_exist(keys);
    let s = sorted_keys(keys);
    assert(s.to_set().contains(s[r]));
}

/// The supplies of `d`, by increasing node.
pub open spec fn supply_values(d: Map<i64, i64>) -> Seq<i64> {
    sorted_keys(d.dom()).map_values(|n: i64| d[n])
}

/// The sum of all supplies of `d`.
pub open spec fn total_supply(d: Map<i64, i64>) -> int {
    row_sum(supply_values(d))
}

pub open spec fn signum(v: int) -> int {
    if v > 0 {
        1
    } else if v < 0 {
        -1
    } else {
        0
    }
}

/// The position of `n` in `ks`.
pub open spec fn key_position(ks: Seq<i64>, n: i64) -> int {
    choose|t: int| 0 <= t < ks.len() && ks[t] == n
}

/// The commodity at which the remainder units of the node at position `t` start:
/// the remainders of the earlier nodes are handed out round-robin.
pub open spec fn rotation_start(vals: Seq<i64>, num: int, t: int) -> int
    decreases t,
{
    if t <= 0 {
        0
    } else {
        (rotation_start(vals, num, t - 1) + abs(vals[t - 1] as int) % num) % num
    }
}

/// Share of commodity `k` when `v` is split evenly over `num` commodities and its
/// `|v| mod num` remainder units go to the commodities from `start` on, cyclically.
pub open spec fn uniform_share(v: i64, num: int, start: int, k: int) -> int {
    signum(v as int) * (abs(v as int) / num + if (k - start) % num < abs(v as int) % num {
        1int
    } else {
        0int
    })
}

pub open spec fn uniform_row(v: i64, num: int, start: int) -> Seq<i64> {
    Seq::new(num as nat, |k: int| uniform_share(v, num, start, k) as i64)
}

/// The even split of every supply of `d`, before balancing.
pub open spec fn uniform_partition(d: Map<i64, i64>, num: int) -> Map<i64, Seq<i64>> {
    Map::new(
        |n: i64| d.contains_key(n),
        |n: i64|
            uniform_row(
                d[n],
                num,
                rotation_start(supply_values(d), num, key_position(sorted_keys(d.dom()), n)),
            ),
    )
}

/// Every share of an even split lies between `|v| / num` and `|v| / num` rounded up.
proof fn lemma_uniform_row_within(v: i64, num: int, start: int)
    requires
        0 < num,
    ensures
        row_within(uniform_row(v, num, start), v, num),
{
    let a = abs(v as int);
    let q = a / num;
    let r = a % num;
    vstd::arithmetic::div_mod::lemma_fundamental_div_mod(a, num);
    vstd::arithmetic::div_mod::lemma_mod_bound(a, num);
    vstd::arithmetic::div_mod::lemma_div_pos_is_pos(a, num);
    assert(num * q >= q) by (nonlinear_arith)
        requires
            num >= 1,
            q >= 0,
    ;
    assert(q * num == num * q) by (nonlinear_arith);
    if r == 0 {
        vstd::arithmetic::div_mod::lemma_fundamental_div_mod_converse(a + num - 1, num, q, num - 1);
    } else {
        assert(a + num - 1 == (q + 1) * num + (r - 1)) by (nonlinear_arith)
            requires
                a == num * q + r,
        ;
        vstd::arithmetic::div_mod::lemma_fundamental_div_mod_converse(a + num - 1, num, q + 1, r - 1);
    }
    let row = uniform_row(v, num, start);
    assert forall|k: int| 0 <= k < row.len() implies within_share(#[trigger] row[k], v, num) by {
        let e: int = if (k - start) % num < r {
            1
        } else {
            0
        };
        let share = uniform_share(v, num, start, k);
        assert(q + e <= a);
        assert(share == signum(v as int) * (q + e));
        assert(-(i64::MAX + 1) <= share <= i64::MAX && abs(share) == q + e) by {
            let sg = signum(v as int);
            if v > 0 {
                assert(sg == 1);
                assert(sg * (q + e) == q + e) by (nonlinear_arith)
                    requires
                        sg == 1,
                ;
            } else if v < 0 {
                assert(sg == -1);
                assert(sg * (q + e) == -(q + e)) by (nonlinear_arith)
                    requires
                        sg == -1,
                ;
            } else {
                assert(sg == 0);
                assert(a == 0);
                assert(sg * (q + e) == 0) by (nonlinear_arith)
                    requires
                        sg == 0,
                ;
            }
        }
        assert(row[k] == share as i64);
    }
}

proof fn lemma_mod_small(x: int, m: int)
    requires
        m > 0,
        -m <= x < 2 * m,
    ensures
        x % m == (if x < 0 {
            x + m
        } else if x < m {
            x
        } else {
            x - m
        }),
{
    if x < 0 {
        vstd::arithmetic::div_mod::lemma_mod_multiples_vanish(1, x, m);
        vstd::arithmetic::div_mod::lemma_small_mod((x + m) as nat, m as nat);
        assert(m * 1 + x == x + m);
    } else if x < m {
        vstd::arithmetic::div_mod::lemma_small_mod(x as nat, m as nat);
    } else {
        vstd::arithmetic::div_mod::lemma_mod_multiples_vanish(1, x - m, m);
        vstd::arithmetic::div_mod::lemma_small_mod((x - m) as nat, m as nat);
        assert(m * 1 + (x - m) == x);
    }
}

/// The even split of one supply `total_val` whose remainder units start at
/// commodity `start`; also returns where the next node's remainder starts.
fn uniform_node_row(total_val: i64, num_commodities: usize, start: usize) -> (res: (
    Vec<i64>,
    usize,
))
    requires
        0 < num_commodities <= i64::MAX,
        start < num_commodities,
    ensures
        res.0@ == uniform_row(total_val, num_commodities as int, start as int),
        row_sum(res.0@) == total_val,
        sign_consistent(res.0@, total_val),
        res.1 == (start + abs(total_val as int) % (num_commodities as int)) % (
        num_commodities as int),
        res.1 < num_commodities,
{
    let ghost num = num_commodities as int;
    let a: i128 = if total_val < 0 {
        -(total_val as i128)
    } else {
        total_val as i128
    };
    let k_wide = num_commodities as i128;
    let base = a / k_wide;
    let rem = a % k_wide;
    let sign: i64 = if total_val > 0 {
        1
    } else if total_val < 0 {
        -1
    } else {
        0
    };
    proof {
        vstd::arithmetic::div_mod::lemma_div_nonincreasing(a as int, num);
        vstd::arithmetic::div_mod::lemma_div_pos_is_pos(a as int, num);
    }
    let base_val: i64 = if total_val < 0 {
        (-base) as i64
    } else {
        base as i64
    };
    proof {
        vstd::arithmetic::div_mod::lemma_fundamental_div_mod(a as int, num);
        vstd::arithmetic::div_mod::lemma_mod_bound(a as int, num);
        vstd::arithmetic::div_mod::lemma_div_pos_is_pos(a as int, num);
        assert(num * base >= base) by (nonlinear_arith)
            requires
                num >= 1,
                base >= 0,
        ;
        lemma_mod_small(start as int, num);
    }
    let mut node_data: Vec<i64> = vec![base_val; num_commodities];
    proof {
        lemma_row_sum_constant(node_data@, base_val);
        assert(node_data@.len() * base_val == sign * (num * base)) by (nonlinear_arith)
            requires
                node_data@.len() == num,
                base_val == sign * base,
        ;
    }
    let mut next_k = start;
    let mut j: i128 = 0;
    while j < rem
        invariant
            num == num_commodities,
            num_commodities > 0,
            0 <= start < num_commodities,
            0 <= j <= rem,
            0 <= rem < num,
            0 <= base,
            num * base + rem == a,
            base + 1 <= a || rem == 0,
            a <= i64::MAX + 1,
            sign > 0 ==> a <= i64::MAX,
            sign == signum(total_val as int),
            abs(total_val as int) == a,
            node_data.len() == num_commodities,
            next_k == (start + j) % num,
            forall|k: int|
                0 <= k < num ==> #[trigger] node_data[k] == sign * (base + if (k - start) % num
                    < j {
                    1int
                } else {
                    0int
                }),
            row_sum(node_data@) == sign * (num * base + j),
        decreases rem - j,
    {
        proof {
            lemma_mod_small(start + j, num);
        }
        let p = next_k;
        let cur = node_data[p];
        proof {
            lemma_mod_small(p - start, num);
            assert((p - start) % num == j);
        }
        let ghost before = node_data@;
        node_data.set(p, cur + sign);
        proof {
            lemma_row_sum_update(before, p as int, (cur + sign) as i64);
            assert forall|k: int| 0 <= k < num implies #[trigger] node_data[k] == sign * (base
                + if (k - start) % num < j + 1 {
                1int
            } else {
                0int
            }) by {
                lemma_mod_small(k - start, num);
            }
            assert(sign * (num * base + j) + sign == sign * (num * base + j + 1))
                by (nonlinear_arith);
        }
        next_k = (next_k + 1) % num_commodities;
        proof {
            lemma_mod_small(start + j + 1, num);
            lemma_mod_small(p + 1, num);
        }
        j = j + 1;
    }
    proof {
        let v = total_val;
        assert(abs(v as int) / num == base && abs(v as int) % num == rem);
        assert(node_data@ =~= uniform_row(v, num, start as int)) by {
            assert forall|k: int| 0 <= k < num implies node_data@[k] == uniform_share(
                v,
                num,
                start as int,
                k,
            ) as i64 by {}
        }
        assert(sign * (num * base + rem) == v) by (nonlinear_arith)
            requires
                num * base + rem == a,
                sign == signum(v as int),
                a == abs(v as int),
        ;
        assert(sign_consistent(node_data@, v)) by {
            assert forall|k: int| 0 <= k < node_data@.len() implies {
                &&& (v > 0 ==> #[trigger] node_data@[k] >= 0)
                &&& (v < 0 ==> node_data@[k] <= 0)
                &&& (v == 0 ==> node_data@[k] == 0)
            } by {
                assert(node_data[k] == sign * (base + if (k - start) % num < rem {
                    1int
                } else {
                    0int
                }));
            }
        }
        lemma_mod_small(start + rem, num);
    }
    (node_data, next_k)
}

/// Splits every supply of `data` evenly over `num_commodities` commodities: each gets
/// `|b| / K` units, and the `|b| mod K` remainder units go one each to consecutive
/// commodities, continuing where the previous node stopped. The result is then balanced
/// with the first surplus commodity giving way, a node giving a unit only from a
/// larger share to a smaller one, so every share stays `|b| / K` or that rounded up.
pub fn split_supply_and_demand_uniform(
    data: &BTreeMap<i64, i64>,
    num_commodities: usize,
) -> (res: BTreeMap<i64, Vec<i64>>)
    requires
        num_commodities > 0 || data@.dom().len() == 0,
        num_commodities <= i64::MAX,
    ensures
        is_uniform_split(data@, num_commodities as int, partition_view(res@)),
        forall|n: i64| #[trigger] res@.contains_key(n) ==> row_sum(res@[n]@) == data@[n],
        total_supply(data@) == 0 ==> forall|k: int|
            0 <= k < num_commodities ==> #[trigger] commodity_balance(partition_view(res@), k)
                == 0,
{
    let ghost num = num_commodities as int;
    let keys = key_vec(data);
    let ghost ks = keys@;
    let ghost vals = supply_values(data@);
    let mut commodity_data: BTreeMap<i64, Vec<i64>> = BTreeMap::new();
    let mut next_k: usize = 0;
    let mut t: usize = 0;
    while t < keys.len()
        invariant
            keys@ == ks,
            ks == sorted_keys(data@.dom()),
            ks.to_set() == data@.dom(),
            strictly_increasing(ks),
            vals == supply_values(data@),
            num == num_commodities,
            num_commodities <= i64::MAX,
            num_commodities > 0 || keys.len() == 0,
            t <= keys.len(),
            commodity_data@.dom() == ks.take(t as int).to_set(),
            next_k == rotation_start(vals, num, t as int),
            num_commodities > 0 ==> next_k < num_commodities,
            forall|i: int|
                0 <= i < t ==> (#[trigger] commodity_data@[ks[i]])@ == uniform_row(
                    vals[i],
                    num,
                    rotation_start(vals, num, i),
                ),
            forall|i: int|
                0 <= i < t ==> row_sum((#[trigger] commodity_data@[ks[i]])@) == vals[i]
                    && sign_consistent(commodity_data@[ks[i]]@, vals[i]),
        decreases keys.len() - t,
    {
        let node = keys[t];
        proof {
            assert(ks.to_set().contains(ks[t as int]));
            assert(vals[t as int] == data@[node]);
        }
        let total_val = *data.get(&node).unwrap();
        let (node_data, following) = uniform_node_row(total_val, num_commodities, next_k);
        next_k = following;
        commodity_data.insert(node, node_data);
        proof {
            assert(ks.take(t + 1) == ks.take(t as int).push(node));
            ks.take(t as int).lemma_push_to_set_commute(node);
            assert forall|i: int| 0 <= i < t implies ks[i] != node by {}
        }
        t = t + 1;
    }
    let ghost pre = uniform_partition(data@, num);
    proof {
        assert(ks.take(keys.len() as int) =~= ks);
        assert(pre.dom() =~= data@.dom());
        assert(partition_view(commodity_data@) =~= pre) by {
            assert forall|n: i64| #[trigger] pre.contains_key(n) implies partition_view(
                commodity_data@,
            )[n] == pre[n] by {
                let i = choose|i: int| 0 <= i < ks.len() && ks[i] == n;
                let q = key_position(ks, n);
                assert(ks[q] == n);
                if q != i {
                    assert(false) by {
                        if q < i {
                            assert(ks[q] < ks[i]);
                        } else {
                            assert(ks[i] < ks[q]);
                        }
                    }
                }
                assert(vals[i] == data@[n]);
            }
        }
        assert forall|i: int| 0 <= i < rows_of(pre).len() implies row_sum(
            #[trigger] rows_of(pre)[i],
        ) == vals[i] by {
            assert(rows_of(pre)[i] == pre[ks[i]]);
            assert(ks.to_set().contains(ks[i]));
        }
        lemma_rows_with_sums(rows_of(pre), vals);
        assert forall|n: i64| #[trigger] pre.contains_key(n) implies data@.contains_key(n)
            && pre[n].len() == num && sign_consistent(pre[n], data@[n]) && row_sum(pre[n])
            == data@[n] && row_within(pre[n], data@[n], num) by {
            let i = choose|i: int| 0 <= i < ks.len() && ks[i] == n;
            assert(vals[i] == data@[n]);
            assert(pre[n] == commodity_data@[ks[i]]@);
            lemma_uniform_row_within(vals[i], num, rotation_start(vals, num, i));
        }
    }
    balance_commodities(&mut commodity_data, data, num_commodities, None);
    proof {
        let post = partition_view(commodity_data@);
        assert forall|n: i64| #[trigger] commodity_data@.contains_key(n) implies row_sum(
            commodity_data@[n]@,
        ) == data@[n] by {
            assert(post.contains_key(n));
            assert(pre.contains_key(n));
            assert(ks.to_set().contains(n));
            let i = choose|i: int| 0 <= i < ks.len() && ks[i] == n;
            assert(vals[i] == data@[n]);
            assert(pre[n] == rows_of(pre)[i]);
        }
        if total_supply(data@) == 0 {
            lemma_zero_total_balances_to_zero(pre, post, data@, num as nat);
        }
    }
    commodity_data
}

/// What `split_supply_and_demand_uniform` promises of its result `res` for the
/// supplies `d` and `num` commodities: it is the balancing of the even split, run with
/// the first surplus commodity giving way and moving units only from a larger share
/// to a smaller one, so that every share of a supply `b` stays between `|b| / num`
/// and `|b| / num` rounded up.
pub open spec fn is_uniform_split(d: Map<i64, i64>, num: int, res: Map<i64, Seq<i64>>) -> bool {
    &&& is_balancing(uniform_partition(d, num), res, d, num)
    &&& partition_within(res, d, num)
    &&& is_balancing_run(
        rows_of(uniform_partition(d, num)),
        totals_of(uniform_partition(d, num), d),
        num,
        rows_of(res),
        true,
    )
}

/// The even split is a function of the supplies and the number of commodities: two
/// results that meet its promise are equal.
pub proof fn lemma_uniform_split_unique(
    d: Map<i64, i64>,
    num: int,
    r1: Map<i64, Seq<i64>>,
    r2: Map<i64, Seq<i64>>,
)
    requires
        d.dom().finite(),
        is_uniform_split(d, num, r1),
        is_uniform_split(d, num, r2),
    ensures
        r1 == r2,
{
    let pre = uniform_partition(d, num);
    lemma_first_surplus_run_unique(
        rows_of(pre),
        totals_of(pre, d),
        num,
        rows_of(r1),
        rows_of(r2),
    );
    assert(r1.dom() == pre.dom() && r2.dom() == pre.dom());
    assert(pre.dom() =~= d.dom());
    let ks = sorted_keys(pre.dom());
    assert forall|n: i64| #[trigger] r1.contains_key(n) implies r1[n] == r2[n] by {
        lemma_sorted_keys_exist(pre.dom());
        assert(ks.to_set().contains(n));
        let i = choose|i: int| 0 <= i < ks.len() && ks[i] == n;
        assert(rows_of(r1)[i] == rows_of(r2)[i]);
    }
    assert(r1 =~= r2);
}

/// Cut `i` of `cuts` for a supply of `demand`, with cut `-1` at zero and the cut
/// after the last at `|demand|`.
pub open spec fn cut_at(cuts: Seq<i64>, demand: i64, i: int) -> int {
    if i < 0 {
        0
    } else if i >= cuts.len() {
        abs(demand as int)
    } else {
        cuts[i] as int
    }
}

/// The split of `demand` at the ascending `cuts`: entry `i` is the gap between
/// cut `i - 1` and cut `i`, with the sign of `demand`.
pub open spec fn cut_row(demand: i64, cuts: Seq<i64>) -> Seq<i64> {
    Seq::new(
        cuts.len() + 1,
        |i: int| (signum(demand as int) * (cut_at(cuts, demand, i) - cut_at(cuts, demand, i - 1))) as i64,
    )
}

/// `cuts` ascend and lie between zero and `|demand|`.
pub open spec fn cuts_valid(cuts: Seq<i64>, demand: i64) -> bool {
    &&& ascending(cuts)
    &&& forall|i: int| 0 <= i < cuts.len() ==> 0 <= #[trigger] cuts[i] <= abs(demand as int)
}

#[verifier::spinoff_prover]
proof fn lemma_cut_row_telescopes(demand: i64, cuts: Seq<i64>, m: int)
    requires
        0 <= m <= cuts.len() + 1,
        cuts_valid(cuts, demand),
        demand > i64::MIN,
    ensures
        row_sum(cut_row(demand, cuts).take(m)) == signum(demand as int) * cut_at(
            cuts,
            demand,
            m - 1,
        ),
    decreases m,
{
    let row = cut_row(demand, cuts);
    if m == 0 {
        assert(row.take(0) =~= Seq::<i64>::empty());
    } else {
        lemma_cut_row_telescopes(demand, cuts, m - 1);
        assert(row.take(m).drop_last() =~= row.take(m - 1));
        let sg = signum(demand as int);
        let gap = cut_at(cuts, demand, m - 1) - cut_at(cuts, demand, m - 2);
        assert(0 <= gap <= abs(demand as int)) by {
            if 0 < m - 1 < cuts.len() {
                assert(cuts[m - 2] <= cuts[m - 1]);
            }
        }
        assert(i64::MIN < sg * gap <= i64::MAX) by {
            if demand > 0 {
                assert(sg == 1);
                assert(sg * gap == gap) by (nonlinear_arith) requires sg == 1;
            } else if demand < 0 {
                assert(sg == -1);
                assert(sg * gap == -gap) by (nonlinear_arith) requires sg == -1;
            } else {
                assert(sg == 0);
                assert(sg * gap == 0) by (nonlinear_arith) requires sg == 0;
            }
        }
        assert(row[m - 1] == sg * gap);
        let (lo, hi) = (cut_at(cuts, demand, m - 2), cut_at(cuts, demand, m - 1));
        assert(sg * lo + sg * (hi - lo) == sg * hi) by (nonlinear_arith);
        assert(row.take(m).last() == row[m - 1]);
        assert(row_sum(row.take(m)) == row_sum(row.take(m - 1)) + row[m - 1]);
    }
}

/// Splits `demand` at the ascending `cuts`, each between zero and `|demand|`:
/// entry `i` is the gap between consecutive cuts (from zero up to `|demand|`),
/// negated for a negative `demand`.
pub fn partition_from_cuts(demand: i64, cuts: &Vec<i64>) -> (sample: Vec<i64>)
    requires
        demand > i64::MIN,
        cuts_valid(cuts@, demand),
    ensures
        sample@ == cut_row(demand, cuts@),
        row_sum(sample@) == demand,
        sign_consistent(sample@, demand),
{
    let abs_demand = if demand < 0 {
        -demand
    } else {
        demand
    };
    let mut sample: Vec<i64> = Vec::new();
    let mut last: i64 = 0;
    let mut i: usize = 0;
    while i < cuts.len()
        invariant
            i <= cuts.len(),
            cuts_valid(cuts@, demand),
            abs_demand == abs(demand as int),
            last == cut_at(cuts@, demand, i - 1),
            0 <= last <= abs_demand,
            sample@ == cut_row(demand, cuts@).take(i as int),
        decreases cuts.len() - i,
    {
        let cut = cuts[i];
        let gap = cut - last;
        let value = if demand < 0 {
            -gap
        } else {
            gap
        };
        proof {
            if i > 0 {
                assert(cuts@[i - 1] <= cuts@[i as int]);
            }
        }
        sample.push(value);
        proof {
            assert(sample@ =~= cut_row(demand, cuts@).take(i + 1));
        }
        last = cut;
        i = i + 1;
    }
    let gap = abs_demand - last;
    let value = if demand < 0 {
        -gap
    } else {
        gap
    };
    sample.push(value);
    proof {
        let row = cut_row(demand, cuts@);
        assert(sample@ =~= row);
        assert(row.take(row.len() as int) =~= row);
        lemma_cut_row_telescopes(demand, cuts@, row.len() as int);
        assert forall|k: int| 0 <= k < row.len() implies {
            &&& (demand > 0 ==> #[trigger] row[k] >= 0)
            &&& (demand < 0 ==> row[k] <= 0)
            &&& (demand == 0 ==> row[k] == 0)
        } by {
            if 0 < k < cuts.len() {
                assert(cuts@[k - 1] <= cuts@[k]);
            }
        }
    }
    sample
}

/// The nodes of `d` with a nonzero supply.
pub open spec fn nonzero_nodes(d: Map<i64, i64>) -> Set<i64> {
    d.dom().filter(|n: i64| d[n] != 0)
}

/// `row` splits `demand` over `num` commodities at some valid cuts.
pub open spec fn is_spread_row(demand: i64, num: int, row: Seq<i64>) -> bool {
    exists|cuts: Seq<i64>|
        #![trigger cut_row(demand, cuts)]
        cuts.len() == num - 1 && cuts_valid(cuts, demand) && row == cut_row(demand, cuts)
}

/// `p` splits every nonzero supply of `d` at some valid cuts and leaves out the
/// zero supplies.
pub open spec fn is_spread_partition(d: Map<i64, i64>, num: int, p: Map<i64, Seq<i64>>) -> bool {
    &&& p.dom() == nonzero_nodes(d)
    &&& forall|n: i64| #[trigger] p.contains_key(n) ==> is_spread_row(d[n], num, p[n])
}

/// The rows that `m` holds for the nodes `ks`, in that order.
pub open spec fn rows_at(m: Map<i64, Vec<i64>>, ks: Seq<i64>) -> Seq<Seq<i64>> {
    ks.map_values(|n: i64| m[n]@)
}

/// Splits every nonzero supply of `data` at `num_commodities - 1` cut points drawn
/// uniformly from `0..=|b|` and sorted; the gaps between consecutive cuts are the
/// commodities' shares. Zero supplies are left out. The result is then balanced,
/// the surplus commodity picked at random. All draws come from one generator seeded
/// with `seed`.
pub fn split_supply_and_demand_spread(
    data: &BTreeMap<i64, i64>,
    num_commodities: usize,
    seed: u64,
) -> (res: BTreeMap<i64, Vec<i64>>)
    requires
        num_commodities > 0 || forall|n: i64| #[trigger] data@.contains_key(n) ==> data@[n] == 0,
        forall|n: i64| #[trigger] data@.contains_key(n) ==> data@[n] > i64::MIN,
    ensures
        exists|pre: Map<i64, Seq<i64>>|
            is_spread_partition(data@, num_commodities as int, pre) && is_balancing(
                pre,
                partition_view(res@),
                data@,
                num_commodities as int,
            ) && is_balancing_run(
                rows_of(pre),
                totals_of(pre, data@),
                num_commodities as int,
                rows_of(partition_view(res@)),
                false,
            ),
        res@.dom() == nonzero_nodes(data@),
        forall|n: i64| #[trigger] res@.contains_key(n) ==> row_sum(res@[n]@) == data@[n],
        total_supply(data@) == 0 ==> forall|k: int|
            0 <= k < num_commodities ==> #[trigger] commodity_balance(partition_view(res@), k)
                == 0,
{
    let ghost num = num_commodities as int;
    let mut rng = rng_from_seed(seed);
    let keys = key_vec(data);
    let ghost ks = keys@;
    let ghost vals = supply_values(data@);
    let mut commodity_data: BTreeMap<i64, Vec<i64>> = BTreeMap::new();
    let ghost mut pk: Seq<i64> = Seq::empty();
    let mut t: usize = 0;
    while t < keys.len()
        invariant
            keys@ == ks,
            ks == sorted_keys(data@.dom()),
            ks.to_set() == data@.dom(),
            strictly_increasing(ks),
            vals == supply_values(data@),
            forall|n: i64| #[trigger] data@.contains_key(n) ==> data@[n] > i64::MIN,
            num == num_commodities,
            num_commodities > 0 || forall|n: i64| #[trigger] data@.contains_key(n) ==> data@[n] == 0,
            t <= keys.len(),
            commodity_data@.dom() == pk.to_set(),
            strictly_increasing(pk),
            forall|n: i64| #[trigger] pk.contains(n) <==> (ks.take(t as int).contains(n) && data@[n] != 0),
            forall|i: int| 0 <= i < pk.len() ==> ks.take(t as int).contains(#[trigger] pk[i]),
            forall|i: int|
                0 <= i < pk.len() ==> is_spread_row(
                    data@[#[trigger] pk[i]],
                    num,
                    commodity_data@[pk[i]]@,
                ) && row_sum(commodity_data@[pk[i]]@) == data@[pk[i]] && sign_consistent(
                    commodity_data@[pk[i]]@,
                    data@[pk[i]],
                ) && commodity_data@[pk[i]]@.len() == num,
            sum_of_rows(rows_at(commodity_data@, pk)) == row_sum(vals.take(t as int)),
        decreases keys.len() - t,
    {
        let node = keys[t];
        let ghost upto = ks.take(t as int);
        let ghost upto1 = ks.take(t + 1);
        proof {
            assert(ks.to_set().contains(ks[t as int]));
            assert(vals[t as int] == data@[node]);
            assert(vals.take(t + 1).drop_last() =~= vals.take(t as int));
            assert(upto1 =~= upto.push(node));
            assert forall|i: int| 0 <= i < pk.len() implies #[trigger] pk[i] < node by {
                assert(upto.contains(pk[i]));
                let j = choose|j: int| 0 <= j < t && ks[j] == pk[i];
            }
        }
        let demand = *data.get(&node).unwrap();
        if demand != 0 {
            let abs_demand = if demand < 0 {
                -demand
            } else {
                demand
            };
            let cut_count = num_commodities - 1;
            let mut cuts: Vec<i64> = Vec::new();
            let mut c: usize = 0;
            while c < cut_count
                invariant
                    c <= cut_count,
                    cuts.len() == c,
                    0 <= abs_demand,
                    forall|i: int| 0 <= i < cuts.len() ==> 0 <= #[trigger] cuts[i] <= abs_demand,
                decreases cut_count - c,
            {
                let cut = random_i64_inclusive(&mut rng, 0, abs_demand);
                cuts.push(cut);
                c = c + 1;
            }
            let ghost drawn = cuts@;
            sort_ascending(&mut cuts);
            proof {
                broadcast use vstd::seq_lib::group_to_multiset_ensures;

                assert forall|i: int| 0 <= i < cuts.len() implies 0 <= #[trigger] cuts@[i]
                    <= abs(demand as int) by {
                    assert(cuts@.contains(cuts@[i]));
                    assert(cuts@.to_multiset().count(cuts@[i]) > 0);
                    assert(drawn.contains(cuts@[i]));
                }
                assert(cuts@.len() == drawn.len()) by {
                    assert(cuts@.to_multiset().len() == drawn.to_multiset().len());
                }
            }
            let sample = partition_from_cuts(demand, &cuts);
            let ghost old_rows = rows_at(commodity_data@, pk);
            let ghost before = commodity_data@;
            proof {
                assert(cuts@.len() == num - 1 && cuts_valid(cuts@, demand) && sample@ == cut_row(
                    demand,
                    cuts@,
                ));
                assert(is_spread_row(demand, num, sample@));
            }
            commodity_data.insert(node, sample);
            proof {
                let new_pk = pk.push(node);
                assert(rows_at(commodity_data@, new_pk) =~= old_rows.push(commodity_data@[node]@))
                    by {
                    assert forall|i: int| 0 <= i < pk.len() implies commodity_data@[pk[i]]
                        == before[pk[i]] by {
                        assert(pk[i] < node);
                    }
                }
                assert(rows_at(commodity_data@, new_pk).drop_last() =~= old_rows);
                pk.lemma_push_to_set_commute(node);
                assert forall|i: int, j: int| 0 <= i < j < new_pk.len() implies new_pk[i]
                    < new_pk[j] by {
                    if j == pk.len() {
                        assert(pk[i] < node);
                    }
                }
                assert(upto1 =~= upto.push(node));
                assert forall|n: i64| #[trigger] new_pk.contains(n) <==> (upto1.contains(n)
                    && data@[n] != 0) by {
                    if new_pk.contains(n) {
                        let i = choose|i: int| 0 <= i < new_pk.len() && new_pk[i] == n;
                        if i < pk.len() {
                            assert(pk[i] == n);
                            assert(pk.contains(n));
                            assert(upto.contains(n));
                            let j = choose|j: int| 0 <= j < upto.len() && upto[j] == n;
                            assert(upto1[j] == n);
                        } else {
                            assert(n == node);
                            assert(upto1[t as int] == n);
                        }
                    }
                    if upto1.contains(n) && data@[n] != 0 {
                        let i = choose|i: int| 0 <= i < upto1.len() && upto1[i] == n;
                        if i < t {
                            assert(upto[i] == n);
                            assert(upto.contains(n));
                            assert(pk.contains(n));
                            let j = choose|j: int| 0 <= j < pk.len() && pk[j] == n;
                            assert(new_pk[j] == n);
                        } else {
                            assert(n == node);
                            assert(new_pk[pk.len() as int] == n);
                        }
                    }
                }
                assert forall|i: int| 0 <= i < new_pk.len() implies upto1.contains(
                    #[trigger] new_pk[i],
                ) by {
                    if i < pk.len() {
                        assert(upto.contains(pk[i]));
                        let j = choose|j: int| 0 <= j < t && upto[j] == pk[i];
                        assert(upto1[j] == pk[i]);
                    } else {
                        assert(upto1[t as int] == node);
                    }
                }
                pk = new_pk;
            }
        } else {
            proof {
                assert forall|n: i64| #[trigger] pk.contains(n) <==> (upto1.contains(n)
                    && data@[n] != 0) by {
                    if upto1.contains(n) && data@[n] != 0 {
                        let i = choose|i: int| 0 <= i < t + 1 && upto1[i] == n;
                        assert(i != t);
                        assert(upto[i] == n);
                    }
                    if pk.contains(n) {
                        let i = choose|i: int| 0 <= i < t && upto[i] == n;
                        assert(upto1[i] == n);
                    }
                }
                assert forall|i: int| 0 <= i < pk.len() implies upto1.contains(
                    #[trigger] pk[i],
                ) by {
                    assert(upto.contains(pk[i]));
                    let j = choose|j: int| 0 <= j < t && upto[j] == pk[i];
                    assert(upto1[j] == pk[i]);
                }
            }
        }
        t = t + 1;
    }
    let ghost pre = partition_view(commodity_data@);
    proof {
        assert(ks.take(keys.len() as int) =~= ks);
        assert(vals.take(vals.len() as int) =~= vals);
        assert(pre.dom() =~= commodity_data@.dom());
        assert(pre.dom() =~= nonzero_nodes(data@)) by {
            assert forall|n: i64| pre.contains_key(n) <==> nonzero_nodes(data@).contains(n) by {
                if pre.contains_key(n) {
                    assert(pk.to_set().contains(n));
                }
                if nonzero_nodes(data@).contains(n) {
                    assert(ks.to_set().contains(n));
                    assert(pk.contains(n));
                }
            }
        }
        crate::keys::lemma_sorted_keys_unique(pre.dom(), pk);
        assert(rows_of(pre) =~= rows_at(commodity_data@, pk));
        assert forall|n: i64| #[trigger] pre.contains_key(n) implies data@.contains_key(n)
            && pre[n].len() == num && sign_consistent(pre[n], data@[n]) && is_spread_row(
            data@[n],
            num,
            pre[n],
        ) by {
            assert(pk.to_set().contains(n));
            let i = choose|i: int| 0 <= i < pk.len() && pk[i] == n;
        }
    }
    balance_commodities(&mut commodity_data, data, num_commodities, Some(&mut rng));
    proof {
        let post = partition_view(commodity_data@);
        assert(is_spread_partition(data@, num, pre));
        assert forall|n: i64| #[trigger] commodity_data@.contains_key(n) implies row_sum(
            commodity_data@[n]@,
        ) == data@[n] by {
            assert(post.contains_key(n));
            assert(pk.to_set().contains(n));
            let i = choose|i: int| 0 <= i < pk.len() && pk[i] == n;
        }
        assert(commodity_data@.dom() =~= post.dom());
        if total_supply(data@) == 0 {
            lemma_zero_total_balances_to_zero(pre, post, data@, num as nat);
        }
    }
    commodity_data
}

/// The running totals of `draws`: entry `i` is the sum of the first `i + 1` draws.
pub open spec fn draw_cuts(draws: Seq<i64>) -> Seq<i64> {
    Seq::new(draws.len(), |i: int| row_sum(draws.take(i + 1)) as i64)
}

/// Every draw is non-negative and, with those before it, stays within `|demand|`:
/// each draw takes part of what the earlier draws left of the supply.
pub open spec fn draws_valid(demand: i64, draws: Seq<i64>) -> bool {
    forall|i: int|
        0 <= i < draws.len() ==> 0 <= #[trigger] draws[i] && row_sum(draws.take(i + 1)) <= abs(
            demand as int,
        )
}

/// Splits `demand` by successive draws: commodity `j` takes `draws[j]` units of what
/// the draws before it left, and the last commodity takes the rest; the signs follow
/// `demand`. Draws that take more than is left, or a negative amount, give `None`.
pub fn partition_from_draws(demand: i64, draws: &Vec<i64>) -> (sample: Option<Vec<i64>>)
    requires
        demand > i64::MIN,
    ensures
        sample is Some <==> draws_valid(demand, draws@),
        sample matches Some(s) ==> {
            &&& s@ == cut_row(demand, draw_cuts(draws@))
            &&& row_sum(s@) == demand
            &&& sign_consistent(s@, demand)
        },
{
    let abs_demand = if demand < 0 {
        -demand
    } else {
        demand
    };
    let mut cuts: Vec<i64> = Vec::new();
    let mut taken: i64 = 0;
    let mut i: usize = 0;
    while i < draws.len()
        invariant
            i <= draws.len(),
            abs_demand == abs(demand as int),
            taken == row_sum(draws@.take(i as int)),
            0 <= taken <= abs_demand,
            cuts@ == draw_cuts(draws@.take(i as int)),
            forall|j: int|
                0 <= j < i ==> 0 <= #[trigger] draws@[j] && row_sum(draws@.take(j + 1)) <= abs(
                    demand as int,
                ),
        decreases draws.len() - i,
    {
        let d = draws[i];
        proof {
            assert(draws@.take(i + 1).drop_last() =~= draws@.take(i as int));
        }
        if d < 0 || d > abs_demand - taken {
            return None;
        }
        taken = taken + d;
        cuts.push(taken);
        proof {
            assert(cuts@ =~= draw_cuts(draws@.take(i + 1))) by {
                assert forall|j: int| 0 <= j < i implies draws@.take(i + 1).take(j + 1)
                    =~= #[trigger] draws@.take(i as int).take(j + 1) by {}
                assert(draws@.take(i + 1).take(i + 1) =~= draws@.take(i + 1));
            }
        }
        i = i + 1;
    }
    proof {
        assert(draws@.take(draws.len() as int) =~= draws@);
        let c = draw_cuts(draws@);
        assert forall|a: int, b: int| 0 <= a <= b < c.len() implies c[a] <= c[b] by {
            lemma_running_totals_ascend(draws@, b + 1);
            lemma_running_totals_ascend(draws@, a + 1);
            assert(0 <= draws@[a] && 0 <= draws@[b]);
            assert(row_sum(draws@.take(b + 1)) <= abs(demand as int));
            assert(row_sum(draws@.take(a + 1)) <= row_sum(draws@.take(b + 1)));
        }
        assert forall|a: int| 0 <= a < c.len() implies 0 <= #[trigger] c[a] <= abs(
            demand as int,
        ) by {
            lemma_running_totals_ascend(draws@, a + 1);
        }
        assert(cuts@ == c);
    }
    Some(partition_from_cuts(demand, &cuts))
}

/// Running totals of non-negative draws are non-negative and do not decrease.
proof fn lemma_running_totals_ascend(draws: Seq<i64>, n: int)
    requires
        0 <= n <= draws.len(),
        forall|i: int| 0 <= i < draws.len() ==> 0 <= #[trigger] draws[i],
    ensures
        0 <= row_sum(draws.take(n)),
        forall|m: int| 0 <= m <= n ==> row_sum(#[trigger] draws.take(m)) <= row_sum(draws.take(n)),
    decreases n,
{
    if n == 0 {
        assert(draws.take(0) =~= Seq::<i64>::empty());
    } else {
        lemma_running_totals_ascend(draws, n - 1);
        assert(draws.take(n).drop_last() =~= draws.take(n - 1));
    }
}

spec fn same_signed_fact(rows: Seq<Seq<i64>>, totals: Seq<i64>, r: int) -> bool {
    crate::logic::sums::same_signed(rows[r])
}

} // verus!
