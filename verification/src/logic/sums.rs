//! Sums over rows and columns of a supply partition, and what the partition
//! routines rely on about them.

use vstd::prelude::*;

verus! {

pub open spec fn abs(v: int) -> int {
    if v < 0 {
        -v
    } else {
        v
    }
}

/// Sum of the entries of a row.
pub open spec fn row_sum(row: Seq<i64>) -> int
    decreases row.len(),
{
    if row.len() == 0 {
        0
    } else {
        row_sum(row.drop_last()) + row.last()
    }
}

/// Sum of entry `k` over all rows.
pub open spec fn column_sum(rows: Seq<Seq<i64>>, k: int) -> int
    decreases rows.len(),
{
    if rows.len() == 0 {
        0
    } else {
        column_sum(rows.drop_last(), k) + rows.last()[k]
    }
}

/// Sum of all row sums.
pub open spec fn sum_of_rows(rows: Seq<Seq<i64>>) -> int
    decreases rows.len(),
{
    if rows.len() == 0 {
        0
    } else {
        sum_of_rows(rows.drop_last()) + row_sum(rows.last())
    }
}

/// Sum of the first `num` column sums.
pub open spec fn columns_total(rows: Seq<Seq<i64>>, num: nat) -> int
    decreases num,
{
    if num == 0 {
        0
    } else {
        columns_total(rows, (num - 1) as nat) + column_sum(rows, num - 1)
    }
}

/// Every entry of `row` has the sign of `total`; a zero total means a zero row.
pub open spec fn sign_consistent(row: Seq<i64>, total: i64) -> bool {
    forall|k: int|
        0 <= k < row.len() ==> {
            &&& (total > 0 ==> #[trigger] row[k] >= 0)
            &&& (total < 0 ==> row[k] <= 0)
            &&& (total == 0 ==> row[k] == 0)
        }
}

/// All entries are non-negative, or all are non-positive.
pub open spec fn same_signed(row: Seq<i64>) -> bool {
    (forall|k: int| 0 <= k < row.len() ==> #[trigger] row[k] >= 0) || (forall|k: int|
        0 <= k < row.len() ==> #[trigger] row[k] <= 0)
}

/// No commodity has a positive balance, or none has a negative one.
pub open spec fn columns_settled(rows: Seq<Seq<i64>>, num: int) -> bool {
    (forall|k: int| 0 <= k < num ==> #[trigger] column_sum(rows, k) >= 0) || (forall|k: int|
        0 <= k < num ==> #[trigger] column_sum(rows, k) <= 0)
}

/// The views of a sequence of vectors.
pub open spec fn rows_view(rows: Seq<Vec<i64>>) -> Seq<Seq<i64>> {
    rows.map_values(|r: Vec<i64>| r@)
}

pub proof fn lemma_sign_consistent_same_signed(row: Seq<i64>, total: i64)
    requires
        sign_consistent(row, total),
    ensures
        same_signed(row),
{
    if total >= 0 {
        assert forall|k: int| 0 <= k < row.len() implies #[trigger] row[k] >= 0 by {}
    } else {
        assert forall|k: int| 0 <= k < row.len() implies #[trigger] row[k] <= 0 by {}
    }
}

/// Rows whose sums are `vals` have `vals`' total.
pub proof fn lemma_rows_with_sums(rows: Seq<Seq<i64>>, vals: Seq<i64>)
    requires
        rows.len() == vals.len(),
        forall|t: int| 0 <= t < rows.len() ==> row_sum(#[trigger] rows[t]) == vals[t],
    ensures
        sum_of_rows(rows) == row_sum(vals),
    decreases rows.len(),
{
    if rows.len() > 0 {
        let (dr, dv) = (rows.drop_last(), vals.drop_last());
        assert forall|t: int| 0 <= t < dr.len() implies row_sum(#[trigger] dr[t]) == dv[t] by {
            assert(dr[t] == rows[t]);
        }
        lemma_rows_with_sums(dr, dv);
        assert(row_sum(rows[rows.len() - 1]) == vals[vals.len() - 1]);
    }
}

/// The sum of `num` copies of `c`.
pub proof fn lemma_row_sum_constant(s: Seq<i64>, c: i64)
    requires
        forall|k: int| 0 <= k < s.len() ==> #[trigger] s[k] == c,
    ensures
        row_sum(s) == s.len() * c,
    decreases s.len(),
{
    if s.len() > 0 {
        let d = s.drop_last();
        assert forall|k: int| 0 <= k < d.len() implies #[trigger] d[k] == c by {
            assert(d[k] == s[k]);
        }
        lemma_row_sum_constant(d, c);
        assert(s.last() == c);
        assert(d.len() * c + c == s.len() * c) by (nonlinear_arith)
            requires
                d.len() + 1 == s.len(),
        ;
    }
}

/// Sum of the absolute values of a sequence of wide integers.
pub open spec fn wide_abs_total(s: Seq<i128>) -> int
    decreases s.len(),
{
    if s.len() == 0 {
        0
    } else {
        wide_abs_total(s.drop_last()) + abs(s.last() as int)
    }
}

pub proof fn lemma_wide_abs_total_nonneg(s: Seq<i128>)
    ensures
        wide_abs_total(s) >= 0,
    decreases s.len(),
{
    if s.len() > 0 {
        lemma_wide_abs_total_nonneg(s.drop_last());
    }
}

pub proof fn lemma_wide_abs_total_update(s: Seq<i128>, i: int, v: i128)
    requires
        0 <= i < s.len(),
    ensures
        wide_abs_total(s.update(i, v)) == wide_abs_total(s) - abs(s[i] as int) + abs(v as int),
    decreases s.len(),
{
    let t = s.update(i, v);
    if i == s.len() - 1 {
        assert(t.drop_last() =~= s.drop_last());
    } else {
        assert(t.drop_last() =~= s.drop_last().update(i, v));
        lemma_wide_abs_total_update(s.drop_last(), i, v);
    }
}

/// A column of `i64` values over `rows.len()` rows sums to within `rows.len()` times
/// the `i64` range.
pub proof fn lemma_column_sum_bounds(rows: Seq<Seq<i64>>, k: int)
    requires
        0 <= k,
        forall|r: int| 0 <= r < rows.len() ==> k < (#[trigger] rows[r]).len(),
    ensures
        -(rows.len() * 0x8000_0000_0000_0000) <= column_sum(rows, k) <= rows.len()
            * 0x7fff_ffff_ffff_ffff,
    decreases rows.len(),
{
    if rows.len() > 0 {
        let d = rows.drop_last();
        assert forall|r: int| 0 <= r < d.len() implies k < (#[trigger] d[r]).len() by {
            assert(d[r] == rows[r]);
        }
        lemma_column_sum_bounds(d, k);
        assert(k < rows[rows.len() - 1].len());
    }
}

/// If column `a` sums to more than column `b`, some row has more at `a` than at `b`.
pub proof fn lemma_column_gap_has_row(rows: Seq<Seq<i64>>, a: int, b: int)
    requires
        column_sum(rows, a) > column_sum(rows, b),
    ensures
        exists|r: int| 0 <= r < rows.len() && #[trigger] rows[r][a] > rows[r][b],
    decreases rows.len(),
{
    if rows.len() > 0 {
        let d = rows.drop_last();
        let r = rows.len() - 1;
        if rows[r][a] > rows[r][b] {
        } else {
            lemma_column_gap_has_row(d, a, b);
            let i = choose|i: int| 0 <= i < d.len() && #[trigger] d[i][a] > d[i][b];
            assert(rows[i] == d[i]);
        }
    }
}

pub proof fn lemma_row_sum_update(row: Seq<i64>, i: int, v: i64)
    requires
        0 <= i < row.len(),
    ensures
        row_sum(row.update(i, v)) == row_sum(row) - row[i] + v,
    decreases row.len(),
{
    let t = row.update(i, v);
    if i == row.len() - 1 {
        assert(t.drop_last() =~= row.drop_last());
    } else {
        assert(t.drop_last() =~= row.drop_last().update(i, v));
        lemma_row_sum_update(row.drop_last(), i, v);
    }
}

pub proof fn lemma_column_sum_update(rows: Seq<Seq<i64>>, r: int, new_row: Seq<i64>, k: int)
    requires
        0 <= r < rows.len(),
    ensures
        column_sum(rows.update(r, new_row), k) == column_sum(rows, k) - rows[r][k] + new_row[k],
    decreases rows.len(),
{
    let t = rows.update(r, new_row);
    if r == rows.len() - 1 {
        assert(t.drop_last() =~= rows.drop_last());
    } else {
        assert(t.drop_last() =~= rows.drop_last().update(r, new_row));
        lemma_column_sum_update(rows.drop_last(), r, new_row, k);
    }
}

pub proof fn lemma_sum_of_rows_update(rows: Seq<Seq<i64>>, r: int, new_row: Seq<i64>)
    requires
        0 <= r < rows.len(),
    ensures
        sum_of_rows(rows.update(r, new_row)) == sum_of_rows(rows) - row_sum(rows[r]) + row_sum(
            new_row,
        ),
    decreases rows.len(),
{
    let t = rows.update(r, new_row);
    if r == rows.len() - 1 {
        assert(t.drop_last() =~= rows.drop_last());
    } else {
        assert(t.drop_last() =~= rows.drop_last().update(r, new_row));
        lemma_sum_of_rows_update(rows.drop_last(), r, new_row);
    }
}

/// In a same-signed row every entry lies between zero and the row sum.
pub proof fn lemma_entry_within_row_sum(row: Seq<i64>, k: int)
    requires
        same_signed(row),
        0 <= k < row.len(),
    ensures
        abs(row[k] as int) <= abs(row_sum(row)),
        (forall|j: int| 0 <= j < row.len() ==> #[trigger] row[j] >= 0) ==> row_sum(row) >= 0,
        (forall|j: int| 0 <= j < row.len() ==> #[trigger] row[j] <= 0) ==> row_sum(row) <= 0,
    decreases row.len(),
{
    let d = row.drop_last();
    assert(same_signed(d)) by {
        if forall|j: int| 0 <= j < row.len() ==> #[trigger] row[j] >= 0 {
            assert forall|j: int| 0 <= j < d.len() implies #[trigger] d[j] >= 0 by {
                assert(d[j] == row[j]);
            }
        } else {
            assert forall|j: int| 0 <= j < d.len() implies #[trigger] d[j] <= 0 by {
                assert(d[j] == row[j]);
            }
        }
    }
    if k == row.len() - 1 {
        if d.len() > 0 {
            lemma_entry_within_row_sum(d, 0);
        }
    } else {
        lemma_entry_within_row_sum(d, k);
        assert(d[k] == row[k]);
    }
}

/// Two distinct entries of a same-signed row together stay within the row sum.
pub proof fn lemma_two_entries_within_row_sum(row: Seq<i64>, a: int, b: int)
    requires
        same_signed(row),
        0 <= a < row.len(),
        0 <= b < row.len(),
        a != b,
    ensures
        abs(row[a] + row[b]) <= abs(row_sum(row)),
    decreases row.len(),
{
    let d = row.drop_last();
    assert(same_signed(d)) by {
        if forall|j: int| 0 <= j < row.len() ==> #[trigger] row[j] >= 0 {
            assert forall|j: int| 0 <= j < d.len() implies #[trigger] d[j] >= 0 by {
                assert(d[j] == row[j]);
            }
        } else {
            assert forall|j: int| 0 <= j < d.len() implies #[trigger] d[j] <= 0 by {
                assert(d[j] == row[j]);
            }
        }
    }
    let last = row.len() - 1;
    if a == last {
        lemma_entry_within_row_sum(d, b);
        lemma_entry_within_row_sum(row, a);
        assert(d[b] == row[b]);
    } else if b == last {
        lemma_entry_within_row_sum(d, a);
        lemma_entry_within_row_sum(row, b);
        assert(d[a] == row[a]);
    } else {
        lemma_two_entries_within_row_sum(d, a, b);
        lemma_entry_within_row_sum(row, last);
        assert(d[a] == row[a]);
        assert(d[b] == row[b]);
    }
}

/// Equal row sums give equal totals.
pub proof fn lemma_row_sums_agree(a: Seq<Seq<i64>>, b: Seq<Seq<i64>>)
    requires
        a.len() == b.len(),
        forall|r: int| 0 <= r < a.len() ==> row_sum(#[trigger] a[r]) == row_sum(b[r]),
    ensures
        sum_of_rows(a) == sum_of_rows(b),
    decreases a.len(),
{
    if a.len() > 0 {
        let (da, db) = (a.drop_last(), b.drop_last());
        assert forall|r: int| 0 <= r < da.len() implies row_sum(#[trigger] da[r]) == row_sum(
            db[r],
        ) by {
            assert(da[r] == a[r]);
            assert(db[r] == b[r]);
        }
        lemma_row_sums_agree(da, db);
        assert(row_sum(a[a.len() - 1]) == row_sum(b[b.len() - 1]));
    }
}

/// The column sums add up to the row sums.
pub proof fn lemma_columns_total_step(rows: Seq<Seq<i64>>, num: nat)
    requires
        rows.len() > 0,
        num <= rows.last().len(),
    ensures
        columns_total(rows, num) == columns_total(rows.drop_last(), num) + row_sum(
            rows.last().take(num as int),
        ),
    decreases num,
{
    if num > 0 {
        lemma_columns_total_step(rows, (num - 1) as nat);
        assert(rows.last().take(num as int).drop_last() =~= rows.last().take(num - 1));
    } else {
        assert(rows.last().take(0) =~= Seq::<i64>::empty());
    }
}

pub proof fn lemma_columns_total_is_sum_of_rows(rows: Seq<Seq<i64>>, num: nat)
    requires
        forall|r: int| 0 <= r < rows.len() ==> (#[trigger] rows[r]).len() == num,
    ensures
        columns_total(rows, num) == sum_of_rows(rows),
    decreases rows.len(),
{
    if rows.len() == 0 {
        lemma_columns_total_empty(rows, num);
    } else {
        let d = rows.drop_last();
        assert forall|r: int| 0 <= r < d.len() implies (#[trigger] d[r]).len() == num by {
            assert(d[r] == rows[r]);
        }
        lemma_columns_total_is_sum_of_rows(d, num);
        assert(rows[rows.len() - 1].len() == num);
        lemma_columns_total_step(rows, num);
        assert(rows.last().take(num as int) =~= rows.last());
    }
}

pub proof fn lemma_columns_total_empty(rows: Seq<Seq<i64>>, num: nat)
    requires
        rows.len() == 0,
    ensures
        columns_total(rows, num) == 0,
    decreases num,
{
    if num > 0 {
        lemma_columns_total_empty(rows, (num - 1) as nat);
    }
}

/// Settled columns whose total is zero are all zero.
pub proof fn lemma_settled_zero_total(rows: Seq<Seq<i64>>, num: nat)
    requires
        columns_settled(rows, num as int),
        columns_total(rows, num) == 0,
    ensures
        forall|k: int| 0 <= k < num ==> #[trigger] column_sum(rows, k) == 0,
{
    if forall|k: int| 0 <= k < num ==> #[trigger] column_sum(rows, k) >= 0 {
        lemma_nonneg_columns_zero(rows, num, num);
    } else {
        lemma_nonpos_columns_zero(rows, num, num);
    }
}

proof fn lemma_nonneg_columns_zero(rows: Seq<Seq<i64>>, num: nat, upto: nat)
    requires
        upto <= num,
        forall|k: int| 0 <= k < num ==> #[trigger] column_sum(rows, k) >= 0,
        columns_total(rows, upto) == 0,
    ensures
        forall|k: int| 0 <= k < upto ==> #[trigger] column_sum(rows, k) == 0,
    decreases upto,
{
    if upto > 0 {
        lemma_columns_total_sign(rows, num, (upto - 1) as nat, true);
        lemma_nonneg_columns_zero(rows, num, (upto - 1) as nat);
    }
}

proof fn lemma_nonpos_columns_zero(rows: Seq<Seq<i64>>, num: nat, upto: nat)
    requires
        upto <= num,
        forall|k: int| 0 <= k < num ==> #[trigger] column_sum(rows, k) <= 0,
        columns_total(rows, upto) == 0,
    ensures
        forall|k: int| 0 <= k < upto ==> #[trigger] column_sum(rows, k) == 0,
    decreases upto,
{
    if upto > 0 {
        lemma_columns_total_sign(rows, num, (upto - 1) as nat, false);
        lemma_nonpos_columns_zero(rows, num, (upto - 1) as nat);
    }
}

proof fn lemma_columns_total_sign(rows: Seq<Seq<i64>>, num: nat, upto: nat, nonneg: bool)
    requires
        upto <= num,
        nonneg ==> forall|k: int| 0 <= k < num ==> #[trigger] column_sum(rows, k) >= 0,
        !nonneg ==> forall|k: int| 0 <= k < num ==> #[trigger] column_sum(rows, k) <= 0,
    ensures
        nonneg ==> columns_total(rows, upto) >= 0,
        !nonneg ==> columns_total(rows, upto) <= 0,
    decreases upto,
{
    if upto > 0 {
        lemma_columns_total_sign(rows, num, (upto - 1) as nat, nonneg);
        assert(column_sum(rows, upto - 1) >= 0 || !nonneg);
        assert(column_sum(rows, upto - 1) <= 0 || nonneg);
    }
}

} // verus!
